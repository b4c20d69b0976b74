//! The user's dashboard: the documents the server lists, split into those the
//! user owns and those the user is asked to evaluate.

use vstd::prelude::*;

verus! {

/// A document as listed by the server.
pub struct DocumentDto {
    pub id: i32,
    pub name: String,
    pub owner_id: i32,
    pub version: i32,
    pub aggregation_method: String,
    pub folder_id: Option<i32>,
}

/// A folder as listed by the server.
pub struct FolderDto {
    pub id: i32,
    pub name: String,
    pub owner_id: i32,
    pub parent_folder_id: Option<i32>,
}

/// The folders and documents the server lists.
pub struct TreeDto {
    pub folders: Vec<FolderDto>,
    pub documents: Vec<DocumentDto>,
}

/// The state of the dashboard.
pub struct UserDashboardState {
    pub is_open: bool,
    pub fetched_initial: bool,
    pub fetch_in_progress: bool,
    pub error_msg: Option<String>,
    pub documents: Vec<DocumentDto>,
}

impl Default for UserDashboardState {
    /// Open, nothing fetched yet, no error, no documents.
    fn default() -> (s: UserDashboardState)
        ensures
            s.is_open,
            !s.fetched_initial,
            !s.fetch_in_progress,
            s.error_msg is None,
            s.documents@.len() == 0,
    {
        UserDashboardState {
            is_open: true,
            fetched_initial: false,
            fetch_in_progress: false,
            error_msg: None,
            documents: Vec::new(),
        }
    }
}

/// The indices of the documents owned by `user` (`owned`) or not (`!owned`), in order.
pub open spec fn split_indices(docs: Seq<DocumentDto>, user: i32, owned: bool, k: int) -> Seq<usize>
    decreases k,
{
    if k <= 0 || k > docs.len() {
        Seq::empty()
    } else if (docs[k - 1].owner_id == user) == owned {
        split_indices(docs, user, owned, k - 1).push((k - 1) as usize)
    } else {
        split_indices(docs, user, owned, k - 1)
    }
}

impl UserDashboardState {
    /// Whether the dashboard should ask the server for the documents now.
    pub fn needs_fetch(&self) -> (r: bool)
        ensures
            r == (self.is_open && !self.fetched_initial && !self.fetch_in_progress && self.error_msg is None),
    {
        self.is_open && !self.fetched_initial && !self.fetch_in_progress && self.error_msg.is_none()
    }

    /// The request for the documents was sent.
    pub fn begin_fetch(&mut self)
        ensures
            final(self).fetch_in_progress,
            final(self).fetched_initial,
            final(self).is_open == old(self).is_open,
            final(self).error_msg == old(self).error_msg,
            final(self).documents == old(self).documents,
    {
        self.fetch_in_progress = true;
        self.fetched_initial = true;
    }

    /// The answer arrived: the documents, or the error to show.
    pub fn apply_fetch(&mut self, reply: Result<TreeDto, String>)
        ensures
            !final(self).fetch_in_progress,
            final(self).fetched_initial == old(self).fetched_initial,
            match reply {
                Ok(t) => final(self).documents == t.documents && final(self).error_msg is None,
                Err(e) => final(self).documents == old(self).documents && final(self).error_msg == Some(e),
            },
            *final(self) == (UserDashboardState {
                documents: final(self).documents,
                error_msg: final(self).error_msg,
                fetch_in_progress: false,
                ..*old(self)
            }),
    {
        self.fetch_in_progress = false;
        match reply {
            Ok(t) => {
                self.documents = t.documents;
                self.error_msg = None;
            },
            Err(e) => {
                self.error_msg = Some(e);
            },
        }
    }

    /// The refresh button was pressed: everything is fetched again.
    pub fn refresh(&mut self)
        ensures
            final(self).documents@.len() == 0,
            final(self).error_msg is None,
            !final(self).fetch_in_progress,
            !final(self).fetched_initial,
            final(self).is_open == old(self).is_open,
    {
        self.documents = Vec::new();
        self.error_msg = None;
        self.fetch_in_progress = false;
        self.fetched_initial = false;
    }

    /// The positions of the documents the user owns and of those the user is to
    /// evaluate (all others), each in list order; with nobody signed in the user
    /// counts as id 0.
    pub fn split_documents(&self, user: Option<i32>) -> (r: (Vec<usize>, Vec<usize>))
        ensures
            r.0@ == split_indices(self.documents@, match user { Some(u) => u, None => 0 }, true, self.documents@.len() as int),
            r.1@ == split_indices(self.documents@, match user { Some(u) => u, None => 0 }, false, self.documents@.len() as int),
    {
        let uid: i32 = match user {
            Some(u) => u,
            None => 0,
        };
        let mut mine: Vec<usize> = Vec::new();
        let mut others: Vec<usize> = Vec::new();
        let mut i: usize = 0;
        while i < self.documents.len()
            invariant
                i <= self.documents@.len(),
                mine@ == split_indices(self.documents@, uid, true, i as int),
                others@ == split_indices(self.documents@, uid, false, i as int),
            decreases self.documents@.len() - i,
        {
            if self.documents[i].owner_id == uid {
                mine.push(i);
            } else {
                others.push(i);
            }
            i += 1;
        }
        (mine, others)
    }
}

/// Whether a document with id `id` is already open, given the ids of the open ones.
pub fn already_open(open_ids: &Vec<i32>, id: i32) -> (r: bool)
    ensures
        r == open_ids@.contains(id),
{
    let mut i: usize = 0;
    while i < open_ids.len()
        invariant
            i <= open_ids@.len(),
            forall|k: int| 0 <= k < i ==> open_ids@[k] != id,
        decreases open_ids@.len() - i,
    {
        if open_ids[i] == id {
            assert(open_ids@[i as int] == id);
            return true;
        }
        i += 1;
    }
    false
}

} // verus!
