//! The desktop client as a whole: which panels it shows, the document windows
//! it keeps open, and what closing or copying a document does to them.

use vstd::prelude::*;
use crate::config::client::AppConfig;
use crate::dashboard::UserDashboardState;
use crate::document::{DocumentModel, DocumentState};
use crate::explorer::{Directory, ENode, ExplorerState, File, Node, lemma_children_model};
use crate::groups::AdminState;
use crate::session::AuthState;

verus! {

broadcast use vstd::string::group_string_axioms;

/// The whole client. `C` is the type of a cost and `V` that of a Saaty value.
pub struct RsahpApp<C, V> {
    pub show_task_list: bool,
    pub open_documents: Vec<DocumentState<C, V>>,
    pub explorer_state: ExplorerState,
    pub auth_state: AuthState,
    pub admin_state: AdminState,
    pub user_dashboard_state: UserDashboardState,
    pub config: AppConfig,
}

/// The documents address used when the settings give none.
pub open spec fn default_api_url() -> Seq<char> {
    "http://127.0.0.1:4002/api/documents"@
}

/// The address the administration panel uses when the settings give none.
pub open spec fn default_admin_url() -> Seq<char> {
    "http://localhost:8000/api"@
}

/// The documents in `docs` whose positions are not in `closed`, in order.
pub open spec fn without_positions<T>(docs: Seq<T>, closed: Set<int>) -> Seq<T>
    decreases docs.len(),
{
    if docs.len() == 0 {
        Seq::empty()
    } else {
        let before = without_positions(docs.drop_last(), closed);
        if closed.contains(docs.len() - 1) { before } else { before.push(docs.last()) }
    }
}

proof fn lemma_without_positions_remove<T>(docs: Seq<T>, closed: Set<int>, i: int)
    requires
        0 <= i < docs.len(),
        forall|k: int| closed.contains(k) ==> k < i,
    ensures
        without_positions(docs.remove(i), closed) == without_positions(docs, closed.insert(i)),
    decreases docs.len(),
{
    if i < docs.len() - 1 {
        lemma_without_positions_remove(docs.drop_last(), closed, i);
        assert(docs.remove(i).drop_last() =~= docs.drop_last().remove(i));
        assert(docs.remove(i).last() == docs.last());
    } else {
        assert(docs.remove(i) =~= docs.drop_last());
        lemma_without_positions_frame(docs.drop_last(), closed, closed.insert(i));
    }
}

proof fn lemma_without_positions_frame<T>(docs: Seq<T>, a: Set<int>, b: Set<int>)
    requires
        forall|k: int| 0 <= k < docs.len() ==> (a.contains(k) == b.contains(k)),
    ensures
        without_positions(docs, a) == without_positions(docs, b),
    decreases docs.len(),
{
    if docs.len() > 0 {
        lemma_without_positions_frame(docs.drop_last(), a, b);
    }
}

impl<C, V> RsahpApp<C, V> {
    /// A client with the given settings: nobody signed in, no documents open,
    /// every panel in its initial state.
    pub fn new(config: AppConfig) -> (app: RsahpApp<C, V>)
        ensures
            !app.show_task_list,
            app.open_documents@.len() == 0,
            app.explorer_state.tree@ == (ENode::Dir { id: 0, name: "My AHP Documents"@, children: Seq::empty() }),
            app.explorer_state.next_id == 3,
            app.explorer_state.modal_state is None,
            !app.explorer_state.fetched_initial,
            app.auth_state.jwt_token is None,
            app.auth_state.logged_in_user_id is None,
            !app.auth_state.is_admin,
            !app.auth_state.is_registering,
            !app.auth_state.auth_request_in_progress,
            app.auth_state.error_msg is None,
            !app.admin_state.is_open,
            app.admin_state.users@.len() == 0,
            app.admin_state.groups@.len() == 0,
            app.user_dashboard_state.is_open,
            !app.user_dashboard_state.fetched_initial,
            app.user_dashboard_state.documents@.len() == 0,
            app.config == config,
    {
        RsahpApp {
            show_task_list: false,
            open_documents: Vec::new(),
            explorer_state: ExplorerState::default(),
            auth_state: AuthState::default(),
            admin_state: AdminState::default(),
            user_dashboard_state: UserDashboardState::default(),
            config,
        }
    }

    /// The documents address: the configured one, else the local default.
    pub fn api_url(&self) -> (r: String)
        ensures
            r@ == match self.config.api_url {
                Some(u) => u@,
                None => default_api_url(),
            },
    {
        match &self.config.api_url {
            Some(u) => u.clone(),
            None => "http://127.0.0.1:4002/api/documents".to_owned(),
        }
    }

    /// The address the administration panel uses: the configured one, else its default.
    pub fn admin_api_url(&self) -> (r: String)
        ensures
            r@ == match self.config.api_url {
                Some(u) => u@,
                None => default_admin_url(),
            },
    {
        match &self.config.api_url {
            Some(u) => u.clone(),
            None => "http://localhost:8000/api".to_owned(),
        }
    }

    /// Whether anything beyond the sign-in dialog is shown: only once signed in.
    pub fn shows_workspace(&self) -> (r: bool)
        ensures
            r == (self.auth_state.jwt_token is Some),
    {
        self.auth_state.jwt_token.is_some()
    }

    /// Chooses the main panel for this frame: an administrator gets the
    /// administration panel (opened), anybody else the dashboard. Tells
    /// whether it is the administration panel.
    pub fn select_panel(&mut self) -> (admin: bool)
        ensures
            admin == old(self).auth_state.is_admin,
            admin ==> final(self).admin_state.is_open,
            !admin ==> final(self).admin_state.is_open == old(self).admin_state.is_open,
            *final(self) == (RsahpApp {
                admin_state: (AdminState { is_open: final(self).admin_state.is_open, ..old(self).admin_state }),
                ..*old(self)
            }),
    {
        if self.auth_state.is_admin {
            self.admin_state.is_open = true;
            true
        } else {
            false
        }
    }

    /// Closes the windows at the given positions (increasing, each once).
    pub fn close_documents(&mut self, closed: &Vec<usize>)
        requires
            forall|i: int, j: int| 0 <= i < j < closed@.len() ==> closed@[i] < closed@[j],
            forall|i: int| 0 <= i < closed@.len() ==> closed@[i] < old(self).open_documents@.len(),
        ensures
            final(self).open_documents@ == without_positions(
                old(self).open_documents@,
                closed@.map_values(|x: usize| x as int).to_set(),
            ),
            *final(self) == (RsahpApp { open_documents: final(self).open_documents, ..*old(self) }),
    {
        let ghost all = closed@.map_values(|x: usize| x as int).to_set();
        let mut k: usize = closed.len();
        proof {
            assert(closed@.take(k as int) =~= closed@);
        }
        while k > 0
            invariant
                k <= closed@.len(),
                all == closed@.map_values(|x: usize| x as int).to_set(),
                forall|i: int, j: int| 0 <= i < j < closed@.len() ==> closed@[i] < closed@[j],
                forall|i: int| 0 <= i < closed@.len() ==> closed@[i] < old(self).open_documents@.len(),
                forall|i: int| 0 <= i < k ==> closed@[i] < self.open_documents@.len(),
                *self == (RsahpApp { open_documents: self.open_documents, ..*old(self) }),
                without_positions(self.open_documents@, closed@.take(k as int).map_values(|x: usize| x as int).to_set())
                    == without_positions(old(self).open_documents@, all),
            decreases k,
        {
            let idx = closed[k - 1];
            let ghost rest = closed@.take(k - 1).map_values(|x: usize| x as int).to_set();
            let ghost before = self.open_documents@;
            proof {
                assert(closed@.take(k as int).map_values(|x: usize| x as int).to_set() =~= rest.insert(idx as int)) by {
                    assert forall|z: int| closed@.take(k as int).map_values(|x: usize| x as int).to_set().contains(z)
                        <==> rest.insert(idx as int).contains(z) by {
                        let t = closed@.take(k as int).map_values(|x: usize| x as int);
                        let r = closed@.take(k - 1).map_values(|x: usize| x as int);
                        if t.contains(z) {
                            let j = choose|j: int| 0 <= j < t.len() && t[j] == z;
                            if j < k - 1 {
                                assert(r[j] == z);
                            }
                        }
                        if r.contains(z) {
                            let j = choose|j: int| 0 <= j < r.len() && r[j] == z;
                            assert(t[j] == z);
                        }
                        if z == idx as int {
                            assert(t[k - 1] == z);
                        }
                    }
                }
                assert forall|z: int| rest.contains(z) implies z < idx as int by {
                    let r = closed@.take(k - 1).map_values(|x: usize| x as int);
                    let j = choose|j: int| 0 <= j < r.len() && r[j] == z;
                    assert(closed@[j] < closed@[k - 1]);
                }
                lemma_without_positions_remove(before, rest, idx as int);
            }
            self.open_documents.remove(idx);
            proof {
                assert(self.open_documents@ == before.remove(idx as int));
                assert forall|i: int| 0 <= i < k - 1 implies closed@[i] < self.open_documents@.len() by {
                    assert(closed@[i] < closed@[k - 1]);
                }
            }
            k -= 1;
        }
        proof {
            assert(closed@.take(0).map_values(|x: usize| x as int).to_set() =~= Set::<int>::empty());
            lemma_without_positions_empty(self.open_documents@);
        }
    }

    /// The copy of the document in window `index` arrived: a file for it is added
    /// at the top of the explorer with the next id, and the window shows the copy.
    pub fn apply_duplicate(&mut self, index: usize, copy: &DocumentModel)
        requires
            index < old(self).open_documents@.len(),
            old(self).explorer_state.next_id < usize::MAX,
        ensures
            final(self).open_documents@.len() == old(self).open_documents@.len(),
            final(self).open_documents@[index as int].id == copy.id,
            final(self).open_documents@[index as int].title@ == copy.name@,
            final(self).open_documents@[index as int].version == copy.version,
            forall|i: int| 0 <= i < old(self).open_documents@.len() && i != index ==> final(self).open_documents@[i] == old(self).open_documents@[i],
            match old(self).explorer_state.tree@ {
                ENode::Dir { id, name, children } => final(self).explorer_state.tree@ == (ENode::Dir {
                    id,
                    name,
                    children: children.push(ENode::Leaf {
                        id: old(self).explorer_state.next_id,
                        name: copy.name@,
                        document_id: Some(copy.id as usize),
                    }),
                }) && final(self).explorer_state.next_id == old(self).explorer_state.next_id + 1,
                ENode::Leaf { .. } => final(self).explorer_state.tree@ == old(self).explorer_state.tree@
                    && final(self).explorer_state.next_id == old(self).explorer_state.next_id,
            },
            final(self).open_documents@[index as int] == (DocumentState {
                id: copy.id,
                title: final(self).open_documents@[index as int].title,
                version: copy.version,
                save_status: final(self).open_documents@[index as int].save_status,
                duplicate_pending: false,
                ..old(self).open_documents@[index as int]
            }),
            *final(self) == (RsahpApp {
                open_documents: final(self).open_documents,
                explorer_state: (ExplorerState {
                    tree: final(self).explorer_state.tree,
                    next_id: final(self).explorer_state.next_id,
                    ..old(self).explorer_state
                }),
                ..*old(self)
            }),
    {
        let next = self.explorer_state.next_id;
        match &mut self.explorer_state.tree {
            Node::Directory(dir) => {
                proof {
                    lemma_children_model(dir);
                }
                dir.children.push(Node::File(File { id: next, name: copy.name.clone(), document_id: Some(copy.id as usize) }));
                proof {
                    lemma_children_model(dir);
                    assert(dir@.kids() =~= old(self).explorer_state.tree@.kids().push(ENode::Leaf {
                        id: next,
                        name: copy.name@,
                        document_id: Some(copy.id as usize),
                    }));
                }
                self.explorer_state.next_id = next + 1;
            },
            Node::File(_) => {},
        }
        let mut doc = self.open_documents.remove(index);
        doc.apply_duplicate(copy);
        self.open_documents.insert(index, doc);
    }

    /// The task list's survey was chosen: its document opens and the list hides.
    pub fn open_task(&mut self)
        ensures
            final(self).open_documents@.len() == old(self).open_documents@.len() + 1,
            final(self).open_documents@.last().id == 101,
            final(self).open_documents@.last().title@ == "Vendor Selection Survey"@,
            !final(self).show_task_list,
            forall|i: int| 0 <= i < old(self).open_documents@.len() ==> final(self).open_documents@[i] == old(self).open_documents@[i],
            *final(self) == (RsahpApp { open_documents: final(self).open_documents, show_task_list: false, ..*old(self) }),
    {
        self.open_documents.push(DocumentState::new(101, "Vendor Selection Survey"));
        self.show_task_list = false;
    }

    /// Opens document `id` called `name`, unless a window for it is already open.
    pub fn open_document(&mut self, id: i32, name: &str)
        ensures
            (exists|i: int| 0 <= i < old(self).open_documents@.len() && #[trigger] old(self).open_documents@[i].id == id)
                ==> final(self).open_documents@ == old(self).open_documents@,
            !(exists|i: int| 0 <= i < old(self).open_documents@.len() && #[trigger] old(self).open_documents@[i].id == id)
                ==> final(self).open_documents@.len() == old(self).open_documents@.len() + 1
                    && final(self).open_documents@.last().id == id
                    && final(self).open_documents@.last().title@ == name@
                    && final(self).open_documents@.drop_last() == old(self).open_documents@,
            *final(self) == (RsahpApp { open_documents: final(self).open_documents, ..*old(self) }),
    {
        let mut i: usize = 0;
        while i < self.open_documents.len()
            invariant
                i <= self.open_documents@.len(),
                self.open_documents@ == old(self).open_documents@,
                forall|k: int| 0 <= k < i ==> self.open_documents@[k].id != id,
            decreases self.open_documents@.len() - i,
        {
            if self.open_documents[i].id == id {
                proof {
                    assert(self.open_documents@[i as int].id == id);
                }
                return;
            }
            i += 1;
        }
        self.open_documents.push(DocumentState::new(id, name));
        proof {
            assert(self.open_documents@.drop_last() =~= old(self).open_documents@);
        }
    }
}

proof fn lemma_without_positions_empty<T>(docs: Seq<T>)
    ensures
        without_positions(docs, Set::empty()) == docs,
    decreases docs.len(),
{
    if docs.len() > 0 {
        lemma_without_positions_empty(docs.drop_last());
        assert(docs.drop_last().push(docs.last()) =~= docs);
    }
}

} // verus!
