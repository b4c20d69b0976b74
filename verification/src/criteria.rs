//! The criteria hierarchy of an AHP document: a tree of criteria and
//! candidates under the document's goal, edited by id.

use vstd::prelude::*;

verus! {

/// Where a new node goes among the children of its parent.
#[derive(Clone, Copy, Debug)]
pub enum DirPosition {
    First,
    Last,
    Before(usize),
    After(usize),
}

/// A node of the criteria hierarchy. `C` is the type of a candidate's cost.
pub struct CriteriaNode<C> {
    pub id: usize,
    pub name: String,
    pub cost: Option<C>,
    pub node_type: String,
    pub children: Vec<CriteriaNode<C>>,
}

/// The mathematical value of a criteria node.
pub struct CNode<C> {
    pub id: usize,
    pub name: Seq<char>,
    pub cost: Option<C>,
    pub node_type: Seq<char>,
    pub children: Seq<CNode<C>>,
}

impl<C> CriteriaNode<C> {
    /// The value of this node and of its whole subtree.
    pub open spec fn model(&self) -> CNode<C>
        decreases self, 1int,
    {
        CNode {
            id: self.id,
            name: self.name@,
            cost: self.cost,
            node_type: self.node_type@,
            children: self.children_model(self.children@.len() as int),
        }
    }

    /// The values of the first `k` children.
    pub open spec fn children_model(&self, k: int) -> Seq<CNode<C>>
        decreases self, 0int, k,
    {
        if k <= 0 || k > self.children@.len() {
            Seq::empty()
        } else {
            proof {
                assert(decreases_to!(self => self.children));
                assert(decreases_to!(self.children => self.children@));
                assert(decreases_to!(self.children@ => self.children@[k - 1]));
            }
            self.children_model(k - 1).push(self.children@[k - 1].model())
        }
    }
}

impl<C> View for CriteriaNode<C> {
    type V = CNode<C>;

    open spec fn view(&self) -> CNode<C> {
        self.model()
    }
}


/// The model of the children of `n`, one by one.
pub proof fn lemma_children_model<C>(n: &CriteriaNode<C>)
    ensures
        n@.children.len() == n.children@.len(),
        forall|i: int| 0 <= i < n.children@.len() ==> #[trigger] n@.children[i] == n.children@[i]@,
{
    lemma_children_model_upto(n, n.children@.len() as int);
}

proof fn lemma_children_model_upto<C>(n: &CriteriaNode<C>, k: int)
    requires
        0 <= k <= n.children@.len(),
    ensures
        n.children_model(k).len() == k,
        forall|i: int| 0 <= i < k ==> #[trigger] n.children_model(k)[i] == n.children@[i]@,
    decreases k,
{
    if k > 0 {
        lemma_children_model_upto(n, k - 1);
    }
}

/// Index of the first node of `cs`, at `j` or later, whose id is `id`.
pub open spec fn index_from<C>(cs: Seq<CNode<C>>, id: usize, j: int) -> Option<int>
    decreases cs.len() - j,
{
    if j < 0 || j >= cs.len() {
        None
    } else if cs[j].id == id {
        Some(j)
    } else {
        index_from(cs, id, j + 1)
    }
}

/// Index of the first node of `cs` whose id is `id`.
pub open spec fn first_index<C>(cs: Seq<CNode<C>>, id: usize) -> Option<int> {
    index_from(cs, id, 0)
}

/// The first node with id `id` in a pre-order walk of `n` (the node itself,
/// then each child's subtree in turn).
pub open spec fn find_model<C>(n: CNode<C>, id: usize) -> Option<CNode<C>>
    decreases n, n.children.len() + 1,
{
    if n.id == id {
        Some(n)
    } else {
        find_in(n, id, 0)
    }
}

/// The first node with id `id` in the subtrees of the children of `n` from the `j`-th on.
pub open spec fn find_in<C>(n: CNode<C>, id: usize, j: int) -> Option<CNode<C>>
    decreases n, n.children.len() - j,
{
    if j < 0 || j >= n.children.len() {
        None
    } else {
        match find_model(n.children[j], id) {
            Some(x) => Some(x),
            None => find_in(n, id, j + 1),
        }
    }
}

impl<C> CriteriaNode<C> {
    /// Finds the first node with the given id, looking at a node before its
    /// children and at the children in order.
    pub fn find(&self, id: usize) -> (r: Option<&CriteriaNode<C>>)
        ensures
            r matches Some(x) ==> find_model(self@, id) == Some(x@),
            r is None ==> find_model(self@, id) is None,
        decreases self@,
    {
        if self.id == id {
            return Some(self);
        }
        proof { lemma_children_model(self); }
        let n = self.children.len();
        let mut j: usize = 0;
        while j < n
            invariant
                n == self.children@.len(),
                self.id != id,
                j <= n,
                find_model(self@, id) == find_in(self@, id, j as int),
                forall|i: int| 0 <= i < n ==> #[trigger] self@.children[i] == self.children@[i]@,
                self@.children.len() == n,
            decreases n - j,
        {
            let child = &self.children[j];
            let r = child.find(id);
            if r.is_some() {
                return r;
            }
            j += 1;
        }
        None
    }
}


/// A change to the fields of one node.
pub enum Edit<C> {
    Name(Seq<char>),
    Cost(Option<C>),
}

/// `m` with the edit applied.
pub open spec fn apply_edit<C>(m: CNode<C>, e: Edit<C>) -> CNode<C> {
    match e {
        Edit::Name(s) => CNode { name: s, ..m },
        Edit::Cost(c) => CNode { cost: c, ..m },
    }
}

/// Applies `e` to the first node with id `id` in pre-order; the flag tells
/// whether such a node was found.
pub open spec fn edit_model<C>(n: CNode<C>, id: usize, e: Edit<C>) -> (CNode<C>, bool)
    decreases n, n.children.len() + 1,
{
    if n.id == id {
        (apply_edit(n, e), true)
    } else {
        edit_in(n, id, e, 0)
    }
}

/// `edit_model` over the subtrees of the children of `n` from the `j`-th on.
pub open spec fn edit_in<C>(n: CNode<C>, id: usize, e: Edit<C>, j: int) -> (CNode<C>, bool)
    decreases n, n.children.len() - j,
{
    if j < 0 || j >= n.children.len() {
        (n, false)
    } else {
        let (c, found) = edit_model(n.children[j], id, e);
        if found {
            (CNode { children: n.children.update(j, c), ..n }, true)
        } else {
            edit_in(n, id, e, j + 1)
        }
    }
}

/// An edit that finds nothing leaves the tree as it was.
pub proof fn lemma_edit_not_found<C>(n: CNode<C>, id: usize, e: Edit<C>)
    ensures
        !edit_model(n, id, e).1 ==> edit_model(n, id, e).0 == n,
        edit_model(n, id, e).1 == (find_model(n, id) is Some),
    decreases n, n.children.len() + 1,
{
    if n.id != id {
        lemma_edit_in_not_found(n, id, e, 0);
    }
}

proof fn lemma_edit_in_not_found<C>(n: CNode<C>, id: usize, e: Edit<C>, j: int)
    requires
        0 <= j,
    ensures
        !edit_in(n, id, e, j).1 ==> edit_in(n, id, e, j).0 == n,
        edit_in(n, id, e, j).1 == (find_in(n, id, j) is Some),
    decreases n, n.children.len() - j,
{
    if j < n.children.len() {
        lemma_edit_not_found(n.children[j], id, e);
        lemma_edit_in_not_found(n, id, e, j + 1);
    }
}

impl<C> CriteriaNode<C> {
    /// Renames the first node (in pre-order) with the given id; tells whether one was found.
    pub fn rename(&mut self, id: usize, new_name: String) -> (found: bool)
        ensures
            (final(self)@, found) == edit_model(old(self)@, id, Edit::Name(new_name@)),
        decreases old(self)@,
    {
        let ghost e = Edit::<C>::Name(new_name@);
        if self.id == id {
            self.name = new_name;
            proof {
                lemma_children_model(self);
                lemma_children_model(old(self));
                assert(final(self)@.children =~= old(self)@.children);
            }
            return true;
        }
        proof { lemma_children_model(self); }
        let n = self.children.len();
        let mut j: usize = 0;
        while j < n
            invariant
                n == self.children@.len(),
                self.id == old(self).id,
                self.id != id,
                j <= n,
                self@ == old(self)@,
                e == Edit::<C>::Name(new_name@),
                edit_model(old(self)@, id, e) == edit_in(old(self)@, id, e, j as int),
                forall|i: int| 0 <= i < n ==> #[trigger] self@.children[i] == self.children@[i]@,
                self@.children.len() == n,
            decreases n - j,
        {
            let ghost pre_children = self.children@;
            assert(forall|i: int| 0 <= i < n ==> #[trigger] pre_children[i]@ == old(self)@.children[i]);
            let mut child = self.children.remove(j);
            let ghost before = child@;
            assert(before == pre_children[j as int]@);
            assert(before == old(self)@.children[j as int]);
            let found = child.rename(id, new_name.clone());
            let ghost after = child@;
            self.children.insert(j, child);
            proof {
                lemma_children_model(self);
                lemma_edit_not_found(before, id, e);
                assert forall|i: int| 0 <= i < n && i != j implies #[trigger] self.children@[i]@
                    == old(self)@.children[i] by {
                    assert(self.children@[i] == pre_children[i]);
                }
            }
            if found {
                proof {
                    assert(self@.children =~= old(self)@.children.update(j as int, after));
                }
                return true;
            }
            proof {
                assert(self@.children =~= old(self)@.children);
            }
            j += 1;
        }
        false
    }

    /// Sets the cost of the first node (in pre-order) with the given id; tells whether one was found.
    pub fn set_cost(&mut self, id: usize, new_cost: Option<C>) -> (found: bool)
        where C: Copy
        ensures
            (final(self)@, found) == edit_model(old(self)@, id, Edit::Cost(new_cost)),
        decreases old(self)@,
    {
        let ghost e = Edit::<C>::Cost(new_cost);
        if self.id == id {
            self.cost = new_cost;
            proof {
                lemma_children_model(self);
                lemma_children_model(old(self));
                assert(final(self)@.children =~= old(self)@.children);
            }
            return true;
        }
        proof { lemma_children_model(self); }
        let n = self.children.len();
        let mut j: usize = 0;
        while j < n
            invariant
                n == self.children@.len(),
                self.id == old(self).id,
                self.id != id,
                j <= n,
                self@ == old(self)@,
                e == Edit::<C>::Cost(new_cost),
                edit_model(old(self)@, id, e) == edit_in(old(self)@, id, e, j as int),
                forall|i: int| 0 <= i < n ==> #[trigger] self@.children[i] == self.children@[i]@,
                self@.children.len() == n,
            decreases n - j,
        {
            let ghost pre_children = self.children@;
            assert(forall|i: int| 0 <= i < n ==> #[trigger] pre_children[i]@ == old(self)@.children[i]);
            let mut child = self.children.remove(j);
            let ghost before = child@;
            assert(before == pre_children[j as int]@);
            assert(before == old(self)@.children[j as int]);
            let found = child.set_cost(id, new_cost);
            let ghost after = child@;
            self.children.insert(j, child);
            proof {
                lemma_children_model(self);
                lemma_edit_not_found(before, id, e);
                assert forall|i: int| 0 <= i < n && i != j implies #[trigger] self.children@[i]@
                    == old(self)@.children[i] by {
                    assert(self.children@[i] == pre_children[i]);
                }
            }
            if found {
                proof {
                    assert(self@.children =~= old(self)@.children.update(j as int, after));
                }
                return true;
            }
            proof {
                assert(self@.children =~= old(self)@.children);
            }
            j += 1;
        }
        false
    }
}


/// Removes the first child of `n` with id `id` if there is one; otherwise
/// removes, from the first child subtree that has one, its node with that id.
/// The removed subtree comes back with the new tree.
pub open spec fn remove_model<C>(n: CNode<C>, id: usize) -> (CNode<C>, Option<CNode<C>>)
    decreases n, n.children.len() + 1,
{
    match first_index(n.children, id) {
        Some(i) => (CNode { children: n.children.remove(i), ..n }, Some(n.children[i])),
        None => remove_in(n, id, 0),
    }
}

/// `remove_model` over the subtrees of the children of `n` from the `j`-th on.
pub open spec fn remove_in<C>(n: CNode<C>, id: usize, j: int) -> (CNode<C>, Option<CNode<C>>)
    decreases n, n.children.len() - j,
{
    if j < 0 || j >= n.children.len() {
        (n, None)
    } else {
        let (c, r) = remove_model(n.children[j], id);
        if r is Some {
            (CNode { children: n.children.update(j, c), ..n }, r)
        } else {
            remove_in(n, id, j + 1)
        }
    }
}

/// `n` with `v` placed among its children as `pos` says. A `Before` or
/// `After` whose sibling is not a child of `n` places nothing.
pub open spec fn place<C>(n: CNode<C>, pos: DirPosition, v: CNode<C>) -> CNode<C> {
    match pos {
        DirPosition::First => CNode { children: n.children.insert(0, v), ..n },
        DirPosition::Last => CNode { children: n.children.push(v), ..n },
        DirPosition::After(a) => match first_index(n.children, a) {
            Some(i) => CNode { children: n.children.insert(i + 1, v), ..n },
            None => n,
        },
        DirPosition::Before(b) => match first_index(n.children, b) {
            Some(i) => CNode { children: n.children.insert(i, v), ..n },
            None => n,
        },
    }
}

/// Places `v` under the first node (in pre-order) whose id is `parent`; the
/// flag tells whether such a node was found.
pub open spec fn insert_model<C>(n: CNode<C>, parent: usize, pos: DirPosition, v: CNode<C>) -> (CNode<C>, bool)
    decreases n, n.children.len() + 1,
{
    if n.id == parent {
        (place(n, pos, v), true)
    } else {
        insert_in(n, parent, pos, v, 0)
    }
}

/// `insert_model` over the subtrees of the children of `n` from the `j`-th on.
pub open spec fn insert_in<C>(n: CNode<C>, parent: usize, pos: DirPosition, v: CNode<C>, j: int) -> (CNode<C>, bool)
    decreases n, n.children.len() - j,
{
    if j < 0 || j >= n.children.len() {
        (n, false)
    } else {
        let (c, ok) = insert_model(n.children[j], parent, pos, v);
        if ok {
            (CNode { children: n.children.update(j, c), ..n }, true)
        } else {
            insert_in(n, parent, pos, v, j + 1)
        }
    }
}

/// A removal that finds nothing leaves the tree as it was.
pub proof fn lemma_remove_not_found<C>(n: CNode<C>, id: usize)
    ensures
        remove_model(n, id).1 is None ==> remove_model(n, id).0 == n,
    decreases n, n.children.len() + 1,
{
    if first_index(n.children, id) is None {
        lemma_remove_in_not_found(n, id, 0);
    }
}

proof fn lemma_remove_in_not_found<C>(n: CNode<C>, id: usize, j: int)
    requires
        0 <= j,
    ensures
        remove_in(n, id, j).1 is None ==> remove_in(n, id, j).0 == n,
    decreases n, n.children.len() - j,
{
    if j < n.children.len() {
        lemma_remove_not_found(n.children[j], id);
        lemma_remove_in_not_found(n, id, j + 1);
    }
}

/// An insertion that finds no parent leaves the tree as it was.
pub proof fn lemma_insert_not_found<C>(n: CNode<C>, parent: usize, pos: DirPosition, v: CNode<C>)
    ensures
        !insert_model(n, parent, pos, v).1 ==> insert_model(n, parent, pos, v).0 == n,
        insert_model(n, parent, pos, v).1 == (find_model(n, parent) is Some),
    decreases n, n.children.len() + 1,
{
    if n.id != parent {
        lemma_insert_in_not_found(n, parent, pos, v, 0);
    }
}

proof fn lemma_insert_in_not_found<C>(n: CNode<C>, parent: usize, pos: DirPosition, v: CNode<C>, j: int)
    requires
        0 <= j,
    ensures
        !insert_in(n, parent, pos, v, j).1 ==> insert_in(n, parent, pos, v, j).0 == n,
        insert_in(n, parent, pos, v, j).1 == (find_in(n, parent, j) is Some),
    decreases n, n.children.len() - j,
{
    if j < n.children.len() {
        lemma_insert_not_found(n.children[j], parent, pos, v);
        lemma_insert_in_not_found(n, parent, pos, v, j + 1);
    }
}

/// Index of the first of `nodes` with the given id.
fn position_of<C>(nodes: &Vec<CriteriaNode<C>>, id: usize) -> (r: Option<usize>)
    ensures
        r matches Some(i) ==> i < nodes.len() && first_index(
            Seq::new(nodes@.len(), |k: int| nodes@[k]@),
            id,
        ) == Some(i as int),
        r is None ==> first_index(Seq::new(nodes@.len(), |k: int| nodes@[k]@), id) is None,
{
    let ghost ms = Seq::new(nodes@.len(), |k: int| nodes@[k]@);
    let mut i: usize = 0;
    while i < nodes.len()
        invariant
            i <= nodes@.len(),
            ms == Seq::new(nodes@.len(), |k: int| nodes@[k]@),
            first_index(ms, id) == index_from(ms, id, i as int),
        decreases nodes@.len() - i,
    {
        if nodes[i].id == id {
            return Some(i);
        }
        i += 1;
    }
    None
}

impl<C> CriteriaNode<C> {
    /// Removes the first child with the given id, or else the node with that id
    /// from the first child subtree holding one, and hands the removed subtree back.
    /// This node itself is never removed.
    pub fn remove(&mut self, id: usize) -> (r: Option<CriteriaNode<C>>)
        ensures
            final(self)@ == remove_model(old(self)@, id).0,
            r matches Some(x) ==> remove_model(old(self)@, id).1 == Some(x@),
            r is None ==> remove_model(old(self)@, id).1 is None,
        decreases old(self)@,
    {
        proof {
            lemma_children_model(self);
            assert(self@.children =~= Seq::new(self.children@.len(), |k: int| self.children@[k]@));
        }
        if let Some(index) = position_of(&self.children, id) {
            let removed = self.children.remove(index);
            proof {
                lemma_children_model(self);
                assert(self@.children =~= old(self)@.children.remove(index as int));
            }
            return Some(removed);
        }
        let n = self.children.len();
        let mut j: usize = 0;
        while j < n
            invariant
                n == self.children@.len(),
                first_index(old(self)@.children, id) is None,
                j <= n,
                self@ == old(self)@,
                remove_model(old(self)@, id) == remove_in(old(self)@, id, j as int),
                forall|i: int| 0 <= i < n ==> #[trigger] self@.children[i] == self.children@[i]@,
                self@.children.len() == n,
            decreases n - j,
        {
            let ghost pre_children = self.children@;
            assert(forall|i: int| 0 <= i < n ==> #[trigger] pre_children[i]@ == old(self)@.children[i]);
            let mut child = self.children.remove(j);
            let ghost before = child@;
            assert(before == pre_children[j as int]@);
            let r = child.remove(id);
            let ghost after = child@;
            self.children.insert(j, child);
            proof {
                lemma_children_model(self);
                lemma_remove_not_found(before, id);
                assert forall|i: int| 0 <= i < n && i != j implies #[trigger] self.children@[i]@
                    == old(self)@.children[i] by {
                    assert(self.children@[i] == pre_children[i]);
                }
            }
            if r.is_some() {
                proof {
                    assert(self@.children =~= old(self)@.children.update(j as int, after));
                }
                return r;
            }
            proof {
                assert(self@.children =~= old(self)@.children);
            }
            j += 1;
        }
        None
    }

    /// Places `value` among the children of the first node (in pre-order) whose id
    /// is `parent_id`. Hands `value` back when there is no such node. A `Before` or
    /// `After` whose sibling is not a child of that node drops `value`.
    pub fn insert(&mut self, parent_id: usize, position: DirPosition, value: CriteriaNode<C>) -> (r: Result<(), CriteriaNode<C>>)
        ensures
            final(self)@ == insert_model(old(self)@, parent_id, position, value@).0,
            (r is Ok) == insert_model(old(self)@, parent_id, position, value@).1,
            r matches Err(v) ==> v == value,
        decreases old(self)@,
    {
        let ghost v0 = value;
        if self.id == parent_id {
            proof {
                lemma_children_model(self);
                assert(self@.children =~= Seq::new(self.children@.len(), |k: int| self.children@[k]@));
            }
            match position {
                DirPosition::First => {
                    self.children.insert(0, value);
                    proof {
                        lemma_children_model(self);
                        assert(self@.children =~= old(self)@.children.insert(0, v0@));
                    }
                },
                DirPosition::Last => {
                    self.children.push(value);
                    proof {
                        lemma_children_model(self);
                        assert(self@.children =~= old(self)@.children.push(v0@));
                    }
                },
                DirPosition::After(after_id) => {
                    if let Some(index) = position_of(&self.children, after_id) {
                        self.children.insert(index + 1, value);
                        proof {
                            lemma_children_model(self);
                            assert(self@.children =~= old(self)@.children.insert(index + 1, v0@));
                        }
                    }
                },
                DirPosition::Before(before_id) => {
                    if let Some(index) = position_of(&self.children, before_id) {
                        self.children.insert(index, value);
                        proof {
                            lemma_children_model(self);
                            assert(self@.children =~= old(self)@.children.insert(index as int, v0@));
                        }
                    }
                },
            }
            return Ok(());
        }
        proof { lemma_children_model(self); }
        let mut pending = value;
        let n = self.children.len();
        let mut j: usize = 0;
        while j < n
            invariant
                n == self.children@.len(),
                self.id == old(self).id,
                self.id != parent_id,
                j <= n,
                pending == v0,
                v0 == value,
                self@ == old(self)@,
                insert_model(old(self)@, parent_id, position, v0@) == insert_in(old(self)@, parent_id, position, v0@, j as int),
                forall|i: int| 0 <= i < n ==> #[trigger] self@.children[i] == self.children@[i]@,
                self@.children.len() == n,
            decreases n - j,
        {
            let ghost pre_children = self.children@;
            assert(forall|i: int| 0 <= i < n ==> #[trigger] pre_children[i]@ == old(self)@.children[i]);
            let mut child = self.children.remove(j);
            let ghost before = child@;
            assert(before == pre_children[j as int]@);
            assert(before == old(self)@.children[j as int]);
            let r = child.insert(parent_id, position, pending);
            let ghost after = child@;
            assert(insert_in(old(self)@, parent_id, position, v0@, j as int) == {
                let (c, ok) = insert_model(before, parent_id, position, v0@);
                if ok {
                    (CNode { children: old(self)@.children.update(j as int, c), ..old(self)@ }, true)
                } else {
                    insert_in(old(self)@, parent_id, position, v0@, j + 1)
                }
            });
            self.children.insert(j, child);
            proof {
                lemma_children_model(self);
                lemma_insert_not_found(before, parent_id, position, v0@);
                assert forall|i: int| 0 <= i < n && i != j implies #[trigger] self.children@[i]@
                    == old(self)@.children[i] by {
                    assert(self.children@[i] == pre_children[i]);
                }
            }
            match r {
                Ok(()) => {
                    proof {
                        assert(self@.children =~= old(self)@.children.update(j as int, after));
                    }
                    return Ok(());
                },
                Err(v) => {
                    pending = v;
                },
            }
            proof {
                assert(self@.children =~= old(self)@.children);
            }
            j += 1;
        }
        Err(pending)
    }
}


/// Number of nodes in the tree rooted at `n`.
pub open spec fn size<C>(n: CNode<C>) -> nat
    decreases n, 0int,
{
    1 + sizes(n.children, n.children.len() as int)
}

/// Number of nodes in the subtrees rooted at the first `k` nodes of `cs`.
pub open spec fn sizes<C>(cs: Seq<CNode<C>>, k: int) -> nat
    decreases cs, k,
{
    if k <= 0 || k > cs.len() {
        0
    } else {
        sizes(cs, k - 1) + size(cs[k - 1])
    }
}

proof fn lemma_sizes_prefix<C>(a: Seq<CNode<C>>, b: Seq<CNode<C>>, k: int)
    requires
        0 <= k <= a.len(),
        k <= b.len(),
        forall|i: int| 0 <= i < k ==> a[i] == b[i],
    ensures
        sizes(a, k) == sizes(b, k),
    decreases k,
{
    if k > 0 {
        lemma_sizes_prefix(a, b, k - 1);
    }
}

proof fn lemma_sizes_update<C>(cs: Seq<CNode<C>>, j: int, c: CNode<C>, k: int)
    requires
        0 <= j < cs.len(),
        0 <= k <= cs.len(),
    ensures
        k <= j ==> sizes(cs.update(j, c), k) == sizes(cs, k),
        k > j ==> sizes(cs.update(j, c), k) + size(cs[j]) == sizes(cs, k) + size(c),
    decreases k,
{
    if k > 0 {
        lemma_sizes_update(cs, j, c, k - 1);
        assert(cs.update(j, c)[k - 1] == if k - 1 == j { c } else { cs[k - 1] });
    }
}

proof fn lemma_sizes_remove<C>(cs: Seq<CNode<C>>, j: int, k: int)
    requires
        0 <= j < cs.len(),
        0 <= k <= cs.len(),
    ensures
        k <= j ==> sizes(cs.remove(j), k) == sizes(cs, k),
        k > j ==> sizes(cs.remove(j), k - 1) + size(cs[j]) == sizes(cs, k),
    decreases k,
{
    if k > 0 {
        lemma_sizes_remove(cs, j, k - 1);
        if k - 1 > j {
            assert(cs.remove(j)[k - 2] == cs[k - 1]);
        } else if k - 1 < j {
            assert(cs.remove(j)[k - 1] == cs[k - 1]);
        }
    }
}

/// Law: a removed subtree had the requested id, and removing it takes exactly
/// its nodes out of the tree.
pub proof fn lemma_remove_conserves_nodes<C>(n: CNode<C>, id: usize)
    ensures
        remove_model(n, id).1 matches Some(x) ==> x.id == id && size(n) == size(
            remove_model(n, id).0,
        ) + size(x),
    decreases n, n.children.len() + 1,
{
    match first_index(n.children, id) {
        Some(i) => {
            lemma_index_from_found(n.children, id, 0);
            lemma_sizes_remove(n.children, i, n.children.len() as int);
        },
        None => {
            lemma_remove_in_conserves_nodes(n, id, 0);
        },
    }
}

proof fn lemma_remove_in_conserves_nodes<C>(n: CNode<C>, id: usize, j: int)
    requires
        0 <= j,
    ensures
        remove_in(n, id, j).1 matches Some(x) ==> x.id == id && size(n) == size(
            remove_in(n, id, j).0,
        ) + size(x),
    decreases n, n.children.len() - j,
{
    if j < n.children.len() {
        let (c, r) = remove_model(n.children[j], id);
        lemma_remove_conserves_nodes(n.children[j], id);
        if r is Some {
            lemma_sizes_update(n.children, j, c, n.children.len() as int);
        } else {
            lemma_remove_in_conserves_nodes(n, id, j + 1);
        }
    }
}

proof fn lemma_index_from_found<C>(cs: Seq<CNode<C>>, id: usize, j: int)
    ensures
        index_from(cs, id, j) matches Some(i) ==> j <= i < cs.len() && cs[i].id == id,
    decreases cs.len() - j,
{
    if 0 <= j < cs.len() && cs[j].id != id {
        lemma_index_from_found(cs, id, j + 1);
    }
}


proof fn lemma_index_from_none<C>(cs: Seq<CNode<C>>, id: usize, j: int)
    requires
        0 <= j,
    ensures
        index_from(cs, id, j) is None ==> forall|k: int| j <= k < cs.len() ==> #[trigger] cs[k].id != id,
    decreases cs.len() - j,
{
    if j < cs.len() {
        lemma_index_from_none(cs, id, j + 1);
    }
}

/// `find_in` finds something as soon as one of the child subtrees it walks holds the id.
proof fn lemma_find_in_some<C>(n: CNode<C>, id: usize, j: int, k: int)
    requires
        0 <= j <= k < n.children.len(),
        find_model(n.children[k], id) is Some,
    ensures
        find_in(n, id, j) is Some,
    decreases k - j,
{
    if find_model(n.children[j], id) is None {
        lemma_find_in_some(n, id, j + 1, k);
    }
}

proof fn lemma_edit_in_frame<C>(n: CNode<C>, id: usize, e: Edit<C>, j: int)
    requires
        0 <= j,
    ensures
        ({
            let r = edit_in(n, id, e, j).0;
            &&& r.id == n.id
            &&& r.name == n.name
            &&& r.cost == n.cost
            &&& r.node_type == n.node_type
            &&& r.children.len() == n.children.len()
            &&& forall|k: int| 0 <= k < j && k < n.children.len() ==> #[trigger] r.children[k] == n.children[k]
        }),
    decreases n.children.len() - j,
{
    if j < n.children.len() {
        let (c, found) = edit_model(n.children[j], id, e);
        if !found {
            lemma_edit_in_frame(n, id, e, j + 1);
        }
    }
}

/// Law: after renaming (or re-costing) the node with a given id, looking that
/// id up finds the same node, with the new name (or cost).
pub proof fn lemma_find_after_edit<C>(n: CNode<C>, id: usize, e: Edit<C>)
    ensures
        edit_model(n, id, e).1 ==> find_model(n, id) is Some && find_model(edit_model(n, id, e).0, id)
            == Some(apply_edit(find_model(n, id)->0, e)),
    decreases n, n.children.len() + 1,
{
    if n.id != id {
        lemma_find_in_after_edit_in(n, id, e, 0);
        lemma_edit_in_frame(n, id, e, 0);
    }
}

proof fn lemma_find_in_after_edit_in<C>(n: CNode<C>, id: usize, e: Edit<C>, j: int)
    requires
        0 <= j,
    ensures
        edit_in(n, id, e, j).1 ==> find_in(n, id, j) is Some && find_in(edit_in(n, id, e, j).0, id, j)
            == Some(apply_edit(find_in(n, id, j)->0, e)),
    decreases n, n.children.len() - j,
{
    if j < n.children.len() {
        let child = n.children[j];
        let (c, found) = edit_model(child, id, e);
        lemma_edit_not_found(child, id, e);
        lemma_find_after_edit(child, id, e);
        if found {
            let n2 = CNode { children: n.children.update(j, c), ..n };
            assert(n2.children[j] == c);
        } else {
            lemma_find_in_after_edit_in(n, id, e, j + 1);
            lemma_edit_in_frame(n, id, e, j + 1);
        }
    }
}

/// Law: a removal takes something out exactly when a node below the root
/// carries the id.
pub proof fn lemma_remove_iff_below<C>(n: CNode<C>, id: usize)
    ensures
        (remove_model(n, id).1 is Some) == (find_in(n, id, 0) is Some),
    decreases n, n.children.len() + 1,
{
    match first_index(n.children, id) {
        Some(i) => {
            lemma_index_from_found(n.children, id, 0);
            lemma_find_in_some(n, id, 0, i);
        },
        None => {
            lemma_index_from_none(n.children, id, 0);
            lemma_remove_in_iff_below(n, id, 0);
        },
    }
}

proof fn lemma_remove_in_iff_below<C>(n: CNode<C>, id: usize, j: int)
    requires
        0 <= j,
        forall|k: int| 0 <= k < n.children.len() ==> #[trigger] n.children[k].id != id,
    ensures
        (remove_in(n, id, j).1 is Some) == (find_in(n, id, j) is Some),
    decreases n, n.children.len() - j,
{
    if j < n.children.len() {
        let child = n.children[j];
        assert(child.id != id);
        assert(find_model(child, id) == find_in(child, id, 0));
        lemma_remove_iff_below(child, id);
        lemma_remove_in_iff_below(n, id, j + 1);
    }
}

/// Law: after a successful insertion at the first or last place, the tree
/// holds a node with the inserted node's id.
pub proof fn lemma_insert_then_found<C>(n: CNode<C>, parent: usize, pos: DirPosition, v: CNode<C>)
    requires
        pos is First || pos is Last,
    ensures
        insert_model(n, parent, pos, v).1 ==> find_model(insert_model(n, parent, pos, v).0, v.id) is Some,
    decreases n, n.children.len() + 1,
{
    if n.id == parent {
        let m = place(n, pos, v);
        if m.id != v.id {
            let k = if pos is First { 0 } else { n.children.len() as int };
            assert(m.children[k] == v);
            lemma_find_in_some(m, v.id, 0, k);
        }
    } else {
        lemma_insert_in_then_found(n, parent, pos, v, 0);
    }
}

proof fn lemma_insert_in_then_found<C>(n: CNode<C>, parent: usize, pos: DirPosition, v: CNode<C>, j: int)
    requires
        pos is First || pos is Last,
        0 <= j,
    ensures
        insert_in(n, parent, pos, v, j).1 ==> find_model(insert_in(n, parent, pos, v, j).0, v.id) is Some,
    decreases n, n.children.len() - j,
{
    if j < n.children.len() {
        let (c, ok) = insert_model(n.children[j], parent, pos, v);
        lemma_insert_then_found(n.children[j], parent, pos, v);
        if ok {
            let m = CNode { children: n.children.update(j, c), ..n };
            if m.id != v.id {
                assert(m.children[j] == c);
                lemma_find_in_some(m, v.id, 0, j);
            }
        } else {
            lemma_insert_in_then_found(n, parent, pos, v, j + 1);
        }
    }
}

proof fn lemma_find_none_children<C>(n: CNode<C>, id: usize)
    requires
        find_model(n, id) is None,
    ensures
        n.id != id,
        forall|k: int| 0 <= k < n.children.len() ==> #[trigger] find_model(n.children[k], id) is None,
{
    assert forall|k: int| 0 <= k < n.children.len() implies #[trigger] find_model(n.children[k], id) is None by {
        if find_model(n.children[k], id) is Some {
            lemma_find_in_some(n, id, 0, k);
        }
    }
}

proof fn lemma_index_absent<C>(cs: Seq<CNode<C>>, id: usize, j: int)
    requires
        forall|k: int| 0 <= k < cs.len() ==> #[trigger] cs[k].id != id,
    ensures
        index_from(cs, id, j) is None,
    decreases cs.len() - j,
{
    if 0 <= j < cs.len() {
        lemma_index_absent(cs, id, j + 1);
    }
}

proof fn lemma_index_last<C>(cs: Seq<CNode<C>>, v: CNode<C>, j: int)
    requires
        0 <= j <= cs.len(),
        forall|k: int| 0 <= k < cs.len() ==> #[trigger] cs[k].id != v.id,
    ensures
        index_from(cs.push(v), v.id, j) == Some(cs.len() as int),
    decreases cs.len() - j,
{
    if j < cs.len() {
        assert(cs.push(v)[j] == cs[j]);
        lemma_index_last(cs, v, j + 1);
    } else {
        assert(cs.push(v)[j] == v);
    }
}

proof fn lemma_insert_keeps_id<C>(n: CNode<C>, parent: usize, pos: DirPosition, v: CNode<C>)
    ensures
        insert_model(n, parent, pos, v).0.id == n.id,
    decreases n, n.children.len() + 1,
{
    if n.id != parent {
        lemma_insert_in_keeps_ids(n, parent, pos, v, 0);
    }
}

proof fn lemma_insert_in_keeps_ids<C>(n: CNode<C>, parent: usize, pos: DirPosition, v: CNode<C>, j: int)
    requires
        0 <= j,
    ensures
        ({
            let m = insert_in(n, parent, pos, v, j).0;
            &&& m.id == n.id
            &&& m.children.len() == n.children.len()
            &&& forall|k: int| 0 <= k < n.children.len() ==> #[trigger] m.children[k].id == n.children[k].id
            &&& forall|k: int| 0 <= k < j && k < n.children.len() ==> #[trigger] m.children[k] == n.children[k]
        }),
    decreases n, n.children.len() - j,
{
    if j < n.children.len() {
        let (c, ok) = insert_model(n.children[j], parent, pos, v);
        lemma_insert_keeps_id(n.children[j], parent, pos, v);
        if !ok {
            lemma_insert_in_keeps_ids(n, parent, pos, v, j + 1);
        }
    }
}

/// Law: inserting a subtree at the first or last place under a node, then
/// removing the inserted node's id, gives back the tree as it was and the
/// subtree, when the tree held no node with that id.
pub proof fn lemma_remove_undoes_insert<C>(n: CNode<C>, parent: usize, pos: DirPosition, v: CNode<C>)
    requires
        pos is First || pos is Last,
        find_model(n, v.id) is None,
    ensures
        insert_model(n, parent, pos, v).1 ==> remove_model(insert_model(n, parent, pos, v).0, v.id) == (n, Some(v)),
    decreases n, n.children.len() + 1,
{
    lemma_find_none_children(n, v.id);
    let cs = n.children;
    assert forall|k: int| 0 <= k < cs.len() implies #[trigger] cs[k].id != v.id by {
        assert(find_model(cs[k], v.id) is None);
    }
    if n.id == parent {
        if pos is First {
            let m = CNode { children: cs.insert(0, v), ..n };
            assert(m.children[0] == v);
            assert(index_from(m.children, v.id, 0) == Some(0int));
            assert(m.children.remove(0) =~= cs);
        } else {
            let m = CNode { children: cs.push(v), ..n };
            lemma_index_last(cs, v, 0);
            assert(m.children.remove(cs.len() as int) =~= cs);
        }
    } else {
        let (m, ok) = insert_in(n, parent, pos, v, 0);
        if ok {
            lemma_insert_in_keeps_ids(n, parent, pos, v, 0);
            assert forall|k: int| 0 <= k < m.children.len() implies #[trigger] m.children[k].id != v.id by {
                assert(m.children[k].id == cs[k].id);
            }
            lemma_index_absent(m.children, v.id, 0);
            lemma_remove_in_undoes_insert_in(n, parent, pos, v, 0);
        }
    }
}

proof fn lemma_remove_in_undoes_insert_in<C>(n: CNode<C>, parent: usize, pos: DirPosition, v: CNode<C>, j: int)
    requires
        pos is First || pos is Last,
        0 <= j,
        forall|k: int| 0 <= k < n.children.len() ==> #[trigger] find_model(n.children[k], v.id) is None,
    ensures
        insert_in(n, parent, pos, v, j).1 ==> remove_in(insert_in(n, parent, pos, v, j).0, v.id, j) == (n, Some(v)),
    decreases n, n.children.len() - j,
{
    if j < n.children.len() {
        let child = n.children[j];
        let (c, ok) = insert_model(child, parent, pos, v);
        if ok {
            lemma_remove_undoes_insert(child, parent, pos, v);
            let m = CNode { children: n.children.update(j, c), ..n };
            assert(m.children[j] == c);
            assert(m.children.update(j, child) =~= n.children);
        } else {
            lemma_remove_in_undoes_insert_in(n, parent, pos, v, j + 1);
            lemma_insert_in_keeps_ids(n, parent, pos, v, j + 1);
            lemma_remove_iff_below(child, v.id);
            let m = insert_in(n, parent, pos, v, j + 1).0;
            assert(m.children[j] == child);
        }
    }
}

} // verus!
