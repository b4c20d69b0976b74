//! The project explorer's tree of folders (directories) and documents (files),
//! edited by node id.

use vstd::prelude::*;
use crate::criteria::DirPosition;
use crate::dashboard::DocumentDto;
use crate::text::{chars_of, digits, int_text, push_digits, push_int, push_str, string_from_chars, trim, trimmed};

verus! {

/// A node of the explorer tree.
pub enum Node {
    Directory(Directory),
    File(File),
}

/// A folder and the nodes inside it.
pub struct Directory {
    pub id: usize,
    pub name: String,
    pub children: Vec<Node>,
}

/// A document entry. `document_id` is the document's id in the database, once known.
pub struct File {
    pub id: usize,
    pub name: String,
    pub document_id: Option<usize>,
}

/// The mathematical value of an explorer node.
pub enum ENode {
    Dir { id: usize, name: Seq<char>, children: Seq<ENode> },
    Leaf { id: usize, name: Seq<char>, document_id: Option<usize> },
}

impl ENode {
    pub open spec fn id(self) -> usize {
        match self {
            ENode::Dir { id, .. } => id,
            ENode::Leaf { id, .. } => id,
        }
    }

    pub open spec fn name(self) -> Seq<char> {
        match self {
            ENode::Dir { name, .. } => name,
            ENode::Leaf { name, .. } => name,
        }
    }

    /// The children of a directory; a file has none.
    pub open spec fn kids(self) -> Seq<ENode> {
        match self {
            ENode::Dir { children, .. } => children,
            ENode::Leaf { .. } => Seq::empty(),
        }
    }

    /// A directory with its children replaced; a file stays as it is.
    pub open spec fn with_kids(self, cs: Seq<ENode>) -> ENode {
        match self {
            ENode::Dir { id, name, .. } => ENode::Dir { id, name, children: cs },
            ENode::Leaf { .. } => self,
        }
    }
}

impl Node {
    /// The value of this node and of its whole subtree.
    pub open spec fn model(&self) -> ENode
        decreases self, 2int, 0int,
    {
        match self {
            Node::Directory(d) => d.model(),
            Node::File(f) => ENode::Leaf { id: f.id, name: f.name@, document_id: f.document_id },
        }
    }
}

impl Directory {
    /// The value of this directory and of its whole subtree.
    pub open spec fn model(&self) -> ENode
        decreases self, 1int, 0int,
    {
        ENode::Dir {
            id: self.id,
            name: self.name@,
            children: self.children_model(self.children@.len() as int),
        }
    }

    /// The values of the first `k` children.
    pub open spec fn children_model(&self, k: int) -> Seq<ENode>
        decreases self, 0int, k,
    {
        if k <= 0 || k > self.children@.len() {
            Seq::empty()
        } else {
            proof {
                assert(decreases_to!(self => self.children));
                assert(decreases_to!(self.children => self.children@));
                assert(decreases_to!(self.children@ => self.children@[k - 1]));
            }
            self.children_model(k - 1).push(self.children@[k - 1].model())
        }
    }
}

impl View for Node {
    type V = ENode;

    open spec fn view(&self) -> ENode {
        self.model()
    }
}

impl View for Directory {
    type V = ENode;

    open spec fn view(&self) -> ENode {
        self.model()
    }
}

/// The model of the children of `d`, one by one.
pub proof fn lemma_children_model(d: &Directory)
    ensures
        d@.kids().len() == d.children@.len(),
        forall|i: int| 0 <= i < d.children@.len() ==> #[trigger] d@.kids()[i] == d.children@[i]@,
{
    lemma_children_model_upto(d, d.children@.len() as int);
}

proof fn lemma_children_model_upto(d: &Directory, k: int)
    requires
        0 <= k <= d.children@.len(),
    ensures
        d.children_model(k).len() == k,
        forall|i: int| 0 <= i < k ==> #[trigger] d.children_model(k)[i] == d.children@[i]@,
    decreases k,
{
    if k > 0 {
        lemma_children_model_upto(d, k - 1);
    }
}


/// Index of the first node of `cs`, at `j` or later, whose id is `id`.
pub open spec fn index_from(cs: Seq<ENode>, id: usize, j: int) -> Option<int>
    decreases cs.len() - j,
{
    if j < 0 || j >= cs.len() {
        None
    } else if cs[j].id() == id {
        Some(j)
    } else {
        index_from(cs, id, j + 1)
    }
}

/// Index of the first node of `cs` whose id is `id`.
pub open spec fn first_index(cs: Seq<ENode>, id: usize) -> Option<int> {
    index_from(cs, id, 0)
}

/// Removes from a directory its first child with id `id` if there is one;
/// otherwise the node with that id from the first child subtree holding one.
/// A file removes nothing.
pub open spec fn remove_model(n: ENode, id: usize) -> (ENode, Option<ENode>)
    decreases n, n.kids().len() + 1,
{
    match n {
        ENode::Leaf { .. } => (n, None),
        ENode::Dir { .. } => match first_index(n.kids(), id) {
            Some(i) => (n.with_kids(n.kids().remove(i)), Some(n.kids()[i])),
            None => remove_in(n, id, 0),
        },
    }
}

/// `remove_model` over the subtrees of the children of `n` from the `j`-th on.
pub open spec fn remove_in(n: ENode, id: usize, j: int) -> (ENode, Option<ENode>)
    decreases n, n.kids().len() - j,
{
    if j < 0 || j >= n.kids().len() {
        (n, None)
    } else {
        proof { assert(decreases_to!(n => n.kids()[j])); }
        let (c, r) = remove_model(n.kids()[j], id);
        if r is Some {
            (n.with_kids(n.kids().update(j, c)), r)
        } else {
            remove_in(n, id, j + 1)
        }
    }
}

/// A directory with `v` placed among its children as `pos` says. A `Before` or
/// `After` whose sibling is not a child places nothing.
pub open spec fn place(n: ENode, pos: DirPosition, v: ENode) -> ENode {
    match pos {
        DirPosition::First => n.with_kids(n.kids().insert(0, v)),
        DirPosition::Last => n.with_kids(n.kids().push(v)),
        DirPosition::After(a) => match first_index(n.kids(), a) {
            Some(i) => n.with_kids(n.kids().insert(i + 1, v)),
            None => n,
        },
        DirPosition::Before(b) => match first_index(n.kids(), b) {
            Some(i) => n.with_kids(n.kids().insert(i, v)),
            None => n,
        },
    }
}

/// Places `v` under the first directory (in pre-order) whose id is `parent`;
/// the flag tells whether one was found. Files are never parents.
pub open spec fn insert_model(n: ENode, parent: usize, pos: DirPosition, v: ENode) -> (ENode, bool)
    decreases n, n.kids().len() + 1,
{
    match n {
        ENode::Leaf { .. } => (n, false),
        ENode::Dir { .. } => if n.id() == parent {
            (place(n, pos, v), true)
        } else {
            insert_in(n, parent, pos, v, 0)
        },
    }
}

/// `insert_model` over the subtrees of the children of `n` from the `j`-th on.
pub open spec fn insert_in(n: ENode, parent: usize, pos: DirPosition, v: ENode, j: int) -> (ENode, bool)
    decreases n, n.kids().len() - j,
{
    if j < 0 || j >= n.kids().len() {
        (n, false)
    } else {
        proof { assert(decreases_to!(n => n.kids()[j])); }
        let (c, ok) = insert_model(n.kids()[j], parent, pos, v);
        if ok {
            (n.with_kids(n.kids().update(j, c)), true)
        } else {
            insert_in(n, parent, pos, v, j + 1)
        }
    }
}

/// A directory holding somewhere below it a directory with id `parent`
/// (the directory itself counts).
pub open spec fn has_dir(n: ENode, parent: usize) -> bool
    decreases n, n.kids().len() + 1,
{
    match n {
        ENode::Leaf { .. } => false,
        ENode::Dir { .. } => n.id() == parent || has_dir_in(n, parent, 0),
    }
}

/// `has_dir` over the subtrees of the children of `n` from the `j`-th on.
pub open spec fn has_dir_in(n: ENode, parent: usize, j: int) -> bool
    decreases n, n.kids().len() - j,
{
    if j < 0 || j >= n.kids().len() {
        false
    } else {
        proof { assert(decreases_to!(n => n.kids()[j])); }
        has_dir(n.kids()[j], parent) || has_dir_in(n, parent, j + 1)
    }
}

/// Law: a removal that finds nothing leaves the tree as it was.
pub proof fn lemma_remove_not_found(n: ENode, id: usize)
    ensures
        remove_model(n, id).1 is None ==> remove_model(n, id).0 == n,
    decreases n, n.kids().len() + 1,
{
    if n is Dir && first_index(n.kids(), id) is None {
        lemma_remove_in_not_found(n, id, 0);
    }
}

proof fn lemma_remove_in_not_found(n: ENode, id: usize, j: int)
    requires
        0 <= j,
        n is Dir,
    ensures
        remove_in(n, id, j).1 is None ==> remove_in(n, id, j).0 == n,
    decreases n, n.kids().len() - j,
{
    if j < n.kids().len() {
        assert(decreases_to!(n => n.kids()[j]));
        lemma_remove_not_found(n.kids()[j], id);
        lemma_remove_in_not_found(n, id, j + 1);
    }
}

/// Law: an insertion succeeds exactly when the tree holds a directory with the
/// parent id; when it does not, the tree stays as it was.
pub proof fn lemma_insert_not_found(n: ENode, parent: usize, pos: DirPosition, v: ENode)
    ensures
        !insert_model(n, parent, pos, v).1 ==> insert_model(n, parent, pos, v).0 == n,
        insert_model(n, parent, pos, v).1 == has_dir(n, parent),
    decreases n, n.kids().len() + 1,
{
    if n is Dir && n.id() != parent {
        lemma_insert_in_not_found(n, parent, pos, v, 0);
    }
}

proof fn lemma_insert_in_not_found(n: ENode, parent: usize, pos: DirPosition, v: ENode, j: int)
    requires
        0 <= j,
        n is Dir,
    ensures
        !insert_in(n, parent, pos, v, j).1 ==> insert_in(n, parent, pos, v, j).0 == n,
        insert_in(n, parent, pos, v, j).1 == has_dir_in(n, parent, j),
    decreases n, n.kids().len() - j,
{
    if j < n.kids().len() {
        assert(decreases_to!(n => n.kids()[j]));
        lemma_insert_not_found(n.kids()[j], parent, pos, v);
        lemma_insert_in_not_found(n, parent, pos, v, j + 1);
    }
}


/// Number of nodes in the subtree of `n`.
pub open spec fn esize(n: ENode) -> nat
    decreases n, 0int,
{
    match n {
        ENode::Dir { children, .. } => 1 + esizes(children, children.len() as int),
        ENode::Leaf { .. } => 1,
    }
}

/// Number of nodes in the subtrees of the first `k` nodes of `cs`.
pub open spec fn esizes(cs: Seq<ENode>, k: int) -> nat
    decreases cs, k,
{
    if k <= 0 || k > cs.len() {
        0
    } else {
        esizes(cs, k - 1) + esize(cs[k - 1])
    }
}

proof fn lemma_esizes_update(cs: Seq<ENode>, j: int, c: ENode, k: int)
    requires
        0 <= j < cs.len(),
        0 <= k <= cs.len(),
    ensures
        k <= j ==> esizes(cs.update(j, c), k) == esizes(cs, k),
        k > j ==> esizes(cs.update(j, c), k) + esize(cs[j]) == esizes(cs, k) + esize(c),
    decreases k,
{
    if k > 0 {
        lemma_esizes_update(cs, j, c, k - 1);
        assert(cs.update(j, c)[k - 1] == if k - 1 == j { c } else { cs[k - 1] });
    }
}

proof fn lemma_esizes_remove(cs: Seq<ENode>, j: int, k: int)
    requires
        0 <= j < cs.len(),
        0 <= k <= cs.len(),
    ensures
        k <= j ==> esizes(cs.remove(j), k) == esizes(cs, k),
        k > j ==> esizes(cs.remove(j), k - 1) + esize(cs[j]) == esizes(cs, k),
    decreases k,
{
    if k > 0 {
        lemma_esizes_remove(cs, j, k - 1);
        if k - 1 > j {
            assert(cs.remove(j)[k - 2] == cs[k - 1]);
        } else if k - 1 < j {
            assert(cs.remove(j)[k - 1] == cs[k - 1]);
        }
    }
}

proof fn lemma_esizes_insert(cs: Seq<ENode>, j: int, v: ENode, k: int)
    requires
        0 <= j <= cs.len(),
        0 <= k <= cs.len(),
    ensures
        k < j ==> esizes(cs.insert(j, v), k) == esizes(cs, k),
        k >= j ==> esizes(cs.insert(j, v), k + 1) == esizes(cs, k) + esize(v),
    decreases k,
{
    let t = cs.insert(j, v);
    if k == 0 {
        if j == 0 {
            assert(t[0] == v);
            assert(esizes(t, 0) == 0);
        }
    } else {
        lemma_esizes_insert(cs, j, v, k - 1);
        if k - 1 < j {
            assert(t[k - 1] == cs[k - 1]);
            if k == j {
                assert(t[k] == v);
                assert(esizes(t, k + 1) == esizes(t, k) + esize(v));
            }
        } else {
            assert(t[k] == cs[k - 1]);
        }
    }
}

proof fn lemma_index_from_found(cs: Seq<ENode>, id: usize, j: int)
    ensures
        index_from(cs, id, j) matches Some(i) ==> j <= i < cs.len() && cs[i].id() == id,
    decreases cs.len() - j,
{
    if 0 <= j < cs.len() && cs[j].id() != id {
        lemma_index_from_found(cs, id, j + 1);
    }
}

/// Law: a removed subtree had the requested id, and removing it takes exactly
/// its nodes out of the tree.
pub proof fn lemma_remove_conserves_nodes(n: ENode, id: usize)
    ensures
        remove_model(n, id).1 matches Some(x) ==> x.id() == id && esize(n) == esize(remove_model(n, id).0) + esize(x),
    decreases n, n.kids().len() + 1,
{
    if n is Dir {
        match first_index(n.kids(), id) {
            Some(i) => {
                lemma_index_from_found(n.kids(), id, 0);
                lemma_esizes_remove(n.kids(), i, n.kids().len() as int);
            },
            None => {
                lemma_remove_in_conserves_nodes(n, id, 0);
            },
        }
    }
}

proof fn lemma_remove_in_conserves_nodes(n: ENode, id: usize, j: int)
    requires
        0 <= j,
        n is Dir,
    ensures
        remove_in(n, id, j).1 matches Some(x) ==> x.id() == id && esize(n) == esize(remove_in(n, id, j).0) + esize(x),
    decreases n, n.kids().len() - j,
{
    if j < n.kids().len() {
        assert(decreases_to!(n => n.kids()[j]));
        let (c, r) = remove_model(n.kids()[j], id);
        lemma_remove_conserves_nodes(n.kids()[j], id);
        if r is Some {
            lemma_esizes_update(n.kids(), j, c, n.kids().len() as int);
        } else {
            lemma_remove_in_conserves_nodes(n, id, j + 1);
        }
    }
}

/// Law: inserting at the first or last place of an existing directory adds
/// exactly the inserted subtree's nodes.
pub proof fn lemma_insert_adds_nodes(n: ENode, parent: usize, pos: DirPosition, v: ENode)
    requires
        pos is First || pos is Last,
    ensures
        insert_model(n, parent, pos, v).1 ==> esize(insert_model(n, parent, pos, v).0) == esize(n) + esize(v),
    decreases n, n.kids().len() + 1,
{
    if n is Dir {
        if n.id() == parent {
            let cs = n.kids();
            if pos is First {
                lemma_esizes_insert(cs, 0, v, cs.len() as int);
            } else {
                assert(cs.push(v) =~= cs.insert(cs.len() as int, v));
                lemma_esizes_insert(cs, cs.len() as int, v, cs.len() as int);
            }
        } else {
            lemma_insert_in_adds_nodes(n, parent, pos, v, 0);
        }
    }
}

proof fn lemma_insert_in_adds_nodes(n: ENode, parent: usize, pos: DirPosition, v: ENode, j: int)
    requires
        pos is First || pos is Last,
        0 <= j,
        n is Dir,
    ensures
        insert_in(n, parent, pos, v, j).1 ==> esize(insert_in(n, parent, pos, v, j).0) == esize(n) + esize(v),
    decreases n, n.kids().len() - j,
{
    if j < n.kids().len() {
        assert(decreases_to!(n => n.kids()[j]));
        let (c, ok) = insert_model(n.kids()[j], parent, pos, v);
        lemma_insert_adds_nodes(n.kids()[j], parent, pos, v);
        if ok {
            lemma_esizes_update(n.kids(), j, c, n.kids().len() as int);
        } else {
            lemma_insert_in_adds_nodes(n, parent, pos, v, j + 1);
        }
    }
}

/// Law: a drag-and-drop move to the first or last place of a directory that is
/// still in the tree once the node is taken out keeps every node: the tree
/// has as many nodes after the move as before, and the node moved is the one
/// with the dragged id.
pub proof fn lemma_move_keeps_nodes(n: ENode, source: usize, target: usize, pos: DirPosition)
    requires
        pos is First || pos is Last,
    ensures
        ({
            let (rest, moved) = remove_model(n, source);
            moved matches Some(x) ==> (insert_model(rest, target, pos, x).1 ==> x.id() == source
                && esize(insert_model(rest, target, pos, x).0) == esize(n))
        }),
{
    lemma_remove_conserves_nodes(n, source);
    let (rest, moved) = remove_model(n, source);
    if let Some(x) = moved {
        lemma_insert_adds_nodes(rest, target, pos, x);
    }
}

/// Whether a node of the subtree of `n` (the node itself counts) has the id `id`.
pub open spec fn holds_id(n: ENode, id: usize) -> bool
    decreases n, n.kids().len() + 1,
{
    n.id() == id || holds_in(n, id, 0)
}

/// `holds_id` over the subtrees of the children of `n` from the `j`-th on.
pub open spec fn holds_in(n: ENode, id: usize, j: int) -> bool
    decreases n, n.kids().len() - j,
{
    if j < 0 || j >= n.kids().len() {
        false
    } else {
        proof { assert(decreases_to!(n => n.kids()[j])); }
        holds_id(n.kids()[j], id) || holds_in(n, id, j + 1)
    }
}

proof fn lemma_holds_in_some(n: ENode, id: usize, j: int, k: int)
    requires
        0 <= j <= k < n.kids().len(),
        holds_id(n.kids()[k], id),
    ensures
        holds_in(n, id, j),
    decreases k - j,
{
    if j < k {
        lemma_holds_in_some(n, id, j + 1, k);
    }
}

proof fn lemma_absent_children(n: ENode, id: usize)
    requires
        !holds_id(n, id),
    ensures
        n.id() != id,
        forall|k: int| 0 <= k < n.kids().len() ==> !holds_id(#[trigger] n.kids()[k], id),
        forall|k: int| 0 <= k < n.kids().len() ==> (#[trigger] n.kids()[k]).id() != id,
{
    assert forall|k: int| 0 <= k < n.kids().len() implies !holds_id(#[trigger] n.kids()[k], id) by {
        if holds_id(n.kids()[k], id) {
            lemma_holds_in_some(n, id, 0, k);
        }
    }
}

proof fn lemma_index_absent(cs: Seq<ENode>, id: usize, j: int)
    requires
        forall|k: int| 0 <= k < cs.len() ==> (#[trigger] cs[k]).id() != id,
    ensures
        index_from(cs, id, j) is None,
    decreases cs.len() - j,
{
    if 0 <= j < cs.len() {
        lemma_index_absent(cs, id, j + 1);
    }
}

proof fn lemma_index_last(cs: Seq<ENode>, v: ENode, j: int)
    requires
        0 <= j <= cs.len(),
        forall|k: int| 0 <= k < cs.len() ==> (#[trigger] cs[k]).id() != v.id(),
    ensures
        index_from(cs.push(v), v.id(), j) == Some(cs.len() as int),
    decreases cs.len() - j,
{
    if j < cs.len() {
        assert(cs.push(v)[j] == cs[j]);
        lemma_index_last(cs, v, j + 1);
    } else {
        assert(cs.push(v)[j] == v);
    }
}

/// A removal of an id the tree does not hold takes nothing out.
proof fn lemma_remove_absent(n: ENode, id: usize)
    requires
        !holds_id(n, id),
    ensures
        remove_model(n, id) == (n, None::<ENode>),
    decreases n, n.kids().len() + 1,
{
    lemma_absent_children(n, id);
    if n is Dir {
        lemma_index_absent(n.kids(), id, 0);
        lemma_remove_in_absent(n, id, 0);
    }
}

proof fn lemma_remove_in_absent(n: ENode, id: usize, j: int)
    requires
        0 <= j,
        n is Dir,
        forall|k: int| 0 <= k < n.kids().len() ==> !holds_id(#[trigger] n.kids()[k], id),
    ensures
        remove_in(n, id, j) == (n, None::<ENode>),
    decreases n, n.kids().len() - j,
{
    if j < n.kids().len() {
        assert(decreases_to!(n => n.kids()[j]));
        lemma_remove_absent(n.kids()[j], id);
        lemma_remove_in_absent(n, id, j + 1);
    }
}

proof fn lemma_insert_keeps_id(n: ENode, parent: usize, pos: DirPosition, v: ENode)
    ensures
        insert_model(n, parent, pos, v).0.id() == n.id(),
    decreases n, n.kids().len() + 1,
{
    if n is Dir && n.id() != parent {
        lemma_insert_in_keeps_ids(n, parent, pos, v, 0);
    }
}

proof fn lemma_insert_in_keeps_ids(n: ENode, parent: usize, pos: DirPosition, v: ENode, j: int)
    requires
        0 <= j,
        n is Dir,
    ensures
        ({
            let m = insert_in(n, parent, pos, v, j).0;
            &&& m is Dir
            &&& m.id() == n.id()
            &&& m.kids().len() == n.kids().len()
            &&& forall|k: int| 0 <= k < n.kids().len() ==> (#[trigger] m.kids()[k]).id() == n.kids()[k].id()
            &&& forall|k: int| 0 <= k < j && k < n.kids().len() ==> #[trigger] m.kids()[k] == n.kids()[k]
        }),
    decreases n, n.kids().len() - j,
{
    if j < n.kids().len() {
        assert(decreases_to!(n => n.kids()[j]));
        let (c, ok) = insert_model(n.kids()[j], parent, pos, v);
        lemma_insert_keeps_id(n.kids()[j], parent, pos, v);
        if !ok {
            lemma_insert_in_keeps_ids(n, parent, pos, v, j + 1);
        }
    }
}

/// Law: placing a node at the first or last place of a directory and then
/// removing the placed node's id gives back the tree as it was and the node,
/// when the tree held no node with that id.
pub proof fn lemma_remove_undoes_insert(n: ENode, parent: usize, pos: DirPosition, v: ENode)
    requires
        pos is First || pos is Last,
        !holds_id(n, v.id()),
    ensures
        insert_model(n, parent, pos, v).1 ==> remove_model(insert_model(n, parent, pos, v).0, v.id()) == (n, Some(v)),
    decreases n, n.kids().len() + 1,
{
    lemma_absent_children(n, v.id());
    if n is Dir {
        let cs = n.kids();
        if n.id() == parent {
            if pos is First {
                let m = n.with_kids(cs.insert(0, v));
                assert(m.kids()[0] == v);
                assert(index_from(m.kids(), v.id(), 0) == Some(0int));
                assert(m.kids().remove(0) =~= cs);
            } else {
                let m = n.with_kids(cs.push(v));
                lemma_index_last(cs, v, 0);
                assert(m.kids().remove(cs.len() as int) =~= cs);
            }
        } else {
            let (m, ok) = insert_in(n, parent, pos, v, 0);
            if ok {
                lemma_insert_in_keeps_ids(n, parent, pos, v, 0);
                assert forall|k: int| 0 <= k < m.kids().len() implies (#[trigger] m.kids()[k]).id() != v.id() by {
                    assert(m.kids()[k].id() == cs[k].id());
                }
                lemma_index_absent(m.kids(), v.id(), 0);
                lemma_remove_in_undoes_insert_in(n, parent, pos, v, 0);
            }
        }
    }
}

proof fn lemma_remove_in_undoes_insert_in(n: ENode, parent: usize, pos: DirPosition, v: ENode, j: int)
    requires
        pos is First || pos is Last,
        0 <= j,
        n is Dir,
        forall|k: int| 0 <= k < n.kids().len() ==> !holds_id(#[trigger] n.kids()[k], v.id()),
    ensures
        insert_in(n, parent, pos, v, j).1 ==> remove_in(insert_in(n, parent, pos, v, j).0, v.id(), j) == (n, Some(v)),
    decreases n, n.kids().len() - j,
{
    if j < n.kids().len() {
        assert(decreases_to!(n => n.kids()[j]));
        let child = n.kids()[j];
        let (c, ok) = insert_model(child, parent, pos, v);
        if ok {
            lemma_remove_undoes_insert(child, parent, pos, v);
            let m = n.with_kids(n.kids().update(j, c));
            assert(m.kids()[j] == c);
            assert(m.kids().update(j, child) =~= n.kids());
        } else {
            lemma_remove_in_undoes_insert_in(n, parent, pos, v, j + 1);
            lemma_insert_in_keeps_ids(n, parent, pos, v, j + 1);
            lemma_remove_absent(child, v.id());
            let m = insert_in(n, parent, pos, v, j + 1).0;
            assert(m.kids()[j] == child);
        }
    }
}

/// Index of the first of `nodes` with the given id.
fn position_of(nodes: &Vec<Node>, id: usize) -> (r: Option<usize>)
    ensures
        r matches Some(i) ==> i < nodes.len() && first_index(
            Seq::new(nodes@.len(), |k: int| nodes@[k]@),
            id,
        ) == Some(i as int),
        r is None ==> first_index(Seq::new(nodes@.len(), |k: int| nodes@[k]@), id) is None,
{
    let ghost ms = Seq::new(nodes@.len(), |k: int| nodes@[k]@);
    let mut i: usize = 0;
    while i < nodes.len()
        invariant
            i <= nodes@.len(),
            ms == Seq::new(nodes@.len(), |k: int| nodes@[k]@),
            first_index(ms, id) == index_from(ms, id, i as int),
        decreases nodes@.len() - i,
    {
        if nodes[i].id() == id {
            return Some(i);
        }
        i += 1;
    }
    None
}

impl Node {
    /// The node's id.
    pub fn id(&self) -> (r: usize)
        ensures
            r == self@.id(),
    {
        match self {
            Node::Directory(d) => d.id,
            Node::File(f) => f.id,
        }
    }

    /// The node's name.
    pub fn name(&self) -> (r: &str)
        ensures
            r@ == self@.name(),
    {
        match self {
            Node::Directory(d) => d.name.as_str(),
            Node::File(f) => f.name.as_str(),
        }
    }

    /// In a directory, removes the first child with the given id, or else the node
    /// with that id from the first child subtree holding one, and hands it back.
    /// A file removes nothing; this node itself is never removed.
    pub fn remove(&mut self, id: usize) -> (r: Option<Node>)
        ensures
            final(self)@ == remove_model(old(self)@, id).0,
            r matches Some(x) ==> remove_model(old(self)@, id).1 == Some(x@),
            r is None ==> remove_model(old(self)@, id).1 is None,
        decreases old(self)@, 1int,
    {
        match self {
            Node::Directory(d) => d.remove_from(id),
            Node::File(_) => None,
        }
    }

    /// Places `value` among the children of the first directory (in pre-order)
    /// whose id is `parent_id`. Hands `value` back when there is no such directory.
    /// A `Before` or `After` whose sibling is not a child of that directory drops `value`.
    pub fn insert(&mut self, parent_id: usize, position: DirPosition, value: Node) -> (r: Result<(), Node>)
        ensures
            final(self)@ == insert_model(old(self)@, parent_id, position, value@).0,
            (r is Ok) == insert_model(old(self)@, parent_id, position, value@).1,
            r matches Err(v) ==> v == value,
        decreases old(self)@, 1int,
    {
        match self {
            Node::Directory(d) => d.insert_into(parent_id, position, value),
            Node::File(_) => Err(value),
        }
    }
}

impl Directory {
    fn remove_from(&mut self, id: usize) -> (r: Option<Node>)
        ensures
            final(self)@ == remove_model(old(self)@, id).0,
            r matches Some(x) ==> remove_model(old(self)@, id).1 == Some(x@),
            r is None ==> remove_model(old(self)@, id).1 is None,
        decreases old(self)@, 0int,
    {
        proof {
            lemma_children_model(self);
            assert(self@.kids() =~= Seq::new(self.children@.len(), |k: int| self.children@[k]@));
        }
        if let Some(index) = position_of(&self.children, id) {
            let removed = self.children.remove(index);
            proof {
                lemma_children_model(self);
                assert(self@.kids() =~= old(self)@.kids().remove(index as int));
            }
            return Some(removed);
        }
        let n = self.children.len();
        let mut j: usize = 0;
        while j < n
            invariant
                n == self.children@.len(),
                first_index(old(self)@.kids(), id) is None,
                j <= n,
                self@ == old(self)@,
                remove_model(old(self)@, id) == remove_in(old(self)@, id, j as int),
                forall|i: int| 0 <= i < n ==> #[trigger] self@.kids()[i] == self.children@[i]@,
                self@.kids().len() == n,
            decreases n - j,
        {
            let ghost pre_children = self.children@;
            assert(forall|i: int| 0 <= i < n ==> #[trigger] pre_children[i]@ == old(self)@.kids()[i]);
            let mut child = self.children.remove(j);
            let ghost before = child@;
            assert(before == pre_children[j as int]@);
            assert(before == old(self)@.kids()[j as int]);
            assert(decreases_to!(old(self)@ => old(self)@.kids()[j as int]));
            let r = child.remove(id);
            let ghost after = child@;
            self.children.insert(j, child);
            proof {
                lemma_children_model(self);
                lemma_remove_not_found(before, id);
                assert forall|i: int| 0 <= i < n && i != j implies #[trigger] self.children@[i]@
                    == old(self)@.kids()[i] by {
                    assert(self.children@[i] == pre_children[i]);
                }
            }
            if r.is_some() {
                proof {
                    assert(self@.kids() =~= old(self)@.kids().update(j as int, after));
                }
                return r;
            }
            proof {
                assert(self@.kids() =~= old(self)@.kids());
            }
            j += 1;
        }
        None
    }

    fn insert_into(&mut self, parent_id: usize, position: DirPosition, value: Node) -> (r: Result<(), Node>)
        ensures
            final(self)@ == insert_model(old(self)@, parent_id, position, value@).0,
            (r is Ok) == insert_model(old(self)@, parent_id, position, value@).1,
            r matches Err(v) ==> v == value,
        decreases old(self)@, 0int,
    {
        let ghost v0 = value;
        if self.id == parent_id {
            proof {
                lemma_children_model(self);
                assert(self@.kids() =~= Seq::new(self.children@.len(), |k: int| self.children@[k]@));
            }
            match position {
                DirPosition::First => {
                    self.children.insert(0, value);
                    proof {
                        lemma_children_model(self);
                        assert(self@.kids() =~= old(self)@.kids().insert(0, v0@));
                    }
                },
                DirPosition::Last => {
                    self.children.push(value);
                    proof {
                        lemma_children_model(self);
                        assert(self@.kids() =~= old(self)@.kids().push(v0@));
                    }
                },
                DirPosition::After(after_id) => {
                    if let Some(index) = position_of(&self.children, after_id) {
                        self.children.insert(index + 1, value);
                        proof {
                            lemma_children_model(self);
                            assert(self@.kids() =~= old(self)@.kids().insert(index + 1, v0@));
                        }
                    }
                },
                DirPosition::Before(before_id) => {
                    if let Some(index) = position_of(&self.children, before_id) {
                        self.children.insert(index, value);
                        proof {
                            lemma_children_model(self);
                            assert(self@.kids() =~= old(self)@.kids().insert(index as int, v0@));
                        }
                    }
                },
            }
            return Ok(());
        }
        proof { lemma_children_model(self); }
        let mut pending = value;
        let n = self.children.len();
        let mut j: usize = 0;
        while j < n
            invariant
                n == self.children@.len(),
                self.id == old(self).id,
                self.id != parent_id,
                j <= n,
                pending == v0,
                v0 == value,
                self@ == old(self)@,
                insert_model(old(self)@, parent_id, position, v0@) == insert_in(old(self)@, parent_id, position, v0@, j as int),
                forall|i: int| 0 <= i < n ==> #[trigger] self@.kids()[i] == self.children@[i]@,
                self@.kids().len() == n,
            decreases n - j,
        {
            let ghost pre_children = self.children@;
            assert(forall|i: int| 0 <= i < n ==> #[trigger] pre_children[i]@ == old(self)@.kids()[i]);
            let mut child = self.children.remove(j);
            let ghost before = child@;
            assert(before == pre_children[j as int]@);
            assert(before == old(self)@.kids()[j as int]);
            assert(decreases_to!(old(self)@ => old(self)@.kids()[j as int]));
            let r = child.insert(parent_id, position, pending);
            let ghost after = child@;
            self.children.insert(j, child);
            proof {
                lemma_children_model(self);
                lemma_insert_not_found(before, parent_id, position, v0@);
                assert forall|i: int| 0 <= i < n && i != j implies #[trigger] self.children@[i]@
                    == old(self)@.kids()[i] by {
                    assert(self.children@[i] == pre_children[i]);
                }
            }
            match r {
                Ok(()) => {
                    proof {
                        assert(self@.kids() =~= old(self)@.kids().update(j as int, after));
                    }
                    return Ok(());
                },
                Err(v) => {
                    pending = v;
                },
            }
            proof {
                assert(self@.kids() =~= old(self)@.kids());
            }
            j += 1;
        }
        Err(pending)
    }
}


/// Every file with id `target` in the tree rooted at `n` gets `doc` as its document id.
pub open spec fn update_model(n: ENode, target: usize, doc: usize) -> ENode
    decreases n, 1int, 0int,
{
    match n {
        ENode::Leaf { id, name, document_id } => if id == target {
            ENode::Leaf { id, name, document_id: Some(doc) }
        } else {
            n
        },
        ENode::Dir { .. } => n.with_kids(update_kids(n, target, doc, n.kids().len() as int)),
    }
}

/// The first `k` children of `n`, each updated as `update_model` says.
pub open spec fn update_kids(n: ENode, target: usize, doc: usize, k: int) -> Seq<ENode>
    decreases n, 0int, k,
{
    if k <= 0 || k > n.kids().len() {
        Seq::empty()
    } else {
        proof { assert(decreases_to!(n => n.kids()[k - 1])); }
        update_kids(n, target, doc, k - 1).push(update_model(n.kids()[k - 1], target, doc))
    }
}

proof fn lemma_update_kids(n: ENode, target: usize, doc: usize, k: int)
    requires
        0 <= k <= n.kids().len(),
    ensures
        update_kids(n, target, doc, k).len() == k,
        forall|i: int| 0 <= i < k ==> #[trigger] update_kids(n, target, doc, k)[i] == update_model(n.kids()[i], target, doc),
    decreases k,
{
    if k > 0 {
        lemma_update_kids(n, target, doc, k - 1);
    }
}

/// Sets the document id of every file with id `target` in the tree.
pub fn update_doc_id(node: &mut Node, target_id: usize, doc_id: usize)
    ensures
        final(node)@ == update_model(old(node)@, target_id, doc_id),
    decreases old(node)@, 1int,
{
    match node {
        Node::File(f) => {
            if f.id == target_id {
                f.document_id = Some(doc_id);
            }
        },
        Node::Directory(d) => update_doc_id_in(d, target_id, doc_id),
    }
}

fn update_doc_id_in(d: &mut Directory, target_id: usize, doc_id: usize)
    ensures
        final(d)@ == update_model(old(d)@, target_id, doc_id),
    decreases old(d)@, 0int,
{
    proof {
        lemma_children_model(d);
        lemma_update_kids(old(d)@, target_id, doc_id, old(d)@.kids().len() as int);
    }
    let n = d.children.len();
    let mut j: usize = 0;
    while j < n
        invariant
            n == d.children@.len(),
            j <= n,
            d.id == old(d).id,
            d.name == old(d).name,
            n == old(d)@.kids().len(),
            forall|i: int| 0 <= i < j ==> #[trigger] d.children@[i]@ == update_model(old(d)@.kids()[i], target_id, doc_id),
            forall|i: int| j <= i < n ==> #[trigger] d.children@[i]@ == old(d)@.kids()[i],
            forall|i: int| 0 <= i < n ==> #[trigger] update_kids(old(d)@, target_id, doc_id, n as int)[i] == update_model(old(d)@.kids()[i], target_id, doc_id),
            update_kids(old(d)@, target_id, doc_id, n as int).len() == n,
        decreases n - j,
    {
        let ghost pre_children = d.children@;
        let mut child = d.children.remove(j);
        assert(child@ == old(d)@.kids()[j as int]);
        assert(decreases_to!(old(d)@ => old(d)@.kids()[j as int]));
        update_doc_id(&mut child, target_id, doc_id);
        d.children.insert(j, child);
        assert forall|i: int| 0 <= i < n && i != j implies #[trigger] d.children@[i] == pre_children[i] by {}
        j += 1;
    }
    proof {
        lemma_children_model(d);
        assert(d@.kids() =~= update_kids(old(d)@, target_id, doc_id, n as int));
    }
}

/// The document id and name of the first file (in pre-order) with id `target`
/// that has a document id.
pub open spec fn find_doc_model(n: ENode, target: usize) -> Option<(usize, Seq<char>)>
    decreases n, n.kids().len() + 1,
{
    match n {
        ENode::Leaf { id, name, document_id } => if id == target && document_id is Some {
            Some((document_id->0, name))
        } else {
            None
        },
        ENode::Dir { .. } => find_doc_in(n, target, 0),
    }
}

/// `find_doc_model` over the subtrees of the children of `n` from the `j`-th on.
pub open spec fn find_doc_in(n: ENode, target: usize, j: int) -> Option<(usize, Seq<char>)>
    decreases n, n.kids().len() - j,
{
    if j < 0 || j >= n.kids().len() {
        None
    } else {
        proof { assert(decreases_to!(n => n.kids()[j])); }
        match find_doc_model(n.kids()[j], target) {
            Some(x) => Some(x),
            None => find_doc_in(n, target, j + 1),
        }
    }
}

/// Finds the document behind the first file node with id `target` that has one,
/// with the file's name.
pub fn find_doc(node: &Node, target: usize) -> (r: Option<(usize, String)>)
    ensures
        r matches Some((d, name)) ==> find_doc_model(node@, target) == Some((d, name@)),
        r is None ==> find_doc_model(node@, target) is None,
    decreases node@, 1int,
{
    match node {
        Node::File(f) => {
            if f.id == target {
                match f.document_id {
                    Some(did) => Some((did, f.name.clone())),
                    None => None,
                }
            } else {
                None
            }
        },
        Node::Directory(d) => find_doc_in_dir(d, target),
    }
}

fn find_doc_in_dir(d: &Directory, target: usize) -> (r: Option<(usize, String)>)
    ensures
        r matches Some((id, name)) ==> find_doc_model(d@, target) == Some((id, name@)),
        r is None ==> find_doc_model(d@, target) is None,
    decreases d@, 0int,
{
    proof { lemma_children_model(d); }
    let n = d.children.len();
    let mut j: usize = 0;
    while j < n
        invariant
            n == d.children@.len(),
            j <= n,
            find_doc_model(d@, target) == find_doc_in(d@, target, j as int),
            forall|i: int| 0 <= i < n ==> #[trigger] d@.kids()[i] == d.children@[i]@,
            d@.kids().len() == n,
        decreases n - j,
    {
        assert(decreases_to!(d@ => d@.kids()[j as int]));
        let r = find_doc(&d.children[j], target);
        if r.is_some() {
            return r;
        }
        j += 1;
    }
    None
}


/// A folder as the explorer reads it from the server.
pub struct FolderModel {
    pub id: i32,
    pub name: String,
    pub parent_folder_id: Option<i32>,
}

/// Every chain of folders hanging from `parent` is shorter than `fuel`.
pub open spec fn folders_finite_below(fs: Seq<FolderModel>, parent: Option<i32>, fuel: nat) -> bool
    decreases fuel,
{
    fuel > 0 && forall|i: int|
        0 <= i < fs.len() && #[trigger] fs[i].parent_folder_id == parent
            ==> folders_finite_below(fs, Some(fs[i].id), (fuel - 1) as nat)
}

/// The nodes under the folder `parent` (the root for `None`), with the node id
/// counter before and after: first the folders, in list order, each with its
/// own contents (a folder keeps its id, and the counter moves past it), then the
/// documents, in list order, each taking the next id from the counter.
pub open spec fn built_nodes(fs: Seq<FolderModel>, ds: Seq<DocumentDto>, parent: Option<i32>, next: int, fuel: nat) -> (Seq<ENode>, int)
    decreases fuel, 2int, 0int,
{
    let (dirs, n1) = built_dirs(fs, ds, parent, next, fuel, fs.len() as int);
    let (files, n2) = built_files(ds, parent, n1, ds.len() as int);
    (dirs + files, n2)
}

/// The folders among the first `k` under `parent`, with the counter before and after.
pub open spec fn built_dirs(fs: Seq<FolderModel>, ds: Seq<DocumentDto>, parent: Option<i32>, next: int, fuel: nat, k: int) -> (Seq<ENode>, int)
    decreases fuel, 1int, k,
{
    if k <= 0 || k > fs.len() || fuel == 0 {
        (Seq::empty(), next)
    } else {
        let (before, n) = built_dirs(fs, ds, parent, next, fuel, k - 1);
        let f = fs[k - 1];
        if f.parent_folder_id == parent {
            let dir_id = (f.id as usize) as int;
            let n1 = if dir_id >= n { dir_id + 1 } else { n };
            let (kids, n2) = built_nodes(fs, ds, Some(f.id), n1, (fuel - 1) as nat);
            (before.push(ENode::Dir { id: dir_id as usize, name: f.name@, children: kids }), n2)
        } else {
            (before, n)
        }
    }
}

/// The documents among the first `k` in folder `parent`, with the counter before and after.
pub open spec fn built_files(ds: Seq<DocumentDto>, parent: Option<i32>, next: int, k: int) -> (Seq<ENode>, int)
    decreases k,
{
    if k <= 0 || k > ds.len() {
        (Seq::empty(), next)
    } else {
        let (before, n) = built_files(ds, parent, next, k - 1);
        let d = ds[k - 1];
        if d.folder_id == parent {
            (before.push(ENode::Leaf { id: n as usize, name: d.name@, document_id: Some(d.id as usize) }), n + 1)
        } else {
            (before, n)
        }
    }
}

proof fn lemma_built_files_grows(ds: Seq<DocumentDto>, parent: Option<i32>, next: int, k: int)
    ensures
        built_files(ds, parent, next, k).1 >= next,
    decreases k,
{
    if k > 0 && k <= ds.len() {
        lemma_built_files_grows(ds, parent, next, k - 1);
    }
}

proof fn lemma_built_grows(fs: Seq<FolderModel>, ds: Seq<DocumentDto>, parent: Option<i32>, next: int, fuel: nat)
    ensures
        built_nodes(fs, ds, parent, next, fuel).1 >= next,
    decreases fuel, 2int, 0int,
{
    lemma_built_dirs_grows(fs, ds, parent, next, fuel, fs.len() as int);
    let n1 = built_dirs(fs, ds, parent, next, fuel, fs.len() as int).1;
    lemma_built_files_grows(ds, parent, n1, ds.len() as int);
}

proof fn lemma_built_dirs_grows(fs: Seq<FolderModel>, ds: Seq<DocumentDto>, parent: Option<i32>, next: int, fuel: nat, k: int)
    ensures
        built_dirs(fs, ds, parent, next, fuel, k).1 >= next,
    decreases fuel, 1int, k,
{
    if k > 0 && k <= fs.len() && fuel > 0 {
        lemma_built_dirs_grows(fs, ds, parent, next, fuel, k - 1);
        let n = built_dirs(fs, ds, parent, next, fuel, k - 1).1;
        let f = fs[k - 1];
        if f.parent_folder_id == parent {
            let dir_id = (f.id as usize) as int;
            let n1 = if dir_id >= n { dir_id + 1 } else { n };
            lemma_built_grows(fs, ds, Some(f.id), n1, (fuel - 1) as nat);
        }
    }
}

/// Tells whether building the tree under `parent` ends: it does exactly when
/// no chain of parent links from `parent` runs round a cycle.
pub fn folder_tree_is_finite(folders: &Vec<FolderModel>, parent: Option<i32>) -> (r: bool)
    ensures
        r == folders_finite_below(folders@, parent, (folders@.len() + 1) as nat),
{
    check_folders_finite(folders, parent, folders.len())
}

fn check_folders_finite(folders: &Vec<FolderModel>, parent: Option<i32>, fuel: usize) -> (r: bool)
    ensures
        r == folders_finite_below(folders@, parent, (fuel + 1) as nat),
    decreases fuel,
{
    let mut i: usize = 0;
    while i < folders.len()
        invariant
            i <= folders@.len(),
            forall|k: int| 0 <= k < i && #[trigger] folders@[k].parent_folder_id == parent
                ==> folders_finite_below(folders@, Some(folders@[k].id), fuel as nat),
        decreases folders@.len() - i,
    {
        let f = &folders[i];
        if f.parent_folder_id == parent {
            assert(folders@[i as int].parent_folder_id == parent);
            if fuel == 0 {
                assert(!folders_finite_below(folders@, Some(folders@[i as int].id), 0));
                return false;
            }
            if !check_folders_finite(folders, Some(f.id), fuel - 1) {
                return false;
            }
        }
        i += 1;
    }
    true
}

/// Builds the nodes under folder `parent`, or nothing when the id counter would
/// pass `usize::MAX`.
fn build_checked(folders: &Vec<FolderModel>, docs: &Vec<DocumentDto>, parent: Option<i32>, next: &mut usize, Ghost(fuel): Ghost<nat>) -> (r: Option<Vec<Node>>)
    requires
        folders_finite_below(folders@, parent, fuel),
    ensures
        match r {
            Some(v) => built_nodes(folders@, docs@, parent, *old(next) as int, fuel).1 <= usize::MAX
                && v@.map_values(|n: Node| n@) == built_nodes(folders@, docs@, parent, *old(next) as int, fuel).0
                && *final(next) as int == built_nodes(folders@, docs@, parent, *old(next) as int, fuel).1,
            None => built_nodes(folders@, docs@, parent, *old(next) as int, fuel).1 > usize::MAX,
        },
    decreases fuel,
{
    let ghost start = *next as int;
    let mut children: Vec<Node> = Vec::new();
    let mut i: usize = 0;
    while i < folders.len()
        invariant
            i <= folders@.len(),
            fuel > 0,
            start == *old(next) as int,
            folders_finite_below(folders@, parent, fuel),
            children@.map_values(|n: Node| n@) == built_dirs(folders@, docs@, parent, start, fuel, i as int).0,
            *next as int == built_dirs(folders@, docs@, parent, start, fuel, i as int).1,
        decreases folders@.len() - i,
    {
        let f = &folders[i];
        if f.parent_folder_id == parent {
            assert(folders@[i as int].parent_folder_id == parent);
            let dir_id = f.id as usize;
            if dir_id >= *next {
                if dir_id == usize::MAX {
                    proof {
                        lemma_built_grows(folders@, docs@, Some(f.id), dir_id + 1, (fuel - 1) as nat);
                        lemma_built_dirs_rest(folders@, docs@, parent, start, fuel, i + 1);
                    }
                    return None;
                }
                *next = dir_id + 1;
            }
            let ghost n1 = *next as int;
            let sub = build_checked(folders, docs, Some(f.id), next, Ghost((fuel - 1) as nat));
            match sub {
                None => {
                    proof {
                        lemma_built_dirs_rest(folders@, docs@, parent, start, fuel, i + 1);
                    }
                    return None;
                },
                Some(kids) => {
                    let d = Directory { id: dir_id, name: f.name.clone(), children: kids };
                    proof {
                        lemma_children_model(&d);
                        assert(d@.kids() =~= built_nodes(folders@, docs@, Some(f.id), n1, (fuel - 1) as nat).0);
                    }
                    let node = Node::Directory(d);
                    let ghost before = children@.map_values(|n: Node| n@);
                    children.push(node);
                    proof {
                        assert(children@.map_values(|n: Node| n@) =~= before.push(node@));
                    }
                },
            }
        }
        i += 1;
    }
    let ghost mid = *next as int;
    let mut j: usize = 0;
    let ghost dirs = children@.map_values(|n: Node| n@);
    while j < docs.len()
        invariant
            j <= docs@.len(),
            start == *old(next) as int,
            mid == built_dirs(folders@, docs@, parent, start, fuel, folders@.len() as int).1,
            dirs == built_dirs(folders@, docs@, parent, start, fuel, folders@.len() as int).0,
            children@.map_values(|n: Node| n@) == dirs + built_files(docs@, parent, mid, j as int).0,
            *next as int == built_files(docs@, parent, mid, j as int).1,
        decreases docs@.len() - j,
    {
        let d = &docs[j];
        if d.folder_id == parent {
            if *next == usize::MAX {
                proof {
                    lemma_built_files_rest(docs@, parent, mid, j + 1);
                }
                return None;
            }
            let file_id = *next;
            *next = *next + 1;
            let node = Node::File(File { id: file_id, name: d.name.clone(), document_id: Some(d.id as usize) });
            let ghost before = children@.map_values(|n: Node| n@);
            children.push(node);
            proof {
                assert(children@.map_values(|n: Node| n@) =~= before.push(node@));
                assert(dirs + built_files(docs@, parent, mid, j + 1).0 =~= (dirs + built_files(docs@, parent, mid, j as int).0).push(node@));
            }
        }
        j += 1;
    }
    Some(children)
}

proof fn lemma_built_files_rest(ds: Seq<DocumentDto>, parent: Option<i32>, next: int, k: int)
    requires
        1 <= k <= ds.len(),
        ds[k - 1].folder_id == parent,
        built_files(ds, parent, next, k - 1).1 >= usize::MAX,
    ensures
        built_files(ds, parent, next, ds.len() as int).1 > usize::MAX,
    decreases ds.len() - k,
{
    if k < ds.len() {
        lemma_files_mono(ds, parent, next, k, ds.len() as int);
    }
}

proof fn lemma_files_mono(ds: Seq<DocumentDto>, parent: Option<i32>, next: int, a: int, b: int)
    requires
        0 <= a <= b <= ds.len(),
    ensures
        built_files(ds, parent, next, a).1 <= built_files(ds, parent, next, b).1,
    decreases b - a,
{
    if a < b {
        lemma_files_mono(ds, parent, next, a, b - 1);
    }
}

proof fn lemma_dirs_mono(fs: Seq<FolderModel>, ds: Seq<DocumentDto>, parent: Option<i32>, next: int, fuel: nat, a: int, b: int)
    requires
        0 <= a <= b <= fs.len(),
    ensures
        built_dirs(fs, ds, parent, next, fuel, a).1 <= built_dirs(fs, ds, parent, next, fuel, b).1,
    decreases b - a,
{
    if a < b {
        lemma_dirs_mono(fs, ds, parent, next, fuel, a, b - 1);
        if fuel > 0 {
            let n = built_dirs(fs, ds, parent, next, fuel, b - 1).1;
            let f = fs[b - 1];
            if f.parent_folder_id == parent {
                let dir_id = (f.id as usize) as int;
                let n1 = if dir_id >= n { dir_id + 1 } else { n };
                lemma_built_grows(fs, ds, Some(f.id), n1, (fuel - 1) as nat);
            }
        }
    }
}

proof fn lemma_built_dirs_rest(fs: Seq<FolderModel>, ds: Seq<DocumentDto>, parent: Option<i32>, next: int, fuel: nat, k: int)
    requires
        1 <= k <= fs.len(),
        built_dirs(fs, ds, parent, next, fuel, k).1 > usize::MAX,
    ensures
        built_nodes(fs, ds, parent, next, fuel).1 > usize::MAX,
{
    lemma_dirs_mono(fs, ds, parent, next, fuel, k, fs.len() as int);
    let n1 = built_dirs(fs, ds, parent, next, fuel, fs.len() as int).1;
    lemma_built_files_grows(ds, parent, n1, ds.len() as int);
}


/// Builds the explorer nodes under folder `parent` (the root for `None`) from
/// the server's folders and documents, taking new ids from `next`.
pub fn build_node(folders: &Vec<FolderModel>, docs: &Vec<DocumentDto>, parent: Option<i32>, next: &mut usize) -> (r: Vec<Node>)
    requires
        folders_finite_below(folders@, parent, (folders@.len() + 1) as nat),
        built_nodes(folders@, docs@, parent, *old(next) as int, (folders@.len() + 1) as nat).1 <= usize::MAX,
    ensures
        r@.map_values(|n: Node| n@) == built_nodes(folders@, docs@, parent, *old(next) as int, (folders@.len() + 1) as nat).0,
        *final(next) as int == built_nodes(folders@, docs@, parent, *old(next) as int, (folders@.len() + 1) as nat).1,
{
    match build_checked(folders, docs, parent, next, Ghost((folders@.len() + 1) as nat)) {
        Some(v) => v,
        None => {
            proof {
                assert(false);
            }
            Vec::new()
        },
    }
}

/// Whether building the tree under `parent` ends and keeps the id counter within `usize`.
pub fn explorer_tree_fits(folders: &Vec<FolderModel>, docs: &Vec<DocumentDto>, parent: Option<i32>, next: usize) -> (r: bool)
    ensures
        r == (folders_finite_below(folders@, parent, (folders@.len() + 1) as nat)
            && built_nodes(folders@, docs@, parent, next as int, (folders@.len() + 1) as nat).1 <= usize::MAX),
{
    if !folder_tree_is_finite(folders, parent) {
        return false;
    }
    let mut n = next;
    build_checked(folders, docs, parent, &mut n, Ghost((folders@.len() + 1) as nat)).is_some()
}

/// What a dialog of the explorer is about.
pub enum ModalAction {
    /// Add a document under the directory with this id, at this position.
    AddFile(usize, DirPosition),
    /// Add a directory under the directory with this id, at this position.
    AddDir(usize, DirPosition),
    /// Delete the node with this id.
    ConfirmDelete(usize),
}

/// An open dialog of the explorer and the text typed into it.
pub struct ModalState {
    pub action: ModalAction,
    pub input_name: String,
}

/// The state of the project explorer. `tree_pending` and `new_doc_pending` tell
/// that the tree, or a created document, is still awaited from the server.
pub struct ExplorerState {
    pub import_status: Option<String>,
    pub tree: Node,
    pub next_id: usize,
    pub modal_state: Option<ModalState>,
    pub fetched_initial: bool,
    pub tree_pending: bool,
    pub new_doc_pending: bool,
}

/// The name of the explorer's root: `"My AHP Documents"`.
pub open spec fn root_name() -> Seq<char> {
    "My AHP Documents"@
}

impl Default for ExplorerState {
    /// An empty root directory (id 0), new ids from 3, nothing fetched.
    fn default() -> (s: ExplorerState)
        ensures
            s.import_status is None,
            s.tree@ == (ENode::Dir { id: 0, name: root_name(), children: Seq::empty() }),
            s.next_id == 3,
            s.modal_state is None,
            !s.fetched_initial,
            !s.tree_pending,
            !s.new_doc_pending,
    {
        let d = Directory { id: 0, name: "My AHP Documents".to_owned(), children: Vec::new() };
        proof {
            lemma_children_model(&d);
            assert(d@.kids() =~= Seq::<ENode>::empty());
        }
        ExplorerState {
            import_status: None,
            tree: Node::Directory(d),
            next_id: 3,
            modal_state: None,
            fetched_initial: false,
            tree_pending: false,
            new_doc_pending: false,
        }
    }
}

/// `url` without one trailing `/`.
pub open spec fn without_trailing_slash(url: Seq<char>) -> Seq<char> {
    if url.len() > 0 && url.last() == '/' { url.drop_last() } else { url }
}

/// How an optional folder id appears in a request body: the number, or `null`.
pub open spec fn json_folder(id: Option<int>) -> Seq<char> {
    match id {
        Some(i) => int_text(i),
        None => "null"@,
    }
}

/// A request the explorer sends to the server.
pub enum ExplorerRequest {
    /// Create a document for the new file node `ui_id`.
    CreateDocument { ui_id: usize, url: String, body: String },
    /// Create a folder.
    CreateFolder { url: String, body: String },
    /// Move a document to another folder.
    MoveDocument { url: String, body: String },
    /// Move a folder into another folder.
    UpdateFolder { url: String, body: String },
}

fn push_url_base(out: &mut Vec<char>, api_url: &str)
    ensures
        final(out)@ == old(out)@ + without_trailing_slash(api_url@),
{
    let v = chars_of(api_url);
    let n = if v.len() > 0 && v[v.len() - 1] == '/' { v.len() - 1 } else { v.len() };
    let mut i: usize = 0;
    while i < n
        invariant
            n <= v@.len(),
            v@ == api_url@,
            i <= n,
            n == (if v@.len() > 0 && v@.last() == '/' { v@.len() - 1 } else { v@.len() as int }),
            out@ == old(out)@ + v@.take(i as int),
        decreases n - i,
    {
        out.push(v[i]);
        proof {
            assert(v@.take(i + 1) =~= v@.take(i as int).push(v@[i as int]));
        }
        i += 1;
    }
    proof {
        assert(v@.take(n as int) =~= without_trailing_slash(api_url@));
    }
}

fn push_folder_ref(out: &mut Vec<char>, id: Option<i32>)
    ensures
        final(out)@ == old(out)@ + json_folder(match id { Some(i) => Some(i as int), None => None }),
{
    match id {
        Some(i) => push_int(out, i as i64),
        None => push_str(out, "null"),
    }
}

/// The folder a node under `parent` belongs to: none for the root (id 0).
pub open spec fn folder_of(parent: usize) -> Option<int> {
    if parent == 0 { None } else { Some((parent as i32) as int) }
}

/// The body that creates a document called `name` in folder `folder`.
pub open spec fn create_document_body(name: Seq<char>, folder: Option<int>) -> Seq<char> {
    "{\"name\":\""@ + name + "\",\"owner_id\":1,\"aggregation_method\":\"AIJ\",\"folder_id\":"@ + json_folder(folder) + "}"@
}

/// The body that creates (or moves) a folder called `name` in folder `parent`.
pub open spec fn folder_body(name: Seq<char>, parent: Option<int>) -> Seq<char> {
    "{\"name\":\""@ + name + "\",\"owner_id\":1,\"parent_folder_id\":"@ + json_folder(parent) + "}"@
}

/// The body that moves a document into folder `folder`.
pub open spec fn move_body(folder: Option<int>) -> Seq<char> {
    "{\"folder_id\":"@ + json_folder(folder) + "}"@
}

impl ExplorerState {
    /// Takes in the server's folders and documents: the root now holds them.
    pub fn apply_tree(&mut self, folders: &Vec<FolderModel>, docs: &Vec<DocumentDto>)
        requires
            folders_finite_below(folders@, None, (folders@.len() + 1) as nat),
            built_nodes(folders@, docs@, None, old(self).next_id as int, (folders@.len() + 1) as nat).1 <= usize::MAX,
        ensures
            final(self).tree@ == (ENode::Dir {
                id: 0,
                name: root_name(),
                children: built_nodes(folders@, docs@, None, old(self).next_id as int, (folders@.len() + 1) as nat).0,
            }),
            final(self).next_id as int == built_nodes(folders@, docs@, None, old(self).next_id as int, (folders@.len() + 1) as nat).1,
            !final(self).tree_pending,
            *final(self) == (ExplorerState { tree: final(self).tree, next_id: final(self).next_id, tree_pending: false, ..*old(self) }),
    {
        let children = build_node(folders, docs, None, &mut self.next_id);
        let d = Directory { id: 0, name: "My AHP Documents".to_owned(), children };
        proof {
            lemma_children_model(&d);
            assert(d@.kids() =~= built_nodes(folders@, docs@, None, old(self).next_id as int, (folders@.len() + 1) as nat).0);
        }
        self.tree = Node::Directory(d);
        self.tree_pending = false;
    }

    /// A document was created for the file node `ui_id`: the node now points at it.
    pub fn apply_created(&mut self, ui_id: usize, doc: &DocumentDto)
        ensures
            final(self).tree@ == update_model(old(self).tree@, ui_id, doc.id as usize),
            !final(self).new_doc_pending,
            *final(self) == (ExplorerState { tree: final(self).tree, new_doc_pending: false, ..*old(self) }),
    {
        update_doc_id(&mut self.tree, ui_id, doc.id as usize);
        self.new_doc_pending = false;
    }

    /// Opens the dialog for `action`, with an empty text.
    pub fn open_modal(&mut self, action: ModalAction)
        ensures
            final(self).modal_state matches Some(m) && m.action == action && m.input_name@.len() == 0,
            *final(self) == (ExplorerState { modal_state: final(self).modal_state, ..*old(self) }),
    {
        self.modal_state = Some(ModalState { action, input_name: String::new() });
    }
}


/// The body that creates a document called `name` in folder `folder`.
fn create_document_text(name: &str, folder: Option<i32>) -> (r: String)
    ensures
        r@ == create_document_body(name@, match folder { Some(i) => Some(i as int), None => None }),
{
    let mut v: Vec<char> = Vec::new();
    push_str(&mut v, "{\"name\":\"");
    push_str(&mut v, name);
    push_str(&mut v, "\",\"owner_id\":1,\"aggregation_method\":\"AIJ\",\"folder_id\":");
    push_folder_ref(&mut v, folder);
    push_str(&mut v, "}");
    string_from_chars(v.as_slice())
}

/// The body that creates (or moves) a folder called `name` in folder `parent`.
fn folder_text(name: &str, parent: Option<i32>) -> (r: String)
    ensures
        r@ == folder_body(name@, match parent { Some(i) => Some(i as int), None => None }),
{
    let mut v: Vec<char> = Vec::new();
    push_str(&mut v, "{\"name\":\"");
    push_str(&mut v, name);
    push_str(&mut v, "\",\"owner_id\":1,\"parent_folder_id\":");
    push_folder_ref(&mut v, parent);
    push_str(&mut v, "}");
    string_from_chars(v.as_slice())
}

/// `api_url` without a trailing `/`, then `suffix`.
fn url_with(api_url: &str, suffix: &str) -> (r: String)
    ensures
        r@ == without_trailing_slash(api_url@) + suffix@,
{
    let mut v: Vec<char> = Vec::new();
    push_url_base(&mut v, api_url);
    push_str(&mut v, suffix);
    string_from_chars(v.as_slice())
}

/// The folder a node under `parent` belongs to, as the server numbers folders.
fn folder_ref(parent: usize) -> (r: Option<i32>)
    ensures
        match r { Some(i) => Some(i as int), None => None } == folder_of(parent),
{
    if parent == 0 { None } else { Some(parent as i32) }
}

impl ExplorerState {
    /// One frame of the open dialog (see the document window's dialogs): a
    /// confirmed deletion removes the node; a confirmed addition with a name
    /// that is not blank adds a document or a directory with the next id and
    /// answers the request that creates it on the server.
    pub fn modal_step(&mut self, api_url: &str, submitted: bool, window_open: bool, close_requested: bool) -> (r: Option<ExplorerRequest>)
        requires
            old(self).next_id < usize::MAX,
        ensures
            match old(self).modal_state {
                None => r is None && final(self).tree@ == old(self).tree@ && final(self).next_id == old(self).next_id
                    && final(self).modal_state is None,
                Some(m) => {
                    let name = trimmed(m.input_name@);
                    let done = submitted && (m.action is ConfirmDelete || name.len() > 0);
                    &&& done ==> final(self).modal_state is None
                    &&& !done ==> r is None && final(self).tree@ == old(self).tree@ && final(self).next_id == old(self).next_id
                        && (if !window_open || close_requested { final(self).modal_state is None } else { final(self).modal_state == old(self).modal_state })
                    &&& done ==> match m.action {
                        ModalAction::ConfirmDelete(id) => r is None && final(self).tree@ == remove_model(old(self).tree@, id).0
                            && final(self).next_id == old(self).next_id,
                        ModalAction::AddFile(parent, pos) => {
                            &&& final(self).tree@ == insert_model(old(self).tree@, parent, pos,
                                ENode::Leaf { id: old(self).next_id, name, document_id: None }).0
                            &&& final(self).next_id == old(self).next_id + 1
                            &&& r matches Some(ExplorerRequest::CreateDocument { ui_id, url, body })
                                && ui_id == old(self).next_id && url@ == without_trailing_slash(api_url@)
                                && body@ == create_document_body(name, folder_of(parent))
                        },
                        ModalAction::AddDir(parent, pos) => {
                            &&& final(self).tree@ == insert_model(old(self).tree@, parent, pos,
                                ENode::Dir { id: old(self).next_id, name, children: Seq::empty() }).0
                            &&& final(self).next_id == old(self).next_id + 1
                            &&& r matches Some(ExplorerRequest::CreateFolder { url, body })
                                && url@ == without_trailing_slash(api_url@) + "/folders"@
                                && body@ == folder_body(name, folder_of(parent))
                        },
                    }
                },
            },
            *final(self) == (ExplorerState {
                tree: final(self).tree,
                next_id: final(self).next_id,
                modal_state: final(self).modal_state,
                ..*old(self)
            }),
    {
        let name = match &self.modal_state {
            None => {
                return None;
            },
            Some(m) => trim(m.input_name.as_str()),
        };
        let accepted = match &self.modal_state {
            Some(m) => match &m.action {
                ModalAction::ConfirmDelete(_) => true,
                _ => !name.as_str().is_empty(),
            },
            None => false,
        };
        if submitted && accepted {
            let mut req: Option<ExplorerRequest> = None;
            match &self.modal_state {
                Some(m) => match &m.action {
                    ModalAction::ConfirmDelete(id) => {
                        let id = *id;
                        let _ = self.tree.remove(id);
                    },
                    ModalAction::AddFile(parent, pos) => {
                        let parent = *parent;
                        let pos = *pos;
                        let id = self.next_id;
                        let leaf = Node::File(File { id, name: name.clone(), document_id: None });
                        self.next_id = self.next_id + 1;
                        let _ = self.tree.insert(parent, pos, leaf);
                        let body = create_document_text(name.as_str(), folder_ref(parent));
                        let url = url_with(api_url, "");
                        proof {
                            reveal_strlit("");
                            assert(without_trailing_slash(api_url@) + ""@ =~= without_trailing_slash(api_url@));
                        }
                        req = Some(ExplorerRequest::CreateDocument { ui_id: id, url, body });
                    },
                    ModalAction::AddDir(parent, pos) => {
                        let parent = *parent;
                        let pos = *pos;
                        let id = self.next_id;
                        let d = Directory { id, name: name.clone(), children: Vec::new() };
                        proof {
                            lemma_children_model(&d);
                            assert(d@.kids() =~= Seq::<ENode>::empty());
                        }
                        self.next_id = self.next_id + 1;
                        let _ = self.tree.insert(parent, pos, Node::Directory(d));
                        let body = folder_text(name.as_str(), folder_ref(parent));
                        let url = url_with(api_url, "/folders");
                        req = Some(ExplorerRequest::CreateFolder { url, body });
                    },
                },
                None => {},
            }
            self.modal_state = None;
            req
        } else {
            if !window_open || close_requested {
                self.modal_state = None;
            }
            None
        }
    }

    /// Drags the node `source` into the directory `target` at `position`: the
    /// node leaves its place and is inserted there, and the request that records
    /// the move on the server is answered (none for a document not yet created).
    pub fn move_node(&mut self, api_url: &str, source: usize, target: usize, position: DirPosition) -> (r: Option<ExplorerRequest>)
        ensures
            match remove_model(old(self).tree@, source).1 {
                None => r is None && final(self).tree@ == old(self).tree@,
                Some(moved) => {
                    &&& final(self).tree@ == insert_model(remove_model(old(self).tree@, source).0, target, position, moved).0
                    &&& match moved {
                        ENode::Leaf { document_id: Some(did), .. } => r matches Some(ExplorerRequest::MoveDocument { url, body })
                            && url@ == without_trailing_slash(api_url@) + "/"@ + digits(did as nat) + "/move"@
                            && body@ == move_body(folder_of_target(target)),
                        ENode::Leaf { document_id: None, .. } => r is None,
                        ENode::Dir { id, name, .. } => r matches Some(ExplorerRequest::UpdateFolder { url, body })
                            && url@ == without_trailing_slash(api_url@) + "/folders/"@ + digits(id as nat)
                            && body@ == folder_body(name, folder_of_target(target)),
                    }
                },
            },
            *final(self) == (ExplorerState { tree: final(self).tree, ..*old(self) }),
    {
        let removed = self.tree.remove(source);
        proof {
            lemma_remove_not_found(old(self).tree@, source);
        }
        match removed {
            None => None,
            Some(node) => {
                let target_ref: Option<i32> = if target == 0 { None } else { Some(target as i32) };
                let req = match &node {
                    Node::File(f) => match f.document_id {
                        Some(did) => {
                            let mut u: Vec<char> = Vec::new();
                            push_url_base(&mut u, api_url);
                            push_str(&mut u, "/");
                            push_digits(&mut u, did as u64);
                            push_str(&mut u, "/move");
                            let mut b: Vec<char> = Vec::new();
                            push_str(&mut b, "{\"folder_id\":");
                            push_folder_ref(&mut b, target_ref);
                            push_str(&mut b, "}");
                            Some(ExplorerRequest::MoveDocument { url: string_from_chars(u.as_slice()), body: string_from_chars(b.as_slice()) })
                        },
                        None => None,
                    },
                    Node::Directory(d) => {
                        let mut u: Vec<char> = Vec::new();
                        push_url_base(&mut u, api_url);
                        push_str(&mut u, "/folders/");
                        push_digits(&mut u, d.id as u64);
                        proof {
                            lemma_children_model(d);
                        }
                        Some(ExplorerRequest::UpdateFolder { url: string_from_chars(u.as_slice()), body: folder_text(d.name.as_str(), target_ref) })
                    },
                };
                let _ = self.tree.insert(target, position, node);
                req
            },
        }
    }
}

/// The folder a dragged node lands in: none for the root (id 0).
pub open spec fn folder_of_target(target: usize) -> Option<int> {
    if target == 0 { None } else { Some((target as i32) as int) }
}


/// Where the explorer asks for the tree: `api_url` without a trailing `/`, then `/tree`.
pub fn tree_url(api_url: &str) -> (r: String)
    ensures
        r@ == without_trailing_slash(api_url@) + "/tree"@,
{
    url_with(api_url, "/tree")
}

} // verus!
