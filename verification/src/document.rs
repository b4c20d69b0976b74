//! The state of an open document window and the rules that change it: the
//! criteria editor's dialogs, the comparison values, saving and loading, and
//! the evaluator assignments.

use vstd::prelude::*;
use crate::criteria::{CNode, CriteriaNode, DirPosition, Edit, edit_model, find_model, insert_model, lemma_children_model, remove_model};
use crate::text::{contains, contains_text, int_text, parsed_i32, parse_i32, push_int, push_str, str_eq, string_from_chars, trim, trimmed};

verus! {

broadcast use vstd::string::group_string_axioms;

/// What a dialog of the criteria editor is about.
pub enum CriteriaModalAction {
    /// Delete the node with this id (and type).
    ConfirmDelete(usize, String),
    /// Add a node of the given type under the parent with this id, at this position.
    AddChild(usize, DirPosition, String),
    /// Rename the node with this id (and type).
    Rename(usize, String),
    /// Edit the cost of the node with this id (and type).
    EditCost(usize, String),
}

/// An open dialog of the criteria editor and the text typed into it.
pub struct CriteriaModalState {
    pub action: CriteriaModalAction,
    pub input_name: String,
}

/// The users and groups assigned to evaluate a document.
pub struct DocumentAssignments {
    pub user_ids: Vec<i32>,
    pub group_ids: Vec<i32>,
}

/// The column the results table is sorted by.
#[derive(PartialEq, Eq, Structural, Clone, Copy, Debug)]
pub enum SortColumn {
    CandidateName,
    Alignment,
    Cost,
    ValueScore,
}

/// The tabs of a document window.
#[derive(PartialEq, Eq, Structural, Clone, Copy, Debug)]
pub enum DocumentTab {
    Structure,
    Comparisons,
    Results,
    Assignments,
}

/// A document's record as the server sends it.
pub struct DocumentModel {
    pub id: i32,
    pub name: String,
    pub owner_id: i32,
    pub version: i32,
    pub aggregation_method: String,
    pub created_at: String,
    pub folder_id: Option<i32>,
}

/// A node as exchanged with the server. `C` is the type of a cost.
pub struct NodeModel<C> {
    pub id: i32,
    pub document_id: i32,
    pub parent_node_id: Option<i32>,
    pub name: String,
    pub node_type: String,
    pub cost: Option<C>,
}

/// A comparison as exchanged with the server. `V` is the type of a Saaty value.
pub struct ComparisonModel<V> {
    pub id: i32,
    pub document_id: i32,
    pub respondent_id: i32,
    pub parent_node_id: i32,
    pub node_a_id: i32,
    pub node_b_id: i32,
    pub saaty_value: V,
}

/// A whole document as exchanged with the server.
pub struct ExportedDocument<C, V> {
    pub document: DocumentModel,
    pub nodes: Vec<NodeModel<C>>,
    pub comparisons: Vec<ComparisonModel<V>>,
}

/// The Saaty values entered so far, by the pair of ids compared; each pair
/// appears once, in the order it was first entered.
pub struct SaatyTable<V> {
    entries: Vec<((usize, usize), V)>,
}

/// No pair occurs twice.
pub open spec fn keys_unique<V>(es: Seq<((usize, usize), V)>) -> bool {
    forall|i: int, j: int| 0 <= i < j < es.len() ==> es[i].0 != es[j].0
}

/// The map from pairs to values that the entries describe.
pub open spec fn entries_map<V>(es: Seq<((usize, usize), V)>) -> Map<(usize, usize), V>
    decreases es.len(),
{
    if es.len() == 0 {
        Map::empty()
    } else {
        entries_map(es.drop_last()).insert(es.last().0, es.last().1)
    }
}

proof fn lemma_entries_map<V>(es: Seq<((usize, usize), V)>)
    requires
        keys_unique(es),
    ensures
        forall|i: int| 0 <= i < es.len() ==> #[trigger] entries_map(es).contains_key(es[i].0) && entries_map(es)[es[i].0] == es[i].1,
        forall|k: (usize, usize)| entries_map(es).contains_key(k) ==> exists|i: int| 0 <= i < es.len() && #[trigger] es[i].0 == k,
    decreases es.len(),
{
    if es.len() > 0 {
        let d = es.drop_last();
        let last = es.last();
        assert(keys_unique(d));
        lemma_entries_map(d);
        assert(entries_map(es) == entries_map(d).insert(last.0, last.1));
        assert forall|i: int| 0 <= i < es.len() implies #[trigger] entries_map(es).contains_key(es[i].0) && entries_map(es)[es[i].0] == es[i].1 by {
            if i < es.len() - 1 {
                assert(es[i] == d[i]);
                assert(es[i].0 != es[es.len() - 1].0);
                assert(entries_map(d).contains_key(d[i].0));
            }
        }
        assert forall|k: (usize, usize)| entries_map(es).contains_key(k) implies exists|i: int| 0 <= i < es.len() && #[trigger] es[i].0 == k by {
            if k != last.0 {
                assert(entries_map(d).contains_key(k));
                let i = choose|i: int| 0 <= i < d.len() && #[trigger] d[i].0 == k;
                assert(es[i] == d[i]);
                assert(es[i].0 == k);
            } else {
                assert(es[es.len() - 1].0 == k);
            }
        }
    }
}

impl<V> View for SaatyTable<V> {
    type V = Map<(usize, usize), V>;

    closed spec fn view(&self) -> Map<(usize, usize), V> {
        entries_map(self.entries@)
    }
}

impl<V> SaatyTable<V> {
    /// The table's invariant: each pair once.
    pub closed spec fn wf(&self) -> bool {
        keys_unique(self.entries@)
    }

    /// The entries in the order they were first entered.
    pub closed spec fn entries(&self) -> Seq<((usize, usize), V)> {
        self.entries@
    }

    /// Law: the entries list each pair of the table once, with its value.
    pub proof fn lemma_entries_are_table(&self)
        requires
            self.wf(),
        ensures
            forall|i: int, j: int| 0 <= i < j < self.entries().len() ==> self.entries()[i].0 != self.entries()[j].0,
            forall|i: int| 0 <= i < self.entries().len() ==> #[trigger] self@.contains_key(self.entries()[i].0)
                && self@[self.entries()[i].0] == self.entries()[i].1,
            forall|k: (usize, usize)| self@.contains_key(k) ==> exists|i: int| 0 <= i < self.entries().len() && #[trigger] self.entries()[i].0 == k,
    {
        lemma_entries_map(self.entries@);
        assert(self.entries() == self.entries@);
        assert(self@ == entries_map(self.entries@));
    }

    /// An empty table.
    pub fn new() -> (t: SaatyTable<V>)
        ensures
            t.wf(),
            t@ == Map::<(usize, usize), V>::empty(),
            t.entries().len() == 0,
    {
        SaatyTable { entries: Vec::new() }
    }

    /// Empties the table.
    pub fn clear(&mut self)
        ensures
            final(self).wf(),
            final(self)@ == Map::<(usize, usize), V>::empty(),
            final(self).entries().len() == 0,
    {
        self.entries = Vec::new();
    }

    /// The number of pairs entered.
    pub fn len(&self) -> (n: usize)
        ensures
            n == self.entries().len(),
    {
        self.entries.len()
    }

    /// The position of `key` among the entries.
    fn position(&self, key: (usize, usize)) -> (r: Option<usize>)
        ensures
            match r {
                Some(i) => i < self.entries@.len() && self.entries@[i as int].0 == key,
                None => forall|i: int| 0 <= i < self.entries@.len() ==> self.entries@[i].0 != key,
            },
    {
        let mut i: usize = 0;
        while i < self.entries.len()
            invariant
                i <= self.entries@.len(),
                forall|j: int| 0 <= j < i ==> self.entries@[j].0 != key,
            decreases self.entries@.len() - i,
        {
            if self.entries[i].0.0 == key.0 && self.entries[i].0.1 == key.1 {
                return Some(i);
            }
            i += 1;
        }
        None
    }
}

impl<V: Copy> SaatyTable<V> {
    /// The value entered for `key`, if any.
    pub fn get(&self, key: (usize, usize)) -> (r: Option<V>)
        requires
            self.wf(),
        ensures
            r == (if self@.contains_key(key) { Some(self@[key]) } else { None }),
    {
        proof {
            lemma_entries_map(self.entries@);
        }
        match self.position(key) {
            Some(i) => Some(self.entries[i].1),
            None => {
                proof {
                    if self@.contains_key(key) {
                        let i = choose|i: int| 0 <= i < self.entries@.len() && #[trigger] self.entries@[i].0 == key;
                    }
                }
                None
            },
        }
    }

    /// The entry at position `i`: the pair and its value.
    pub fn entry(&self, i: usize) -> (r: ((usize, usize), V))
        requires
            i < self.entries().len(),
        ensures
            r == self.entries()[i as int],
    {
        self.entries[i]
    }

    /// Sets the value of `key`; a new pair goes after the others.
    pub fn insert(&mut self, key: (usize, usize), value: V)
        requires
            old(self).wf(),
        ensures
            final(self).wf(),
            final(self)@ == old(self)@.insert(key, value),
            old(self)@.contains_key(key) ==> final(self).entries().len() == old(self).entries().len(),
            !old(self)@.contains_key(key) ==> final(self).entries() == old(self).entries().push((key, value)),
    {
        proof {
            lemma_entries_map(self.entries@);
        }
        match self.position(key) {
            Some(i) => {
                let ghost before = self.entries@;
                self.entries.set(i, (key, value));
                proof {
                    lemma_entries_map(self.entries@);
                    assert(keys_unique(self.entries@));
                    assert forall|k: (usize, usize)| #[trigger] entries_map(self.entries@).contains_key(k) == entries_map(before).insert(key, value).contains_key(k) by {
                        if entries_map(before).contains_key(k) {
                            let j = choose|j: int| 0 <= j < before.len() && #[trigger] before[j].0 == k;
                            assert(self.entries@[j].0 == k);
                            assert(entries_map(self.entries@).contains_key(self.entries@[j].0));
                        }
                        if k == key {
                            assert(entries_map(self.entries@).contains_key(self.entries@[i as int].0));
                        }
                        if entries_map(self.entries@).contains_key(k) {
                            let j = choose|j: int| 0 <= j < self.entries@.len() && #[trigger] self.entries@[j].0 == k;
                            if j != i {
                                assert(before[j].0 == k);
                                assert(entries_map(before).contains_key(before[j].0));
                            }
                        }
                    }
                    assert forall|k: (usize, usize)| #[trigger] entries_map(self.entries@).contains_key(k) implies entries_map(self.entries@)[k] == entries_map(before).insert(key, value)[k] by {
                        let j = choose|j: int| 0 <= j < self.entries@.len() && #[trigger] self.entries@[j].0 == k;
                        if j != i {
                            assert(before[j] == self.entries@[j]);
                        }
                    }
                    assert(entries_map(self.entries@) =~= entries_map(before).insert(key, value));
                }
            },
            None => {
                self.entries.push((key, value));
                proof {
                    assert(self.entries@.drop_last() =~= old(self).entries@);
                }
            },
        }
    }

    /// The value of `key`, first setting it to `default` when it has none.
    pub fn value_or_insert(&mut self, key: (usize, usize), default: V) -> (r: V)
        requires
            old(self).wf(),
        ensures
            final(self).wf(),
            old(self)@.contains_key(key) ==> r == old(self)@[key] && final(self)@ == old(self)@ && final(self).entries() == old(self).entries(),
            !old(self)@.contains_key(key) ==> r == default && final(self)@ == old(self)@.insert(key, default)
                && final(self).entries() == old(self).entries().push((key, default)),
    {
        match self.get(key) {
            Some(v) => v,
            None => {
                self.insert(key, default);
                default
            },
        }
    }
}

/// The records of an assignment list: an id is added once and removed everywhere.
impl DocumentAssignments {
    /// Adds a user, unless already assigned.
    pub fn add_user(&mut self, id: i32)
        ensures
            final(self).user_ids@ == (if old(self).user_ids@.contains(id) { old(self).user_ids@ } else { old(self).user_ids@.push(id) }),
            final(self).group_ids@ == old(self).group_ids@,
    {
        add_unique(&mut self.user_ids, id);
    }

    /// Adds a group, unless already assigned.
    pub fn add_group(&mut self, id: i32)
        ensures
            final(self).group_ids@ == (if old(self).group_ids@.contains(id) { old(self).group_ids@ } else { old(self).group_ids@.push(id) }),
            final(self).user_ids@ == old(self).user_ids@,
    {
        add_unique(&mut self.group_ids, id);
    }

    /// Removes a user everywhere it occurs.
    pub fn remove_user(&mut self, id: i32)
        ensures
            final(self).user_ids@ == old(self).user_ids@.filter(|x: i32| x != id),
            final(self).group_ids@ == old(self).group_ids@,
    {
        remove_all(&mut self.user_ids, id);
    }

    /// Removes a group everywhere it occurs.
    pub fn remove_group(&mut self, id: i32)
        ensures
            final(self).group_ids@ == old(self).group_ids@.filter(|x: i32| x != id),
            final(self).user_ids@ == old(self).user_ids@,
    {
        remove_all(&mut self.group_ids, id);
    }
}

fn add_unique(v: &mut Vec<i32>, id: i32)
    ensures
        final(v)@ == (if old(v)@.contains(id) { old(v)@ } else { old(v)@.push(id) }),
{
    let mut i: usize = 0;
    while i < v.len()
        invariant
            i <= v@.len(),
            v@ == old(v)@,
            forall|j: int| 0 <= j < i ==> v@[j] != id,
        decreases v@.len() - i,
    {
        if v[i] == id {
            proof {
                assert(v@[i as int] == id);
            }
            return;
        }
        i += 1;
    }
    v.push(id);
}

fn remove_all(v: &mut Vec<i32>, id: i32)
    ensures
        final(v)@ == old(v)@.filter(|x: i32| x != id),
{
    let mut out: Vec<i32> = Vec::new();
    let mut i: usize = 0;
    while i < v.len()
        invariant
            i <= v@.len(),
            v@ == old(v)@,
            out@ == v@.take(i as int).filter(|x: i32| x != id),
        decreases v@.len() - i,
    {
        proof {
            reveal(Seq::filter);
            assert(v@.take(i + 1).drop_last() =~= v@.take(i as int));
            assert(v@.take(i + 1).last() == v@[i as int]);
        }
        if v[i] != id {
            out.push(v[i]);
        }
        i += 1;
    }
    proof {
        assert(v@.take(v@.len() as int) =~= v@);
    }
    *v = out;
}

/// Whether the typed id is added: it must read as an `i32`; then the box is
/// cleared and the id added once.
pub fn add_typed_id(ids: &mut Vec<i32>, typed: &mut String)
    ensures
        match parsed_i32(old(typed)@) {
            Some(id) => final(ids)@ == (if old(ids)@.contains(id) { old(ids)@ } else { old(ids)@.push(id) })
                && final(typed)@.len() == 0,
            None => final(ids)@ == old(ids)@ && final(typed)@ == old(typed)@,
        },
{
    match parse_i32(typed.as_str()) {
        Some(id) => {
            add_unique(ids, id);
            *typed = String::new();
        },
        None => {},
    }
}

/// A save went through when the server answered with a 2xx status and a body
/// that does not say `"ok":false`.
pub open spec fn ok_false_text() -> Seq<char> {
    seq!['"', 'o', 'k', '"', ':', 'f', 'a', 'l', 's', 'e']
}

/// Whether a save succeeded, from the status and body of the server's answer.
pub fn save_succeeded(status: u16, body: &str) -> (r: bool)
    ensures
        r == (200 <= status < 300 && !contains_text(body@, ok_false_text())),
{
    proof {
        reveal_strlit("\"ok\":false");
        assert("\"ok\":false"@ =~= ok_false_text());
    }
    200 <= status && status < 300 && !contains(body, "\"ok\":false")
}

/// `"404"`, `"Not Found"` and `"Document not found"`: errors that only mean the
/// document is new.
pub open spec fn new_document_markers() -> Seq<Seq<char>> {
    seq![
        seq!['4', '0', '4'],
        seq!['N', 'o', 't', ' ', 'F', 'o', 'u', 'n', 'd'],
        seq!['D', 'o', 'c', 'u', 'm', 'e', 'n', 't', ' ', 'n', 'o', 't', ' ', 'f', 'o', 'u', 'n', 'd']
    ]
}

/// Whether a failed load is reported: not when the error only says that the
/// document does not exist yet.
pub fn load_error_reported(error: &str) -> (r: bool)
    ensures
        r == load_error_shown(error@),
{
    proof {
        reveal_strlit("404");
        reveal_strlit("Not Found");
        reveal_strlit("Document not found");
        assert("404"@ =~= new_document_markers()[0]);
        assert("Not Found"@ =~= new_document_markers()[1]);
        assert("Document not found"@ =~= new_document_markers()[2]);
    }
    !contains(error, "404") && !contains(error, "Not Found") && !contains(error, "Document not found")
}


/// The value of an exchanged node: id, document, parent, name, type, cost.
pub type NodeRow<C> = (i32, i32, Option<i32>, Seq<char>, Seq<char>, Option<C>);

/// The value of an exchanged node.
pub open spec fn node_row<C>(n: NodeModel<C>) -> NodeRow<C> {
    (n.id, n.document_id, n.parent_node_id, n.name@, n.node_type@, n.cost)
}

/// The values of a list of exchanged nodes.
pub open spec fn node_rows<C>(ns: Seq<NodeModel<C>>) -> Seq<NodeRow<C>> {
    ns.map_values(|n: NodeModel<C>| node_row(n))
}

/// The row of a hierarchy node, under `parent`, in document `doc`.
pub open spec fn tree_row<C>(n: CNode<C>, doc: i32, parent: i32) -> NodeRow<C> {
    (n.id as i32, doc, Some(parent), n.name, n.node_type, n.cost)
}

/// The rows of `n`'s subtree in pre-order (the node, then each child's subtree
/// in turn), `n` placed under `parent` and every other node under its own parent.
pub open spec fn flatten_tree<C>(n: CNode<C>, doc: i32, parent: i32) -> Seq<NodeRow<C>>
    decreases n, n.children.len() + 1,
{
    seq![tree_row(n, doc, parent)] + flatten_in(n, doc, n.id as i32, n.children.len() as int)
}

/// The rows of the subtrees of the first `k` children of `n`, each child placed under `parent`.
pub open spec fn flatten_in<C>(n: CNode<C>, doc: i32, parent: i32, k: int) -> Seq<NodeRow<C>>
    decreases n, k,
{
    if k <= 0 || k > n.children.len() {
        Seq::empty()
    } else {
        flatten_in(n, doc, parent, k - 1) + flatten_tree(n.children[k - 1], doc, parent)
    }
}

/// The type of the goal node: `"Goal"`.
pub open spec fn goal_type() -> Seq<char> {
    seq!['G', 'o', 'a', 'l']
}

/// The name the goal is saved under: its text, or `"Goal"` when that is empty.
pub open spec fn goal_name(goal: Seq<char>) -> Seq<char> {
    if goal.len() == 0 { goal_type() } else { goal }
}

/// The nodes a document is saved as: the goal (id 0, no parent), then the
/// hierarchy below it in pre-order, the top level under the goal.
pub open spec fn saved_nodes<C>(root: CNode<C>, goal: Seq<char>, doc: i32) -> Seq<NodeRow<C>> {
    seq![(0i32, doc, None, goal_name(goal), goal_type(), None)] + flatten_in(root, doc, 0, root.children.len() as int)
}

/// Appends the rows of `node`'s subtree, `node` under `parent`.
fn push_subtree<C: Copy>(node: &CriteriaNode<C>, doc: i32, parent: i32, out: &mut Vec<NodeModel<C>>)
    ensures
        node_rows(final(out)@) == node_rows(old(out)@) + flatten_tree(node@, doc, parent),
    decreases node@,
{
    let ghost start = node_rows(out@);
    out.push(NodeModel {
        id: node.id as i32,
        document_id: doc,
        parent_node_id: Some(parent),
        name: node.name.clone(),
        node_type: node.node_type.clone(),
        cost: node.cost,
    });
    proof {
        assert(node_rows(out@) =~= start + seq![tree_row(node@, doc, parent)]);
    }
    push_children(node, doc, node.id as i32, out);
    proof {
        assert(node_rows(out@) =~= start + flatten_tree(node@, doc, parent));
    }
}

/// Appends the rows of the subtrees of `node`'s children, each child under `parent`.
fn push_children<C: Copy>(node: &CriteriaNode<C>, doc: i32, parent: i32, out: &mut Vec<NodeModel<C>>)
    ensures
        node_rows(final(out)@) == node_rows(old(out)@) + flatten_in(node@, doc, parent, node@.children.len() as int),
    decreases node@, 0int,
{
    proof {
        lemma_children_model(node);
    }
    let ghost start = node_rows(out@);
    let n = node.children.len();
    let mut k: usize = 0;
    while k < n
        invariant
            n == node.children@.len(),
            node@.children.len() == n,
            forall|i: int| 0 <= i < n ==> #[trigger] node@.children[i] == node.children@[i]@,
            k <= n,
            node_rows(out@) == start + flatten_in(node@, doc, parent, k as int),
        decreases n - k,
    {
        let c = &node.children[k];
        proof {
            assert(node@.children[k as int] == c@);
            assert(decreases_to!(node@ => node@.children));
            assert(decreases_to!(node@.children => node@.children[k as int]));
        }
        push_subtree(c, doc, parent, out);
        proof {
            assert(node_rows(out@) =~= start + flatten_in(node@, doc, parent, k + 1));
        }
        k += 1;
    }
}

/// The parent of the first node (in pre-order) that has a child with id `target`.
pub open spec fn find_parent_model<C>(n: CNode<C>, target: usize) -> Option<usize>
    decreases n, n.children.len() + 1,
{
    if exists|i: int| 0 <= i < n.children.len() && #[trigger] n.children[i].id == target {
        Some(n.id)
    } else {
        find_parent_in(n, target, 0)
    }
}

/// `find_parent_model` over the subtrees of the children of `n` from the `j`-th on.
pub open spec fn find_parent_in<C>(n: CNode<C>, target: usize, j: int) -> Option<usize>
    decreases n, n.children.len() - j,
{
    if j < 0 || j >= n.children.len() {
        None
    } else {
        match find_parent_model(n.children[j], target) {
            Some(p) => Some(p),
            None => find_parent_in(n, target, j + 1),
        }
    }
}

/// The id of the parent of `target`: the first node, in pre-order, one of whose
/// children has that id.
pub fn find_parent<C>(node: &CriteriaNode<C>, target: usize) -> (r: Option<usize>)
    ensures
        r == find_parent_model(node@, target),
    decreases node@,
{
    proof {
        lemma_children_model(node);
    }
    let n = node.children.len();
    let mut i: usize = 0;
    while i < n
        invariant
            n == node.children@.len(),
            node@.children.len() == n,
            forall|k: int| 0 <= k < n ==> #[trigger] node@.children[k] == node.children@[k]@,
            i <= n,
            forall|k: int| 0 <= k < i ==> node@.children[k].id != target,
        decreases n - i,
    {
        if node.children[i].id == target {
            proof {
                assert(node@.children[i as int].id == target);
            }
            return Some(node.id);
        }
        i += 1;
    }
    let mut j: usize = 0;
    while j < n
        invariant
            n == node.children@.len(),
            node@.children.len() == n,
            forall|k: int| 0 <= k < n ==> #[trigger] node@.children[k] == node.children@[k]@,
            !(exists|i: int| 0 <= i < node@.children.len() && #[trigger] node@.children[i].id == target),
            j <= n,
            find_parent_model(node@, target) == find_parent_in(node@, target, j as int),
        decreases n - j,
    {
        let c = &node.children[j];
        proof {
            assert(node@.children[j as int] == c@);
            assert(decreases_to!(node@ => node@.children));
            assert(decreases_to!(node@.children => node@.children[j as int]));
        }
        let r = find_parent(c, target);
        if r.is_some() {
            return r;
        }
        j += 1;
    }
    None
}

/// The value of an exchanged comparison: id, document, respondent, parent, the two nodes, value.
pub type ComparisonRow<V> = (i32, i32, i32, i32, i32, i32, V);

/// The value of an exchanged comparison.
pub open spec fn comparison_row<V>(c: ComparisonModel<V>) -> ComparisonRow<V> {
    (c.id, c.document_id, c.respondent_id, c.parent_node_id, c.node_a_id, c.node_b_id, c.saaty_value)
}

/// The comparison saved for one entered value, answered by the user
/// `respondent`: the parent is that of the first node compared (0, the goal,
/// when it has none).
pub open spec fn saved_comparison<C, V>(root: CNode<C>, doc: i32, respondent: i32, e: ((usize, usize), V)) -> ComparisonRow<V> {
    let parent = match find_parent_model(root, e.0.0) {
        Some(p) => p,
        None => 0usize,
    };
    (0i32, doc, respondent, parent as i32, e.0.0 as i32, e.0.1 as i32, e.1)
}


/// Does `n` sit directly under the node with id `parent`?
pub open spec fn is_child_row<C>(n: NodeModel<C>, parent: i32) -> bool {
    n.parent_node_id == Some(parent)
}

/// Every chain of nodes hanging from `parent` is shorter than `fuel`.
pub open spec fn rows_finite_below<C>(ns: Seq<NodeModel<C>>, parent: i32, fuel: nat) -> bool
    decreases fuel,
{
    fuel > 0 && forall|i: int|
        0 <= i < ns.len() && #[trigger] is_child_row(ns[i], parent) ==> rows_finite_below(ns, ns[i].id, (fuel - 1) as nat)
}

/// The nodes directly under `parent`, in list order, each with the nodes under
/// it; chains are followed for at most `fuel` levels.
pub open spec fn loaded_tree<C>(ns: Seq<NodeModel<C>>, parent: i32, fuel: nat) -> Seq<CNode<C>>
    decreases fuel, ns.len() + 1,
{
    loaded_upto(ns, parent, fuel, ns.len() as int)
}

/// `loaded_tree`, built from the first `k` nodes of the list.
pub open spec fn loaded_upto<C>(ns: Seq<NodeModel<C>>, parent: i32, fuel: nat, k: int) -> Seq<CNode<C>>
    decreases fuel, k,
{
    if k <= 0 || k > ns.len() || fuel == 0 {
        Seq::empty()
    } else {
        let n = ns[k - 1];
        let before = loaded_upto(ns, parent, fuel, k - 1);
        if is_child_row(n, parent) {
            before.push(CNode {
                id: n.id as usize,
                name: n.name@,
                cost: n.cost,
                node_type: n.node_type@,
                children: loaded_tree(ns, n.id, (fuel - 1) as nat),
            })
        } else {
            before
        }
    }
}

/// Tells whether building the hierarchy under `parent` ends: it does exactly
/// when no chain of parent links from `parent` runs round a cycle.
pub fn node_tree_is_finite<C>(nodes: &Vec<NodeModel<C>>, parent: i32) -> (r: bool)
    ensures
        r == rows_finite_below(nodes@, parent, (nodes@.len() + 1) as nat),
{
    check_rows_finite(nodes, parent, nodes.len())
}

fn check_rows_finite<C>(nodes: &Vec<NodeModel<C>>, parent: i32, fuel: usize) -> (r: bool)
    ensures
        r == rows_finite_below(nodes@, parent, (fuel + 1) as nat),
    decreases fuel,
{
    let mut i: usize = 0;
    while i < nodes.len()
        invariant
            i <= nodes@.len(),
            forall|k: int| 0 <= k < i && #[trigger] is_child_row(nodes@[k], parent)
                ==> rows_finite_below(nodes@, nodes@[k].id, fuel as nat),
        decreases nodes@.len() - i,
    {
        let n = &nodes[i];
        if n.parent_node_id == Some(parent) {
            assert(is_child_row(nodes@[i as int], parent));
            if fuel == 0 {
                assert(!rows_finite_below(nodes@, nodes@[i as int].id, 0));
                return false;
            }
            if !check_rows_finite(nodes, n.id, fuel - 1) {
                return false;
            }
        }
        i += 1;
    }
    true
}

/// Builds the hierarchy of the nodes under the node with id `parent_id`, in list order.
pub fn build_tree<C: Copy>(nodes: &Vec<NodeModel<C>>, parent_id: i32) -> (r: Vec<CriteriaNode<C>>)
    requires
        rows_finite_below(nodes@, parent_id, (nodes@.len() + 1) as nat),
    ensures
        r@.map_values(|c: CriteriaNode<C>| c@) == loaded_tree(nodes@, parent_id, (nodes@.len() + 1) as nat),
{
    build_fuel(nodes, parent_id, Ghost((nodes@.len() + 1) as nat))
}

fn build_fuel<C: Copy>(nodes: &Vec<NodeModel<C>>, parent_id: i32, Ghost(fuel): Ghost<nat>) -> (r: Vec<CriteriaNode<C>>)
    requires
        rows_finite_below(nodes@, parent_id, fuel),
    ensures
        r@.map_values(|c: CriteriaNode<C>| c@) == loaded_tree(nodes@, parent_id, fuel),
    decreases fuel,
{
    let mut children: Vec<CriteriaNode<C>> = Vec::new();
    let mut i: usize = 0;
    while i < nodes.len()
        invariant
            i <= nodes@.len(),
            fuel > 0,
            rows_finite_below(nodes@, parent_id, fuel),
            children@.map_values(|c: CriteriaNode<C>| c@) == loaded_upto(nodes@, parent_id, fuel, i as int),
        decreases nodes@.len() - i,
    {
        let n = &nodes[i];
        if n.parent_node_id == Some(parent_id) {
            assert(is_child_row(nodes@[i as int], parent_id));
            let sub = build_fuel(nodes, n.id, Ghost((fuel - 1) as nat));
            let node = CriteriaNode {
                id: n.id as usize,
                name: n.name.clone(),
                cost: n.cost,
                node_type: n.node_type.clone(),
                children: sub,
            };
            proof {
                lemma_children_model(&node);
                assert(node@.children =~= loaded_tree(nodes@, n.id, (fuel - 1) as nat));
            }
            let ghost before = children@.map_values(|c: CriteriaNode<C>| c@);
            children.push(node);
            proof {
                assert(children@.map_values(|c: CriteriaNode<C>| c@) =~= before.push(node@));
            }
        }
        i += 1;
    }
    children
}


/// The state of an open document window. `C` is the type of a cost and `V` that
/// of a Saaty value. The requests the window has sent and not yet seen answered
/// are the `*_pending` flags.
pub struct DocumentState<C, V> {
    pub id: i32,
    pub title: String,
    pub version: i32,
    pub active_tab: DocumentTab,
    pub aggregation_mode: String,
    pub input_mode: String,
    pub save_status: Option<String>,
    pub saaty_values: SaatyTable<V>,
    pub wizard_step: usize,
    pub goal: String,
    pub criteria: CriteriaNode<C>,
    pub open_nodes: Vec<usize>,
    pub next_id: usize,
    pub modal_state: Option<CriteriaModalState>,
    pub is_modified: bool,
    pub close_requested: bool,
    pub is_loaded: bool,
    pub load_pending: bool,
    pub save_pending: bool,
    pub duplicate_pending: bool,
    pub sort_column: SortColumn,
    pub sort_descending: bool,
    pub assignments: Option<DocumentAssignments>,
    pub assignments_pending: bool,
    pub assignments_save_pending: bool,
    pub new_user_assignment_id: String,
    pub new_group_assignment_id: String,
}

/// The first node that is the goal: of type `"Goal"` or without a parent.
pub open spec fn goal_index_from<C>(ns: Seq<NodeModel<C>>, i: int) -> Option<int>
    decreases ns.len() - i,
{
    if i < 0 || i >= ns.len() {
        None
    } else if ns[i].node_type@ == goal_type() || ns[i].parent_node_id is None {
        Some(i)
    } else {
        goal_index_from(ns, i + 1)
    }
}

/// The largest id among the nodes (0 when there are none).
pub open spec fn max_node_id<C>(ns: Seq<NodeModel<C>>) -> i32
    decreases ns.len(),
{
    if ns.len() == 0 {
        0
    } else if ns.len() == 1 || ns.last().id > max_node_id(ns.drop_last()) {
        ns.last().id
    } else {
        max_node_id(ns.drop_last())
    }
}

/// The Saaty values a list of comparisons describes, a later one for the same
/// pair replacing an earlier one.
pub open spec fn loaded_values<V>(cs: Seq<ComparisonModel<V>>) -> Map<(usize, usize), V>
    decreases cs.len(),
{
    if cs.len() == 0 {
        Map::empty()
    } else {
        loaded_values(cs.drop_last()).insert((cs.last().node_a_id as usize, cs.last().node_b_id as usize), cs.last().saaty_value)
    }
}

/// A loaded document can be taken in: the hierarchy under its goal has no
/// cycle, and its largest id leaves room for the next one.
pub open spec fn loadable<C, V>(data: ExportedDocument<C, V>) -> bool {
    match goal_index_from(data.nodes@, 0) {
        Some(g) => rows_finite_below(data.nodes@, data.nodes@[g].id, (data.nodes@.len() + 1) as nat)
            && (max_node_id(data.nodes@) as usize) < usize::MAX,
        None => true,
    }
}

fn goal_index<C>(nodes: &Vec<NodeModel<C>>) -> (r: Option<usize>)
    ensures
        match r {
            Some(i) => goal_index_from(nodes@, 0) == Some(i as int) && i < nodes@.len(),
            None => goal_index_from(nodes@, 0) is None,
        },
{
    proof {
        reveal_strlit("Goal");
        assert("Goal"@ =~= goal_type());
    }
    let mut i: usize = 0;
    while i < nodes.len()
        invariant
            i <= nodes@.len(),
            "Goal"@ == goal_type(),
            goal_index_from(nodes@, 0) == goal_index_from(nodes@, i as int),
        decreases nodes@.len() - i,
    {
        let n = &nodes[i];
        if str_eq(n.node_type.as_str(), "Goal") || n.parent_node_id.is_none() {
            return Some(i);
        }
        i += 1;
    }
    None
}

fn max_id<C>(nodes: &Vec<NodeModel<C>>) -> (r: i32)
    ensures
        r == max_node_id(nodes@),
{
    let mut best: i32 = 0;
    let mut i: usize = 0;
    while i < nodes.len()
        invariant
            i <= nodes@.len(),
            best == max_node_id(nodes@.take(i as int)),
        decreases nodes@.len() - i,
    {
        proof {
            assert(nodes@.take(i + 1).drop_last() =~= nodes@.take(i as int));
        }
        if i == 0 || nodes[i].id > best {
            best = nodes[i].id;
        }
        i += 1;
    }
    proof {
        assert(nodes@.take(nodes@.len() as int) =~= nodes@);
    }
    best
}

/// Whether a loaded document can be taken in.
pub fn is_loadable<C, V>(data: &ExportedDocument<C, V>) -> (r: bool)
    ensures
        r == loadable(*data),
{
    match goal_index(&data.nodes) {
        Some(g) => node_tree_is_finite(&data.nodes, data.nodes[g].id) && (max_id(&data.nodes) as usize) < usize::MAX,
        None => true,
    }
}

impl<C, V> DocumentState<C, V> {
    /// A fresh window for document `id`: nothing loaded yet, version 1, an empty
    /// hierarchy under the root (id 0, named `ROOT`, of type `Goal`), AIJ
    /// aggregation, the scrolling view, results sorted by value score descending.
    pub fn new(id: i32, title: &str) -> (s: DocumentState<C, V>)
        ensures
            s.id == id,
            s.title@ == title@,
            s.version == 1,
            s.active_tab == DocumentTab::Structure,
            s.aggregation_mode@ == "AIJ"@,
            s.input_mode@ == "Scrolling"@,
            s.save_status is None,
            s.saaty_values.wf(),
            s.saaty_values@ == Map::<(usize, usize), V>::empty(),
            s.wizard_step == 0,
            s.goal@.len() == 0,
            s.criteria@.id == 0,
            s.criteria@.name == "ROOT"@,
            s.criteria@.node_type == "Goal"@,
            s.criteria@.cost is None,
            s.criteria@.children.len() == 0,
            s.open_nodes@.len() == 0,
            s.next_id == 1,
            s.modal_state is None,
            !s.is_modified,
            !s.close_requested,
            !s.is_loaded,
            !s.load_pending,
            !s.save_pending,
            !s.duplicate_pending,
            s.sort_column == SortColumn::ValueScore,
            s.sort_descending,
            s.assignments is None,
            !s.assignments_pending,
            !s.assignments_save_pending,
            s.new_user_assignment_id@.len() == 0,
            s.new_group_assignment_id@.len() == 0,
    {
        let criteria = CriteriaNode {
            id: 0,
            name: "ROOT".to_owned(),
            cost: None,
            node_type: "Goal".to_owned(),
            children: Vec::new(),
        };
        proof {
            lemma_children_model(&criteria);
        }
        DocumentState {
            id,
            title: title.to_owned(),
            version: 1,
            active_tab: DocumentTab::Structure,
            aggregation_mode: "AIJ".to_owned(),
            input_mode: "Scrolling".to_owned(),
            save_status: None,
            saaty_values: SaatyTable::new(),
            wizard_step: 0,
            goal: String::new(),
            criteria,
            open_nodes: Vec::new(),
            next_id: 1,
            modal_state: None,
            is_modified: false,
            close_requested: false,
            is_loaded: false,
            load_pending: false,
            save_pending: false,
            duplicate_pending: false,
            sort_column: SortColumn::ValueScore,
            sort_descending: true,
            assignments: None,
            assignments_pending: false,
            assignments_save_pending: false,
            new_user_assignment_id: String::new(),
            new_group_assignment_id: String::new(),
        }
    }

    /// The nodes the document is saved as.
    pub fn saved_nodes(&self) -> (r: Vec<NodeModel<C>>)
        where C: Copy
        ensures
            node_rows(r@) == saved_nodes(self.criteria@, self.goal@, self.id),
    {
        let mut out: Vec<NodeModel<C>> = Vec::new();
        let name = if self.goal.as_str().is_empty() {
            proof {
                reveal_strlit("Goal");
                assert("Goal"@ =~= goal_type());
            }
            "Goal".to_owned()
        } else {
            self.goal.clone()
        };
        proof {
            reveal_strlit("Goal");
            assert("Goal"@ =~= goal_type());
        }
        out.push(NodeModel { id: 0, document_id: self.id, parent_node_id: None, name, node_type: "Goal".to_owned(), cost: None });
        let ghost start = node_rows(out@);
        assert(start =~= seq![(0i32, self.id, None, goal_name(self.goal@), goal_type(), None)]);
        push_children(&self.criteria, self.id, 0, &mut out);
        out
    }

    /// The comparisons the document is saved with: one per entered value, in the
    /// order the pairs were first entered, each answered by the signed-in user
    /// `respondent_id`.
    pub fn saved_comparisons(&self, respondent_id: i32) -> (r: Vec<ComparisonModel<V>>)
        where V: Copy
        requires
            self.saaty_values.wf(),
        ensures
            r@.map_values(|c: ComparisonModel<V>| comparison_row(c))
                == self.saaty_values.entries().map_values(|e: ((usize, usize), V)| saved_comparison(self.criteria@, self.id, respondent_id, e)),
    {
        let mut out: Vec<ComparisonModel<V>> = Vec::new();
        let n = self.saaty_values.len();
        let mut i: usize = 0;
        while i < n
            invariant
                n == self.saaty_values.entries().len(),
                i <= n,
                out@.map_values(|c: ComparisonModel<V>| comparison_row(c))
                    == self.saaty_values.entries().take(i as int).map_values(|e: ((usize, usize), V)| saved_comparison(self.criteria@, self.id, respondent_id, e)),
            decreases n - i,
        {
            let (key, value) = self.saaty_values.entry(i);
            let parent = match find_parent(&self.criteria, key.0) {
                Some(p) => p,
                None => 0,
            };
            let ghost before = out@.map_values(|c: ComparisonModel<V>| comparison_row(c));
            out.push(ComparisonModel {
                id: 0,
                document_id: self.id,
                respondent_id,
                parent_node_id: parent as i32,
                node_a_id: key.0 as i32,
                node_b_id: key.1 as i32,
                saaty_value: value,
            });
            proof {
                let es = self.saaty_values.entries();
                assert(es.take(i + 1) =~= es.take(i as int).push(es[i as int]));
                assert(out@.map_values(|c: ComparisonModel<V>| comparison_row(c)) =~= before.push(saved_comparison(self.criteria@, self.id, respondent_id, es[i as int])));
                assert(es.take(i + 1).map_values(|e: ((usize, usize), V)| saved_comparison(self.criteria@, self.id, respondent_id, e))
                    =~= es.take(i as int).map_values(|e: ((usize, usize), V)| saved_comparison(self.criteria@, self.id, respondent_id, e)).push(saved_comparison(self.criteria@, self.id, respondent_id, es[i as int])));
            }
            i += 1;
        }
        proof {
            assert(self.saaty_values.entries().take(n as int) =~= self.saaty_values.entries());
        }
        out
    }
}


/// Replaces the table's contents with the values of the comparisons.
fn fill_values<V: Copy>(table: &mut SaatyTable<V>, comparisons: &Vec<ComparisonModel<V>>)
    ensures
        final(table).wf(),
        final(table)@ == loaded_values(comparisons@),
{
    table.clear();
    let mut i: usize = 0;
    while i < comparisons.len()
        invariant
            i <= comparisons@.len(),
            table.wf(),
            table@ == loaded_values(comparisons@.take(i as int)),
        decreases comparisons@.len() - i,
    {
        let c = &comparisons[i];
        table.insert((c.node_a_id as usize, c.node_b_id as usize), c.saaty_value);
        proof {
            assert(comparisons@.take(i + 1).drop_last() =~= comparisons@.take(i as int));
        }
        i += 1;
    }
    proof {
        assert(comparisons@.take(comparisons@.len() as int) =~= comparisons@);
    }
}

/// `e` is what the window `s` is saved as, its comparisons answered by `respondent`:
/// the record (owner 1, a fixed creation time, no folder), the nodes and the comparisons.
pub open spec fn exported_as<C, V>(e: ExportedDocument<C, V>, s: DocumentState<C, V>, respondent: i32) -> bool {
    &&& e.document.id == s.id
    &&& e.document.name@ == s.title@
    &&& e.document.owner_id == 1
    &&& e.document.version == s.version
    &&& e.document.aggregation_method@ == s.aggregation_mode@
    &&& e.document.created_at@ == "2026-06-21T00:00:00Z"@
    &&& e.document.folder_id is None
    &&& node_rows(e.nodes@) == saved_nodes(s.criteria@, s.goal@, s.id)
    &&& e.comparisons@.map_values(|c: ComparisonModel<V>| comparison_row(c))
        == s.saaty_values.entries().map_values(|x: ((usize, usize), V)| saved_comparison(s.criteria@, s.id, respondent, x))
}

/// The address of a request about document `id`: `<api>/<id>/<action>`.
pub open spec fn document_url_text(api: Seq<char>, id: i32, action: Seq<char>) -> Seq<char> {
    api + "/"@ + int_text(id as int) + "/"@ + action
}

/// The address of a request about document `id` (`full` to save it, `export`
/// to load it, `duplicate` to copy it, `assignments` for its assignments).
pub fn document_url(api_url: &str, id: i32, action: &str) -> (r: String)
    ensures
        r@ == document_url_text(api_url@, id, action@),
{
    let mut v: Vec<char> = Vec::new();
    push_str(&mut v, api_url);
    push_str(&mut v, "/");
    push_int(&mut v, id as i64);
    push_str(&mut v, "/");
    push_str(&mut v, action);
    string_from_chars(v.as_slice())
}

/// The headers of a request: `Authorization: Bearer <token>` when signed in,
/// then, for a JSON body, `Content-Type: application/json`.
pub open spec fn headers_text(jwt: Option<Seq<char>>, json: bool) -> Seq<(Seq<char>, Seq<char>)> {
    let auth: Seq<(Seq<char>, Seq<char>)> = match jwt {
        Some(t) => seq![("Authorization"@, "Bearer "@ + t)],
        None => Seq::empty(),
    };
    if json { auth.push(("Content-Type"@, "application/json"@)) } else { auth }
}

/// The text of a header list.
pub open spec fn headers_view(hs: Seq<(String, String)>) -> Seq<(Seq<char>, Seq<char>)> {
    hs.map_values(|h: (String, String)| (h.0@, h.1@))
}

/// The headers of a request.
pub fn request_headers(jwt: Option<&str>, json: bool) -> (r: Vec<(String, String)>)
    ensures
        headers_view(r@) == headers_text(match jwt { Some(t) => Some(t@), None => None }, json),
{
    let mut r: Vec<(String, String)> = Vec::new();
    match jwt {
        Some(t) => {
            let mut v: Vec<char> = Vec::new();
            push_str(&mut v, "Bearer ");
            push_str(&mut v, t);
            r.push(("Authorization".to_owned(), string_from_chars(v.as_slice())));
        },
        None => {},
    }
    let ghost before = r@;
    if json {
        r.push(("Content-Type".to_owned(), "application/json".to_owned()));
        proof {
            assert(headers_view(r@) =~= headers_view(before).push(("Content-Type"@, "application/json"@)));
        }
    }
    proof {
        assert(headers_view(r@) =~= headers_text(match jwt { Some(t) => Some(t@), None => None }, json));
    }
    r
}

/// A save about to be sent: a POST of `body` to `url` with `headers`.
pub struct SaveRequest<C, V> {
    pub url: String,
    pub headers: Vec<(String, String)>,
    pub body: ExportedDocument<C, V>,
}

impl<C: Copy, V: Copy> DocumentState<C, V> {
    /// The whole document as it is saved: its record (owner 1, a fixed creation
    /// time, no folder), its nodes and its comparisons, answered by the
    /// signed-in user `respondent_id`.
    pub fn export(&self, respondent_id: i32) -> (r: ExportedDocument<C, V>)
        requires
            self.saaty_values.wf(),
        ensures
            exported_as(r, *self, respondent_id),
    {
        ExportedDocument {
            document: DocumentModel {
                id: self.id,
                name: self.title.clone(),
                owner_id: 1,
                version: self.version,
                aggregation_method: self.aggregation_mode.clone(),
                created_at: "2026-06-21T00:00:00Z".to_owned(),
                folder_id: None,
            },
            nodes: self.saved_nodes(),
            comparisons: self.saved_comparisons(respondent_id),
        }
    }

    /// The Save button: the document as it is saved (answered by the signed-in
    /// user `respondent_id`), posted to `<api>/<id>/full` with the bearer token
    /// (when signed in) and a JSON content type; the window then shows it is
    /// saving and no longer counts as modified.
    pub fn save_request(&mut self, api_url: &str, jwt: Option<&str>, respondent_id: i32) -> (r: SaveRequest<C, V>)
        requires
            old(self).saaty_values.wf(),
        ensures
            r.url@ == document_url_text(api_url@, old(self).id, "full"@),
            headers_view(r.headers@) == headers_text(match jwt { Some(t) => Some(t@), None => None }, true),
            exported_as(r.body, *old(self), respondent_id),
            final(self).save_status matches Some(t) && t@ == "Saving..."@,
            *final(self) == (DocumentState { save_status: final(self).save_status, is_modified: false, save_pending: true, ..*old(self) }),
    {
        let body = self.export(respondent_id);
        let url = document_url(api_url, self.id, "full");
        let headers = request_headers(jwt, true);
        self.begin_save();
        SaveRequest { url, headers, body }
    }

    /// Takes in a loaded document: its title, version and aggregation; the goal
    /// and the hierarchy under it with the next free id (when it has a goal);
    /// and its comparison values, which replace those entered.
    pub fn apply_loaded(&mut self, data: ExportedDocument<C, V>)
        requires
            loadable(data),
            old(self).saaty_values.wf(),
        ensures
            final(self).is_loaded,
            !final(self).load_pending,
            final(self).title@ == data.document.name@,
            final(self).version == data.document.version,
            final(self).aggregation_mode@ == data.document.aggregation_method@,
            final(self).saaty_values.wf(),
            final(self).saaty_values@ == loaded_values(data.comparisons@),
            final(self).criteria@.id == old(self).criteria@.id,
            final(self).criteria@.name == old(self).criteria@.name,
            final(self).criteria@.node_type == old(self).criteria@.node_type,
            final(self).criteria@.cost == old(self).criteria@.cost,
            *final(self) == (DocumentState {
                title: final(self).title,
                version: final(self).version,
                aggregation_mode: final(self).aggregation_mode,
                saaty_values: final(self).saaty_values,
                goal: final(self).goal,
                criteria: final(self).criteria,
                next_id: final(self).next_id,
                is_loaded: true,
                load_pending: false,
                ..*old(self)
            }),
            match goal_index_from(data.nodes@, 0) {
                Some(g) => {
                    &&& final(self).goal@ == data.nodes@[g].name@
                    &&& final(self).criteria@.children == loaded_tree(data.nodes@, data.nodes@[g].id, (data.nodes@.len() + 1) as nat)
                    &&& final(self).next_id == (max_node_id(data.nodes@) as usize) + 1
                },
                None => {
                    &&& final(self).goal == old(self).goal
                    &&& final(self).criteria@ == old(self).criteria@
                    &&& final(self).next_id == old(self).next_id
                },
            },
    {
        self.load_pending = false;
        self.is_loaded = true;
        let ExportedDocument { document, nodes, comparisons } = data;
        self.title = document.name;
        self.version = document.version;
        self.aggregation_mode = document.aggregation_method;
        proof {
            lemma_children_model(&self.criteria);
        }
        match goal_index(&nodes) {
            Some(g) => {
                self.goal = nodes[g].name.clone();
                let children = build_tree(&nodes, nodes[g].id);
                self.criteria.children = children;
                proof {
                    lemma_children_model(&self.criteria);
                    assert(self.criteria@.children =~= loaded_tree(nodes@, nodes@[g as int].id, (nodes@.len() + 1) as nat));
                }
                let m = max_id(&nodes);
                self.next_id = (m as usize) + 1;
            },
            None => {},
        }
        fill_values(&mut self.saaty_values, &comparisons);
    }
}


/// `ids` with `x` added, unless it is already there.
pub open spec fn with_id(ids: Seq<usize>, x: usize) -> Seq<usize> {
    if ids.contains(x) { ids } else { ids.push(x) }
}

fn add_id(v: &mut Vec<usize>, x: usize)
    ensures
        final(v)@ == with_id(old(v)@, x),
{
    let mut i: usize = 0;
    while i < v.len()
        invariant
            i <= v@.len(),
            v@ == old(v)@,
            forall|j: int| 0 <= j < i ==> v@[j] != x,
        decreases v@.len() - i,
    {
        if v[i] == x {
            proof {
                assert(v@[i as int] == x);
            }
            return;
        }
        i += 1;
    }
    v.push(x);
}

/// The new node an "add" dialog creates.
pub open spec fn new_child<C>(id: usize, name: Seq<char>, node_type: Seq<char>) -> CNode<C> {
    CNode { id, name, cost: None, node_type, children: Seq::empty() }
}

/// Whether a submitted dialog goes through: an add or a rename needs a name
/// that is not blank, a cost edit a blank text or a number.
pub open spec fn modal_accepts<C>(m: CriteriaModalState, parsed_cost: Option<C>) -> bool {
    match m.action {
        CriteriaModalAction::ConfirmDelete(_, _) => true,
        CriteriaModalAction::AddChild(_, _, _) => trimmed(m.input_name@).len() > 0,
        CriteriaModalAction::Rename(_, _) => trimmed(m.input_name@).len() > 0,
        CriteriaModalAction::EditCost(_, _) => trimmed(m.input_name@).len() == 0 || parsed_cost is Some,
    }
}

impl<C, V> DocumentState<C, V> {
    /// Folds or unfolds the node with id `id`.
    pub fn toggle_open(&mut self, id: usize)
        ensures
            forall|x: usize| #[trigger] final(self).open_nodes@.contains(x) == (if x == id {
                !old(self).open_nodes@.contains(id)
            } else {
                old(self).open_nodes@.contains(x)
            }),
            *final(self) == (DocumentState { open_nodes: final(self).open_nodes, ..*old(self) }),
    {
        let mut out: Vec<usize> = Vec::new();
        let mut found = false;
        let mut i: usize = 0;
        while i < self.open_nodes.len()
            invariant
                i <= self.open_nodes@.len(),
                found == self.open_nodes@.take(i as int).contains(id),
                forall|x: usize| #[trigger] out@.contains(x) == (x != id && self.open_nodes@.take(i as int).contains(x)),
            decreases self.open_nodes@.len() - i,
        {
            let x = self.open_nodes[i];
            let ghost t = self.open_nodes@.take(i as int);
            let ghost before = out@;
            proof {
                assert(self.open_nodes@.take(i + 1) =~= t.push(x));
                assert forall|y: usize| #[trigger] t.push(x).contains(y) == (t.contains(y) || x == y) by {
                    if t.push(x).contains(y) {
                        let k = choose|k: int| 0 <= k < t.len() + 1 && t.push(x)[k] == y;
                        if k < t.len() {
                            assert(t[k] == y);
                        }
                    }
                    if t.contains(y) {
                        let k = choose|k: int| 0 <= k < t.len() && t[k] == y;
                        assert(t.push(x)[k] == y);
                    }
                    assert(t.push(x)[t.len() as int] == x);
                }
            }
            if x == id {
                found = true;
            } else {
                out.push(x);
                proof {
                    assert forall|y: usize| #[trigger] out@.contains(y) == (before.contains(y) || x == y) by {
                        if out@.contains(y) {
                            let k = choose|k: int| 0 <= k < out@.len() && out@[k] == y;
                            if k < before.len() {
                                assert(before[k] == y);
                            }
                        }
                        if before.contains(y) {
                            let k = choose|k: int| 0 <= k < before.len() && before[k] == y;
                            assert(out@[k] == y);
                        }
                        assert(out@[before.len() as int] == x);
                    }
                }
            }
            i += 1;
        }
        proof {
            assert(self.open_nodes@.take(self.open_nodes@.len() as int) =~= self.open_nodes@);
        }
        if !found {
            let ghost before = out@;
            out.push(id);
            proof {
                assert forall|y: usize| #[trigger] out@.contains(y) == (before.contains(y) || id == y) by {
                    if out@.contains(y) {
                        let k = choose|k: int| 0 <= k < out@.len() && out@[k] == y;
                        if k < before.len() {
                            assert(before[k] == y);
                        }
                    }
                    if before.contains(y) {
                        let k = choose|k: int| 0 <= k < before.len() && before[k] == y;
                        assert(out@[k] == y);
                    }
                    assert(out@[before.len() as int] == id);
                }
            }
        }
        self.open_nodes = out;
    }
}

impl<C: Copy, V> DocumentState<C, V> {
    /// Opens the dialog for `action`: a rename starts from the node's current
    /// name (empty when there is no such node), a cost edit from `cost_text`,
    /// the others from an empty text.
    pub fn open_modal(&mut self, action: CriteriaModalAction, cost_text: String)
        ensures
            final(self).modal_state matches Some(m) && m.action == action && m.input_name@ == match action {
                CriteriaModalAction::Rename(id, _) => match find_model(old(self).criteria@, id) {
                    Some(n) => n.name,
                    None => Seq::empty(),
                },
                CriteriaModalAction::EditCost(_, _) => cost_text@,
                _ => Seq::<char>::empty(),
            },
            *final(self) == (DocumentState { modal_state: final(self).modal_state, ..*old(self) }),
    {
        let input = match &action {
            CriteriaModalAction::Rename(id, _) => match self.criteria.find(*id) {
                Some(n) => n.name.clone(),
                None => String::new(),
            },
            CriteriaModalAction::EditCost(_, _) => cost_text,
            _ => String::new(),
        };
        self.modal_state = Some(CriteriaModalState { action, input_name: input });
    }

    /// One frame of the open dialog: `submitted` when it was confirmed,
    /// `window_open` false when its window was closed, `close_requested` when it
    /// was cancelled, and `parsed_cost` the number its text reads as (for a cost
    /// edit). A confirmed dialog that goes through changes the hierarchy and
    /// closes; a closed or cancelled one closes unless it went through.
    pub fn modal_step(&mut self, submitted: bool, window_open: bool, close_requested: bool, parsed_cost: Option<C>)
        requires
            old(self).next_id < usize::MAX,
        ensures
            match old(self).modal_state {
                None => final(self).criteria@ == old(self).criteria@ && final(self).modal_state is None
                    && final(self).next_id == old(self).next_id && final(self).open_nodes == old(self).open_nodes
                    && final(self).is_modified == old(self).is_modified,
                Some(m) => {
                    let name = trimmed(m.input_name@);
                    let done = submitted && modal_accepts(m, parsed_cost);
                    &&& done ==> final(self).is_modified && final(self).modal_state is None
                    &&& !done ==> final(self).criteria@ == old(self).criteria@ && final(self).next_id == old(self).next_id
                        && final(self).open_nodes == old(self).open_nodes && final(self).is_modified == old(self).is_modified
                        && (if !window_open || close_requested { final(self).modal_state is None } else { final(self).modal_state == old(self).modal_state })
                    &&& done ==> match m.action {
                        CriteriaModalAction::ConfirmDelete(id, _) =>
                            final(self).criteria@ == remove_model(old(self).criteria@, id).0
                            && final(self).next_id == old(self).next_id && final(self).open_nodes == old(self).open_nodes,
                        CriteriaModalAction::AddChild(parent, pos, nt) =>
                            final(self).criteria@ == insert_model(old(self).criteria@, parent, pos, new_child(old(self).next_id, name, nt@)).0
                            && final(self).next_id == old(self).next_id + 1
                            && final(self).open_nodes@ == with_id(with_id(old(self).open_nodes@, parent), old(self).next_id),
                        CriteriaModalAction::Rename(id, _) =>
                            final(self).criteria@ == edit_model(old(self).criteria@, id, Edit::Name(name)).0
                            && final(self).next_id == old(self).next_id && final(self).open_nodes == old(self).open_nodes,
                        CriteriaModalAction::EditCost(id, _) =>
                            final(self).criteria@ == edit_model(old(self).criteria@, id, Edit::Cost(if name.len() == 0 { None } else { parsed_cost })).0
                            && final(self).next_id == old(self).next_id && final(self).open_nodes == old(self).open_nodes,
                    }
                },
            },
            *final(self) == (DocumentState {
                criteria: final(self).criteria,
                modal_state: final(self).modal_state,
                next_id: final(self).next_id,
                open_nodes: final(self).open_nodes,
                is_modified: final(self).is_modified,
                ..*old(self)
            }),
    {
        let (accepted, name) = match &self.modal_state {
            None => {
                return;
            },
            Some(m) => {
                let name = trim(m.input_name.as_str());
                let accepted = match &m.action {
                    CriteriaModalAction::ConfirmDelete(_, _) => true,
                    CriteriaModalAction::AddChild(_, _, _) => !name.as_str().is_empty(),
                    CriteriaModalAction::Rename(_, _) => !name.as_str().is_empty(),
                    CriteriaModalAction::EditCost(_, _) => name.as_str().is_empty() || parsed_cost.is_some(),
                };
                (accepted, name)
            },
        };
        let ghost m0 = old(self).modal_state->0;
        assert(accepted == modal_accepts(m0, parsed_cost));
        if submitted && accepted {
            match &self.modal_state {
                Some(m) => match &m.action {
                    CriteriaModalAction::ConfirmDelete(id, _) => {
                        let id = *id;
                        let _ = self.criteria.remove(id);
                    },
                    CriteriaModalAction::AddChild(parent, pos, nt) => {
                        let parent = *parent;
                        let pos = *pos;
                        let child = CriteriaNode { id: self.next_id, name, cost: None, node_type: nt.clone(), children: Vec::new() };
                        proof {
                            lemma_children_model(&child);
                            assert(child@.children =~= Seq::<CNode<C>>::empty());
                        }
                        let id = self.next_id;
                        self.next_id = self.next_id + 1;
                        let _ = self.criteria.insert(parent, pos, child);
                        add_id(&mut self.open_nodes, parent);
                        add_id(&mut self.open_nodes, id);
                    },
                    CriteriaModalAction::Rename(id, _) => {
                        let id = *id;
                        let _ = self.criteria.rename(id, name);
                    },
                    CriteriaModalAction::EditCost(id, _) => {
                        let id = *id;
                        let cost = if name.as_str().is_empty() { None } else { parsed_cost };
                        let _ = self.criteria.set_cost(id, cost);
                    },
                },
                None => {},
            }
            self.is_modified = true;
            self.modal_state = None;
        } else if !window_open || close_requested {
            self.modal_state = None;
        }
    }
}


/// What the user chose in the "unsaved changes" dialog.
#[derive(PartialEq, Eq, Structural, Clone, Copy, Debug)]
pub enum CloseChoice {
    /// Save, then close.
    Save,
    /// Close without saving.
    Discard,
    /// Keep the window open.
    Cancel,
    /// The dialog itself was closed: keep the window open.
    Dismiss,
    /// Nothing chosen yet.
    Undecided,
}

/// What closing a document window leads to.
#[derive(PartialEq, Eq, Structural, Clone, Copy, Debug)]
pub enum CloseOutcome {
    /// The window stays.
    Stay,
    /// The window goes.
    Close,
    /// The document is saved, then the window goes.
    SaveAndClose,
}

/// `"✅ Duplicated! (v"`, `version`, `")"`.
pub open spec fn duplicated_status(version: i32) -> Seq<char> {
    "✅ Duplicated! (v"@ + int_text(version as int) + ")"@
}

/// A failed load is shown unless the error only says that the document does not exist yet.
pub open spec fn load_error_shown(error: Seq<char>) -> bool {
    !contains_text(error, new_document_markers()[0]) && !contains_text(error, new_document_markers()[1])
        && !contains_text(error, new_document_markers()[2])
}

/// `"❌ Load Failed: "` followed by the error.
pub open spec fn load_failed_status(error: Seq<char>) -> Seq<char> {
    "❌ Load Failed: "@ + error
}

impl<C, V> DocumentState<C, V> {
    /// A save was sent: the window shows it is saving and no longer counts as modified.
    pub fn begin_save(&mut self)
        ensures
            final(self).save_status matches Some(t) && t@ == "Saving..."@,
            !final(self).is_modified,
            final(self).save_pending,
            *final(self) == (DocumentState { save_status: final(self).save_status, is_modified: false, save_pending: true, ..*old(self) }),
    {
        self.save_status = Some("Saving...".to_owned());
        self.is_modified = false;
        self.save_pending = true;
    }

    /// The answer to a save arrived.
    pub fn finish_save(&mut self, ok: bool)
        ensures
            final(self).save_status matches Some(t) && t@ == (if ok { "✅ Saved!"@ } else { "❌ Save Failed"@ }),
            !final(self).save_pending,
            *final(self) == (DocumentState { save_status: final(self).save_status, save_pending: false, ..*old(self) }),
    {
        self.save_status = Some(if ok { "✅ Saved!".to_owned() } else { "❌ Save Failed".to_owned() });
        self.save_pending = false;
    }

    /// A load failed: the window counts as loaded, and shows the error unless
    /// it only says the document does not exist yet.
    pub fn apply_load_error(&mut self, error: &str)
        ensures
            final(self).is_loaded,
            !final(self).load_pending,
            load_error_shown(error@) ==> (final(self).save_status matches Some(t) && t@ == load_failed_status(error@)),
            !load_error_shown(error@) ==> final(self).save_status == old(self).save_status,
            *final(self) == (DocumentState { save_status: final(self).save_status, is_loaded: true, load_pending: false, ..*old(self) }),
    {
        self.load_pending = false;
        self.is_loaded = true;
        if load_error_reported(error) {
            let mut v: Vec<char> = Vec::new();
            push_str(&mut v, "❌ Load Failed: ");
            push_str(&mut v, error);
            self.save_status = Some(string_from_chars(v.as_slice()));
        }
    }

    /// A copy was requested: the window shows it is duplicating.
    pub fn begin_duplicate(&mut self)
        ensures
            final(self).save_status matches Some(t) && t@ == "Duplicating..."@,
            final(self).duplicate_pending,
            *final(self) == (DocumentState { save_status: final(self).save_status, duplicate_pending: true, ..*old(self) }),
    {
        self.save_status = Some("Duplicating...".to_owned());
        self.duplicate_pending = true;
    }

    /// The copy arrived: the window now shows the copy.
    pub fn apply_duplicate(&mut self, copy: &DocumentModel)
        ensures
            final(self).id == copy.id,
            final(self).title@ == copy.name@,
            final(self).version == copy.version,
            final(self).save_status matches Some(t) && t@ == duplicated_status(copy.version),
            !final(self).duplicate_pending,
            *final(self) == (DocumentState {
                id: copy.id,
                title: final(self).title,
                version: copy.version,
                save_status: final(self).save_status,
                duplicate_pending: false,
                ..*old(self)
            }),
    {
        self.id = copy.id;
        self.title = copy.name.clone();
        self.version = copy.version;
        let mut v: Vec<char> = Vec::new();
        push_str(&mut v, "✅ Duplicated! (v");
        push_int(&mut v, copy.version as i64);
        push_str(&mut v, ")");
        self.save_status = Some(string_from_chars(v.as_slice()));
        self.duplicate_pending = false;
    }

    /// The window's close button was pressed: a window with unsaved changes asks
    /// first; any other closes.
    pub fn close_clicked(&mut self) -> (closes: bool)
        ensures
            closes == !old(self).is_modified,
            final(self).close_requested == (old(self).close_requested || old(self).is_modified),
            *final(self) == (DocumentState { close_requested: final(self).close_requested, ..*old(self) }),
    {
        if self.is_modified {
            self.close_requested = true;
            false
        } else {
            true
        }
    }

    /// What the "unsaved changes" dialog leads to.
    pub fn resolve_close(&mut self, choice: CloseChoice) -> (r: CloseOutcome)
        ensures
            r == match choice {
                CloseChoice::Save => CloseOutcome::SaveAndClose,
                CloseChoice::Discard => CloseOutcome::Close,
                _ => CloseOutcome::Stay,
            },
            final(self).close_requested == match choice {
                CloseChoice::Cancel | CloseChoice::Dismiss => false,
                _ => old(self).close_requested,
            },
            *final(self) == (DocumentState { close_requested: final(self).close_requested, ..*old(self) }),
    {
        match choice {
            CloseChoice::Save => CloseOutcome::SaveAndClose,
            CloseChoice::Discard => CloseOutcome::Close,
            CloseChoice::Cancel | CloseChoice::Dismiss => {
                self.close_requested = false;
                CloseOutcome::Stay
            },
            CloseChoice::Undecided => CloseOutcome::Stay,
        }
    }

    /// Steps back in the step-by-step view.
    pub fn wizard_previous(&mut self)
        requires
            old(self).wizard_step > 0,
        ensures
            *final(self) == (DocumentState { wizard_step: (old(self).wizard_step - 1) as usize, ..*old(self) }),
    {
        self.wizard_step = self.wizard_step - 1;
    }

    /// Steps on in the step-by-step view, up to the last of `count` comparisons.
    pub fn wizard_next(&mut self, count: usize)
        requires
            old(self).wizard_step + 1 < count,
        ensures
            *final(self) == (DocumentState { wizard_step: (old(self).wizard_step + 1) as usize, ..*old(self) }),
    {
        self.wizard_step = self.wizard_step + 1;
    }

    /// The answer to the request for the document's assignments arrived; a
    /// failure leaves them unknown.
    pub fn apply_assignments(&mut self, reply: Result<DocumentAssignments, String>)
        ensures
            !final(self).assignments_pending,
            match reply {
                Ok(a) => final(self).assignments == Some(a),
                Err(_) => final(self).assignments == old(self).assignments,
            },
            *final(self) == (DocumentState { assignments: final(self).assignments, assignments_pending: false, ..*old(self) }),
    {
        self.assignments_pending = false;
        match reply {
            Ok(a) => {
                self.assignments = Some(a);
            },
            Err(_) => {},
        }
    }
}

} // verus!
