//! What loading gives back of a save: the hierarchy a document window saves,
//! read back by the loader, is the hierarchy it saved, and so are the entered
//! comparison values.

use vstd::prelude::*;
use crate::criteria::{CNode, size, sizes};
use crate::document::{
    ComparisonModel, ExportedDocument, NodeModel, NodeRow, SaatyTable, comparison_row, flatten_in, flatten_tree,
    goal_index_from, goal_name, goal_type, is_child_row, loadable, loaded_tree, loaded_upto, loaded_values,
    max_node_id, node_row, node_rows, rows_finite_below, saved_comparison, saved_nodes, tree_row,
};

verus! {

/// The rows among `rows` whose parent is `p`, in order.
pub open spec fn rows_under<C>(rows: Seq<NodeRow<C>>, p: i32) -> Seq<NodeRow<C>>
    decreases rows.len(),
{
    if rows.len() == 0 {
        Seq::empty()
    } else if rows.last().2 == Some(p) {
        rows_under(rows.drop_last(), p).push(rows.last())
    } else {
        rows_under(rows.drop_last(), p)
    }
}

/// The ids of `n` and of every node below it.
pub open spec fn subtree_ids<C>(n: CNode<C>) -> Set<usize>
    decreases n, n.children.len() + 1,
{
    set![n.id].union(kids_ids(n, n.children.len() as int))
}

/// The ids in the subtrees of the first `k` children of `n`.
pub open spec fn kids_ids<C>(n: CNode<C>, k: int) -> Set<usize>
    decreases n, k,
{
    if k <= 0 || k > n.children.len() {
        Set::empty()
    } else {
        kids_ids(n, k - 1).union(subtree_ids(n.children[k - 1]))
    }
}

/// No id occurs twice in the subtree of `n`.
pub open spec fn well_numbered<C>(n: CNode<C>) -> bool
    decreases n, n.children.len() + 1,
{
    !kids_ids(n, n.children.len() as int).contains(n.id) && kids_numbered(n, n.children.len() as int)
}

/// The subtrees of the first `k` children of `n` are well numbered and share no id.
pub open spec fn kids_numbered<C>(n: CNode<C>, k: int) -> bool
    decreases n, k,
{
    k <= 0 || k > n.children.len() || (kids_numbered(n, k - 1) && well_numbered(n.children[k - 1])
        && kids_ids(n, k - 1).disjoint(subtree_ids(n.children[k - 1])))
}

/// Every id in `ids` is positive and fits in `i32`, as the server numbers nodes.
pub open spec fn ids_fit(ids: Set<usize>) -> bool {
    forall|id: usize| ids.contains(id) ==> 0 < id <= i32::MAX
}

/// The rows of the first `k` children of `n`, each under `parent`.
pub open spec fn kid_rows<C>(n: CNode<C>, doc: i32, parent: i32, k: int) -> Seq<NodeRow<C>>
    decreases k,
{
    if k <= 0 || k > n.children.len() {
        Seq::empty()
    } else {
        kid_rows(n, doc, parent, k - 1).push(tree_row(n.children[k - 1], doc, parent))
    }
}

proof fn lemma_rows_under_concat<C>(a: Seq<NodeRow<C>>, b: Seq<NodeRow<C>>, p: i32)
    ensures
        rows_under(a + b, p) == rows_under(a, p) + rows_under(b, p),
    decreases b.len(),
{
    if b.len() == 0 {
        assert(a + b =~= a);
        assert(rows_under(b, p) =~= Seq::<NodeRow<C>>::empty());
        assert(rows_under(a, p) + Seq::<NodeRow<C>>::empty() =~= rows_under(a, p));
    } else {
        lemma_rows_under_concat(a, b.drop_last(), p);
        assert((a + b).drop_last() =~= a + b.drop_last());
        assert((a + b).last() == b.last());
        if b.last().2 == Some(p) {
            assert(rows_under(a, p) + rows_under(b.drop_last(), p).push(b.last())
                =~= (rows_under(a, p) + rows_under(b.drop_last(), p)).push(b.last()));
        }
    }
}

proof fn lemma_rows_under_single<C>(r: NodeRow<C>, p: i32)
    ensures
        rows_under(seq![r], p) == (if r.2 == Some(p) { seq![r] } else { Seq::empty() }),
{
    let s = seq![r];
    let e = Seq::<NodeRow<C>>::empty();
    assert(s.len() == 1);
    assert(s.last() == r);
    assert(s.drop_last() =~= e);
    assert(rows_under(e, p) == e);
    if r.2 == Some(p) {
        assert(rows_under(s, p) == rows_under(s.drop_last(), p).push(r));
        assert(e.push(r) =~= s);
    } else {
        assert(rows_under(s, p) == rows_under(s.drop_last(), p));
    }
}

proof fn lemma_kids_ids_contains<C>(n: CNode<C>, k: int, i: int)
    requires
        0 <= i < k <= n.children.len(),
    ensures
        kids_ids(n, k).contains(n.children[i].id),
        subtree_ids(n.children[i]).subset_of(kids_ids(n, k)),
    decreases k,
{
    if i < k - 1 {
        lemma_kids_ids_contains(n, k - 1, i);
    }
    assert(subtree_ids(n.children[i]).contains(n.children[i].id));
}

proof fn lemma_subtree_ids_kids<C>(n: CNode<C>)
    ensures
        subtree_ids(n).contains(n.id),
        kids_ids(n, n.children.len() as int).subset_of(subtree_ids(n)),
{
}

proof fn lemma_kids_numbered_child<C>(n: CNode<C>, k: int, j: int)
    requires
        0 <= j < k <= n.children.len(),
        kids_numbered(n, k),
    ensures
        well_numbered(n.children[j]),
    decreases k,
{
    if j < k - 1 {
        lemma_kids_numbered_child(n, k - 1, j);
    }
}

proof fn lemma_sizes_ge<C>(cs: Seq<CNode<C>>, k: int, j: int)
    requires
        0 <= j < k <= cs.len(),
    ensures
        sizes(cs, k) >= size(cs[j]),
    decreases k,
{
    if j < k - 1 {
        lemma_sizes_ge(cs, k - 1, j);
    }
}

proof fn lemma_flatten_len<C>(t: CNode<C>, doc: i32, parent: i32, k: int)
    requires
        0 <= k <= t.children.len(),
    ensures
        flatten_in(t, doc, parent, k).len() == sizes(t.children, k),
    decreases t, k,
{
    if k > 0 {
        let c = t.children[k - 1];
        lemma_flatten_len(t, doc, parent, k - 1);
        assert(decreases_to!(t => t.children[k - 1]));
        lemma_flatten_len(c, doc, c.id as i32, c.children.len() as int);
        assert(flatten_tree(c, doc, parent).len() == 1 + flatten_in(c, doc, c.id as i32, c.children.len() as int).len());
        assert(size(c) == 1 + sizes(c.children, c.children.len() as int));
        assert(flatten_in(t, doc, parent, k) == flatten_in(t, doc, parent, k - 1) + flatten_tree(c, doc, parent));
        assert(sizes(t.children, k) == sizes(t.children, k - 1) + size(c));
    }
}

proof fn lemma_kid_rows_index<C>(n: CNode<C>, doc: i32, parent: i32, k: int)
    requires
        0 <= k <= n.children.len(),
    ensures
        kid_rows(n, doc, parent, k).len() == k,
        forall|j: int| 0 <= j < k ==> #[trigger] kid_rows(n, doc, parent, k)[j] == tree_row(n.children[j], doc, parent),
    decreases k,
{
    if k > 0 {
        lemma_kid_rows_index(n, doc, parent, k - 1);
    }
}

proof fn lemma_rows_under_contains<C>(rows: Seq<NodeRow<C>>, p: i32, i: int)
    requires
        0 <= i < rows.len(),
        rows[i].2 == Some(p),
    ensures
        rows_under(rows, p).contains(rows[i]),
    decreases rows.len(),
{
    let d = rows.drop_last();
    if i == rows.len() - 1 {
        let u = rows_under(d, p).push(rows.last());
        assert(u[u.len() - 1] == rows[i]);
    } else {
        lemma_rows_under_contains(d, p, i);
        let s = rows_under(d, p);
        let w = choose|w: int| 0 <= w < s.len() && s[w] == d[i];
        if rows.last().2 == Some(p) {
            assert(s.push(rows.last())[w] == rows[i]);
        }
    }
}

/// Nothing in the subtrees of the first `k` children of `t` (placed under
/// `parent`) hangs from `p` when no id there is `p`.
proof fn lemma_absent_in<C>(t: CNode<C>, doc: i32, parent: i32, p: i32, k: int)
    requires
        0 <= k <= t.children.len(),
        parent != p,
        forall|id: usize| #[trigger] kids_ids(t, k).contains(id) ==> id as i32 != p,
    ensures
        rows_under(flatten_in(t, doc, parent, k), p) == Seq::<NodeRow<C>>::empty(),
    decreases t, k,
{
    if k > 0 {
        let c = t.children[k - 1];
        let m = c.children.len() as int;
        assert forall|id: usize| #[trigger] kids_ids(t, k - 1).contains(id) implies id as i32 != p by {
            assert(kids_ids(t, k).contains(id));
        }
        lemma_absent_in(t, doc, parent, p, k - 1);
        lemma_kids_ids_contains(t, k, k - 1);
        lemma_subtree_ids_kids(c);
        assert forall|id: usize| #[trigger] kids_ids(c, m).contains(id) implies id as i32 != p by {
            assert(subtree_ids(c).contains(id));
            assert(kids_ids(t, k).contains(id));
        }
        assert(decreases_to!(t => t.children[k - 1]));
        lemma_absent_in(c, doc, c.id as i32, p, m);
        lemma_rows_under_concat(flatten_in(t, doc, parent, k - 1), flatten_tree(c, doc, parent), p);
        lemma_rows_under_concat(seq![tree_row(c, doc, parent)], flatten_in(c, doc, c.id as i32, m), p);
        lemma_rows_under_single(tree_row(c, doc, parent), p);
        assert(rows_under(flatten_in(t, doc, parent, k), p) =~= Seq::<NodeRow<C>>::empty());
    }
}

/// The rows hanging from `parent` are the first `k` children's own rows.
proof fn lemma_kids_under<C>(t: CNode<C>, doc: i32, parent: i32, k: int)
    requires
        0 <= k <= t.children.len(),
        forall|id: usize| #[trigger] kids_ids(t, k).contains(id) ==> id as i32 != parent,
    ensures
        rows_under(flatten_in(t, doc, parent, k), parent) == kid_rows(t, doc, parent, k),
    decreases k,
{
    if k > 0 {
        let c = t.children[k - 1];
        let m = c.children.len() as int;
        assert forall|id: usize| #[trigger] kids_ids(t, k - 1).contains(id) implies id as i32 != parent by {
            assert(kids_ids(t, k).contains(id));
        }
        lemma_kids_under(t, doc, parent, k - 1);
        lemma_kids_ids_contains(t, k, k - 1);
        lemma_subtree_ids_kids(c);
        assert forall|id: usize| #[trigger] kids_ids(c, m).contains(id) implies id as i32 != parent by {
            assert(subtree_ids(c).contains(id));
            assert(kids_ids(t, k).contains(id));
        }
        lemma_absent_in(c, doc, c.id as i32, parent, m);
        lemma_rows_under_concat(flatten_in(t, doc, parent, k - 1), flatten_tree(c, doc, parent), parent);
        lemma_rows_under_concat(seq![tree_row(c, doc, parent)], flatten_in(c, doc, c.id as i32, m), parent);
        lemma_rows_under_single(tree_row(c, doc, parent), parent);
        assert(rows_under(flatten_in(t, doc, parent, k), parent) =~= kid_rows(t, doc, parent, k));
    }
}

/// The rows hanging from a node inside the `j`-th child's subtree are found
/// in that subtree alone.
proof fn lemma_descend<C>(t: CNode<C>, doc: i32, parent: i32, k: int, j: int, id: usize)
    requires
        0 <= j < k <= t.children.len(),
        kids_numbered(t, k),
        ids_fit(kids_ids(t, k)),
        subtree_ids(t.children[j]).contains(id),
        id as i32 != parent,
    ensures
        rows_under(flatten_in(t, doc, parent, k), id as i32) == rows_under(
            flatten_in(t.children[j], doc, t.children[j].id as i32, t.children[j].children.len() as int),
            id as i32,
        ),
    decreases k,
{
    let c = t.children[k - 1];
    let m = c.children.len() as int;
    let p = id as i32;
    lemma_kids_ids_contains(t, k, j);
    lemma_kids_ids_contains(t, k, k - 1);
    lemma_subtree_ids_kids(c);
    assert(kids_ids(t, k) == kids_ids(t, k - 1).union(subtree_ids(c)));
    lemma_rows_under_concat(flatten_in(t, doc, parent, k - 1), flatten_tree(c, doc, parent), p);
    lemma_rows_under_concat(seq![tree_row(c, doc, parent)], flatten_in(c, doc, c.id as i32, m), p);
    lemma_rows_under_single(tree_row(c, doc, parent), p);
    if j == k - 1 {
        assert forall|id2: usize| #[trigger] kids_ids(t, k - 1).contains(id2) implies id2 as i32 != p by {
            assert(kids_ids(t, k).contains(id2));
            assert(!subtree_ids(c).contains(id2));
        }
        lemma_absent_in(t, doc, parent, p, k - 1);
        assert(rows_under(flatten_in(t, doc, parent, k), p) =~= rows_under(flatten_in(c, doc, c.id as i32, m), p));
    } else {
        lemma_kids_ids_contains(t, k - 1, j);
        assert(ids_fit(kids_ids(t, k - 1))) by {
            assert forall|id2: usize| #[trigger] kids_ids(t, k - 1).contains(id2) implies 0 < id2 <= i32::MAX by {
                assert(kids_ids(t, k).contains(id2));
            }
        }
        lemma_descend(t, doc, parent, k - 1, j, id);
        assert(kids_ids(t, k - 1).contains(id));
        assert(!subtree_ids(c).contains(id));
        assert(c.id as i32 != p) by {
            assert(subtree_ids(c).contains(c.id));
        }
        assert forall|id2: usize| #[trigger] kids_ids(c, m).contains(id2) implies id2 as i32 != p by {
            assert(subtree_ids(c).contains(id2));
            assert(kids_ids(t, k).contains(id2));
        }
        lemma_absent_in(c, doc, c.id as i32, p, m);
        assert(rows_under(flatten_in(t, doc, parent, k), p) =~= rows_under(flatten_in(t, doc, parent, k - 1), p));
    }
}

/// The node a loaded row becomes, its children built with `fuel` levels.
pub open spec fn loaded_node<C>(ns: Seq<NodeModel<C>>, r: NodeRow<C>, fuel: nat) -> CNode<C> {
    CNode { id: r.0 as usize, name: r.3, cost: r.5, node_type: r.4, children: loaded_tree(ns, r.0, fuel) }
}

proof fn lemma_loaded_upto_rows<C>(ns: Seq<NodeModel<C>>, p: i32, fuel: nat, k: int)
    requires
        fuel > 0,
        0 <= k <= ns.len(),
    ensures
        loaded_upto(ns, p, fuel, k) == rows_under(node_rows(ns).take(k), p).map_values(
            |r: NodeRow<C>| loaded_node(ns, r, (fuel - 1) as nat),
        ),
    decreases k,
{
    let rs = node_rows(ns);
    if k == 0 {
        assert(rs.take(0) =~= Seq::<NodeRow<C>>::empty());
        assert(rows_under(rs.take(0), p).map_values(|r: NodeRow<C>| loaded_node(ns, r, (fuel - 1) as nat))
            =~= Seq::<CNode<C>>::empty());
    } else {
        lemma_loaded_upto_rows(ns, p, fuel, k - 1);
        let t = rs.take(k);
        assert(t.drop_last() =~= rs.take(k - 1));
        assert(t.last() == node_row(ns[k - 1]));
        let before = rows_under(rs.take(k - 1), p);
        if ns[k - 1].parent_node_id == Some(p) {
            assert(is_child_row(ns[k - 1], p));
            assert(rows_under(t, p) == before.push(node_row(ns[k - 1])));
            assert(before.push(node_row(ns[k - 1])).map_values(|r: NodeRow<C>| loaded_node(ns, r, (fuel - 1) as nat))
                =~= before.map_values(|r: NodeRow<C>| loaded_node(ns, r, (fuel - 1) as nat)).push(
                    loaded_node(ns, node_row(ns[k - 1]), (fuel - 1) as nat),
                ));
        } else {
            assert(!is_child_row(ns[k - 1], p));
            assert(rows_under(t, p) == before);
        }
    }
}

proof fn lemma_max_ge<C>(ns: Seq<NodeModel<C>>)
    ensures
        forall|i: int| 0 <= i < ns.len() ==> ns[i].id <= max_node_id(ns),
    decreases ns.len(),
{
    if ns.len() > 0 {
        let d = ns.drop_last();
        lemma_max_ge(d);
        assert forall|i: int| 0 <= i < ns.len() implies ns[i].id <= max_node_id(ns) by {
            if i < ns.len() - 1 {
                assert(ns[i] == d[i]);
            }
        }
    }
}

/// The children of `q`, saved with `q` numbered `qid`, come back from the
/// loaded rows, and the chains below `qid` end within `fuel` levels.
proof fn lemma_children_load<C>(ns: Seq<NodeModel<C>>, doc: i32, q: CNode<C>, qid: i32, fuel: nat)
    requires
        kids_numbered(q, q.children.len() as int),
        ids_fit(kids_ids(q, q.children.len() as int)),
        forall|id: usize| #[trigger] kids_ids(q, q.children.len() as int).contains(id) ==> id as i32 != qid,
        rows_under(node_rows(ns), qid) == kid_rows(q, doc, qid, q.children.len() as int),
        forall|id: usize| #[trigger] kids_ids(q, q.children.len() as int).contains(id)
            ==> rows_under(node_rows(ns), id as i32) == rows_under(flatten_in(q, doc, qid, q.children.len() as int), id as i32),
        fuel >= size(q),
    ensures
        loaded_tree(ns, qid, fuel) == q.children,
        rows_finite_below(ns, qid, fuel),
    decreases q,
{
    let n = q.children.len() as int;
    let rs = node_rows(ns);
    let f1 = (fuel - 1) as nat;
    assert(fuel >= 1);
    assert forall|j: int| 0 <= j < n implies
        loaded_tree(ns, #[trigger] q.children[j].id as i32, f1) == q.children[j].children
        && rows_finite_below(ns, q.children[j].id as i32, f1) by {
        let c = q.children[j];
        let cid = c.id as i32;
        let m = c.children.len() as int;
        lemma_kids_ids_contains(q, n, j);
        lemma_subtree_ids_kids(c);
        lemma_kids_numbered_child(q, n, j);
        assert(0 < c.id <= i32::MAX);
        assert forall|id: usize| #[trigger] kids_ids(c, m).contains(id) implies id as i32 != cid by {
            assert(kids_ids(q, n).contains(id));
        }
        assert(ids_fit(kids_ids(c, m))) by {
            assert forall|id: usize| #[trigger] kids_ids(c, m).contains(id) implies 0 < id <= i32::MAX by {
                assert(kids_ids(q, n).contains(id));
            }
        }
        lemma_descend(q, doc, qid, n, j, c.id);
        lemma_kids_under(c, doc, cid, m);
        assert forall|id: usize| #[trigger] kids_ids(c, m).contains(id)
            implies rows_under(rs, id as i32) == rows_under(flatten_in(c, doc, cid, m), id as i32) by {
            assert(subtree_ids(c).contains(id));
            assert(kids_ids(q, n).contains(id));
            lemma_descend(q, doc, qid, n, j, id);
        }
        lemma_sizes_ge(q.children, n, j);
        assert(decreases_to!(q => q.children[j]));
        lemma_children_load(ns, doc, c, cid, f1);
    }
    lemma_loaded_upto_rows(ns, qid, fuel, ns.len() as int);
    assert(rs.take(ns.len() as int) =~= rs);
    lemma_kid_rows_index(q, doc, qid, n);
    let mapped = kid_rows(q, doc, qid, n).map_values(|r: NodeRow<C>| loaded_node(ns, r, f1));
    assert forall|j: int| 0 <= j < n implies mapped[j] == q.children[j] by {
        let c = q.children[j];
        lemma_kids_ids_contains(q, n, j);
        assert(kid_rows(q, doc, qid, n)[j] == tree_row(c, doc, qid));
        assert(loaded_tree(ns, c.id as i32, f1) == c.children);
        assert((c.id as i32) as usize == c.id);
    }
    assert(mapped =~= q.children);
    assert forall|i: int| 0 <= i < ns.len() && #[trigger] is_child_row(ns[i], qid)
        implies rows_finite_below(ns, ns[i].id, f1) by {
        assert(rs[i] == node_row(ns[i]));
        lemma_rows_under_contains(rs, qid, i);
        let kr = kid_rows(q, doc, qid, n);
        let j = choose|j: int| 0 <= j < kr.len() && kr[j] == rs[i];
        assert(kr[j] == tree_row(q.children[j], doc, qid));
        assert(ns[i].id == q.children[j].id as i32);
    }
}

/// Law: what a document is saved as loads back as the same document. The goal
/// is the first node saved and its name comes back; the hierarchy can be taken
/// in; and the hierarchy built under the goal is the one that was saved. This
/// holds when no id occurs twice below the root and every id there is positive
/// and within the range the server numbers nodes in.
pub proof fn lemma_saved_document_loads<C, V>(root: CNode<C>, goal: Seq<char>, doc: i32, data: ExportedDocument<C, V>)
    requires
        kids_numbered(root, root.children.len() as int),
        ids_fit(kids_ids(root, root.children.len() as int)),
        node_rows(data.nodes@) == saved_nodes(root, goal, doc),
    ensures
        goal_index_from(data.nodes@, 0) == Some(0int),
        data.nodes@[0].name@ == goal_name(goal),
        loadable(data),
        loaded_tree(data.nodes@, data.nodes@[0].id, (data.nodes@.len() + 1) as nat) == root.children,
{
    let ns = data.nodes@;
    let rs = node_rows(ns);
    let n = root.children.len() as int;
    let goal_row: NodeRow<C> = (0i32, doc, None, goal_name(goal), goal_type(), None);
    let flat = flatten_in(root, doc, 0, n);
    assert(rs.len() == ns.len());
    assert(rs == seq![goal_row] + flat);
    assert(rs[0] == goal_row);
    assert(rs[0] == node_row(ns[0]));
    assert(ns[0].parent_node_id is None);
    assert(goal_index_from(ns, 0) == Some(0int));
    assert forall|id: usize| #[trigger] kids_ids(root, n).contains(id) implies id as i32 != 0 by {
        assert(0 < id <= i32::MAX);
    }
    lemma_kids_under(root, doc, 0, n);
    lemma_rows_under_concat(seq![goal_row], flat, 0);
    lemma_rows_under_single(goal_row, 0);
    assert(rows_under(rs, 0) =~= kid_rows(root, doc, 0, n));
    assert forall|id: usize| #[trigger] kids_ids(root, n).contains(id)
        implies rows_under(rs, id as i32) == rows_under(flat, id as i32) by {
        lemma_rows_under_concat(seq![goal_row], flat, id as i32);
        lemma_rows_under_single(goal_row, id as i32);
        assert(rows_under(rs, id as i32) =~= rows_under(flat, id as i32));
    }
    lemma_flatten_len(root, doc, 0, n);
    let fuel = (ns.len() + 1) as nat;
    lemma_children_load(ns, doc, root, 0, fuel);
    lemma_max_ge(ns);
    assert(ns[0].id <= max_node_id(ns));
}

/// The pair a loaded comparison gives a value for.
pub open spec fn loaded_key<V>(c: ComparisonModel<V>) -> (usize, usize) {
    (c.node_a_id as usize, c.node_b_id as usize)
}

proof fn lemma_loaded_values<V>(cs: Seq<ComparisonModel<V>>)
    requires
        forall|i: int, j: int| 0 <= i < j < cs.len() ==> loaded_key(cs[i]) != loaded_key(cs[j]),
    ensures
        forall|i: int| 0 <= i < cs.len() ==> #[trigger] loaded_values(cs).contains_key(loaded_key(cs[i]))
            && loaded_values(cs)[loaded_key(cs[i])] == cs[i].saaty_value,
        forall|k: (usize, usize)| loaded_values(cs).contains_key(k)
            ==> exists|i: int| 0 <= i < cs.len() && #[trigger] loaded_key(cs[i]) == k,
    decreases cs.len(),
{
    if cs.len() > 0 {
        let d = cs.drop_last();
        let last = cs.last();
        assert forall|i: int, j: int| 0 <= i < j < d.len() implies loaded_key(d[i]) != loaded_key(d[j]) by {
            assert(d[i] == cs[i] && d[j] == cs[j]);
        }
        lemma_loaded_values(d);
        assert(loaded_values(cs) == loaded_values(d).insert(loaded_key(last), last.saaty_value));
        assert forall|i: int| 0 <= i < cs.len() implies #[trigger] loaded_values(cs).contains_key(loaded_key(cs[i]))
            && loaded_values(cs)[loaded_key(cs[i])] == cs[i].saaty_value by {
            if i < cs.len() - 1 {
                assert(cs[i] == d[i]);
                assert(loaded_key(cs[i]) != loaded_key(cs[cs.len() - 1]));
                assert(loaded_values(d).contains_key(loaded_key(d[i])));
            }
        }
        assert forall|k: (usize, usize)| loaded_values(cs).contains_key(k)
            implies exists|i: int| 0 <= i < cs.len() && #[trigger] loaded_key(cs[i]) == k by {
            if k != loaded_key(last) {
                assert(loaded_values(d).contains_key(k));
                let i = choose|i: int| 0 <= i < d.len() && #[trigger] loaded_key(d[i]) == k;
                assert(cs[i] == d[i]);
                assert(loaded_key(cs[i]) == k);
            } else {
                assert(loaded_key(cs[cs.len() - 1]) == k);
            }
        }
    }
}

/// Law: the comparison values a document is saved with load back as the same
/// values, when the ids of the compared nodes are within the range the server
/// numbers nodes in.
pub proof fn lemma_saved_values_load<C, V>(table: SaatyTable<V>, root: CNode<C>, doc: i32, respondent: i32, cs: Seq<ComparisonModel<V>>)
    requires
        table.wf(),
        forall|k: (usize, usize)| #[trigger] table@.contains_key(k) ==> k.0 <= i32::MAX && k.1 <= i32::MAX,
        cs.map_values(|c: ComparisonModel<V>| comparison_row(c))
            == table.entries().map_values(|e: ((usize, usize), V)| saved_comparison(root, doc, respondent, e)),
    ensures
        loaded_values(cs) == table@,
{
    table.lemma_entries_are_table();
    let es = table.entries();
    let rows = cs.map_values(|c: ComparisonModel<V>| comparison_row(c));
    let saved = es.map_values(|e: ((usize, usize), V)| saved_comparison(root, doc, respondent, e));
    assert(rows.len() == cs.len());
    assert(saved.len() == es.len());
    assert forall|i: int| 0 <= i < cs.len() implies #[trigger] loaded_key(cs[i]) == es[i].0
        && cs[i].saaty_value == es[i].1 by {
        assert(rows[i] == saved[i]);
        assert(table@.contains_key(es[i].0));
    }
    assert forall|i: int, j: int| 0 <= i < j < cs.len() implies loaded_key(cs[i]) != loaded_key(cs[j]) by {
        assert(loaded_key(cs[i]) == es[i].0);
        assert(loaded_key(cs[j]) == es[j].0);
    }
    lemma_loaded_values(cs);
    assert forall|k: (usize, usize)| loaded_values(cs).contains_key(k) implies #[trigger] table@.contains_key(k)
        && table@[k] == loaded_values(cs)[k] by {
        let i = choose|i: int| 0 <= i < cs.len() && #[trigger] loaded_key(cs[i]) == k;
        assert(loaded_key(cs[i]) == es[i].0);
    }
    assert forall|k: (usize, usize)| table@.contains_key(k) implies #[trigger] loaded_values(cs).contains_key(k) by {
        let i = choose|i: int| 0 <= i < es.len() && #[trigger] es[i].0 == k;
        assert(loaded_key(cs[i]) == es[i].0);
    }
    assert(loaded_values(cs).dom() =~= table@.dom());
    assert(loaded_values(cs) =~= table@);
}

} // verus!
