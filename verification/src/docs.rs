//! Document-service logic: which documents a user may see, how imported node
//! hierarchies are written parent-first, how ids are carried over to copies,
//! and how copies are named.

use vstd::prelude::*;
use crate::text::{chars_of, digit_char, digits, int_text, push_int, push_str, string_from_chars};


verus! {

/// A node of a document's hierarchy as exchanged between client and server.
/// `C` is the type of a candidate's cost.
pub struct NodeDto<C> {
    pub id: i32,
    pub document_id: i32,
    pub parent_node_id: Option<i32>,
    pub name: String,
    pub node_type: String,
    pub cost: Option<C>,
}

/// One pairwise comparison. `V` is the type of the Saaty value.
pub struct ComparisonDto<V> {
    pub id: i32,
    pub document_id: i32,
    pub respondent_id: i32,
    pub parent_node_id: i32,
    pub node_a_id: i32,
    pub node_b_id: i32,
    pub saaty_value: V,
}

/// The order in which to insert the nodes of an import (indices into the
/// node list), and whether every node could be placed.
pub struct InsertionPlan {
    pub order: Vec<usize>,
    pub complete: bool,
}

/// Can `n` be inserted once the ids in `keys` are in place?
pub open spec fn ready<C>(n: NodeDto<C>, keys: Set<i32>) -> bool {
    match n.parent_node_id {
        None => true,
        Some(p) => keys.contains(p),
    }
}

/// One pass over the first `k` pending nodes: those whose parent is in place go
/// out (and their ids are in place from then on), the others are kept back.
pub open spec fn round_upto<C>(ns: Seq<NodeDto<C>>, pending: Seq<usize>, keys: Set<i32>, k: int) -> (Seq<usize>, Seq<usize>, Set<i32>)
    decreases k,
{
    if k <= 0 || k > pending.len() {
        (Seq::empty(), Seq::empty(), keys)
    } else {
        let (e, r, ks) = round_upto(ns, pending, keys, k - 1);
        let idx = pending[k - 1];
        if ready(ns[idx as int], ks) {
            (e.push(idx), r, ks.insert(ns[idx as int].id))
        } else {
            (e, r.push(idx), ks)
        }
    }
}

/// A pass sends out or keeps back each of the nodes it looks at.
pub proof fn lemma_round_len<C>(ns: Seq<NodeDto<C>>, pending: Seq<usize>, keys: Set<i32>, k: int)
    requires
        0 <= k <= pending.len(),
    ensures
        round_upto(ns, pending, keys, k).0.len() + round_upto(ns, pending, keys, k).1.len() == k,
    decreases k,
{
    if k > 0 {
        lemma_round_len(ns, pending, keys, k - 1);
    }
}

/// Passes over the pending nodes until all are out or a pass places none; the
/// flag tells whether all went out.
pub open spec fn plan_from<C>(ns: Seq<NodeDto<C>>, pending: Seq<usize>, keys: Set<i32>) -> (Seq<usize>, bool)
    decreases pending.len(),
{
    if pending.len() == 0 {
        (Seq::empty(), true)
    } else {
        let (e, r, ks) = round_upto(ns, pending, keys, pending.len() as int);
        if e.len() == 0 {
            (Seq::empty(), false)
        } else {
            proof { lemma_round_len(ns, pending, keys, pending.len() as int); }
            let (rest, ok) = plan_from(ns, r, ks);
            (e + rest, ok)
        }
    }
}

/// The insertion order of a whole node list, starting with nothing in place.
pub open spec fn plan<C>(ns: Seq<NodeDto<C>>) -> (Seq<usize>, bool) {
    plan_from(ns, Seq::new(ns.len(), |i: int| i as usize), Set::empty())
}

proof fn lemma_round_members<C>(ns: Seq<NodeDto<C>>, pending: Seq<usize>, keys: Set<i32>, k: int, bound: nat)
    requires
        0 <= k <= pending.len(),
        forall|m: int| 0 <= m < pending.len() ==> #[trigger] pending[m] < bound,
    ensures
        forall|m: int| 0 <= m < round_upto(ns, pending, keys, k).0.len() ==> #[trigger] round_upto(ns, pending, keys, k).0[m] < bound,
        forall|m: int| 0 <= m < round_upto(ns, pending, keys, k).1.len() ==> #[trigger] round_upto(ns, pending, keys, k).1[m] < bound,
    decreases k,
{
    if k > 0 {
        lemma_round_members(ns, pending, keys, k - 1, bound);
        assert(pending[k - 1] < bound);
        let (e, r, ks) = round_upto(ns, pending, keys, k - 1);
        assert forall|m: int| 0 <= m < e.push(pending[k - 1]).len() implies #[trigger] e.push(pending[k - 1])[m] < bound by {
            if m < e.len() { assert(e.push(pending[k - 1])[m] == e[m]); }
        }
        assert forall|m: int| 0 <= m < r.push(pending[k - 1]).len() implies #[trigger] r.push(pending[k - 1])[m] < bound by {
            if m < r.len() { assert(r.push(pending[k - 1])[m] == r[m]); }
        }
    }
}

fn contains_id(keys: &Vec<i32>, id: i32) -> (r: bool)
    ensures
        r == keys@.contains(id),
{
    let mut i: usize = 0;
    while i < keys.len()
        invariant
            i <= keys@.len(),
            forall|k: int| 0 <= k < i ==> keys@[k] != id,
        decreases keys@.len() - i,
    {
        if keys[i] == id {
            return true;
        }
        i += 1;
    }
    false
}

/// Orders the nodes of an import so that each goes in after its parent: passes
/// over the nodes still waiting, in list order, placing every node that has no
/// parent or whose parent is already placed, until all are placed or a pass
/// places none (a cycle or a missing parent); the nodes placed up to then come
/// first in the order, and `complete` is false.
pub fn plan_node_insertion<C>(nodes: &Vec<NodeDto<C>>) -> (r: InsertionPlan)
    ensures
        r.order@ == plan(nodes@).0,
        r.complete == plan(nodes@).1,
{
    let ghost ns = nodes@;
    let mut pending: Vec<usize> = Vec::new();
    let mut i: usize = 0;
    while i < nodes.len()
        invariant
            i <= nodes@.len(),
            pending@ == Seq::new(i as nat, |k: int| k as usize),
        decreases nodes@.len() - i,
    {
        pending.push(i);
        proof { assert(pending@ =~= Seq::new((i + 1) as nat, |k: int| k as usize)); }
        i += 1;
    }
    let mut keys: Vec<i32> = Vec::new();
    let mut order: Vec<usize> = Vec::new();
    let ghost mut ks: Set<i32> = Set::empty();
    loop
        invariant
            ns == nodes@,
            forall|k: int| 0 <= k < pending@.len() ==> #[trigger] pending@[k] < nodes@.len(),
            forall|x: i32| ks.contains(x) <==> keys@.contains(x),
            ({
                let (p, ok) = plan(ns);
                let (rest, ok2) = plan_from(ns, pending@, ks);
                p == order@ + rest && ok == ok2
            }),
        decreases pending@.len(),
    {
        if pending.len() == 0 {
            proof {
                assert(plan_from(ns, pending@, ks).0 =~= Seq::<usize>::empty());
                assert(order@ + Seq::<usize>::empty() =~= order@);
            }
            return InsertionPlan { order, complete: true };
        }
        let ghost round = round_upto(ns, pending@, ks, pending@.len() as int);
        let mut emitted: Vec<usize> = Vec::new();
        let mut remaining: Vec<usize> = Vec::new();
        let ghost mut rks: Set<i32> = ks;
        let mut j: usize = 0;
        while j < pending.len()
            invariant
                ns == nodes@,
                j <= pending@.len(),
                forall|k: int| 0 <= k < pending@.len() ==> #[trigger] pending@[k] < nodes@.len(),
                forall|x: i32| rks.contains(x) <==> keys@.contains(x),
                round_upto(ns, pending@, ks, j as int) == (emitted@, remaining@, rks),
            decreases pending@.len() - j,
        {
            let idx = pending[j];
            let node = &nodes[idx];
            let can_insert = match node.parent_node_id {
                Some(pid) => contains_id(&keys, pid),
                None => true,
            };
            if can_insert {
                emitted.push(idx);
                let ghost old_keys = keys@;
                keys.push(node.id);
                proof {
                    rks = rks.insert(node.id);
                    assert forall|x: i32| rks.contains(x) <==> keys@.contains(x) by {
                        if keys@.contains(x) {
                            let w = choose|w: int| 0 <= w < keys@.len() && keys@[w] == x;
                            if w < old_keys.len() {
                                assert(old_keys[w] == x);
                                assert(old_keys.contains(x));
                            }
                        }
                        if old_keys.contains(x) {
                            let w = choose|w: int| 0 <= w < old_keys.len() && old_keys[w] == x;
                            assert(keys@[w] == x);
                        }
                        if x == node.id {
                            assert(keys@[old_keys.len() as int] == x);
                        }
                    }
                }
            } else {
                remaining.push(idx);
            }
            j += 1;
        }
        if emitted.len() == 0 {
            proof {
                assert(order@ + Seq::<usize>::empty() =~= order@);
            }
            return InsertionPlan { order, complete: false };
        }
        proof {
            lemma_round_len(ns, pending@, ks, pending@.len() as int);
            let (rest, ok) = plan_from(ns, remaining@, rks);
            assert(plan_from(ns, pending@, ks) == (emitted@ + rest, ok));
            assert(order@ + (emitted@ + rest) =~= (order@ + emitted@) + rest);
            assert forall|k: int| 0 <= k < remaining@.len() implies #[trigger] remaining@[k] < nodes@.len() by {
                lemma_round_members(ns, pending@, ks, pending@.len() as int, nodes@.len());
            }
        }
        let ghost base = order@;
        let mut k: usize = 0;
        while k < emitted.len()
            invariant
                k <= emitted@.len(),
                order@ == base + emitted@.take(k as int),
            decreases emitted@.len() - k,
        {
            order.push(emitted[k]);
            proof { assert(base + emitted@.take(k + 1) =~= (base + emitted@.take(k as int)).push(emitted@[k as int])); }
            k += 1;
        }
        proof { assert(emitted@.take(emitted@.len() as int) =~= emitted@); }
        pending = remaining;
        proof { ks = rks; }
    }
}


/// The ids of the nodes at the given indices.
pub open spec fn ids_of<C>(ns: Seq<NodeDto<C>>, xs: Seq<usize>) -> Set<i32> {
    Set::new(|x: i32| exists|q: int| 0 <= q < xs.len() && #[trigger] ns[xs[q] as int].id == x)
}

/// Every node of `order` has no parent, or a parent among `keys`, or a parent
/// that comes earlier in `order`.
pub open spec fn parents_first<C>(ns: Seq<NodeDto<C>>, order: Seq<usize>, keys: Set<i32>) -> bool {
    forall|p: int| 0 <= p < order.len() ==> match #[trigger] ns[order[p] as int].parent_node_id {
        None => true,
        Some(par) => keys.contains(par) || exists|q: int| 0 <= q < p && ns[order[q] as int].id == par,
    }
}

proof fn lemma_round_parents_first<C>(ns: Seq<NodeDto<C>>, pending: Seq<usize>, keys: Set<i32>, k: int)
    requires
        0 <= k <= pending.len(),
    ensures
        parents_first(ns, round_upto(ns, pending, keys, k).0, keys),
        round_upto(ns, pending, keys, k).2 == keys.union(ids_of(ns, round_upto(ns, pending, keys, k).0)),
        (pending.take(k).to_multiset() == round_upto(ns, pending, keys, k).0.to_multiset().add(
            round_upto(ns, pending, keys, k).1.to_multiset(),
        )),
    decreases k,
{
    broadcast use vstd::seq_lib::group_to_multiset_ensures;
    broadcast use vstd::multiset::group_multiset_axioms;
    if k == 0 {
        assert(pending.take(0) =~= Seq::<usize>::empty());
        assert(ids_of(ns, Seq::<usize>::empty()) =~= Set::<i32>::empty());
        assert(keys.union(Set::<i32>::empty()) =~= keys);
    } else {
        lemma_round_parents_first(ns, pending, keys, k - 1);
        let (e, r, ks) = round_upto(ns, pending, keys, k - 1);
        let idx = pending[k - 1];
        assert(pending.take(k) =~= pending.take(k - 1).push(idx));
        if ready(ns[idx as int], ks) {
            let e2 = e.push(idx);
            assert forall|p: int| 0 <= p < e2.len() implies match #[trigger] ns[e2[p] as int].parent_node_id {
                None => true,
                Some(par) => keys.contains(par) || exists|q: int| 0 <= q < p && ns[e2[q] as int].id == par,
            } by {
                if p < e.len() {
                    assert(e2[p] == e[p]);
                    match ns[e[p] as int].parent_node_id {
                        None => {},
                        Some(par) => {
                            if !keys.contains(par) {
                                let q = choose|q: int| 0 <= q < p && ns[e[q] as int].id == par;
                                assert(e2[q] == e[q]);
                            }
                        },
                    }
                } else {
                    match ns[idx as int].parent_node_id {
                        None => {},
                        Some(par) => {
                            assert(ks.contains(par));
                            if !keys.contains(par) {
                                assert(ids_of(ns, e).contains(par));
                                let q = choose|q: int| 0 <= q < e.len() && #[trigger] ns[e[q] as int].id == par;
                                assert(e2[q] == e[q]);
                            }
                        },
                    }
                }
            }
            assert forall|x: i32| ks.insert(ns[idx as int].id).contains(x) <==> keys.union(ids_of(ns, e2)).contains(x) by {
                if ids_of(ns, e).contains(x) {
                    let q = choose|q: int| 0 <= q < e.len() && #[trigger] ns[e[q] as int].id == x;
                    assert(e2[q] == e[q]);
                }
                if ids_of(ns, e2).contains(x) {
                    let q = choose|q: int| 0 <= q < e2.len() && #[trigger] ns[e2[q] as int].id == x;
                    if q < e.len() {
                        assert(e2[q] == e[q]);
                        assert(ids_of(ns, e).contains(x));
                    }
                }
                if x == ns[idx as int].id {
                    assert(e2[e.len() as int] == idx);
                }
            }
            assert(ks.insert(ns[idx as int].id) =~= keys.union(ids_of(ns, e2)));
        } else {
            let r2 = r.push(idx);
        }
    }
}

proof fn lemma_concat_parents_first<C>(ns: Seq<NodeDto<C>>, e: Seq<usize>, rest: Seq<usize>, keys: Set<i32>)
    requires
        parents_first(ns, e, keys),
        parents_first(ns, rest, keys.union(ids_of(ns, e))),
    ensures
        parents_first(ns, e + rest, keys),
{
    let all = e + rest;
    assert forall|p: int| 0 <= p < all.len() implies match #[trigger] ns[all[p] as int].parent_node_id {
        None => true,
        Some(par) => keys.contains(par) || exists|q: int| 0 <= q < p && ns[all[q] as int].id == par,
    } by {
        if p < e.len() {
            assert(all[p] == e[p]);
            match ns[e[p] as int].parent_node_id {
                None => {},
                Some(par) => {
                    if !keys.contains(par) {
                        let q = choose|q: int| 0 <= q < p && ns[e[q] as int].id == par;
                        assert(all[q] == e[q]);
                    }
                },
            }
        } else {
            let p2 = p - e.len();
            assert(all[p] == rest[p2]);
            match ns[rest[p2] as int].parent_node_id {
                None => {},
                Some(par) => {
                    if !keys.contains(par) {
                        if ids_of(ns, e).contains(par) {
                            let q = choose|q: int| 0 <= q < e.len() && #[trigger] ns[e[q] as int].id == par;
                            assert(all[q] == e[q]);
                        } else {
                            let q2 = choose|q: int| 0 <= q < p2 && ns[rest[q] as int].id == par;
                            assert(all[q2 + e.len()] == rest[q2]);
                        }
                    }
                },
            }
        }
    }
}

proof fn lemma_plan_from_laws<C>(ns: Seq<NodeDto<C>>, pending: Seq<usize>, keys: Set<i32>)
    ensures
        parents_first(ns, plan_from(ns, pending, keys).0, keys),
        plan_from(ns, pending, keys).1 ==> plan_from(ns, pending, keys).0.to_multiset() == pending.to_multiset(),
    decreases pending.len(),
{
    broadcast use vstd::seq_lib::group_to_multiset_ensures;
    broadcast use vstd::multiset::group_multiset_axioms;
    if pending.len() > 0 {
        let (e, r, ks) = round_upto(ns, pending, keys, pending.len() as int);
        lemma_round_parents_first(ns, pending, keys, pending.len() as int);
        assert(pending.take(pending.len() as int) =~= pending);
        if e.len() > 0 {
            lemma_round_len(ns, pending, keys, pending.len() as int);
            lemma_plan_from_laws(ns, r, ks);
            let (rest, ok) = plan_from(ns, r, ks);
            lemma_concat_parents_first(ns, e, rest, keys);
            vstd::seq_lib::lemma_multiset_commutative(e, rest);
        }
    } else {
        assert(parents_first(ns, Seq::<usize>::empty(), keys));
    }
}

/// Law: the insertion order puts every node after its parent (or the node has
/// no parent), so that no insertion refers to a node not yet written; and when
/// the plan is complete it holds every node exactly once.
pub proof fn lemma_plan_parents_first<C>(ns: Seq<NodeDto<C>>)
    ensures
        parents_first(ns, plan(ns).0, Set::empty()),
        plan(ns).1 ==> plan(ns).0.to_multiset() == Seq::new(ns.len(), |i: int| i as usize).to_multiset(),
{
    lemma_plan_from_laws(ns, Seq::new(ns.len(), |i: int| i as usize), Set::empty());
}


/// The parent links of `ns` go down a ranking: every node that names a parent
/// has a node with that id in the list, of lower rank (so no chain of parents
/// runs round a cycle or leaves the list).
pub open spec fn ranked<C>(ns: Seq<NodeDto<C>>, rank: Seq<nat>) -> bool {
    &&& rank.len() == ns.len()
    &&& forall|i: int| 0 <= i < ns.len() ==> (#[trigger] ns[i].parent_node_id matches Some(p) ==> exists|j: int|
        0 <= j < ns.len() && #[trigger] ns[j].id == p && rank[j] < rank[i])
}

proof fn lemma_round_keys_grow<C>(ns: Seq<NodeDto<C>>, pending: Seq<usize>, keys: Set<i32>, k: int)
    ensures
        keys.subset_of(round_upto(ns, pending, keys, k).2),
    decreases k,
{
    if k > 0 && k <= pending.len() {
        lemma_round_keys_grow(ns, pending, keys, k - 1);
    }
}

proof fn lemma_round_out<C>(ns: Seq<NodeDto<C>>, pending: Seq<usize>, keys: Set<i32>, k: int)
    requires
        0 <= k <= pending.len(),
    ensures
        forall|m: int| 0 <= m < k && !round_upto(ns, pending, keys, k).1.contains(#[trigger] pending[m])
            ==> round_upto(ns, pending, keys, k).2.contains(ns[pending[m] as int].id),
    decreases k,
{
    if k > 0 {
        lemma_round_out(ns, pending, keys, k - 1);
        let (e, r, ks) = round_upto(ns, pending, keys, k - 1);
        let idx = pending[k - 1];
        let (e2, r2, ks2) = round_upto(ns, pending, keys, k);
        assert(ks.subset_of(ks2));
        assert forall|m: int| 0 <= m < k && !r2.contains(#[trigger] pending[m]) implies ks2.contains(ns[pending[m] as int].id) by {
            if ready(ns[idx as int], ks) {
                assert(r2 == r);
                assert(ks2 == ks.insert(ns[idx as int].id));
                if m < k - 1 {
                    assert(ks.contains(ns[pending[m] as int].id));
                }
            } else {
                assert(r2 == r.push(idx));
                assert(ks2 == ks);
                assert(r2[r.len() as int] == idx);
                if m < k - 1 {
                    if r.contains(pending[m]) {
                        let w = choose|w: int| 0 <= w < r.len() && r[w] == pending[m];
                        assert(r2[w] == pending[m]);
                    }
                    assert(ks.contains(ns[pending[m] as int].id));
                }
            }
        }
    }
}

proof fn lemma_round_places_ready<C>(ns: Seq<NodeDto<C>>, pending: Seq<usize>, keys: Set<i32>, k: int, m: int)
    requires
        0 <= m < k <= pending.len(),
        ready(ns[pending[m] as int], keys),
    ensures
        round_upto(ns, pending, keys, k).0.len() > 0,
    decreases k,
{
    if m < k - 1 {
        lemma_round_places_ready(ns, pending, keys, k - 1, m);
    } else {
        lemma_round_keys_grow(ns, pending, keys, k - 1);
    }
}

proof fn lemma_min_rank(pending: Seq<usize>, rank: Seq<nat>, k: int) -> (m: int)
    requires
        0 < k <= pending.len(),
        forall|x: int| 0 <= x < pending.len() ==> (#[trigger] pending[x]) < rank.len(),
    ensures
        0 <= m < k,
        forall|x: int| 0 <= x < k ==> rank[pending[m] as int] <= rank[#[trigger] pending[x] as int],
    decreases k,
{
    if k == 1 {
        0
    } else {
        let m0 = lemma_min_rank(pending, rank, k - 1);
        if rank[pending[k - 1] as int] < rank[pending[m0] as int] { k - 1 } else { m0 }
    }
}

proof fn lemma_plan_from_complete<C>(ns: Seq<NodeDto<C>>, pending: Seq<usize>, keys: Set<i32>, rank: Seq<nat>)
    requires
        ranked(ns, rank),
        ns.len() <= usize::MAX,
        forall|x: int| 0 <= x < pending.len() ==> (#[trigger] pending[x]) < ns.len(),
        forall|i: int| 0 <= i < ns.len() && !pending.contains(i as usize) ==> keys.contains(#[trigger] ns[i].id),
    ensures
        plan_from(ns, pending, keys).1,
    decreases pending.len(),
{
    if pending.len() > 0 {
        let len = pending.len() as int;
        let mi = lemma_min_rank(pending, rank, len);
        let i = pending[mi] as int;
        assert(ready(ns[i], keys)) by {
            if let Some(p) = ns[i].parent_node_id {
                assert(ns[i].parent_node_id matches Some(p));
                let j = choose|j: int| 0 <= j < ns.len() && #[trigger] ns[j].id == p && rank[j] < rank[i];
                if pending.contains(j as usize) {
                    let w = choose|w: int| 0 <= w < pending.len() && pending[w] == j as usize;
                    assert(rank[pending[mi] as int] <= rank[pending[w] as int]);
                    assert(pending[w] as int == j);
                    assert(false);
                }
                assert(0 <= j < ns.len() && !pending.contains(j as usize));
                assert(keys.contains(ns[j].id));
            }
        }
        lemma_round_places_ready(ns, pending, keys, len, mi);
        lemma_round_len(ns, pending, keys, len);
        lemma_round_keys_grow(ns, pending, keys, len);
        lemma_round_out(ns, pending, keys, len);
        lemma_round_members(ns, pending, keys, len, ns.len());
        let (e, r, ks) = round_upto(ns, pending, keys, len);
        assert forall|x: int| 0 <= x < ns.len() && !r.contains(x as usize) implies ks.contains(#[trigger] ns[x].id) by {
            if pending.contains(x as usize) {
                let w = choose|w: int| 0 <= w < pending.len() && pending[w] == x as usize;
                assert(!r.contains(pending[w]));
                assert(pending[w] as int == x);
                assert(ks.contains(ns[pending[w] as int].id));
            } else {
                assert(keys.contains(ns[x].id));
            }
        }
        lemma_plan_from_complete(ns, r, ks, rank);
    }
}

/// Law: a node list whose parent links go down a ranking (every parent is a
/// node of the list, and no chain of parents runs round a cycle), as an export
/// of a stored hierarchy is, is planned whole: the plan is complete, so a
/// save or import writes every node exactly once, each after its parent.
/// (The list is one held in memory, so its length fits a `usize`.)
pub proof fn lemma_ranked_plan_complete<C>(ns: Seq<NodeDto<C>>, rank: Seq<nat>)
    requires
        ranked(ns, rank),
        ns.len() <= usize::MAX,
    ensures
        plan(ns).1,
        plan(ns).0.to_multiset() == Seq::new(ns.len(), |i: int| i as usize).to_multiset(),
        parents_first(ns, plan(ns).0, Set::empty()),
{
    let pending = Seq::new(ns.len(), |i: int| i as usize);
    assert forall|i: int| 0 <= i < ns.len() && !pending.contains(i as usize) implies Set::<i32>::empty().contains(#[trigger] ns[i].id) by {
        assert(pending[i] == i as usize);
    }
    lemma_plan_from_complete(ns, pending, Set::empty(), rank);
    lemma_plan_parents_first(ns);
}

/// The map from a node's id in the source to its id once written, filled as
/// nodes are written. A later entry for the same source id replaces the earlier one.
pub struct IdMap {
    pairs: Vec<(i32, i32)>,
}

/// The map the list of `(from, to)` entries describes, later entries winning.
pub open spec fn map_of(pairs: Seq<(i32, i32)>) -> Map<i32, i32>
    decreases pairs.len(),
{
    if pairs.len() == 0 {
        Map::empty()
    } else {
        map_of(pairs.drop_last()).insert(pairs.last().0, pairs.last().1)
    }
}

impl View for IdMap {
    type V = Map<i32, i32>;

    closed spec fn view(&self) -> Map<i32, i32> {
        map_of(self.pairs@)
    }
}

/// What `m` maps `k` to, if anything.
pub open spec fn lookup(m: Map<i32, i32>, k: i32) -> Option<i32> {
    if m.contains_key(k) { Some(m[k]) } else { None }
}

impl IdMap {
    /// An empty map.
    pub fn new() -> (r: IdMap)
        ensures
            r@ == Map::<i32, i32>::empty(),
    {
        IdMap { pairs: Vec::new() }
    }

    /// Records that `from` became `to`.
    pub fn insert(&mut self, from: i32, to: i32)
        ensures
            final(self)@ == old(self)@.insert(from, to),
    {
        self.pairs.push((from, to));
        proof {
            assert(self.pairs@.drop_last() =~= old(self).pairs@);
        }
    }

    /// What `from` became, if it has been recorded.
    pub fn get(&self, from: i32) -> (r: Option<i32>)
        ensures
            r == lookup(self@, from),
    {
        let mut i: usize = self.pairs.len();
        proof {
            assert(self.pairs@.take(self.pairs@.len() as int) =~= self.pairs@);
        }
        while i > 0
            invariant
                i <= self.pairs@.len(),
                lookup(self@, from) == lookup(map_of(self.pairs@.take(i as int)), from),
            decreases i,
        {
            let (k, v) = self.pairs[i - 1];
            proof {
                let t = self.pairs@.take(i as int);
                assert(t.drop_last() =~= self.pairs@.take(i - 1));
                assert(t.last() == (k, v));
            }
            if k == from {
                return Some(v);
            }
            i -= 1;
        }
        proof {
            assert(self.pairs@.take(0) =~= Seq::<(i32, i32)>::empty());
        }
        None
    }
}

/// Which reference of a comparison names a node that was not written.
#[derive(Clone, Copy, Debug, PartialEq, Eq)]
pub enum ComparisonRefError {
    ParentNode,
    NodeA,
    NodeB,
}

impl ComparisonRefError {
    /// The text a refused comparison is answered with.
    pub fn message(&self) -> (r: String)
        ensures
            r@ == match self {
                ComparisonRefError::ParentNode => "Invalid comparison parent_node_id"@,
                ComparisonRefError::NodeA => "Invalid comparison node_a_id"@,
                ComparisonRefError::NodeB => "Invalid comparison node_b_id"@,
            },
    {
        match self {
            ComparisonRefError::ParentNode => "Invalid comparison parent_node_id".to_owned(),
            ComparisonRefError::NodeA => "Invalid comparison node_a_id".to_owned(),
            ComparisonRefError::NodeB => "Invalid comparison node_b_id".to_owned(),
        }
    }
}

/// The parent a node is written with when `m` holds the ids written so far:
/// a parent already written is named by its new id; any other is kept as it is.
pub open spec fn parent_to_write(parent: Option<i32>, m: Map<i32, i32>) -> Option<i32> {
    match parent {
        Some(p) => Some(match lookup(m, p) { Some(x) => x, None => p }),
        None => None,
    }
}

/// The parent to store for a node whose parent was `parent`, given the ids
/// written so far.
pub fn parent_to_store(map: &IdMap, parent: Option<i32>) -> (r: Option<i32>)
    ensures
        r == parent_to_write(parent, map@),
{
    match parent {
        Some(p) => Some(match map.get(p) { Some(x) => x, None => p }),
        None => None,
    }
}

/// The id map once the first `k` nodes of `order` are written, the store
/// having given the `j`-th of them the id `fresh[j]`.
pub open spec fn written_ids<C>(ns: Seq<NodeDto<C>>, order: Seq<usize>, fresh: Seq<i32>, k: int) -> Map<i32, i32>
    decreases k,
{
    if k <= 0 {
        Map::empty()
    } else {
        written_ids(ns, order, fresh, k - 1).insert(ns[order[k - 1] as int].id, fresh[k - 1])
    }
}

/// The id map a full save of `ns` ends with, the store giving the nodes the
/// ids `fresh` in the order they are written.
pub open spec fn saved_ids<C>(ns: Seq<NodeDto<C>>, fresh: Seq<i32>) -> Map<i32, i32> {
    written_ids(ns, plan(ns).0, fresh, plan(ns).0.len() as int)
}

/// No two nodes of `ns` share an id.
pub open spec fn distinct_ids<C>(ns: Seq<NodeDto<C>>) -> bool {
    forall|i: int, j: int| 0 <= i < ns.len() && 0 <= j < ns.len() && i != j ==> ns[i].id != ns[j].id
}

proof fn lemma_written_id<C>(ns: Seq<NodeDto<C>>, order: Seq<usize>, fresh: Seq<i32>, q: int, k: int)
    requires
        0 <= q < k <= order.len(),
        forall|j: int| q < j < k ==> #[trigger] ns[order[j] as int].id != ns[order[q] as int].id,
    ensures
        written_ids(ns, order, fresh, k).contains_key(ns[order[q] as int].id),
        written_ids(ns, order, fresh, k)[ns[order[q] as int].id] == fresh[q],
    decreases k,
{
    if k - 1 > q {
        lemma_written_id(ns, order, fresh, q, k - 1);
        assert(ns[order[k - 1] as int].id != ns[order[q] as int].id);
    }
}

/// Law: a full save (or an import, which writes the same way) writes back the
/// hierarchy it was given, each node under a
/// new id. With distinct node ids and a complete plan, and the store giving
/// the written nodes distinct ids `fresh` in the order of writing, every node
/// of the list is written exactly once; the final id map sends each node's id
/// to the id it was written under, so distinct nodes get distinct ids; and
/// each node is stored under its parent's new id, so the stored hierarchy is
/// the given one renamed by that map (and each comparison reference to a node
/// of the list is carried over by it).
pub proof fn lemma_save_writes_renamed_copy<C>(ns: Seq<NodeDto<C>>, fresh: Seq<i32>)
    requires
        distinct_ids(ns),
        plan(ns).1,
        fresh.len() == ns.len(),
        fresh.no_duplicates(),
        ns.len() <= usize::MAX,
    ensures
        plan(ns).0.len() == ns.len(),
        plan(ns).0.no_duplicates(),
        forall|k: int| 0 <= k < plan(ns).0.len() ==> #[trigger] plan(ns).0[k] < ns.len(),
        forall|i: usize| i < ns.len() ==> #[trigger] plan(ns).0.contains(i),
        forall|k: int| 0 <= k < plan(ns).0.len() ==> (#[trigger] lookup(saved_ids(ns, fresh), ns[plan(ns).0[k] as int].id)) == Some(fresh[k]),
        forall|i: int, j: int| 0 <= i < ns.len() && 0 <= j < ns.len() && i != j
            ==> lookup(saved_ids(ns, fresh), #[trigger] ns[i].id) != lookup(saved_ids(ns, fresh), #[trigger] ns[j].id),
        forall|k: int| 0 <= k < plan(ns).0.len() ==> #[trigger] parent_to_write(ns[plan(ns).0[k] as int].parent_node_id, written_ids(ns, plan(ns).0, fresh, k))
            == match ns[plan(ns).0[k] as int].parent_node_id {
                Some(p) => lookup(saved_ids(ns, fresh), p),
                None => None,
            },
{
    broadcast use vstd::seq_lib::group_to_multiset_ensures;
    let order = plan(ns).0;
    let n = ns.len() as int;
    let ident = Seq::new(ns.len(), |i: int| i as usize);
    lemma_plan_parents_first(ns);
    assert(order.to_multiset() == ident.to_multiset());
    assert(ident.no_duplicates()) by {
        assert forall|i: int, j: int| 0 <= i < ident.len() && 0 <= j < ident.len() && i != j implies ident[i] != ident[j] by {
            assert(ident[i] == i as usize);
            assert(ident[j] == j as usize);
        }
    }
    ident.lemma_multiset_has_no_duplicates();
    order.lemma_multiset_has_no_duplicates_conv();
    assert(order.len() == ns.len()) by {
        assert(order.to_multiset().len() == ident.to_multiset().len());
    }
    assert forall|k: int| 0 <= k < order.len() implies #[trigger] order[k] < ns.len() by {
        assert(order.contains(order[k]));
        assert(ident.to_multiset().count(order[k]) > 0);
        assert(ident.contains(order[k]));
        let t = choose|t: int| 0 <= t < ident.len() && ident[t] == order[k];
        assert(ident[t] == t as usize);
    }
    assert forall|i: usize| i < ns.len() implies #[trigger] order.contains(i) by {
        assert(ident[i as int] == i);
        assert(ident.contains(i));
        assert(order.to_multiset().count(i) > 0);
    }
    let f = saved_ids(ns, fresh);
    assert forall|k: int| 0 <= k < order.len() implies (#[trigger] lookup(f, ns[order[k] as int].id)) == Some(fresh[k]) by {
        assert forall|j: int| k < j < n implies #[trigger] ns[order[j] as int].id != ns[order[k] as int].id by {
            assert(order[j] != order[k]);
        }
        lemma_written_id(ns, order, fresh, k, n);
    }
    assert forall|i: int, j: int| 0 <= i < ns.len() && 0 <= j < ns.len() && i != j
        implies lookup(f, #[trigger] ns[i].id) != lookup(f, #[trigger] ns[j].id) by {
        assert(order.contains(i as usize));
        assert(order.contains(j as usize));
        let a = choose|a: int| 0 <= a < order.len() && order[a] == i as usize;
        let b = choose|b: int| 0 <= b < order.len() && order[b] == j as usize;
        assert(lookup(f, ns[order[a] as int].id) == Some(fresh[a]));
        assert(lookup(f, ns[order[b] as int].id) == Some(fresh[b]));
        assert(a != b);
    }
    assert forall|k: int| 0 <= k < order.len() implies #[trigger] parent_to_write(ns[order[k] as int].parent_node_id, written_ids(ns, order, fresh, k))
        == match ns[order[k] as int].parent_node_id {
            Some(p) => lookup(f, p),
            None => None,
        } by {
        match ns[order[k] as int].parent_node_id {
            Some(par) => {
                assert(parents_first(ns, order, Set::empty()));
                let q = choose|q: int| 0 <= q < k && ns[order[q] as int].id == par;
                assert forall|j: int| q < j < k implies #[trigger] ns[order[j] as int].id != ns[order[q] as int].id by {
                    assert(order[j] != order[q]);
                }
                lemma_written_id(ns, order, fresh, q, k);
                assert(lookup(f, ns[order[q] as int].id) == Some(fresh[q]));
            },
            None => {},
        }
    }
}

/// The references of a comparison, carried over to the written nodes; the first
/// reference (parent, then node A, then node B) that was not written is an error.
pub fn remap_comparison_refs(map: &IdMap, parent_node_id: i32, node_a_id: i32, node_b_id: i32) -> (r: Result<(i32, i32, i32), ComparisonRefError>)
    ensures
        r == (match (lookup(map@, parent_node_id), lookup(map@, node_a_id), lookup(map@, node_b_id)) {
            (None, _, _) => Err(ComparisonRefError::ParentNode),
            (Some(_), None, _) => Err(ComparisonRefError::NodeA),
            (Some(_), Some(_), None) => Err(ComparisonRefError::NodeB),
            (Some(p), Some(a), Some(b)) => Ok((p, a, b)),
        }),
{
    let p = match map.get(parent_node_id) {
        Some(p) => p,
        None => return Err(ComparisonRefError::ParentNode),
    };
    let a = match map.get(node_a_id) {
        Some(a) => a,
        None => return Err(ComparisonRefError::NodeA),
    };
    let b = match map.get(node_b_id) {
        Some(b) => b,
        None => return Err(ComparisonRefError::NodeB),
    };
    Ok((p, a, b))
}

/// The id a node of the copied document became in the copy; 0 when it was not copied.
pub fn copied_id_or_zero(map: &IdMap, id: i32) -> (r: i32)
    ensures
        r == (match lookup(map@, id) { Some(x) => x, None => 0 }),
{
    match map.get(id) {
        Some(x) => x,
        None => 0,
    }
}

/// The node that stands for `n` in a copy of its document: the same name,
/// type and cost, in the document `document_id`, and no parent yet (the
/// parent links follow once every copied node has its id: `copy_parent_links`).
/// It keeps the source node's id, by which the id map then finds the copy.
pub fn copied_node<C: Copy>(n: &NodeDto<C>, document_id: i32) -> (r: NodeDto<C>)
    ensures
        r.id == n.id,
        r.document_id == document_id,
        r.parent_node_id is None,
        r.name@ == n.name@,
        r.node_type@ == n.node_type@,
        r.cost == n.cost,
{
    NodeDto {
        id: n.id,
        document_id,
        parent_node_id: None,
        name: n.name.clone(),
        node_type: n.node_type.clone(),
        cost: n.cost,
    }
}

/// The comparison that stands for `c` in a copy of its document: the same
/// respondent and Saaty value, in the document `document_id`, with each node
/// reference carried over by the id map (0 for a node that was not copied).
pub fn copied_comparison<V: Copy>(c: &ComparisonDto<V>, document_id: i32, map: &IdMap) -> (r: ComparisonDto<V>)
    ensures
        r.id == c.id,
        r.document_id == document_id,
        r.respondent_id == c.respondent_id,
        r.parent_node_id == (match lookup(map@, c.parent_node_id) { Some(x) => x, None => 0 }),
        r.node_a_id == (match lookup(map@, c.node_a_id) { Some(x) => x, None => 0 }),
        r.node_b_id == (match lookup(map@, c.node_b_id) { Some(x) => x, None => 0 }),
        r.saaty_value == c.saaty_value,
{
    ComparisonDto {
        id: c.id,
        document_id,
        respondent_id: c.respondent_id,
        parent_node_id: copied_id_or_zero(map, c.parent_node_id),
        node_a_id: copied_id_or_zero(map, c.node_a_id),
        node_b_id: copied_id_or_zero(map, c.node_b_id),
        saaty_value: c.saaty_value,
    }
}

/// The parent links to set on a copy, as `(new node id, new parent id)`: one for
/// each node of the copied document, in order, that has a parent, when both it and its parent
/// were copied.
pub open spec fn parent_links<C>(ns: Seq<NodeDto<C>>, m: Map<i32, i32>) -> Seq<(i32, i32)>
    decreases ns.len(),
{
    if ns.len() == 0 {
        Seq::empty()
    } else {
        let before = parent_links(ns.drop_last(), m);
        let n = ns.last();
        match n.parent_node_id {
            Some(op) => if m.contains_key(n.id) && m.contains_key(op) {
                before.push((m[n.id], m[op]))
            } else {
                before
            },
            None => before,
        }
    }
}

/// Node `n` has a parent, and both it and its parent are in the id map `m`.
pub open spec fn parent_copied<C>(n: NodeDto<C>, m: Map<i32, i32>) -> bool {
    n.parent_node_id is Some && m.contains_key(n.id) && m.contains_key(n.parent_node_id->0)
}

/// The link `(new id, new parent id)` of node `n` under the id map `m`.
pub open spec fn copied_link<C>(n: NodeDto<C>, m: Map<i32, i32>) -> (i32, i32) {
    (m[n.id], m[n.parent_node_id->0])
}

proof fn lemma_parent_links_members<C>(ns: Seq<NodeDto<C>>, m: Map<i32, i32>)
    ensures
        forall|i: int| 0 <= i < ns.len() && parent_copied(#[trigger] ns[i], m)
            ==> parent_links(ns, m).contains(copied_link(ns[i], m)),
        forall|x: (i32, i32)| #[trigger] parent_links(ns, m).contains(x)
            ==> exists|i: int| 0 <= i < ns.len() && parent_copied(#[trigger] ns[i], m) && x == copied_link(ns[i], m),
    decreases ns.len(),
{
    if ns.len() > 0 {
        let rest = ns.drop_last();
        lemma_parent_links_members(rest, m);
        let before = parent_links(rest, m);
        let r = parent_links(ns, m);
        assert forall|x: (i32, i32)| before.contains(x) implies r.contains(x) by {
            let j = choose|j: int| 0 <= j < before.len() && before[j] == x;
            assert(r[j] == x);
        }
        assert forall|i: int| 0 <= i < ns.len() && parent_copied(#[trigger] ns[i], m)
            implies r.contains(copied_link(ns[i], m)) by {
            if i < ns.len() - 1 {
                assert(rest[i] == ns[i]);
                assert(before.contains(copied_link(rest[i], m)));
            } else {
                assert(r[r.len() - 1] == copied_link(ns[i], m));
            }
        }
        assert forall|x: (i32, i32)| #[trigger] r.contains(x)
            implies exists|i: int| 0 <= i < ns.len() && parent_copied(#[trigger] ns[i], m) && x == copied_link(ns[i], m) by {
            let j = choose|j: int| 0 <= j < r.len() && r[j] == x;
            if j < before.len() {
                assert(r[j] == before[j]);
                assert(before.contains(x));
                let i = choose|i: int| 0 <= i < rest.len() && parent_copied(#[trigger] rest[i], m) && x == copied_link(rest[i], m);
                assert(ns[i] == rest[i]);
            } else {
                assert(ns[ns.len() - 1] == ns.last());
            }
        }
    }
}

proof fn lemma_parent_links_len<C>(ns: Seq<NodeDto<C>>, m: Map<i32, i32>)
    ensures
        parent_links(ns, m).len() == ns.filter(|n: NodeDto<C>| parent_copied(n, m)).len(),
    decreases ns.len(),
{
    reveal(Seq::filter);
    if ns.len() > 0 {
        lemma_parent_links_len(ns.drop_last(), m);
    }
}

/// Law: the parent links of a copy are exactly one `(new id, new parent id)`
/// for each copied node that has a parent, when both it and its parent were
/// copied: every such node gets its link (siblings each their own), no other
/// link is made, and there are as many links as such nodes.
pub proof fn lemma_parent_links_are_the_copied_parents<C>(ns: Seq<NodeDto<C>>, m: Map<i32, i32>)
    ensures
        forall|i: int| 0 <= i < ns.len() && parent_copied(#[trigger] ns[i], m)
            ==> parent_links(ns, m).contains(copied_link(ns[i], m)),
        forall|x: (i32, i32)| #[trigger] parent_links(ns, m).contains(x)
            ==> exists|i: int| 0 <= i < ns.len() && parent_copied(#[trigger] ns[i], m) && x == copied_link(ns[i], m),
        parent_links(ns, m).len() == ns.filter(|n: NodeDto<C>| parent_copied(n, m)).len(),
{
    lemma_parent_links_members(ns, m);
    lemma_parent_links_len(ns, m);
}

/// The parent links of the copy of a document, from the copied document's nodes.
pub fn copy_parent_links<C>(nodes: &Vec<NodeDto<C>>, map: &IdMap) -> (r: Vec<(i32, i32)>)
    ensures
        r@ == parent_links(nodes@, map@),
{
    let mut out: Vec<(i32, i32)> = Vec::new();
    let mut i: usize = 0;
    while i < nodes.len()
        invariant
            i <= nodes@.len(),
            out@ == parent_links(nodes@.take(i as int), map@),
        decreases nodes@.len() - i,
    {
        let n = &nodes[i];
        proof {
            assert(nodes@.take(i + 1).drop_last() =~= nodes@.take(i as int));
        }
        if let Some(old_parent) = n.parent_node_id {
            let new_id = map.get(n.id);
            let new_parent = map.get(old_parent);
            if let (Some(a), Some(b)) = (new_id, new_parent) {
                out.push((a, b));
            }
        }
        i += 1;
    }
    proof {
        assert(nodes@.take(nodes@.len() as int) =~= nodes@);
    }
    out
}


/// The values of `s` are strictly increasing.
pub open spec fn strictly_increasing(s: Seq<i32>) -> bool {
    forall|i: int, j: int| 0 <= i < j < s.len() ==> s[i] < s[j]
}

/// Adds `x` to the strictly increasing `v`, keeping it so.
fn insert_sorted(v: &mut Vec<i32>, x: i32)
    requires
        strictly_increasing(old(v)@),
    ensures
        strictly_increasing(final(v)@),
        forall|y: i32| #[trigger] final(v)@.contains(y) <==> (old(v)@.contains(y) || y == x),
{
    let mut p: usize = 0;
    while p < v.len() && v[p] < x
        invariant
            p <= v@.len(),
            v@ == old(v)@,
            forall|k: int| 0 <= k < p ==> v@[k] < x,
        decreases v@.len() - p,
    {
        p += 1;
    }
    if p < v.len() && v[p] == x {
        proof {
            assert(v@[p as int] == x);
        }
        return;
    }
    proof {
        assert(p < v@.len() ==> v@[p as int] > x);
    }
    let ghost before = v@;
    v.insert(p, x);
    proof {
        assert forall|y: i32| #[trigger] v@.contains(y) <==> (before.contains(y) || y == x) by {
            if v@.contains(y) {
                let k = choose|k: int| 0 <= k < v@.len() && v@[k] == y;
                if k < p {
                    assert(before[k] == y);
                } else if k > p {
                    assert(before[k - 1] == y);
                }
            }
            if before.contains(y) {
                let k = choose|k: int| 0 <= k < before.len() && before[k] == y;
                if k < p {
                    assert(v@[k] == y);
                } else {
                    assert(v@[k + 1] == y);
                }
            }
            if y == x {
                assert(v@[p as int] == x);
            }
        }
    }
}

/// Adds every value of `src` to the strictly increasing `v`.
fn insert_all_sorted(v: &mut Vec<i32>, src: &Vec<i32>)
    requires
        strictly_increasing(old(v)@),
    ensures
        strictly_increasing(final(v)@),
        forall|y: i32| #[trigger] final(v)@.contains(y) <==> (old(v)@.contains(y) || src@.contains(y)),
{
    let ghost start = v@;
    let mut i: usize = 0;
    while i < src.len()
        invariant
            i <= src@.len(),
            strictly_increasing(v@),
            forall|y: i32| #[trigger] v@.contains(y) <==> (start.contains(y) || src@.take(i as int).contains(y)),
        decreases src@.len() - i,
    {
        let ghost prev = v@;
        insert_sorted(v, src[i]);
        proof {
            let t = src@.take(i as int);
            assert(src@.take(i + 1) =~= t.push(src@[i as int]));
            assert forall|y: i32| t.push(src@[i as int]).contains(y) <==> (t.contains(y) || y == src@[i as int]) by {
                if t.push(src@[i as int]).contains(y) {
                    let k = choose|k: int| 0 <= k < t.len() + 1 && t.push(src@[i as int])[k] == y;
                    if k < t.len() {
                        assert(t[k] == y);
                    }
                }
                if t.contains(y) {
                    let k = choose|k: int| 0 <= k < t.len() && t[k] == y;
                    assert(t.push(src@[i as int])[k] == y);
                }
                if y == src@[i as int] {
                    assert(t.push(src@[i as int])[t.len() as int] == y);
                }
            }
            assert forall|y: i32| v@.contains(y) <==> (start.contains(y) || src@.take(i + 1).contains(y)) by {
                assert(v@.contains(y) <==> (prev.contains(y) || y == src@[i as int]));
                assert(prev.contains(y) <==> (start.contains(y) || t.contains(y)));
                assert(t.push(src@[i as int]).contains(y) <==> (t.contains(y) || y == src@[i as int]));
            }
        }
        i += 1;
    }
    proof {
        assert(src@.take(src@.len() as int) =~= src@);
    }
}

/// The ids of the documents a user may see: those the user owns, those
/// assigned to the user, and those assigned to one of the user's groups, in
/// increasing order and each once.
pub fn allowed_document_ids(owned: &Vec<i32>, user_assigned: &Vec<i32>, group_assigned: &Vec<i32>) -> (r: Vec<i32>)
    ensures
        strictly_increasing(r@),
        forall|id: i32| r@.contains(id) <==> (owned@.contains(id) || user_assigned@.contains(id) || group_assigned@.contains(id)),
{
    let mut r: Vec<i32> = Vec::new();
    proof {
        assert forall|y: i32| !r@.contains(y) by {}
    }
    insert_all_sorted(&mut r, owned);
    let ghost r1 = r@;
    insert_all_sorted(&mut r, user_assigned);
    let ghost r2 = r@;
    insert_all_sorted(&mut r, group_assigned);
    proof {
        assert forall|id: i32| r@.contains(id) <==> (owned@.contains(id) || user_assigned@.contains(id) || group_assigned@.contains(id)) by {
            assert(r@.contains(id) <==> (r2.contains(id) || group_assigned@.contains(id)));
            assert(r2.contains(id) <==> (r1.contains(id) || user_assigned@.contains(id)));
            assert(r1.contains(id) <==> owned@.contains(id));
        }
    }
    r
}


/// `pat` occurs in `s` starting at position `i`.
pub open spec fn occurs_at(s: Seq<char>, pat: Seq<char>, i: int) -> bool {
    0 <= i && i + pat.len() <= s.len() && s.subrange(i, i + pat.len()) == pat
}

/// The last position, at or before `i`, where `pat` occurs in `s`.
pub open spec fn last_occurrence_upto(s: Seq<char>, pat: Seq<char>, i: int) -> Option<int>
    decreases i + 1,
{
    if i < 0 {
        None
    } else if occurs_at(s, pat, i) {
        Some(i)
    } else {
        last_occurrence_upto(s, pat, i - 1)
    }
}

/// What `last_occurrence_upto` finds is an occurrence at or before `i`.
proof fn lemma_last_occurrence_upto_bounds(s: Seq<char>, pat: Seq<char>, i: int)
    ensures
        last_occurrence_upto(s, pat, i) matches Some(k) ==> 0 <= k <= i && occurs_at(s, pat, k),
    decreases i + 1,
{
    if i >= 0 && !occurs_at(s, pat, i) {
        lemma_last_occurrence_upto_bounds(s, pat, i - 1);
    }
}

/// The last position where `pat` occurs in `s`.
pub open spec fn last_occurrence(s: Seq<char>, pat: Seq<char>) -> Option<int> {
    last_occurrence_upto(s, pat, s.len() - pat.len())
}

/// The text that opens a version suffix: `" (v"`.
pub open spec fn version_marker() -> Seq<char> {
    seq![' ', '(', 'v']
}

/// A document name without its version suffix: when the name ends with `')'`,
/// everything from the last `" (v"` on is cut off.
pub open spec fn base_name(name: Seq<char>) -> Seq<char> {
    match last_occurrence(name, version_marker()) {
        Some(i) => if name.len() > 0 && name.last() == ')' { name.take(i) } else { name },
        None => name,
    }
}

/// The name a copy of a document gets: its base name followed by `" (v<version>)"`.
pub open spec fn versioned_name(name: Seq<char>, version: int) -> Seq<char> {
    base_name(name) + version_marker() + int_text(version) + seq![')']
}

/// The last position where `" (v"` occurs in `v`.
fn last_version_marker(v: &Vec<char>) -> (r: Option<usize>)
    ensures
        match r {
            Some(i) => last_occurrence(v@, version_marker()) == Some(i as int),
            None => last_occurrence(v@, version_marker()) is None,
        },
{
    let ghost pat = version_marker();
    if v.len() < 3 {
        return None;
    }
    let mut i: usize = v.len() - 2;
    while i > 0
        invariant
            i + 2 <= v.len(),
            pat == version_marker(),
            last_occurrence(v@, pat) == last_occurrence_upto(v@, pat, i - 1),
        decreases i,
    {
        let k = i - 1;
        if v[k] == ' ' && v[k + 1] == '(' && v[k + 2] == 'v' {
            proof {
                assert(v@.subrange(k as int, k + 3) =~= pat);
            }
            return Some(k);
        }
        proof {
            if occurs_at(v@, pat, k as int) {
                assert(v@.subrange(k as int, k + 3)[0] == v@[k as int]);
                assert(v@.subrange(k as int, k + 3)[1] == v@[k + 1]);
                assert(v@.subrange(k as int, k + 3)[2] == v@[k + 2]);
            }
        }
        i -= 1;
    }
    None
}

/// The name of a copy of the document called `name` whose version was
/// `version`: the base name followed by `" (v<version + 1>)"`.
pub fn duplicate_name(name: &str, version: i32) -> (r: String)
    requires
        version < i32::MAX,
    ensures
        r@ == versioned_name(name@, version + 1),
{
    let v = chars_of(name);
    let n = v.len();
    let cut: usize = match last_version_marker(&v) {
        Some(i) => if n > 0 && v[n - 1] == ')' { i } else { n },
        None => n,
    };
    proof {
        lemma_last_occurrence_upto_bounds(v@, version_marker(), v@.len() - 3);
    }
    let mut out: Vec<char> = Vec::new();
    let mut j: usize = 0;
    while j < cut
        invariant
            cut <= v@.len(),
            j <= cut,
            out@ == v@.take(j as int),
        decreases cut - j,
    {
        out.push(v[j]);
        proof {
            assert(v@.take(j + 1) =~= v@.take(j as int).push(v@[j as int]));
        }
        j += 1;
    }
    proof {
        assert(out@ =~= base_name(name@));
    }
    push_str(&mut out, " (v");
    push_int(&mut out, (version + 1) as i64);
    out.push(')');
    proof {
        reveal_strlit(" (v");
        assert(out@ =~= versioned_name(name@, version + 1));
    }
    string_from_chars(out.as_slice())
}


proof fn lemma_digits_no_space(n: nat)
    ensures
        digits(n).len() >= 1,
        forall|j: int| 0 <= j < digits(n).len() ==> #[trigger] digits(n)[j] != ' ',
    decreases n,
{
    if n >= 10 {
        lemma_digits_no_space(n / 10);
        assert forall|j: int| 0 <= j < digits(n).len() implies #[trigger] digits(n)[j] != ' ' by {
            if j < digits(n / 10).len() {
                assert(digits(n)[j] == digits(n / 10)[j]);
            } else {
                assert(digits(n)[j] == digit_char(n % 10));
            }
        }
    }
}

proof fn lemma_int_text_no_space(i: int)
    ensures
        int_text(i).len() >= 1,
        forall|j: int| 0 <= j < int_text(i).len() ==> #[trigger] int_text(i)[j] != ' ',
{
    if i < 0 {
        lemma_digits_no_space((-i) as nat);
        let d = digits((-i) as nat);
        assert forall|j: int| 0 <= j < int_text(i).len() implies #[trigger] int_text(i)[j] != ' ' by {
            if j > 0 {
                assert(int_text(i)[j] == d[j - 1]);
            }
        }
    } else {
        lemma_digits_no_space(i as nat);
    }
}

proof fn lemma_last_occurrence_at(s: Seq<char>, pat: Seq<char>, i: int, j: int)
    requires
        occurs_at(s, pat, i),
        i <= j,
        forall|k: int| i < k <= j ==> !occurs_at(s, pat, k),
    ensures
        last_occurrence_upto(s, pat, j) == Some(i),
    decreases j - i,
{
    if j > i {
        lemma_last_occurrence_at(s, pat, i, j - 1);
    }
}

/// Law: copying a document never nests version suffixes: the name of a copy
/// has the same base name as the name it was made from.
pub proof fn lemma_copy_keeps_base_name(name: Seq<char>, version: int)
    ensures
        base_name(versioned_name(name, version)) == base_name(name),
{
    let b = base_name(name);
    let m = version_marker();
    let d = int_text(version);
    let t = versioned_name(name, version);
    lemma_int_text_no_space(version);
    assert(t.len() == b.len() + 3 + d.len() + 1);
    assert(t.subrange(b.len() as int, b.len() + 3int) =~= m);
    assert forall|k: int| b.len() < k <= t.len() - m.len() implies !occurs_at(t, m, k) by {
        if occurs_at(t, m, k) {
            assert(t.subrange(k, k + 3)[0] == t[k]);
            if k == b.len() + 1 {
                assert(t[k] == '(');
            } else if k == b.len() + 2 {
                assert(t[k] == 'v');
            } else {
                assert(t[k] == d[k - b.len() - 3]);
            }
        }
    }
    lemma_last_occurrence_at(t, m, b.len() as int, t.len() - m.len());
    assert(t.last() == ')');
    assert(t.take(b.len() as int) =~= b);
}


/// A folder as stored: its id and the folder it is in (none at the top level).
pub struct FolderLink {
    pub id: i32,
    pub parent: Option<i32>,
}

/// The folder holding `id`, from the first entry from the `j`-th on for `id`;
/// `None` when there is no entry or the folder is at the top level.
pub open spec fn parent_from(fs: Seq<FolderLink>, id: i32, j: int) -> Option<i32>
    decreases fs.len() - j,
{
    if j < 0 || j >= fs.len() {
        None
    } else if fs[j].id == id {
        fs[j].parent
    } else {
        parent_from(fs, id, j + 1)
    }
}

/// Whether going up from folder `x` through the folders holding it reaches
/// `target` (the folder itself counts) within `fuel` steps.
pub open spec fn reaches(fs: Seq<FolderLink>, x: i32, target: i32, fuel: nat) -> bool
    decreases fuel,
{
    if fuel == 0 {
        false
    } else if x == target {
        true
    } else {
        match parent_from(fs, x, 0) {
            Some(q) => reaches(fs, q, target, (fuel - 1) as nat),
            None => false,
        }
    }
}

/// A folder may be moved into `new_parent` unless that is the folder itself or
/// one of the folders inside it (which would make a cycle); the top level is
/// always allowed.
pub open spec fn move_allowed(fs: Seq<FolderLink>, id: i32, new_parent: Option<i32>) -> bool {
    match new_parent {
        None => true,
        Some(p) => !reaches(fs, p, id, (fs.len() + 1) as nat),
    }
}

fn parent_lookup(fs: &Vec<FolderLink>, id: i32) -> (r: Option<i32>)
    ensures
        r == parent_from(fs@, id, 0),
{
    let mut j: usize = 0;
    while j < fs.len()
        invariant
            j <= fs@.len(),
            parent_from(fs@, id, 0) == parent_from(fs@, id, j as int),
        decreases fs@.len() - j,
    {
        if fs[j].id == id {
            return fs[j].parent;
        }
        j += 1;
    }
    None
}

/// Whether folder `id` may be moved into `new_parent`, among the stored folders `fs`.
pub fn folder_move_allowed(fs: &Vec<FolderLink>, id: i32, new_parent: Option<i32>) -> (r: bool)
    ensures
        r == move_allowed(fs@, id, new_parent),
{
    let p = match new_parent {
        None => {
            return true;
        },
        Some(p) => p,
    };
    let n = fs.len();
    let mut x = p;
    let mut left: usize = n;
    while true
        invariant
            n == fs@.len(),
            new_parent == Some(p),
            left <= n,
            reaches(fs@, p, id, (n + 1) as nat) == reaches(fs@, x, id, (left + 1) as nat),
        decreases left,
    {
        if x == id {
            return false;
        }
        match parent_lookup(fs, x) {
            None => {
                return true;
            },
            Some(q) => {
                if left == 0 {
                    assert(!reaches(fs@, q, id, 0));
                    return true;
                }
                x = q;
                left = left - 1;
            },
        }
    }
    true
}

/// The users and groups assigned to a document.
pub struct DocumentAssignmentsDto {
    pub user_ids: Vec<i32>,
    pub group_ids: Vec<i32>,
}

/// The folder to move a document to (none for the top level).
pub struct MoveDocumentDto {
    pub folder_id: Option<i32>,
}

/// The fields of a new document.
pub struct CreateDocumentDto {
    pub name: String,
    pub owner_id: i32,
    pub aggregation_method: String,
    pub folder_id: Option<i32>,
}

/// An assignment as listed for a document.
pub struct AssignmentDto {
    pub id: i32,
    pub name: String,
    pub assigned_at: String,
    pub is_group: bool,
}

/// A document as stored (its creation time is kept by the storage layer).
pub struct DocumentRecord {
    pub id: i32,
    pub name: String,
    pub owner_id: i32,
    pub version: i32,
    pub aggregation_method: String,
    pub folder_id: Option<i32>,
}

/// A document about to be stored; the storage layer gives it its id.
pub struct NewDocument {
    pub name: String,
    pub owner_id: i32,
    pub version: i32,
    pub aggregation_method: String,
    pub folder_id: Option<i32>,
}

impl CreateDocumentDto {
    /// The document a creation request stores: at version 1.
    pub fn new_document(&self) -> (d: NewDocument)
        ensures
            d.name@ == self.name@,
            d.owner_id == self.owner_id,
            d.version == 1,
            d.aggregation_method@ == self.aggregation_method@,
            d.folder_id == self.folder_id,
    {
        NewDocument {
            name: self.name.clone(),
            owner_id: self.owner_id,
            version: 1,
            aggregation_method: self.aggregation_method.clone(),
            folder_id: self.folder_id,
        }
    }
}

impl DocumentRecord {
    /// An update of a document's name and aggregation method; the version is
    /// kept (only copying raises it).
    pub fn update(&mut self, name: String, aggregation_method: String)
        ensures
            final(self).name@ == name@,
            final(self).aggregation_method@ == aggregation_method@,
            final(self).version == old(self).version,
            final(self).id == old(self).id,
            final(self).owner_id == old(self).owner_id,
            final(self).folder_id == old(self).folder_id,
    {
        self.name = name;
        self.aggregation_method = aggregation_method;
    }

    /// Moves the document to another folder (none for the top level).
    pub fn move_to(&mut self, folder_id: Option<i32>)
        ensures
            final(self).folder_id == folder_id,
            final(self).name == old(self).name,
            final(self).version == old(self).version,
            final(self).id == old(self).id,
            final(self).owner_id == old(self).owner_id,
            final(self).aggregation_method == old(self).aggregation_method,
    {
        self.folder_id = folder_id;
    }

    /// The new version a copy of this document is stored as: the next version
    /// number, named after it, with the same owner and aggregation method, at
    /// the top level.
    pub fn copy_as_new_version(&self) -> (d: NewDocument)
        requires
            self.version < i32::MAX,
        ensures
            d.name@ == versioned_name(self.name@, self.version + 1),
            d.version == self.version + 1,
            d.owner_id == self.owner_id,
            d.aggregation_method@ == self.aggregation_method@,
            d.folder_id is None,
    {
        NewDocument {
            name: duplicate_name(self.name.as_str(), self.version),
            owner_id: self.owner_id,
            version: self.version + 1,
            aggregation_method: self.aggregation_method.clone(),
            folder_id: None,
        }
    }
}

/// The record a full save leaves: the stored document (or a new one with the
/// given id and the payload's owner) with the payload's name, aggregation
/// method and version.
pub fn saved_record(existing: Option<DocumentRecord>, id: i32, name: String, owner_id: i32, version: i32, aggregation_method: String) -> (r: DocumentRecord)
    ensures
        r.name@ == name@,
        r.aggregation_method@ == aggregation_method@,
        r.version == version,
        match existing {
            Some(e) => r.id == e.id && r.owner_id == e.owner_id && r.folder_id == e.folder_id,
            None => r.id == id && r.owner_id == owner_id && r.folder_id is None,
        },
{
    let mut doc = match existing {
        Some(e) => e,
        None => DocumentRecord { id, name: String::new(), owner_id, version: 0, aggregation_method: String::new(), folder_id: None },
    };
    doc.name = name;
    doc.aggregation_method = aggregation_method;
    doc.version = version;
    doc
}

} // verus!
