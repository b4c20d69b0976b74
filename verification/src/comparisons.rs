//! The pairwise comparisons a document asks for: first the criteria against
//! each other under every parent (phase 1), then, for every candidate, the
//! top-level criteria against each other (phase 2).

use vstd::prelude::*;
use crate::criteria::{CNode, CriteriaNode, lemma_children_model};
use crate::text::{push_str, str_eq, string_from_chars};

verus! {

broadcast use vstd::string::group_string_axioms;

/// One comparison: its title and the two ids it compares.
pub struct ComparisonItem {
    pub title: String,
    pub first: usize,
    pub second: usize,
}

/// A titled group of comparisons; a group without comparisons is a phase heading.
pub struct ComparisonGroup {
    pub title: String,
    pub items: Vec<ComparisonItem>,
}

/// The value of a comparison: title and the two ids.
pub type ItemModel = (Seq<char>, usize, usize);

/// The value of a group: title and comparisons.
pub type GroupModel = (Seq<char>, Seq<ItemModel>);

/// The value of a comparison.
pub open spec fn item_model(it: ComparisonItem) -> ItemModel {
    (it.title@, it.first, it.second)
}

/// The value of a group.
pub open spec fn group_model(g: ComparisonGroup) -> GroupModel {
    (g.title@, g.items@.map_values(|it: ComparisonItem| item_model(it)))
}

/// The values of a list of groups.
pub open spec fn groups_model(gs: Seq<ComparisonGroup>) -> Seq<GroupModel> {
    gs.map_values(|g: ComparisonGroup| group_model(g))
}

/// The node type of a criterion: `"Criteria"`.
pub open spec fn criteria_type() -> Seq<char> {
    seq!['C', 'r', 'i', 't', 'e', 'r', 'i', 'a']
}

/// The node type of a candidate: `"Alternative"`.
pub open spec fn alternative_type() -> Seq<char> {
    seq!['A', 'l', 't', 'e', 'r', 'n', 'a', 't', 'i', 'v', 'e']
}

/// The nodes of `cs` whose type is `t`, in order.
pub open spec fn of_type<C>(cs: Seq<CNode<C>>, t: Seq<char>) -> Seq<CNode<C>>
    decreases cs.len(),
{
    if cs.len() == 0 {
        Seq::empty()
    } else if cs.last().node_type == t {
        of_type(cs.drop_last(), t).push(cs.last())
    } else {
        of_type(cs.drop_last(), t)
    }
}

/// `" vs "`.
pub open spec fn vs_text() -> Seq<char> {
    seq![' ', 'v', 's', ' ']
}

/// `"With respect to: "`.
pub open spec fn respect_text() -> Seq<char> {
    seq!['W', 'i', 't', 'h', ' ', 'r', 'e', 's', 'p', 'e', 'c', 't', ' ', 't', 'o', ':', ' ']
}

/// `"Goal"`.
pub open spec fn goal_word() -> Seq<char> {
    seq!['G', 'o', 'a', 'l']
}

/// The comparison of `a` against `b`, with `offset` added to both ids.
pub open spec fn pair_item<C>(a: CNode<C>, b: CNode<C>, offset: int) -> ItemModel {
    (a.name + vs_text() + b.name, (a.id + offset) as usize, (b.id + offset) as usize)
}

/// The comparisons of `cs[i]` against `cs[k]` for `i < k < j`.
pub open spec fn row_upto<C>(cs: Seq<CNode<C>>, i: int, j: int, offset: int) -> Seq<ItemModel>
    decreases j - i,
{
    if j <= i + 1 {
        Seq::empty()
    } else {
        row_upto(cs, i, j - 1, offset).push(pair_item(cs[i], cs[j - 1], offset))
    }
}

/// The comparisons of every pair of `cs` whose first index is below `i`, first
/// index by first index, second index rising.
pub open spec fn pairs_upto<C>(cs: Seq<CNode<C>>, i: int, offset: int) -> Seq<ItemModel>
    decreases i,
{
    if i <= 0 {
        Seq::empty()
    } else {
        pairs_upto(cs, i - 1, offset) + row_upto(cs, i - 1, cs.len() as int, offset)
    }
}

/// Every pair of `cs`, each once, in order.
pub open spec fn all_pairs<C>(cs: Seq<CNode<C>>, offset: int) -> Seq<ItemModel> {
    pairs_upto(cs, cs.len() as int, offset)
}

/// What a parent is called in a group title: the goal text (or `"Goal"` when
/// it is empty) for the root, whose id is 0, and its name otherwise.
pub open spec fn parent_label<C>(n: CNode<C>, goal: Seq<char>) -> Seq<char> {
    if n.id == 0 {
        if goal.len() == 0 { goal_word() } else { goal }
    } else {
        n.name
    }
}

/// The group of `n`'s own criteria, when it has at least two.
pub open spec fn phase1_here<C>(n: CNode<C>, goal: Seq<char>) -> Seq<GroupModel> {
    let cs = of_type(n.children, criteria_type());
    if cs.len() >= 2 {
        seq![(respect_text() + parent_label(n, goal), all_pairs(cs, 0))]
    } else {
        Seq::empty()
    }
}

/// Phase 1 for `n`: the group of its criteria, then phase 1 of each criterion
/// below it, in order.
pub open spec fn phase1<C>(n: CNode<C>, goal: Seq<char>) -> Seq<GroupModel>
    decreases n, n.children.len() + 1,
{
    phase1_here(n, goal) + phase1_in(n, goal, n.children.len() as int)
}

/// Phase 1 of the criteria among the first `k` children of `n`.
pub open spec fn phase1_in<C>(n: CNode<C>, goal: Seq<char>, k: int) -> Seq<GroupModel>
    decreases n, k,
{
    if k <= 0 || k > n.children.len() {
        Seq::empty()
    } else if n.children[k - 1].node_type == criteria_type() {
        phase1_in(n, goal, k - 1) + phase1(n.children[k - 1], goal)
    } else {
        phase1_in(n, goal, k - 1)
    }
}

/// `"PHASE 1: WEIGHTING THE CRITERIA"`.
pub open spec fn phase1_heading() -> Seq<char> {
    seq!['P', 'H', 'A', 'S', 'E', ' ', '1', ':', ' ', 'W', 'E', 'I', 'G', 'H', 'T', 'I', 'N', 'G', ' ', 'T', 'H', 'E',
        ' ', 'C', 'R', 'I', 'T', 'E', 'R', 'I', 'A']
}

/// `"PHASE 2: CANDIDATE PROFILES"`.
pub open spec fn phase2_heading() -> Seq<char> {
    seq!['P', 'H', 'A', 'S', 'E', ' ', '2', ':', ' ', 'C', 'A', 'N', 'D', 'I', 'D', 'A', 'T', 'E', ' ', 'P', 'R', 'O',
        'F', 'I', 'L', 'E', 'S']
}

/// The id offset that keeps the comparisons of one candidate apart from the others'.
pub open spec fn candidate_offset<C>(cand: CNode<C>) -> int {
    cand.id * 10000
}

/// The profile groups of the first `k` candidates.
pub open spec fn profiles_upto<C>(cands: Seq<CNode<C>>, top: Seq<CNode<C>>, k: int) -> Seq<GroupModel>
    decreases k,
{
    if k <= 0 {
        Seq::empty()
    } else {
        profiles_upto(cands, top, k - 1).push(
            (respect_text() + cands[k - 1].name, all_pairs(top, candidate_offset(cands[k - 1]))),
        )
    }
}

/// Phase 2 for the root: when there is a candidate and at least two top-level
/// criteria, a heading and then, for each candidate, the top-level criteria
/// against each other.
pub open spec fn phase2<C>(root: CNode<C>) -> Seq<GroupModel> {
    let cands = of_type(root.children, alternative_type());
    let top = of_type(root.children, criteria_type());
    if cands.len() > 0 && top.len() >= 2 {
        seq![(phase2_heading(), Seq::<ItemModel>::empty())] + profiles_upto(cands, top, cands.len() as int)
    } else {
        Seq::empty()
    }
}

/// All the groups of a document: phase 1 under its heading (when it has any
/// group), then phase 2.
pub open spec fn comparison_plan<C>(root: CNode<C>, goal: Seq<char>) -> Seq<GroupModel> {
    let p1 = phase1(root, goal);
    (if p1.len() > 0 { seq![(phase1_heading(), Seq::<ItemModel>::empty())] + p1 } else { Seq::empty() })
        + phase2(root)
}

proof fn lemma_concat_contains<A>(a: Seq<A>, b: Seq<A>, x: A)
    ensures
        (a + b).contains(x) <==> (a.contains(x) || b.contains(x)),
{
    if a.contains(x) {
        let i = choose|i: int| 0 <= i < a.len() && a[i] == x;
        assert((a + b)[i] == x);
    }
    if b.contains(x) {
        let i = choose|i: int| 0 <= i < b.len() && b[i] == x;
        assert((a + b)[a.len() + i] == x);
    }
    if (a + b).contains(x) {
        let i = choose|i: int| 0 <= i < (a + b).len() && (a + b)[i] == x;
        if i < a.len() {
            assert(a[i] == x);
        } else {
            assert(b[i - a.len()] == x);
        }
    }
}

proof fn lemma_row_members<C>(cs: Seq<CNode<C>>, i: int, j: int, offset: int)
    requires
        0 <= i,
        j <= cs.len(),
    ensures
        forall|k: int| i < k < j ==> #[trigger] row_upto(cs, i, j, offset).contains(pair_item(cs[i], cs[k], offset)),
        forall|x: ItemModel| #[trigger] row_upto(cs, i, j, offset).contains(x)
            ==> exists|k: int| i < k < j && x == #[trigger] pair_item(cs[i], cs[k], offset),
    decreases j - i,
{
    if j > i + 1 {
        lemma_row_members(cs, i, j - 1, offset);
        let before = row_upto(cs, i, j - 1, offset);
        let r = row_upto(cs, i, j, offset);
        assert(r == before.push(pair_item(cs[i], cs[j - 1], offset)));
        assert forall|k: int| i < k < j implies #[trigger] r.contains(pair_item(cs[i], cs[k], offset)) by {
            if k < j - 1 {
                assert(before.contains(pair_item(cs[i], cs[k], offset)));
                let q = choose|q: int| 0 <= q < before.len() && before[q] == pair_item(cs[i], cs[k], offset);
                assert(r[q] == before[q]);
            } else {
                assert(r[r.len() - 1] == pair_item(cs[i], cs[k], offset));
            }
        }
        assert forall|x: ItemModel| #[trigger] r.contains(x)
            implies exists|k: int| i < k < j && x == #[trigger] pair_item(cs[i], cs[k], offset) by {
            let q = choose|q: int| 0 <= q < r.len() && r[q] == x;
            if q < before.len() {
                assert(before[q] == x);
                assert(before.contains(x));
            } else {
                assert(x == pair_item(cs[i], cs[j - 1], offset));
            }
        }
    } else {
        assert(row_upto(cs, i, j, offset) =~= Seq::<ItemModel>::empty());
    }
}

proof fn lemma_pairs_members<C>(cs: Seq<CNode<C>>, i: int, offset: int)
    requires
        0 <= i <= cs.len(),
    ensures
        forall|a: int, b: int| 0 <= a < i && a < b < cs.len()
            ==> #[trigger] pairs_upto(cs, i, offset).contains(pair_item(cs[a], cs[b], offset)),
        forall|x: ItemModel| #[trigger] pairs_upto(cs, i, offset).contains(x)
            ==> exists|a: int, b: int| 0 <= a < i && a < b < cs.len() && x == #[trigger] pair_item(cs[a], cs[b], offset),
    decreases i,
{
    if i > 0 {
        lemma_pairs_members(cs, i - 1, offset);
        lemma_row_members(cs, i - 1, cs.len() as int, offset);
        let before = pairs_upto(cs, i - 1, offset);
        let row = row_upto(cs, i - 1, cs.len() as int, offset);
        assert forall|a: int, b: int| 0 <= a < i && a < b < cs.len()
            implies #[trigger] pairs_upto(cs, i, offset).contains(pair_item(cs[a], cs[b], offset)) by {
            lemma_concat_contains(before, row, pair_item(cs[a], cs[b], offset));
        }
        assert forall|x: ItemModel| #[trigger] pairs_upto(cs, i, offset).contains(x)
            implies exists|a: int, b: int| 0 <= a < i && a < b < cs.len() && x == #[trigger] pair_item(cs[a], cs[b], offset) by {
            lemma_concat_contains(before, row, x);
            if row.contains(x) {
                let k = choose|k: int| i - 1 < k < cs.len() && x == #[trigger] pair_item(cs[i - 1], cs[k], offset);
                assert(x == pair_item(cs[i - 1], cs[k], offset));
            }
        }
    }
}

/// Law: the comparisons of a group are every pair of its nodes, each compared
/// as "first vs second" with the first before the second in list order, and
/// nothing else.
pub proof fn lemma_all_pairs_are_every_pair<C>(cs: Seq<CNode<C>>, offset: int)
    ensures
        forall|a: int, b: int| 0 <= a < b < cs.len()
            ==> #[trigger] all_pairs(cs, offset).contains(
                (cs[a].name + vs_text() + cs[b].name, (cs[a].id + offset) as usize, (cs[b].id + offset) as usize)),
        forall|x: ItemModel| #[trigger] all_pairs(cs, offset).contains(x)
            ==> exists|a: int, b: int| #![trigger cs[a], cs[b]] 0 <= a < b < cs.len()
                && x == (cs[a].name + vs_text() + cs[b].name, (cs[a].id + offset) as usize, (cs[b].id + offset) as usize),
{
    lemma_pairs_members(cs, cs.len() as int, offset);
    assert forall|a: int, b: int| 0 <= a < b < cs.len()
        implies #[trigger] all_pairs(cs, offset).contains(
            (cs[a].name + vs_text() + cs[b].name, (cs[a].id + offset) as usize, (cs[b].id + offset) as usize)) by {
        assert(pair_item(cs[a], cs[b], offset)
            == (cs[a].name + vs_text() + cs[b].name, (cs[a].id + offset) as usize, (cs[b].id + offset) as usize));
    }
    assert forall|x: ItemModel| #[trigger] all_pairs(cs, offset).contains(x)
        implies exists|a: int, b: int| #![trigger cs[a], cs[b]] 0 <= a < b < cs.len()
            && x == (cs[a].name + vs_text() + cs[b].name, (cs[a].id + offset) as usize, (cs[b].id + offset) as usize) by {
        let (a, b) = choose|a: int, b: int| 0 <= a < cs.len() && a < b < cs.len() && x == #[trigger] pair_item(cs[a], cs[b], offset);
        assert(x == (cs[a].name + vs_text() + cs[b].name, (cs[a].id + offset) as usize, (cs[b].id + offset) as usize));
    }
}

/// The node reached from `n` by following `path`, each step to the child at
/// that position, which must be a criterion; `None` when a step leaves the
/// children or lands on something else.
pub open spec fn criterion_at<C>(n: CNode<C>, path: Seq<int>) -> Option<CNode<C>>
    decreases path.len(),
{
    if path.len() == 0 {
        Some(n)
    } else if 0 <= path[0] < n.children.len() && n.children[path[0]].node_type == criteria_type() {
        criterion_at(n.children[path[0]], path.drop_first())
    } else {
        None
    }
}

proof fn lemma_phase1_in_keeps<C>(n: CNode<C>, goal: Seq<char>, k: int, j: int, x: GroupModel)
    requires
        0 <= j < k <= n.children.len(),
        n.children[j].node_type == criteria_type(),
        phase1(n.children[j], goal).contains(x),
    ensures
        phase1_in(n, goal, k).contains(x),
    decreases k,
{
    if j < k - 1 {
        lemma_phase1_in_keeps(n, goal, k - 1, j, x);
        if n.children[k - 1].node_type == criteria_type() {
            lemma_concat_contains(phase1_in(n, goal, k - 1), phase1(n.children[k - 1], goal), x);
        }
    } else {
        lemma_concat_contains(phase1_in(n, goal, k - 1), phase1(n.children[k - 1], goal), x);
    }
}

/// Law: phase 1 asks, for the node itself and for every criterion below it at
/// any depth (reached through criteria), that has at least two criteria
/// children, for the group "With respect to: <its label>" comparing every pair
/// of those children.
pub proof fn lemma_phase1_covers_every_criterion<C>(n: CNode<C>, goal: Seq<char>, path: Seq<int>)
    requires
        criterion_at(n, path) is Some,
        of_type(criterion_at(n, path)->0.children, criteria_type()).len() >= 2,
    ensures
        phase1(n, goal).contains((
            respect_text() + parent_label(criterion_at(n, path)->0, goal),
            all_pairs(of_type(criterion_at(n, path)->0.children, criteria_type()), 0),
        )),
    decreases path.len(),
{
    let d = criterion_at(n, path)->0;
    let g = (respect_text() + parent_label(d, goal), all_pairs(of_type(d.children, criteria_type()), 0));
    if path.len() == 0 {
        assert(phase1_here(n, goal) == seq![g]);
        lemma_concat_contains(phase1_here(n, goal), phase1_in(n, goal, n.children.len() as int), g);
        assert(phase1_here(n, goal)[0] == g);
    } else {
        let c = n.children[path[0]];
        lemma_phase1_covers_every_criterion(c, goal, path.drop_first());
        lemma_phase1_in_keeps(n, goal, n.children.len() as int, path[0], g);
        lemma_concat_contains(phase1_here(n, goal), phase1_in(n, goal, n.children.len() as int), g);
    }
}

/// The group asking for the criteria of `d` to be compared pairwise.
pub open spec fn criteria_group<C>(d: CNode<C>, goal: Seq<char>) -> GroupModel {
    (respect_text() + parent_label(d, goal), all_pairs(of_type(d.children, criteria_type()), 0))
}

proof fn lemma_criterion_at_step<C>(n: CNode<C>, j: int, p: Seq<int>)
    requires
        0 <= j < n.children.len(),
        n.children[j].node_type == criteria_type(),
    ensures
        criterion_at(n, seq![j] + p) == criterion_at(n.children[j], p),
{
    assert((seq![j] + p)[0] == j);
    assert((seq![j] + p).drop_first() =~= p);
}

proof fn lemma_phase1_in_only<C>(n: CNode<C>, goal: Seq<char>, k: int)
    ensures
        forall|x: GroupModel| #[trigger] phase1_in(n, goal, k).contains(x) ==> exists|p: Seq<int>|
            #[trigger] criterion_at(n, p) is Some && of_type(criterion_at(n, p)->0.children, criteria_type()).len() >= 2
            && x == criteria_group(criterion_at(n, p)->0, goal),
    decreases n, k,
{
    if 0 < k <= n.children.len() {
        lemma_phase1_in_only(n, goal, k - 1);
        if n.children[k - 1].node_type == criteria_type() {
            let c = n.children[k - 1];
            lemma_phase1_only(c, goal);
            assert forall|x: GroupModel| #[trigger] phase1_in(n, goal, k).contains(x) implies exists|p: Seq<int>|
                #[trigger] criterion_at(n, p) is Some && of_type(criterion_at(n, p)->0.children, criteria_type()).len() >= 2
                && x == criteria_group(criterion_at(n, p)->0, goal) by {
                lemma_concat_contains(phase1_in(n, goal, k - 1), phase1(c, goal), x);
                if phase1(c, goal).contains(x) {
                    let q = choose|q: Seq<int>| #[trigger] criterion_at(c, q) is Some
                        && of_type(criterion_at(c, q)->0.children, criteria_type()).len() >= 2
                        && x == criteria_group(criterion_at(c, q)->0, goal);
                    lemma_criterion_at_step(n, k - 1, q);
                    assert(criterion_at(n, seq![k - 1] + q) is Some);
                }
            }
        } else {
            assert forall|x: GroupModel| #[trigger] phase1_in(n, goal, k).contains(x) implies exists|p: Seq<int>|
                #[trigger] criterion_at(n, p) is Some && of_type(criterion_at(n, p)->0.children, criteria_type()).len() >= 2
                && x == criteria_group(criterion_at(n, p)->0, goal) by {
                assert(phase1_in(n, goal, k - 1).contains(x));
            }
        }
    } else {
        assert(phase1_in(n, goal, k) =~= Seq::<GroupModel>::empty());
    }
}

/// Law: phase 1 asks for no other group: each of its groups is the group of
/// the node itself or of a criterion below it (reached through criteria) that
/// has at least two criteria children.
pub proof fn lemma_phase1_only<C>(n: CNode<C>, goal: Seq<char>)
    ensures
        forall|x: GroupModel| #[trigger] phase1(n, goal).contains(x) ==> exists|p: Seq<int>|
            #[trigger] criterion_at(n, p) is Some && of_type(criterion_at(n, p)->0.children, criteria_type()).len() >= 2
            && x == criteria_group(criterion_at(n, p)->0, goal),
    decreases n, n.children.len() + 1,
{
    lemma_phase1_in_only(n, goal, n.children.len() as int);
    assert forall|x: GroupModel| #[trigger] phase1(n, goal).contains(x) implies exists|p: Seq<int>|
        #[trigger] criterion_at(n, p) is Some && of_type(criterion_at(n, p)->0.children, criteria_type()).len() >= 2
        && x == criteria_group(criterion_at(n, p)->0, goal) by {
        lemma_concat_contains(phase1_here(n, goal), phase1_in(n, goal, n.children.len() as int), x);
        if phase1_here(n, goal).contains(x) {
            let e = Seq::<int>::empty();
            assert(criterion_at(n, e) == Some(n));
        }
    }
}

/// Law: the comparisons of a document include, for the root and for every
/// criterion at any depth with at least two criteria children, the group
/// "With respect to: <its label>" comparing every pair of those children.
pub proof fn lemma_plan_covers_every_criterion<C>(root: CNode<C>, goal: Seq<char>, path: Seq<int>)
    requires
        criterion_at(root, path) is Some,
        of_type(criterion_at(root, path)->0.children, criteria_type()).len() >= 2,
    ensures
        comparison_plan(root, goal).contains((
            respect_text() + parent_label(criterion_at(root, path)->0, goal),
            all_pairs(of_type(criterion_at(root, path)->0.children, criteria_type()), 0),
        )),
{
    let d = criterion_at(root, path)->0;
    let g = (respect_text() + parent_label(d, goal), all_pairs(of_type(d.children, criteria_type()), 0));
    lemma_phase1_covers_every_criterion(root, goal, path);
    let p1 = phase1(root, goal);
    let head = seq![(phase1_heading(), Seq::<ItemModel>::empty())];
    assert(p1.len() > 0);
    lemma_concat_contains(head, p1, g);
    lemma_concat_contains(head + p1, phase2(root), g);
}

/// The ids of a candidate and of the top-level criteria fit the offset scheme
/// (`candidate id * 10000 + criterion id` stays within `usize`).
pub open spec fn offsets_fit<C>(root: CNode<C>) -> bool {
    forall|i: int, j: int|
        0 <= i < of_type(root.children, alternative_type()).len() && 0 <= j < of_type(root.children, criteria_type()).len()
            ==> candidate_offset(#[trigger] of_type(root.children, alternative_type())[i])
                + (#[trigger] of_type(root.children, criteria_type())[j]).id <= usize::MAX
}

/// The children of `node` of type `t`, in order.
fn children_of_type<'a, C>(node: &'a CriteriaNode<C>, t: &str) -> (r: Vec<&'a CriteriaNode<C>>)
    ensures
        r@.map_values(|c: &CriteriaNode<C>| c@) == of_type(node@.children, t@),
{
    proof {
        lemma_children_model(node);
    }
    let mut out: Vec<&'a CriteriaNode<C>> = Vec::new();
    let mut k: usize = 0;
    while k < node.children.len()
        invariant
            k <= node.children@.len(),
            node@.children.len() == node.children@.len(),
            forall|i: int| 0 <= i < node.children@.len() ==> #[trigger] node@.children[i] == node.children@[i]@,
            out@.map_values(|c: &CriteriaNode<C>| c@) == of_type(node@.children.take(k as int), t@),
        decreases node.children@.len() - k,
    {
        let c = &node.children[k];
        proof {
            assert(node@.children.take(k + 1).drop_last() =~= node@.children.take(k as int));
            assert(node@.children.take(k + 1).last() == c@);
        }
        if str_eq(c.node_type.as_str(), t) {
            out.push(c);
            proof {
                assert(out@.map_values(|c: &CriteriaNode<C>| c@) =~= of_type(node@.children.take(k as int), t@).push(c@));
            }
        }
        k += 1;
    }
    proof {
        assert(node@.children.take(node.children@.len() as int) =~= node@.children);
    }
    out
}

/// The text `a + " vs " + b`.
fn versus_title(a: &str, b: &str) -> (r: String)
    ensures
        r@ == a@ + vs_text() + b@,
{
    let mut v: Vec<char> = Vec::new();
    push_str(&mut v, a);
    push_str(&mut v, " vs ");
    push_str(&mut v, b);
    proof {
        reveal_strlit(" vs ");
        assert(v@ =~= a@ + vs_text() + b@);
    }
    string_from_chars(v.as_slice())
}

/// The text `"With respect to: " + s`.
fn respect_title(s: &str) -> (r: String)
    ensures
        r@ == respect_text() + s@,
{
    let mut v: Vec<char> = Vec::new();
    push_str(&mut v, "With respect to: ");
    push_str(&mut v, s);
    proof {
        reveal_strlit("With respect to: ");
        assert(v@ =~= respect_text() + s@);
    }
    string_from_chars(v.as_slice())
}

/// Every pair of `cs`, each once, in order, with `offset` added to the ids.
fn pair_items<C>(cs: &Vec<&CriteriaNode<C>>, offset: usize) -> (r: Vec<ComparisonItem>)
    requires
        forall|i: int| 0 <= i < cs@.len() ==> offset + (#[trigger] cs@[i]).id <= usize::MAX,
    ensures
        r@.map_values(|it: ComparisonItem| item_model(it)) == all_pairs(cs@.map_values(|c: &CriteriaNode<C>| c@), offset as int),
{
    let ghost m = cs@.map_values(|c: &CriteriaNode<C>| c@);
    let n = cs.len();
    let mut out: Vec<ComparisonItem> = Vec::new();
    let mut i: usize = 0;
    while i < n
        invariant
            n == cs@.len(),
            m == cs@.map_values(|c: &CriteriaNode<C>| c@),
            forall|k: int| 0 <= k < cs@.len() ==> offset + (#[trigger] cs@[k]).id <= usize::MAX,
            i <= n,
            out@.map_values(|it: ComparisonItem| item_model(it)) == pairs_upto(m, i as int, offset as int),
        decreases n - i,
    {
        let ghost before = out@.map_values(|it: ComparisonItem| item_model(it));
        let mut j: usize = i + 1;
        while j < n
            invariant
                n == cs@.len(),
                m == cs@.map_values(|c: &CriteriaNode<C>| c@),
                forall|k: int| 0 <= k < cs@.len() ==> offset + (#[trigger] cs@[k]).id <= usize::MAX,
                i < n,
                i + 1 <= j <= n,
                out@.map_values(|it: ComparisonItem| item_model(it)) == before + row_upto(m, i as int, j as int, offset as int),
            decreases n - j,
        {
            let a = cs[i];
            let b = cs[j];
            let title = versus_title(a.name.as_str(), b.name.as_str());
            let first = a.id + offset;
            let second = b.id + offset;
            let ghost prev = out@.map_values(|it: ComparisonItem| item_model(it));
            out.push(ComparisonItem { title, first, second });
            proof {
                assert(m[i as int] == a@);
                assert(m[j as int] == b@);
                assert(out@.map_values(|it: ComparisonItem| item_model(it)) =~= prev.push(pair_item(m[i as int], m[j as int], offset as int)));
                assert(before + row_upto(m, i as int, j + 1, offset as int) =~= prev.push(pair_item(m[i as int], m[j as int], offset as int)));
            }
            j += 1;
        }
        proof {
            assert(pairs_upto(m, i + 1, offset as int) == pairs_upto(m, i as int, offset as int) + row_upto(m, i as int, m.len() as int, offset as int));
        }
        i += 1;
    }
    out
}


/// What a parent is called in a group title.
fn parent_label_text<C>(node: &CriteriaNode<C>, goal: &str) -> (r: String)
    ensures
        r@ == parent_label(node@, goal@),
{
    if node.id == 0 {
        if goal.is_empty() {
            proof {
                reveal_strlit("Goal");
            }
            assert("Goal"@ =~= goal_word());
            "Goal".to_owned()
        } else {
            goal.to_owned()
        }
    } else {
        node.name.clone()
    }
}

/// Appends phase 1 of `node` to `out`.
fn push_phase1<C>(node: &CriteriaNode<C>, goal: &str, out: &mut Vec<ComparisonGroup>)
    ensures
        groups_model(final(out)@) == groups_model(old(out)@) + phase1(node@, goal@),
    decreases node@,
{
    proof {
        reveal_strlit("Criteria");
        assert("Criteria"@ =~= criteria_type());
        lemma_children_model(node);
    }
    let crit = children_of_type(node, "Criteria");
    let ghost start = groups_model(out@);
    if crit.len() >= 2 {
        let label = parent_label_text(node, goal);
        let title = respect_title(label.as_str());
        let items = pair_items(&crit, 0);
        out.push(ComparisonGroup { title, items });
        proof {
            assert(groups_model(out@) =~= start + phase1_here(node@, goal@));
        }
    } else {
        proof {
            assert(groups_model(out@) =~= start + phase1_here(node@, goal@));
        }
    }
    let n = node.children.len();
    let mut k: usize = 0;
    while k < n
        invariant
            n == node.children@.len(),
            node@.children.len() == n,
            forall|i: int| 0 <= i < n ==> #[trigger] node@.children[i] == node.children@[i]@,
            "Criteria"@ == criteria_type(),
            k <= n,
            groups_model(out@) == start + phase1_here(node@, goal@) + phase1_in(node@, goal@, k as int),
        decreases n - k,
    {
        let c = &node.children[k];
        proof {
            assert(node@.children[k as int] == c@);
            assert(decreases_to!(node@ => node@.children));
            assert(decreases_to!(node@.children => node@.children[k as int]));
        }
        if str_eq(c.node_type.as_str(), "Criteria") {
            let ghost before = groups_model(out@);
            push_phase1(c, goal, out);
            proof {
                assert(groups_model(out@) =~= start + phase1_here(node@, goal@) + phase1_in(node@, goal@, k + 1));
            }
        } else {
            proof {
                assert(phase1_in(node@, goal@, k + 1) == phase1_in(node@, goal@, k as int));
            }
        }
        k += 1;
    }
    proof {
        assert(groups_model(out@) =~= groups_model(old(out)@) + phase1(node@, goal@));
    }
}

/// All the comparison groups of a document whose criteria hierarchy is `root`
/// and whose goal text is `goal`: the phase 1 heading and groups (when there is
/// any), then the phase 2 heading and one group per candidate (when there is a
/// candidate and at least two top-level criteria).
pub fn comparison_groups<C>(root: &CriteriaNode<C>, goal: &str) -> (r: Vec<ComparisonGroup>)
    requires
        offsets_fit(root@),
    ensures
        groups_model(r@) == comparison_plan(root@, goal@),
{
    proof {
        reveal_strlit("PHASE 1: WEIGHTING THE CRITERIA");
        reveal_strlit("PHASE 2: CANDIDATE PROFILES");
        reveal_strlit("Criteria");
        reveal_strlit("Alternative");
        assert("Criteria"@ =~= criteria_type());
        assert("Alternative"@ =~= alternative_type());
        assert("PHASE 1: WEIGHTING THE CRITERIA"@ =~= phase1_heading());
        assert("PHASE 2: CANDIDATE PROFILES"@ =~= phase2_heading());
    }
    let mut p1: Vec<ComparisonGroup> = Vec::new();
    push_phase1(root, goal, &mut p1);
    assert(groups_model(p1@) =~= phase1(root@, goal@));
    let mut out: Vec<ComparisonGroup> = Vec::new();
    if p1.len() > 0 {
        let heading = ComparisonGroup { title: "PHASE 1: WEIGHTING THE CRITERIA".to_owned(), items: Vec::new() };
        assert(heading.items@.map_values(|it: ComparisonItem| item_model(it)) =~= Seq::<ItemModel>::empty());
        out.push(heading);
        let ghost head = groups_model(out@);
        assert(head =~= seq![(phase1_heading(), Seq::<ItemModel>::empty())]);
        let mut rest = p1;
        let ghost all = groups_model(rest@);
        out.append(&mut rest);
        proof {
            assert(groups_model(out@) =~= head + all);
        }
    }
    let ghost g1 = groups_model(out@);
    assert(g1 =~= (if phase1(root@, goal@).len() > 0 {
        seq![(phase1_heading(), Seq::<ItemModel>::empty())] + phase1(root@, goal@)
    } else {
        Seq::empty()
    }));
    let cands = children_of_type(root, "Alternative");
    let top = children_of_type(root, "Criteria");
    let ghost cm = cands@.map_values(|c: &CriteriaNode<C>| c@);
    let ghost tm = top@.map_values(|c: &CriteriaNode<C>| c@);
    if cands.len() > 0 && top.len() >= 2 {
        let heading = ComparisonGroup { title: "PHASE 2: CANDIDATE PROFILES".to_owned(), items: Vec::new() };
        assert(heading.items@.map_values(|it: ComparisonItem| item_model(it)) =~= Seq::<ItemModel>::empty());
        out.push(heading);
        let ghost h2 = groups_model(out@);
        assert(h2 =~= g1 + seq![(phase2_heading(), Seq::<ItemModel>::empty())]);
        let mut k: usize = 0;
        while k < cands.len()
            invariant
                k <= cands@.len(),
                top@.len() >= 2,
                cm == cands@.map_values(|c: &CriteriaNode<C>| c@),
                tm == top@.map_values(|c: &CriteriaNode<C>| c@),
                cm == of_type(root@.children, alternative_type()),
                tm == of_type(root@.children, criteria_type()),
                offsets_fit(root@),
                groups_model(out@) == h2 + profiles_upto(cm, tm, k as int),
            decreases cands@.len() - k,
        {
            let cand = cands[k];
            proof {
                assert(cm[k as int] == cand@);
                assert forall|j: int| 0 <= j < top@.len() implies cand.id * 10000 + (#[trigger] top@[j]).id <= usize::MAX by {
                    assert(tm[j] == top@[j]@);
                    assert(candidate_offset(of_type(root@.children, alternative_type())[k as int])
                        + of_type(root@.children, criteria_type())[j].id <= usize::MAX);
                }
                if top@.len() > 0 {
                    assert(cand.id * 10000 + top@[0].id <= usize::MAX);
                }
            }
            let offset = cand.id * 10000;
            let title = respect_title(cand.name.as_str());
            let items = pair_items(&top, offset);
            let ghost before = groups_model(out@);
            out.push(ComparisonGroup { title, items });
            proof {
                assert(groups_model(out@) =~= before.push((respect_text() + cm[k as int].name, all_pairs(tm, candidate_offset(cm[k as int])))));
            }
            k += 1;
        }
        proof {
            assert(groups_model(out@) =~= g1 + phase2(root@));
        }
    } else {
        proof {
            assert(groups_model(out@) =~= g1 + phase2(root@));
        }
    }
    out
}


/// One comparison together with the title of its group.
pub struct FlatComparison {
    pub group_title: String,
    pub title: String,
    pub first: usize,
    pub second: usize,
}

/// The value of a comparison with its group title.
pub open spec fn flat_model(f: FlatComparison) -> (Seq<char>, Seq<char>, usize, usize) {
    (f.group_title@, f.title@, f.first, f.second)
}

/// The comparisons of the first `k` groups, one after another, each with its group's title.
pub open spec fn flatten_upto(gs: Seq<GroupModel>, k: int) -> Seq<(Seq<char>, Seq<char>, usize, usize)>
    decreases k,
{
    if k <= 0 || k > gs.len() {
        Seq::empty()
    } else {
        flatten_upto(gs, k - 1) + gs[k - 1].1.map_values(|it: ItemModel| (gs[k - 1].0, it.0, it.1, it.2))
    }
}

/// The comparisons of all groups in order, as the step-by-step view walks them
/// (the phase headings have none).
pub fn flatten_groups(groups: &Vec<ComparisonGroup>) -> (r: Vec<FlatComparison>)
    ensures
        r@.map_values(|f: FlatComparison| flat_model(f)) == flatten_upto(groups_model(groups@), groups@.len() as int),
{
    let ghost gm = groups_model(groups@);
    let mut out: Vec<FlatComparison> = Vec::new();
    let mut k: usize = 0;
    while k < groups.len()
        invariant
            k <= groups@.len(),
            gm == groups_model(groups@),
            out@.map_values(|f: FlatComparison| flat_model(f)) == flatten_upto(gm, k as int),
        decreases groups@.len() - k,
    {
        let g = &groups[k];
        let ghost before = out@.map_values(|f: FlatComparison| flat_model(f));
        let ghost im = g.items@.map_values(|it: ComparisonItem| item_model(it));
        assert(gm[k as int] == group_model(*g));
        let mut j: usize = 0;
        while j < g.items.len()
            invariant
                j <= g.items@.len(),
                im == g.items@.map_values(|it: ComparisonItem| item_model(it)),
                out@.map_values(|f: FlatComparison| flat_model(f))
                    == before + im.take(j as int).map_values(|it: ItemModel| (g.title@, it.0, it.1, it.2)),
            decreases g.items@.len() - j,
        {
            let it = &g.items[j];
            let ghost prev = out@.map_values(|f: FlatComparison| flat_model(f));
            out.push(FlatComparison { group_title: g.title.clone(), title: it.title.clone(), first: it.first, second: it.second });
            proof {
                assert(im[j as int] == item_model(*it));
                assert(im.take(j + 1).map_values(|it: ItemModel| (g.title@, it.0, it.1, it.2))
                    =~= im.take(j as int).map_values(|it: ItemModel| (g.title@, it.0, it.1, it.2)).push((g.title@, it.title@, it.first, it.second)));
                assert(out@.map_values(|f: FlatComparison| flat_model(f)) =~= prev.push((g.title@, it.title@, it.first, it.second)));
            }
            j += 1;
        }
        proof {
            assert(im.take(im.len() as int) =~= im);
        }
        k += 1;
    }
    out
}

/// The comparison the step-by-step view shows for the remembered step: the
/// last one when the step is past the end.
pub fn wizard_index(step: usize, count: usize) -> (r: usize)
    requires
        count > 0,
    ensures
        r == (if step >= count { (count - 1) as usize } else { step }),
        r < count,
{
    if step >= count { count - 1 } else { step }
}


proof fn lemma_row_len<C>(cs: Seq<CNode<C>>, i: int, j: int, offset: int)
    requires
        0 <= i,
    ensures
        row_upto(cs, i, j, offset).len() == (if j <= i + 1 { 0 } else { j - i - 1 }),
        forall|k: int| 0 <= k < j - i - 1 ==> #[trigger] row_upto(cs, i, j, offset)[k] == pair_item(cs[i], cs[i + 1 + k], offset),
    decreases j - i,
{
    if j > i + 1 {
        lemma_row_len(cs, i, j - 1, offset);
    }
}

proof fn lemma_pairs_len<C>(cs: Seq<CNode<C>>, i: int, offset: int)
    requires
        0 <= i <= cs.len(),
    ensures
        2 * pairs_upto(cs, i, offset).len() == i * (2 * cs.len() - i - 1),
    decreases i,
{
    if i > 0 {
        lemma_pairs_len(cs, i - 1, offset);
        lemma_row_len(cs, i - 1, cs.len() as int, offset);
        let n = cs.len() as int;
        let prev = pairs_upto(cs, i - 1, offset).len() as int;
        assert(2 * prev == (i - 1) * (2 * n - (i - 1) - 1));
        assert(pairs_upto(cs, i, offset).len() == prev + (n - i));
        assert((i - 1) * (2 * n - (i - 1) - 1) + 2 * (n - i) == i * (2 * n - i - 1)) by (nonlinear_arith);
        assert(2 * pairs_upto(cs, i, offset).len() == 2 * prev + 2 * (n - i));
    } else {
        assert(i * (2 * cs.len() - i - 1) == 0) by (nonlinear_arith) requires i == 0;
    }
}

proof fn lemma_pairs_prefix<C>(cs: Seq<CNode<C>>, a: int, b: int, offset: int)
    requires
        0 <= a <= b <= cs.len(),
    ensures
        pairs_upto(cs, b, offset).len() >= pairs_upto(cs, a, offset).len(),
        forall|k: int| 0 <= k < pairs_upto(cs, a, offset).len() ==> #[trigger] pairs_upto(cs, b, offset)[k] == pairs_upto(cs, a, offset)[k],
    decreases b - a,
{
    if a < b {
        lemma_pairs_prefix(cs, a, b - 1, offset);
    }
}

/// Law: a group compares every two of its `n` nodes exactly once, each node
/// against those after it: `n * (n - 1) / 2` comparisons, among them the
/// comparison of the `i`-th node against the `j`-th for every `i < j`.
pub proof fn lemma_all_pairs<C>(cs: Seq<CNode<C>>, offset: int)
    ensures
        all_pairs(cs, offset).len() == cs.len() * (cs.len() - 1) / 2,
        forall|i: int, j: int| 0 <= i < j < cs.len() ==> all_pairs(cs, offset).contains(pair_item(cs[i], cs[j], offset)),
{
    let n = cs.len() as int;
    lemma_pairs_len(cs, n, offset);
    assert(2 * all_pairs(cs, offset).len() == n * (n - 1));
    assert(n * (n - 1) == 2 * (n * (n - 1) / 2)) by (nonlinear_arith) requires n * (n - 1) == 2 * all_pairs(cs, offset).len();
    assert forall|i: int, j: int| 0 <= i < j < cs.len() implies all_pairs(cs, offset).contains(pair_item(cs[i], cs[j], offset)) by {
        lemma_pairs_prefix(cs, i + 1, n, offset);
        lemma_row_len(cs, i, n, offset);
        let before = pairs_upto(cs, i, offset);
        let row = row_upto(cs, i, n, offset);
        assert(pairs_upto(cs, i + 1, offset) == before + row);
        let k = before.len() + (j - i - 1);
        assert(row[j - i - 1] == pair_item(cs[i], cs[j], offset));
        assert(pairs_upto(cs, i + 1, offset)[k] == pair_item(cs[i], cs[j], offset));
        assert(all_pairs(cs, offset)[k] == pair_item(cs[i], cs[j], offset));
    }
}

} // verus!
