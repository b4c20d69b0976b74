//! The administration panel's view of user groups: the flat list the server
//! returns, and the hierarchy built from it.

use vstd::prelude::*;
use crate::criteria::DirPosition;
use crate::text::{int_text, joined, join, push_int, push_str, replace_all, string_from_chars, texts, trim, trimmed};
use crate::session::{api_root, documents_segment};

verus! {

/// A user as the administration panel lists it.
pub struct UserAdminDto {
    pub id: i32,
    pub email: String,
    pub is_admin: bool,
    pub is_deleted: bool,
    pub groups: Vec<i32>,
}

/// A user group as the server returns it; `parent_id` names the enclosing group.
pub struct GroupDto {
    pub id: Option<i32>,
    pub name: String,
    pub parent_id: Option<i32>,
}

/// A group with the groups nested in it.
pub struct GroupNode {
    pub id: i32,
    pub name: String,
    pub children: Vec<GroupNode>,
}

/// The mathematical value of a group hierarchy node.
pub struct GModel {
    pub id: i32,
    pub name: Seq<char>,
    pub children: Seq<GModel>,
}

impl GroupNode {
    /// The value of this node and of its whole subtree.
    pub open spec fn model(&self) -> GModel
        decreases self, 1int,
    {
        GModel { id: self.id, name: self.name@, children: self.children_model(self.children@.len() as int) }
    }

    /// The values of the first `k` children.
    pub open spec fn children_model(&self, k: int) -> Seq<GModel>
        decreases self, 0int, k,
    {
        if k <= 0 || k > self.children@.len() {
            Seq::empty()
        } else {
            proof {
                assert(decreases_to!(self => self.children));
                assert(decreases_to!(self.children => self.children@));
                assert(decreases_to!(self.children@ => self.children@[k - 1]));
            }
            self.children_model(k - 1).push(self.children@[k - 1].model())
        }
    }
}

impl View for GroupNode {
    type V = GModel;

    open spec fn view(&self) -> GModel {
        self.model()
    }
}

proof fn lemma_children_model_upto(n: &GroupNode, k: int)
    requires
        0 <= k <= n.children@.len(),
    ensures
        n.children_model(k).len() == k,
        forall|i: int| 0 <= i < k ==> #[trigger] n.children_model(k)[i] == n.children@[i]@,
    decreases k,
{
    if k > 0 {
        lemma_children_model_upto(n, k - 1);
    }
}

/// Does `g` sit directly under `parent` (and carry an id)?
pub open spec fn is_child_of(g: GroupDto, parent: Option<i32>) -> bool {
    g.parent_id == parent && g.id is Some
}

/// Every chain of groups hanging from `parent` is shorter than `fuel`.
pub open spec fn finite_below(gs: Seq<GroupDto>, parent: Option<i32>, fuel: nat) -> bool
    decreases fuel,
{
    fuel > 0 && forall|i: int|
        0 <= i < gs.len() && #[trigger] is_child_of(gs[i], parent) ==> finite_below(gs, gs[i].id, (fuel - 1) as nat)
}

/// The groups directly under `parent`, in list order, each with the groups
/// under it; chains are followed for at most `fuel` levels.
pub open spec fn forest(gs: Seq<GroupDto>, parent: Option<i32>, fuel: nat) -> Seq<GModel>
    decreases fuel, gs.len() + 1,
{
    forest_upto(gs, parent, fuel, gs.len() as int)
}

/// `forest`, built from the first `k` groups of the list.
pub open spec fn forest_upto(gs: Seq<GroupDto>, parent: Option<i32>, fuel: nat, k: int) -> Seq<GModel>
    decreases fuel, k,
{
    if k <= 0 || k > gs.len() || fuel == 0 {
        Seq::empty()
    } else {
        let g = gs[k - 1];
        let before = forest_upto(gs, parent, fuel, k - 1);
        if is_child_of(g, parent) {
            before.push(GModel { id: g.id->0, name: g.name@, children: forest(gs, g.id, (fuel - 1) as nat) })
        } else {
            before
        }
    }
}

/// `c` is a line of descent among the groups `gs`, as list positions: every
/// group in it has an id, and each sits directly under the one before it.
pub open spec fn line_of_descent(gs: Seq<GroupDto>, c: Seq<int>) -> bool {
    &&& forall|t: int| 0 <= t < c.len() ==> 0 <= #[trigger] c[t] < gs.len() && gs[c[t]].id is Some
    &&& forall|t: int| 1 <= t < c.len() ==> gs[#[trigger] c[t]].parent_id == gs[c[t - 1]].id
}

/// No group sits under itself, directly or further down.
pub open spec fn no_group_under_itself(gs: Seq<GroupDto>) -> bool {
    forall|c: Seq<int>| #[trigger] line_of_descent(gs, c) && c.len() >= 2 ==> c[0] != c[c.len() - 1]
}

/// Where the hierarchy under `p` runs deeper than `fuel` allows, there is a
/// line of descent of `fuel` groups hanging from `p`.
proof fn lemma_deep_line(gs: Seq<GroupDto>, p: Option<i32>, fuel: nat) -> (c: Seq<int>)
    requires
        !finite_below(gs, p, fuel),
    ensures
        c.len() == fuel,
        line_of_descent(gs, c),
        fuel > 0 ==> gs[c[0]].parent_id == p,
    decreases fuel,
{
    if fuel == 0 {
        Seq::empty()
    } else {
        let i = choose|i: int|
            0 <= i < gs.len() && #[trigger] is_child_of(gs[i], p) && !finite_below(gs, gs[i].id, (fuel - 1) as nat);
        let rest = lemma_deep_line(gs, gs[i].id, (fuel - 1) as nat);
        let c = seq![i] + rest;
        assert forall|t: int| 0 <= t < c.len() implies 0 <= #[trigger] c[t] < gs.len() && gs[c[t]].id is Some by {
            if t > 0 {
                assert(c[t] == rest[t - 1]);
            }
        }
        assert forall|t: int| 1 <= t < c.len() implies gs[#[trigger] c[t]].parent_id == gs[c[t - 1]].id by {
            assert(c[t] == rest[t - 1]);
            if t > 1 {
                assert(c[t - 1] == rest[t - 2]);
            }
        }
        c
    }
}

/// A line of descent longer than the list passes some group twice.
proof fn lemma_long_line_repeats(gs: Seq<GroupDto>, c: Seq<int>) -> (ab: (int, int))
    requires
        line_of_descent(gs, c),
        c.len() > gs.len(),
    ensures
        0 <= ab.0 < ab.1 < c.len(),
        c[ab.0] == c[ab.1],
{
    broadcast use vstd::seq_lib::group_seq_properties;
    if c.no_duplicates() {
        c.unique_seq_to_set();
        vstd::set_lib::lemma_int_range(0, gs.len() as int);
        assert forall|x: int| c.to_set().contains(x) implies vstd::set_lib::set_int_range(0, gs.len() as int).contains(x) by {
            assert(c.contains(x));
            let t = choose|t: int| 0 <= t < c.len() && c[t] == x;
            assert(0 <= c[t] < gs.len());
        }
        vstd::set_lib::lemma_len_subset(c.to_set(), vstd::set_lib::set_int_range(0, gs.len() as int));
        assert(false);
    }
    let (a, b) = choose|a: int, b: int| 0 <= a < c.len() && 0 <= b < c.len() && a != b && c[a] == c[b];
    if a < b { (a, b) } else { (b, a) }
}

/// Law: when no group sits under itself, the hierarchy under any parent ends,
/// so `build_group_tree` can be called on it.
pub proof fn lemma_no_group_under_itself_tree_ends(gs: Seq<GroupDto>, parent: Option<i32>)
    requires
        no_group_under_itself(gs),
    ensures
        finite_below(gs, parent, (gs.len() + 1) as nat),
{
    if !finite_below(gs, parent, (gs.len() + 1) as nat) {
        let c = lemma_deep_line(gs, parent, (gs.len() + 1) as nat);
        let (a, b) = lemma_long_line_repeats(gs, c);
        let sub = c.subrange(a, b + 1);
        assert forall|t: int| 0 <= t < sub.len() implies 0 <= #[trigger] sub[t] < gs.len() && gs[sub[t]].id is Some by {
            assert(sub[t] == c[a + t]);
        }
        assert forall|t: int| 1 <= t < sub.len() implies gs[#[trigger] sub[t]].parent_id == gs[sub[t - 1]].id by {
            assert(sub[t] == c[a + t]);
            assert(sub[t - 1] == c[a + t - 1]);
        }
        assert(line_of_descent(gs, sub));
        assert(sub[0] == sub[sub.len() - 1]);
    }
}

/// Whether a group sits directly under `parent` and has an id.
pub open spec fn directly_under(parent: Option<i32>) -> spec_fn(GroupDto) -> bool {
    |g: GroupDto| g.parent_id == parent && g.id is Some
}

proof fn lemma_forest_upto_lists_children(gs: Seq<GroupDto>, parent: Option<i32>, fuel: nat, k: int)
    requires
        fuel > 0,
        0 <= k <= gs.len(),
    ensures
        forest_upto(gs, parent, fuel, k).len() == gs.take(k).filter(directly_under(parent)).len(),
        forall|j: int| 0 <= j < forest_upto(gs, parent, fuel, k).len() ==> {
            let g = #[trigger] gs.take(k).filter(directly_under(parent))[j];
            &&& forest_upto(gs, parent, fuel, k)[j].id == g.id->0
            &&& forest_upto(gs, parent, fuel, k)[j].name == g.name@
            &&& forest_upto(gs, parent, fuel, k)[j].children == forest(gs, g.id, (fuel - 1) as nat)
        },
    decreases k,
{
    reveal(Seq::filter);
    if k == 0 {
        assert(gs.take(0) =~= Seq::<GroupDto>::empty());
    } else {
        lemma_forest_upto_lists_children(gs, parent, fuel, k - 1);
        assert(gs.take(k).drop_last() =~= gs.take(k - 1));
        assert(gs.take(k).last() == gs[k - 1]);
        let before = gs.take(k - 1).filter(directly_under(parent));
        assert(gs.take(k).filter(directly_under(parent)) == if directly_under(parent)(gs[k - 1]) {
            before.push(gs[k - 1])
        } else {
            before
        });
    }
}

/// Law: the hierarchy built under `parent` has one node for every group with
/// an id whose parent is `parent` (no more and no fewer), in list order, each
/// node carrying that group's id and name and, below it, the hierarchy built
/// under that group; so every group directly under `parent`, and only such
/// a group, appears at that level.
pub proof fn lemma_forest_lists_every_child(gs: Seq<GroupDto>, parent: Option<i32>, fuel: nat)
    requires
        fuel > 0,
    ensures
        forest(gs, parent, fuel).len() == gs.filter(directly_under(parent)).len(),
        forall|j: int| 0 <= j < forest(gs, parent, fuel).len() ==> {
            let g = #[trigger] gs.filter(directly_under(parent))[j];
            &&& forest(gs, parent, fuel)[j].id == g.id->0
            &&& forest(gs, parent, fuel)[j].name == g.name@
            &&& forest(gs, parent, fuel)[j].children == forest(gs, g.id, (fuel - 1) as nat)
        },
        forall|i: int| 0 <= i < gs.len() && gs[i].parent_id == parent && #[trigger] gs[i].id is Some
            ==> exists|j: int| 0 <= j < forest(gs, parent, fuel).len() && #[trigger] forest(gs, parent, fuel)[j].id == gs[i].id->0,
{
    lemma_forest_upto_lists_children(gs, parent, fuel, gs.len() as int);
    assert(gs.take(gs.len() as int) =~= gs);
    let f = gs.filter(directly_under(parent));
    assert forall|i: int| 0 <= i < gs.len() && gs[i].parent_id == parent && #[trigger] gs[i].id is Some
        implies exists|j: int| 0 <= j < forest(gs, parent, fuel).len() && #[trigger] forest(gs, parent, fuel)[j].id == gs[i].id->0 by {
        gs.lemma_filter_contains(directly_under(parent), i);
        assert(f.contains(gs[i]));
        let j = choose|j: int| 0 <= j < f.len() && f[j] == gs[i];
        assert(forest(gs, parent, fuel)[j].id == f[j].id->0);
    }
}

/// Tells whether building the hierarchy under `parent` ends: it does exactly
/// when no chain of parent links from `parent` runs round a cycle.
pub fn group_tree_is_finite(groups: &Vec<GroupDto>, parent_id: Option<i32>) -> (r: bool)
    ensures
        r == finite_below(groups@, parent_id, (groups@.len() + 1) as nat),
{
    let fuel = groups.len();
    check_finite(groups, parent_id, fuel)
}

fn check_finite(groups: &Vec<GroupDto>, parent_id: Option<i32>, fuel: usize) -> (r: bool)
    ensures
        r == finite_below(groups@, parent_id, (fuel + 1) as nat),
    decreases fuel,
{
    let mut i: usize = 0;
    while i < groups.len()
        invariant
            i <= groups@.len(),
            forall|k: int| 0 <= k < i && #[trigger] is_child_of(groups@[k], parent_id)
                ==> finite_below(groups@, groups@[k].id, fuel as nat),
        decreases groups@.len() - i,
    {
        let g = &groups[i];
        if g.parent_id == parent_id && g.id.is_some() {
            if fuel == 0 {
                assert(is_child_of(groups@[i as int], parent_id));
                assert(!finite_below(groups@, groups@[i as int].id, 0));
                return false;
            }
            if !check_finite(groups, g.id, fuel - 1) {
                assert(is_child_of(groups@[i as int], parent_id));
                return false;
            }
        }
        i += 1;
    }
    true
}

/// Builds the hierarchy of the groups under `parent_id`, keeping list order.
/// Groups without an id are left out.
pub fn build_group_tree(groups: &Vec<GroupDto>, parent_id: Option<i32>) -> (r: Vec<GroupNode>)
    requires
        finite_below(groups@, parent_id, (groups@.len() + 1) as nat),
    ensures
        r@.len() == forest(groups@, parent_id, (groups@.len() + 1) as nat).len(),
        forall|i: int| 0 <= i < r@.len() ==> #[trigger] r@[i]@ == forest(groups@, parent_id, (groups@.len() + 1) as nat)[i],
{
    build_fuel(groups, parent_id, Ghost((groups@.len() + 1) as nat))
}

fn build_fuel(groups: &Vec<GroupDto>, parent_id: Option<i32>, Ghost(fuel): Ghost<nat>) -> (r: Vec<GroupNode>)
    requires
        finite_below(groups@, parent_id, fuel),
    ensures
        r@.len() == forest(groups@, parent_id, fuel).len(),
        forall|i: int| 0 <= i < r@.len() ==> #[trigger] r@[i]@ == forest(groups@, parent_id, fuel)[i],
    decreases fuel,
{
    let mut children: Vec<GroupNode> = Vec::new();
    let mut i: usize = 0;
    while i < groups.len()
        invariant
            i <= groups@.len(),
            fuel > 0,
            finite_below(groups@, parent_id, fuel),
            children@.len() == forest_upto(groups@, parent_id, fuel, i as int).len(),
            forall|k: int| 0 <= k < children@.len() ==> #[trigger] children@[k]@ == forest_upto(groups@, parent_id, fuel, i as int)[k],
        decreases groups@.len() - i,
    {
        let g = &groups[i];
        if g.parent_id == parent_id {
            if let Some(id) = g.id {
                assert(is_child_of(groups@[i as int], parent_id));
                let sub = build_fuel(groups, Some(id), Ghost((fuel - 1) as nat));
                let node = GroupNode { id, name: g.name.clone(), children: sub };
                proof {
                    lemma_children_model_upto(&node, node.children@.len() as int);
                    assert(node@.children =~= forest(groups@, Some(id), (fuel - 1) as nat));
                }
                children.push(node);
            }
        }
        i += 1;
    }
    proof {
        assert(forest(groups@, parent_id, fuel) == forest_upto(groups@, parent_id, fuel, groups@.len() as int));
    }
    children
}


/// What a dialog of the administration panel is about.
pub enum ModalAction {
    /// Add a group under the given parent (none for the top level).
    AddGroup(Option<i32>, DirPosition),
    /// Delete the group with this id.
    ConfirmDelete(i32),
    /// Choose the groups of the user with this id.
    AssignUser(i32),
    /// Add a user (not offered yet).
    AddUser,
    /// Rename the group with this id.
    RenameGroup(i32),
}

/// An open dialog of the administration panel: the text typed and the groups
/// ticked (each once, in increasing order).
pub struct ModalState {
    pub action: ModalAction,
    pub input_name: String,
    pub selected_groups: Vec<i32>,
}

/// The body of a request that sets a user's groups.
pub struct SetGroupsDto {
    pub group_ids: Vec<i32>,
}

/// The state of the administration panel. `fetch_pending` and `action_pending`
/// tell that the lists, or the answer to a change, are still awaited.
pub struct AdminState {
    pub is_open: bool,
    pub users: Vec<UserAdminDto>,
    pub groups: Vec<GroupDto>,
    pub fetch_pending: bool,
    pub action_pending: bool,
    pub modal_state: Option<ModalState>,
    pub selected_user_id: Option<i32>,
}

impl Default for AdminState {
    /// Closed, with no users or groups loaded and nothing selected.
    fn default() -> (s: AdminState)
        ensures
            !s.is_open,
            s.users@.len() == 0,
            s.groups@.len() == 0,
            !s.fetch_pending,
            !s.action_pending,
            s.modal_state is None,
            s.selected_user_id is None,
    {
        AdminState {
            is_open: false,
            users: Vec::new(),
            groups: Vec::new(),
            fetch_pending: false,
            action_pending: false,
            modal_state: None,
            selected_user_id: None,
        }
    }
}

/// The first group with id `id` in the list.
pub open spec fn group_index_from(gs: Seq<GroupDto>, id: i32, i: int) -> Option<int>
    decreases gs.len() - i,
{
    if i < 0 || i >= gs.len() {
        None
    } else if gs[i].id == Some(id) {
        Some(i)
    } else {
        group_index_from(gs, id, i + 1)
    }
}

fn group_index(groups: &Vec<GroupDto>, id: i32) -> (r: Option<usize>)
    ensures
        match r {
            Some(i) => group_index_from(groups@, id, 0) == Some(i as int) && i < groups@.len(),
            None => group_index_from(groups@, id, 0) is None,
        },
{
    let mut i: usize = 0;
    while i < groups.len()
        invariant
            i <= groups@.len(),
            group_index_from(groups@, id, 0) == group_index_from(groups@, id, i as int),
        decreases groups@.len() - i,
    {
        if groups[i].id == Some(id) {
            return Some(i);
        }
        i += 1;
    }
    None
}

/// The first user with id `id` in the list.
pub open spec fn user_index_from(us: Seq<UserAdminDto>, id: i32, i: int) -> Option<int>
    decreases us.len() - i,
{
    if i < 0 || i >= us.len() {
        None
    } else if us[i].id == id {
        Some(i)
    } else {
        user_index_from(us, id, i + 1)
    }
}

fn user_index(users: &Vec<UserAdminDto>, id: i32) -> (r: Option<usize>)
    ensures
        match r {
            Some(i) => user_index_from(users@, id, 0) == Some(i as int) && i < users@.len(),
            None => user_index_from(users@, id, 0) is None,
        },
{
    let mut i: usize = 0;
    while i < users.len()
        invariant
            i <= users@.len(),
            user_index_from(users@, id, 0) == user_index_from(users@, id, i as int),
        decreases users@.len() - i,
    {
        if users[i].id == id {
            return Some(i);
        }
        i += 1;
    }
    None
}

/// The values of `s` increase strictly.
pub open spec fn increasing(s: Seq<i32>) -> bool {
    forall|i: int, j: int| 0 <= i < j < s.len() ==> s[i] < s[j]
}

fn insert_increasing(v: &mut Vec<i32>, x: i32)
    requires
        increasing(old(v)@),
    ensures
        increasing(final(v)@),
        forall|y: i32| #[trigger] final(v)@.contains(y) <==> (old(v)@.contains(y) || y == x),
{
    let mut p: usize = 0;
    while p < v.len() && v[p] < x
        invariant
            p <= v@.len(),
            v@ == old(v)@,
            forall|k: int| 0 <= k < p ==> v@[k] < x,
        decreases v@.len() - p,
    {
        p += 1;
    }
    if p < v.len() && v[p] == x {
        proof {
            assert(v@[p as int] == x);
        }
        return;
    }
    proof {
        assert(p < v@.len() ==> v@[p as int] > x);
    }
    let ghost before = v@;
    v.insert(p, x);
    proof {
        assert forall|y: i32| #[trigger] v@.contains(y) <==> (before.contains(y) || y == x) by {
            if v@.contains(y) {
                let k = choose|k: int| 0 <= k < v@.len() && v@[k] == y;
                if k < p {
                    assert(before[k] == y);
                } else if k > p {
                    assert(before[k - 1] == y);
                }
            }
            if before.contains(y) {
                let k = choose|k: int| 0 <= k < before.len() && before[k] == y;
                if k < p {
                    assert(v@[k] == y);
                } else {
                    assert(v@[k + 1] == y);
                }
            }
            if y == x {
                assert(v@[p as int] == x);
            }
        }
    }
}

fn remove_value(v: &mut Vec<i32>, x: i32)
    requires
        increasing(old(v)@),
    ensures
        increasing(final(v)@),
        forall|y: i32| #[trigger] final(v)@.contains(y) <==> (old(v)@.contains(y) && y != x),
{
    let mut p: usize = 0;
    while p < v.len()
        invariant
            p <= v@.len(),
            v@ == old(v)@,
            increasing(v@),
            forall|k: int| 0 <= k < p ==> v@[k] != x,
        decreases v@.len() - p,
    {
        if v[p] == x {
            let ghost before = v@;
            v.remove(p);
            proof {
                assert forall|y: i32| #[trigger] v@.contains(y) <==> (before.contains(y) && y != x) by {
                    if v@.contains(y) {
                        let k = choose|k: int| 0 <= k < v@.len() && v@[k] == y;
                        if k < p {
                            assert(before[k] == y);
                        } else {
                            assert(before[k + 1] == y);
                            assert(before[p as int] < before[k + 1]);
                        }
                    }
                    if before.contains(y) && y != x {
                        let k = choose|k: int| 0 <= k < before.len() && before[k] == y;
                        if k < p {
                            assert(v@[k] == y);
                        } else {
                            assert(k != p);
                            assert(v@[k - 1] == y);
                        }
                    }
                }
            }
            proof {
                assert forall|i: int, j: int| 0 <= i < j < v@.len() implies v@[i] < v@[j] by {
                    let bi = if i < p { i } else { i + 1 };
                    let bj = if j < p { j } else { j + 1 };
                    assert(v@[i] == before[bi]);
                    assert(v@[j] == before[bj]);
                }
            }
            return;
        }
        p += 1;
    }
}

impl ModalState {
    /// Ticks or unticks a group in the assignment dialog.
    pub fn set_group_checked(&mut self, group_id: i32, checked: bool)
        requires
            increasing(old(self).selected_groups@),
        ensures
            increasing(final(self).selected_groups@),
            forall|y: i32| #[trigger] final(self).selected_groups@.contains(y) <==> (if y == group_id {
                checked
            } else {
                old(self).selected_groups@.contains(y)
            }),
            final(self).action == old(self).action,
            final(self).input_name == old(self).input_name,
    {
        if checked {
            insert_increasing(&mut self.selected_groups, group_id);
        } else {
            remove_value(&mut self.selected_groups, group_id);
        }
    }
}

/// The name of the group with id `id` (empty when there is none).
pub open spec fn group_name_or_empty(gs: Seq<GroupDto>, id: i32) -> Seq<char> {
    match group_index_from(gs, id, 0) {
        Some(i) => gs[i].name@,
        None => Seq::empty(),
    }
}

impl AdminState {
    /// Whether the lists should be asked for now: the panel is open, both lists
    /// are empty and no request for them is running.
    pub fn needs_fetch(&self) -> (r: bool)
        ensures
            r == (self.is_open && self.users@.len() == 0 && self.groups@.len() == 0 && !self.fetch_pending),
    {
        self.is_open && self.users.len() == 0 && self.groups.len() == 0 && !self.fetch_pending
    }

    /// The lists arrived (or their request failed, which changes nothing but the wait).
    pub fn apply_fetch(&mut self, reply: Result<(Vec<UserAdminDto>, Vec<GroupDto>), String>)
        ensures
            !final(self).fetch_pending,
            match reply {
                Ok((u, g)) => final(self).users == u && final(self).groups == g,
                Err(_) => final(self).users == old(self).users && final(self).groups == old(self).groups,
            },
            *final(self) == (AdminState { users: final(self).users, groups: final(self).groups, fetch_pending: false, ..*old(self) }),
    {
        self.fetch_pending = false;
        match reply {
            Ok((u, g)) => {
                self.users = u;
                self.groups = g;
            },
            Err(_) => {},
        }
    }

    /// A change went through: both lists are dropped, so that they are asked for again.
    pub fn action_done(&mut self)
        ensures
            !final(self).action_pending,
            final(self).users@.len() == 0,
            final(self).groups@.len() == 0,
            *final(self) == (AdminState { users: final(self).users, groups: final(self).groups, action_pending: false, ..*old(self) }),
    {
        self.action_pending = false;
        self.users = Vec::new();
        self.groups = Vec::new();
    }

    /// Opens the dialog for `action`: a rename starts from the group's current
    /// name, an assignment with the user's groups ticked; the others start empty.
    pub fn open_modal(&mut self, action: ModalAction)
        ensures
            final(self).modal_state matches Some(m) && m.action == action
                && m.input_name@ == (match action {
                    ModalAction::RenameGroup(id) => group_name_or_empty(old(self).groups@, id),
                    _ => Seq::<char>::empty(),
                })
                && increasing(m.selected_groups@)
                && forall|g: i32| #[trigger] m.selected_groups@.contains(g) <==> (match action {
                    ModalAction::AssignUser(uid) => match user_index_from(old(self).users@, uid, 0) {
                        Some(i) => old(self).users@[i].groups@.contains(g),
                        None => false,
                    },
                    _ => false,
                }),
            *final(self) == (AdminState { modal_state: final(self).modal_state, ..*old(self) }),
    {
        let mut input = String::new();
        let mut selected: Vec<i32> = Vec::new();
        match &action {
            ModalAction::RenameGroup(id) => {
                match group_index(&self.groups, *id) {
                    Some(i) => {
                        input = self.groups[i].name.clone();
                    },
                    None => {},
                }
            },
            ModalAction::AssignUser(uid) => {
                match user_index(&self.users, *uid) {
                    Some(i) => {
                        let gs = &self.users[i].groups;
                        let mut k: usize = 0;
                        while k < gs.len()
                            invariant
                                k <= gs@.len(),
                                increasing(selected@),
                                forall|g: i32| #[trigger] selected@.contains(g) <==> gs@.take(k as int).contains(g),
                            decreases gs@.len() - k,
                        {
                            let ghost t = gs@.take(k as int);
                            insert_increasing(&mut selected, gs[k]);
                            proof {
                                assert(gs@.take(k + 1) =~= t.push(gs@[k as int]));
                                assert forall|z: i32| #[trigger] t.push(gs@[k as int]).contains(z) == (t.contains(z) || z == gs@[k as int]) by {
                                    if t.push(gs@[k as int]).contains(z) {
                                        let j = choose|j: int| 0 <= j < t.len() + 1 && t.push(gs@[k as int])[j] == z;
                                        if j < t.len() {
                                            assert(t[j] == z);
                                        }
                                    }
                                    if t.contains(z) {
                                        let j = choose|j: int| 0 <= j < t.len() && t[j] == z;
                                        assert(t.push(gs@[k as int])[j] == z);
                                    }
                                    assert(t.push(gs@[k as int])[t.len() as int] == gs@[k as int]);
                                }
                            }
                            k += 1;
                        }
                        proof {
                            assert(gs@.take(gs@.len() as int) =~= gs@);
                        }
                    },
                    None => {},
                }
            },
            _ => {},
        }
        self.modal_state = Some(ModalState { action, input_name: input, selected_groups: selected });
    }
}


/// A request of the administration panel.
pub enum AdminRequest {
    /// Delete a group.
    DeleteGroup { url: String },
    /// Create a group.
    CreateGroup { url: String, group: GroupDto },
    /// Rename a group (keeping its parent).
    UpdateGroup { url: String, group: GroupDto },
    /// Set a user's groups.
    SetUserGroups { url: String, groups: SetGroupsDto },
    /// Block or unblock a user.
    ToggleBlock { url: String },
}

/// The server's API root, from the documents address.
pub open spec fn root_of(api_url: Seq<char>) -> Seq<char> {
    replace_all(api_url, documents_segment(), Seq::empty())
}

fn admin_url(api_url: &str, middle: &str, id: i32, tail: &str) -> (r: String)
    ensures
        r@ == root_of(api_url@) + middle@ + int_text(id as int) + tail@,
{
    let root = api_root(api_url);
    let mut v: Vec<char> = Vec::new();
    push_str(&mut v, root.as_str());
    push_str(&mut v, middle);
    push_int(&mut v, id as i64);
    push_str(&mut v, tail);
    string_from_chars(v.as_slice())
}

impl AdminState {
    /// One frame of the open dialog, while `action_pending` tells whether an
    /// earlier change is still running: a confirmed dialog sends its change (if
    /// none is running and, for a new or renamed group, the name is not blank)
    /// and closes; a blank name keeps it open; a closed or cancelled one closes
    /// unless it was confirmed.
    pub fn modal_step(&mut self, api_url: &str, submitted: bool, window_open: bool, close_requested: bool) -> (r: Option<AdminRequest>)
        ensures
            *final(self) == (AdminState { modal_state: final(self).modal_state, action_pending: final(self).action_pending, ..*old(self) }),
            match old(self).modal_state {
                None => r is None && final(self).modal_state is None && final(self).action_pending == old(self).action_pending,
                Some(m) => {
                    let name = trimmed(m.input_name@);
                    let busy = old(self).action_pending;
                    let blank_refused = (m.action is AddGroup || m.action is RenameGroup) && name.len() == 0;
                    let sent = submitted && !busy && match m.action {
                        ModalAction::ConfirmDelete(_) => true,
                        ModalAction::AddGroup(_, _) => name.len() > 0,
                        ModalAction::RenameGroup(id) => name.len() > 0 && group_index_from(old(self).groups@, id, 0) is Some,
                        ModalAction::AssignUser(_) => true,
                        ModalAction::AddUser => false,
                    };
                    let closes = if submitted && !blank_refused {
                        match m.action {
                            ModalAction::AddGroup(_, _) => !busy,
                            ModalAction::RenameGroup(_) => !busy,
                            _ => true,
                        }
                    } else {
                        !window_open || close_requested
                    };
                    &&& (final(self).modal_state is None) == closes
                    &&& !closes ==> final(self).modal_state == old(self).modal_state
                    &&& final(self).action_pending == (busy || sent)
                    &&& (r is Some) == sent
                    &&& sent ==> match m.action {
                        ModalAction::ConfirmDelete(id) => r matches Some(AdminRequest::DeleteGroup { url })
                            && url@ == root_of(api_url@) + "/admin/groups/"@ + int_text(id as int),
                        ModalAction::AddGroup(parent, _) => r matches Some(AdminRequest::CreateGroup { url, group })
                            && url@ == root_of(api_url@) + "/admin/groups"@
                            && group.id is None && group.name@ == name && group.parent_id == parent,
                        ModalAction::RenameGroup(id) => r matches Some(AdminRequest::UpdateGroup { url, group })
                            && url@ == root_of(api_url@) + "/admin/groups/"@ + int_text(id as int)
                            && group.id == Some(id) && group.name@ == name
                            && group.parent_id == old(self).groups@[group_index_from(old(self).groups@, id, 0)->0].parent_id,
                        ModalAction::AssignUser(uid) => r matches Some(AdminRequest::SetUserGroups { url, groups })
                            && url@ == root_of(api_url@) + "/admin/users/"@ + int_text(uid as int) + "/groups"@
                            && groups.group_ids@ == m.selected_groups@,
                        ModalAction::AddUser => true,
                    }
                },
            },
    {
        let (name, busy) = match &self.modal_state {
            None => {
                return None;
            },
            Some(m) => (trim(m.input_name.as_str()), self.action_pending),
        };
        let mut req: Option<AdminRequest> = None;
        let mut close = false;
        let mut refused = false;
        match &self.modal_state {
            Some(m) => {
                if submitted {
                    match &m.action {
                        ModalAction::ConfirmDelete(id) => {
                            if !busy {
                                req = Some(AdminRequest::DeleteGroup { url: admin_url(api_url, "/admin/groups/", *id, "") });
                            }
                            close = true;
                        },
                        ModalAction::AddGroup(parent, _) => {
                            if !name.as_str().is_empty() && !busy {
                                let group = GroupDto { id: None, name: name.clone(), parent_id: *parent };
                                let root = api_root(api_url);
                                let mut v: Vec<char> = Vec::new();
                                push_str(&mut v, root.as_str());
                                push_str(&mut v, "/admin/groups");
                                req = Some(AdminRequest::CreateGroup { url: string_from_chars(v.as_slice()), group });
                                close = true;
                            } else if name.as_str().is_empty() {
                                refused = true;
                            }
                        },
                        ModalAction::RenameGroup(id) => {
                            if !name.as_str().is_empty() && !busy {
                                match group_index(&self.groups, *id) {
                                    Some(i) => {
                                        let group = GroupDto { id: Some(*id), name: name.clone(), parent_id: self.groups[i].parent_id };
                                        req = Some(AdminRequest::UpdateGroup { url: admin_url(api_url, "/admin/groups/", *id, ""), group });
                                    },
                                    None => {},
                                }
                                close = true;
                            } else if name.as_str().is_empty() {
                                refused = true;
                            }
                        },
                        ModalAction::AddUser => {
                            close = true;
                        },
                        ModalAction::AssignUser(uid) => {
                            if !busy {
                                let ids = m.selected_groups.clone();
                                req = Some(AdminRequest::SetUserGroups {
                                    url: admin_url(api_url, "/admin/users/", *uid, "/groups"),
                                    groups: SetGroupsDto { group_ids: ids },
                                });
                            }
                            close = true;
                        },
                    }
                }
            },
            None => {},
        }
        proof {
            reveal_strlit("");
            assert(""@ =~= Seq::<char>::empty());
        }
        if req.is_some() {
            self.action_pending = true;
        }
        if close || ((!submitted || refused) && (!window_open || close_requested)) {
            self.modal_state = None;
        }
        req
    }

    /// The block button of user `uid` was pressed: unless a change is running,
    /// the request that blocks or unblocks the user is sent.
    pub fn toggle_block(&mut self, api_url: &str, uid: i32) -> (r: Option<AdminRequest>)
        ensures
            old(self).action_pending ==> r is None && final(self).action_pending,
            final(self).action_pending,
            !old(self).action_pending ==> (r matches Some(AdminRequest::ToggleBlock { url })
                && url@ == root_of(api_url@) + "/admin/users/"@ + int_text(uid as int) + "/block"@),
            *final(self) == (AdminState { action_pending: true, ..*old(self) }),
    {
        if self.action_pending {
            return None;
        }
        self.action_pending = true;
        Some(AdminRequest::ToggleBlock { url: admin_url(api_url, "/admin/users/", uid, "/block") })
    }
}

/// The names of the user's groups that the list knows, in the user's order,
/// then `"Admin"` for an administrator.
pub open spec fn group_labels(u: UserAdminDto, gs: Seq<GroupDto>, k: int) -> Seq<Seq<char>>
    decreases k,
{
    if k <= 0 || k > u.groups@.len() {
        Seq::empty()
    } else {
        let before = group_labels(u, gs, k - 1);
        match group_index_from(gs, u.groups@[k - 1], 0) {
            Some(i) => before.push(gs[i].name@),
            None => before,
        }
    }
}

/// What the groups column shows for a user: the labels joined with `", "`.
pub fn user_groups_label(user: &UserAdminDto, groups: &Vec<GroupDto>) -> (r: String)
    ensures
        r@ == joined(group_labels(*user, groups@, user.groups@.len() as int)
            + (if user.is_admin { seq!["Admin"@] } else { Seq::empty() }), ", "@),
{
    let mut names: Vec<String> = Vec::new();
    let mut k: usize = 0;
    while k < user.groups.len()
        invariant
            k <= user.groups@.len(),
            texts(names@) == group_labels(*user, groups@, k as int),
        decreases user.groups@.len() - k,
    {
        match group_index(groups, user.groups[k]) {
            Some(i) => {
                let ghost before = texts(names@);
                names.push(groups[i].name.clone());
                proof {
                    assert(texts(names@) =~= before.push(groups@[i as int].name@));
                }
            },
            None => {},
        }
        k += 1;
    }
    if user.is_admin {
        let ghost before = texts(names@);
        names.push("Admin".to_owned());
        proof {
            assert(texts(names@) =~= before + seq!["Admin"@]);
        }
    } else {
        proof {
            assert(texts(names@) =~= texts(names@) + Seq::<Seq<char>>::empty());
        }
    }
    join(&names, ", ")
}

} // verus!
