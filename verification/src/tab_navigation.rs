//! Sequential focus navigation (tabbing) over a hierarchy of entities.
//!
//! The rules follow the HTML ones: an entity with a tab index `>= 0` is reachable by
//! sequential navigation, lower indices first, entities with equal indices in hierarchy
//! order; an index `< 0` is focusable only directly. Tabbing stays inside a modal tab
//! group that holds the focus, and otherwise cycles through all non-modal tab groups,
//! ordered by their `order`.
use vstd::prelude::*;
use crate::input::NavAction;
use crate::stable_sort::{
    stable_sort_by_key, sorted_by_key, lemma_sorted_entries_from_input, distinct_firsts,
    lemma_sorted_distinct_firsts,
};

verus! {

/// Tab index of an entity (see the module documentation).
#[derive(Clone, Copy, PartialEq, Eq, Debug)]
pub struct TabIndex(pub i32);

impl Default for TabIndex {
    /// Index 0: reachable by tabbing, in hierarchy order among the other zeros.
    fn default() -> (r: Self)
        ensures
            r.0 == 0,
    {
        TabIndex(0)
    }
}

/// Marks a widget that takes the focus when it is added.
#[derive(Clone, Copy, PartialEq, Eq, Debug)]
pub struct AutoFocus;

impl Default for AutoFocus {
    /// The marker.
    fn default() -> (r: Self)
        ensures
            r == AutoFocus,
    {
        AutoFocus
    }
}

/// Marks a tree of entities as holding tabbable elements.
#[derive(Clone, Copy, PartialEq, Eq, Debug)]
pub struct TabGroup {
    /// Order of the group relative to other tab groups.
    pub order: i32,
    /// Whether tabbing inside the group cycles through the group's entities only.
    pub modal: bool,
}

impl Default for TabGroup {
    /// Order 0, not modal.
    fn default() -> (r: Self)
        ensures
            r.order == 0,
            !r.modal,
    {
        TabGroup { order: 0, modal: false }
    }
}

/// What navigation reads of one entity.
pub struct NavEntity {
    /// The entity's identifier.
    pub id: u64,
    /// The entity is a UI node.
    pub node: bool,
    /// The entity's tab index, if it has one.
    pub tab_index: Option<i32>,
    /// The entity's tab group, if it is one.
    pub group: Option<TabGroup>,
    /// Position of the entity's parent, if it has one.
    pub parent: Option<usize>,
    /// Positions of the entity's children, in hierarchy order.
    pub children: Vec<usize>,
}

/// The entities navigation reads, each parent placed before its children, and the tab
/// groups in the order in which the host enumerates them.
pub struct NavWorld {
    pub entities: Vec<NavEntity>,
    pub groups: Vec<usize>,
}

/// Parents come before their children, and every position is in range.
pub open spec fn nav_world_wf(w: NavWorld) -> bool {
    &&& forall|i: int, k: int|
        0 <= i < w.entities@.len() && 0 <= k < w.entities@[i].children@.len() ==> i
            < #[trigger] w.entities@[i].children@[k] < w.entities@.len()
    &&& forall|i: int|
        0 <= i < w.entities@.len() ==> match #[trigger] w.entities@[i].parent {
            Some(p) => p < i,
            None => true,
        }
    &&& forall|g: int| 0 <= g < w.groups@.len() ==> #[trigger] w.groups@[g] < w.entities@.len()
}

impl NavWorld {
    /// Whether the world is well formed: every parent stands before its children and
    /// every position is in range.
    pub fn is_well_formed(&self) -> (r: bool)
        ensures
            r == nav_world_wf(*self),
    {
        let n = self.entities.len();
        let mut g: usize = 0;
        while g < self.groups.len()
            invariant
                n == self.entities@.len(),
                g <= self.groups@.len(),
                forall|t: int| 0 <= t < g ==> #[trigger] self.groups@[t] < n,
            decreases self.groups@.len() - g,
        {
            if self.groups[g] >= n {
                assert(!nav_world_wf(*self)) by {
                    assert(self.groups@[g as int] >= n);
                }
                return false;
            }
            g = g + 1;
        }
        let mut i: usize = 0;
        while i < n
            invariant
                n == self.entities@.len(),
                i <= n,
                forall|t: int| 0 <= t < self.groups@.len() ==> #[trigger] self.groups@[t] < n,
                forall|a: int, k: int|
                    0 <= a < i && 0 <= k < self.entities@[a].children@.len() ==> a
                        < #[trigger] self.entities@[a].children@[k] < n,
                forall|a: int|
                    0 <= a < i ==> match #[trigger] self.entities@[a].parent {
                        Some(p) => p < a,
                        None => true,
                    },
            decreases n - i,
        {
            let e = &self.entities[i];
            match e.parent {
                Some(p) => {
                    if p >= i {
                        assert(!nav_world_wf(*self)) by {
                            assert(self.entities@[i as int].parent == Some(p));
                        }
                        return false;
                    }
                },
                None => {},
            }
            let mut k: usize = 0;
            while k < e.children.len()
                invariant
                    n == self.entities@.len(),
                    i < n,
                    *e == self.entities@[i as int],
                    k <= e.children@.len(),
                    forall|t: int| 0 <= t < k ==> i < #[trigger] e.children@[t] < n,
                decreases e.children@.len() - k,
            {
                let c = e.children[k];
                if c <= i || c >= n {
                    assert(!nav_world_wf(*self)) by {
                        assert(self.entities@[i as int].children@[k as int] == c);
                    }
                    return false;
                }
                k = k + 1;
            }
            i = i + 1;
        }
        true
    }
}

/// The entity takes part in tab-index lookups: a UI node that is not a tab group.
pub open spec fn is_index_entity(w: NavWorld, i: int) -> bool {
    w.entities@[i].node && w.entities@[i].group is None
}

/// The entity is a tab group with children.
pub open spec fn is_group_entity(w: NavWorld, i: int) -> bool {
    w.entities@[i].group is Some && w.entities@[i].children@.len() > 0
}

/// The entity is a modal tab group.
pub open spec fn is_modal_group(w: NavWorld, i: int) -> bool {
    match w.entities@[i].group {
        Some(g) => g.modal,
        None => false,
    }
}

/// The entity's own entry in the focus order, if it is sequentially focusable.
pub open spec fn own_entry(w: NavWorld, i: int) -> Seq<(u64, i32)> {
    match w.entities@[i].tab_index {
        Some(t) => if t >= 0 {
            seq![(w.entities@[i].id, t)]
        } else {
            Seq::empty()
        },
        None => Seq::empty(),
    }
}

/// Focusable entities under entity `i`, in tree order: a node contributes its own entry
/// and those of its children that are not tab groups; a non-modal tab group contributes
/// those of all its children; anything else contributes nothing.
pub open spec fn gathered(w: NavWorld, i: int) -> Seq<(u64, i32)>
    decreases w.entities@.len() - i, 1int, 0int,
{
    if 0 <= i < w.entities@.len() {
        if is_index_entity(w, i) {
            own_entry(w, i) + gathered_children(w, i, w.entities@[i].children@.len() as int, true)
        } else if is_group_entity(w, i) && !is_modal_group(w, i) {
            gathered_children(w, i, w.entities@[i].children@.len() as int, false)
        } else {
            Seq::empty()
        }
    } else {
        Seq::empty()
    }
}

/// Focusable entities under the first `k` children of entity `i`, skipping children that
/// are tab groups when `skip_groups` holds.
pub open spec fn gathered_children(w: NavWorld, i: int, k: int, skip_groups: bool) -> Seq<
    (u64, i32),
>
    decreases w.entities@.len() - i, 0int, k,
{
    if 0 < k && 0 <= i < w.entities@.len() && k <= w.entities@[i].children@.len() {
        let c = w.entities@[i].children@[k - 1] as int;
        gathered_children(w, i, k - 1, skip_groups) + if i < c < w.entities@.len() && !(
        skip_groups && is_group_entity(w, c)) {
            gathered(w, c)
        } else {
            Seq::empty()
        }
    } else {
        Seq::empty()
    }
}

/// Appends the focusable entities under entity `i` to `out`.
fn gather_focusable(w: &NavWorld, i: usize, out: &mut Vec<(u64, i32)>)
    requires
        nav_world_wf(*w),
        i < w.entities@.len(),
    ensures
        final(out)@ == old(out)@ + gathered(*w, i as int),
    decreases w.entities@.len() - i,
{
    let e = &w.entities[i];
    let is_index = e.node && e.group.is_none();
    let is_group = e.group.is_some() && e.children.len() > 0;
    if is_index {
        match e.tab_index {
            Some(t) => {
                if t >= 0 {
                    out.push((e.id, t));
                }
            },
            None => {},
        }
    }
    let ghost after_own = out@;
    let modal = match e.group {
        Some(g) => g.modal,
        None => false,
    };
    if is_index || (is_group && !modal) {
        let n = e.children.len();
        let mut j: usize = 0;
        while j < n
            invariant
                nav_world_wf(*w),
                i < w.entities@.len(),
                e == w.entities@[i as int],
                n == e.children@.len(),
                j <= n,
                out@ == after_own + gathered_children(*w, i as int, j as int, is_index),
            decreases n - j,
        {
            let c = e.children[j];
            assert(i < c < w.entities@.len());
            let c_entity = &w.entities[c];
            let c_group = c_entity.group.is_some() && c_entity.children.len() > 0;
            if !(is_index && c_group) {
                gather_focusable(w, c, out);
            }
            j = j + 1;
            proof {
                assert(out@ =~= after_own + gathered_children(*w, i as int, j as int, is_index));
            }
        }
    }
    proof {
        if is_index {
            assert(gathered(*w, i as int) =~= own_entry(*w, i as int) + gathered_children(
                *w,
                i as int,
                w.entities@[i as int].children@.len() as int,
                true,
            ));
        }
    }
}

/// The non-modal tab groups among `gs`, with their order, in the order of `gs`.
pub open spec fn nonmodal_groups(w: NavWorld, gs: Seq<usize>) -> Seq<(usize, i32)>
    decreases gs.len(),
{
    if gs.len() == 0 {
        Seq::empty()
    } else {
        let g = gs.last();
        nonmodal_groups(w, gs.drop_last()) + match w.entities@[g as int].group {
            Some(tg) => if !tg.modal {
                seq![(g, tg.order)]
            } else {
                Seq::empty()
            },
            None => Seq::empty(),
        }
    }
}

/// Focusable entities under each of the groups `gs`, one group after the other.
pub open spec fn gathered_groups(w: NavWorld, gs: Seq<(usize, i32)>) -> Seq<(u64, i32)>
    decreases gs.len(),
{
    if gs.len() == 0 {
        Seq::empty()
    } else {
        gathered_groups(w, gs.drop_last()) + gathered(w, gs.last().0 as int)
    }
}

/// The focusable entities navigation chooses from: inside a modal group, those under the
/// group's children; otherwise those under every non-modal group, groups ordered (stably)
/// by their order.
pub open spec fn focus_candidates(w: NavWorld, tabgroup: Option<usize>) -> Seq<(u64, i32)> {
    match tabgroup {
        Some(g) if is_modal_group(w, g as int) => gathered_children(
            w,
            g as int,
            w.entities@[g as int].children@.len() as int,
            false,
        ),
        _ => gathered_groups(w, sorted_by_key(nonmodal_groups(w, w.groups@))),
    }
}

/// Collects the focusable entities navigation chooses from.
fn collect_focusable(w: &NavWorld, tabgroup: Option<usize>) -> (r: Vec<(u64, i32)>)
    requires
        nav_world_wf(*w),
        tabgroup matches Some(g) ==> g < w.entities@.len(),
    ensures
        r@ == focus_candidates(*w, tabgroup),
{
    let mut out: Vec<(u64, i32)> = Vec::new();
    let modal_group = match tabgroup {
        Some(g) => match w.entities[g].group {
            Some(tg) => tg.modal,
            None => false,
        },
        None => false,
    };
    if modal_group {
        let g = tabgroup.unwrap();
        let e = &w.entities[g];
        let n = e.children.len();
        let mut j: usize = 0;
        while j < n
            invariant
                nav_world_wf(*w),
                g < w.entities@.len(),
                e == w.entities@[g as int],
                n == e.children@.len(),
                j <= n,
                out@ == gathered_children(*w, g as int, j as int, false),
            decreases n - j,
        {
            let c = e.children[j];
            assert(g < c < w.entities@.len());
            gather_focusable(w, c, &mut out);
            j = j + 1;
            proof {
                assert(out@ =~= gathered_children(*w, g as int, j as int, false));
            }
        }
        return out;
    }
    // Non-modal tab groups, in enumeration order.
    let mut groups: Vec<(usize, i32)> = Vec::new();
    let mut j: usize = 0;
    while j < w.groups.len()
        invariant
            nav_world_wf(*w),
            j <= w.groups@.len(),
            groups@ == nonmodal_groups(*w, w.groups@.take(j as int)),
            forall|t: int| 0 <= t < groups@.len() ==> #[trigger] groups@[t].0 < w.entities@.len(),
        decreases w.groups@.len() - j,
    {
        let g = w.groups[j];
        proof {
            assert(w.groups@.take(j + 1).drop_last() =~= w.groups@.take(j as int));
        }
        match w.entities[g].group {
            Some(tg) => {
                if !tg.modal {
                    groups.push((g, tg.order));
                }
            },
            None => {},
        }
        j = j + 1;
        proof {
            assert(groups@ =~= nonmodal_groups(*w, w.groups@.take(j as int)));
        }
    }
    proof {
        assert(w.groups@.take(w.groups@.len() as int) =~= w.groups@);
    }
    let sorted = stable_sort_by_key(&groups);
    proof {
        lemma_sorted_entries_from_input(groups@);
        assert forall|t: int| 0 <= t < sorted@.len() implies #[trigger] sorted@[t].0 < w.entities@.len() by {
            let u = choose|u: int| 0 <= u < groups@.len() && groups@[u] == sorted@[t];
        }
    }
    let mut k: usize = 0;
    while k < sorted.len()
        invariant
            nav_world_wf(*w),
            k <= sorted@.len(),
            forall|t: int| 0 <= t < sorted@.len() ==> #[trigger] sorted@[t].0 < w.entities@.len(),
            out@ == gathered_groups(*w, sorted@.take(k as int)),
        decreases sorted@.len() - k,
    {
        let g = sorted[k].0;
        gather_focusable(w, g, &mut out);
        proof {
            assert(sorted@.take(k + 1).drop_last() =~= sorted@.take(k as int));
        }
        k = k + 1;
    }
    proof {
        assert(sorted@.take(sorted@.len() as int) =~= sorted@);
    }
    out
}

/// Position of the first entry of `s` whose entity is `focus`.
pub open spec fn focus_position(s: Seq<(u64, i32)>, focus: Option<u64>) -> Option<int> {
    match focus {
        Some(f) => if exists|i: int| 0 <= i < s.len() && #[trigger] s[i].0 == f {
            Some(
                choose|i: int|
                    0 <= i < s.len() && s[i].0 == f && forall|j: int|
                        0 <= j < i ==> #[trigger] s[j].0 != f,
            )
        } else {
            None
        },
        None => None,
    }
}

/// Position navigation moves to in a focus order of `count` entries, from the focus
/// position `index` (if the focus is in the order).
pub open spec fn next_position(index: Option<int>, count: int, action: NavAction) -> int {
    match (index, action) {
        (Some(i), NavAction::Next) => (i + 1) % count,
        (Some(i), NavAction::Previous) => (i + count - 1) % count,
        (None, NavAction::Next) => 0,
        (None, NavAction::Previous) => count - 1,
        (_, NavAction::First) => 0,
        (_, NavAction::Last) => count - 1,
    }
}

/// The entity navigation moves to in the focus order `s` (already sorted).
pub open spec fn nav_target(s: Seq<(u64, i32)>, focus: Option<u64>, action: NavAction) -> Option<
    u64,
> {
    if s.len() == 0 {
        None
    } else {
        Some(s[next_position(focus_position(s, focus), s.len() as int, action)].0)
    }
}

/// Position of the first entry whose entity is `focus`.
fn position_of(s: &Vec<(u64, i32)>, focus: Option<u64>) -> (r: Option<usize>)
    ensures
        match r {
            Some(i) => i < s@.len() && focus_position(s@, focus) == Some(i as int),
            None => focus_position(s@, focus) is None,
        },
{
    let f = match focus {
        Some(f) => f,
        None => return None,
    };
    let mut i: usize = 0;
    while i < s.len()
        invariant
            i <= s@.len(),
            focus == Some(f),
            forall|j: int| 0 <= j < i ==> #[trigger] s@[j].0 != f,
        decreases s@.len() - i,
    {
        if s[i].0 == f {
            proof {
                assert(s@[i as int].0 == f);
                let c = choose|c: int|
                    0 <= c < s@.len() && s@[c].0 == f && forall|j: int|
                        0 <= j < c ==> #[trigger] s@[j].0 != f;
                if c < i {
                } else if c > i {
                    assert(s@[i as int].0 != f);
                }
            }
            return Some(i);
        }
        i = i + 1;
    }
    None
}

/// Sorts the candidates by tab index and picks the entity to move to.
fn pick_target(focusable: &Vec<(u64, i32)>, focus: Option<u64>, action: NavAction) -> (r: Option<u64>)
    ensures
        r == nav_target(sorted_by_key(focusable@), focus, action),
{
    if focusable.len() == 0 {
        proof {
            lemma_sorted_entries_from_input(focusable@);
        }
        return None;
    }
    let sorted = stable_sort_by_key(focusable);
    proof {
        lemma_sorted_entries_from_input(focusable@);
    }
    let count = sorted.len();
    let index = position_of(&sorted, focus);
    let next: usize = match (index, action) {
        (Some(idx), NavAction::Next) => (idx + 1) % count,
        (Some(idx), NavAction::Previous) => if idx == 0 {
            count - 1
        } else {
            idx - 1
        },
        (None, NavAction::Next) => 0,
        (None, NavAction::Previous) => count - 1,
        (_, NavAction::First) => 0,
        (_, NavAction::Last) => count - 1,
    };
    proof {
        if let (Some(idx), NavAction::Previous) = (index, action) {
            let c = count as int;
            let x = idx as int;
            if idx == 0 {
                assert((x + c - 1) % c == c - 1) by (nonlinear_arith)
                    requires
                        x == 0,
                        c > 0,
                ;
            } else {
                assert((x + c - 1) % c == x - 1) by (nonlinear_arith)
                    requires
                        0 < x < c,
                ;
            }
        }
    }
    Some(sorted[next].0)
}

/// The tab group containing entity `i`: the nearest ancestor-or-self that is a tab group,
/// searching upward through UI nodes.
pub open spec fn enclosing_group(w: NavWorld, i: int) -> Option<usize>
    decreases i,
{
    if 0 <= i < w.entities@.len() {
        if is_group_entity(w, i) {
            Some(i as usize)
        } else if w.entities@[i].node {
            match w.entities@[i].parent {
                Some(p) => if p < i {
                    enclosing_group(w, p as int)
                } else {
                    None
                },
                None => None,
            }
        } else {
            None
        }
    } else {
        None
    }
}

/// Position of the first entity whose identifier is `id`.
pub open spec fn entity_position(w: NavWorld, id: u64) -> Option<int> {
    if exists|i: int| 0 <= i < w.entities@.len() && #[trigger] w.entities@[i].id == id {
        Some(
            choose|i: int|
                0 <= i < w.entities@.len() && w.entities@[i].id == id && forall|j: int|
                    0 <= j < i ==> #[trigger] w.entities@[j].id != id,
        )
    } else {
        None
    }
}

/// The tab group containing the focused entity, if any.
pub open spec fn focus_group(w: NavWorld, focus: Option<u64>) -> Option<usize> {
    match focus {
        Some(f) => match entity_position(w, f) {
            Some(i) => enclosing_group(w, i),
            None => None,
        },
        None => None,
    }
}

/// The entity sequential navigation moves the focus to.
pub open spec fn spec_navigate(w: NavWorld, focus: Option<u64>, action: NavAction) -> Option<u64> {
    if w.groups@.len() == 0 {
        None
    } else {
        nav_target(sorted_by_key(focus_candidates(w, focus_group(w, focus))), focus, action)
    }
}

/// Navigates among the focusable entities of `tabgroup` (when it is modal) or of all
/// non-modal groups.
pub fn navigate_in_group(w: &NavWorld, tabgroup: Option<usize>, focus: Option<u64>, action: NavAction) -> (r:
    Option<u64>)
    requires
        nav_world_wf(*w),
        tabgroup matches Some(g) ==> g < w.entities@.len(),
    ensures
        r == nav_target(sorted_by_key(focus_candidates(*w, tabgroup)), focus, action),
{
    let focusable = collect_focusable(w, tabgroup);
    pick_target(&focusable, focus, action)
}

/// Finds the position of the entity with identifier `id`.
fn find_entity(w: &NavWorld, id: u64) -> (r: Option<usize>)
    ensures
        match r {
            Some(i) => i < w.entities@.len() && entity_position(*w, id) == Some(i as int),
            None => entity_position(*w, id) is None,
        },
{
    let mut i: usize = 0;
    while i < w.entities.len()
        invariant
            i <= w.entities@.len(),
            forall|j: int| 0 <= j < i ==> #[trigger] w.entities@[j].id != id,
        decreases w.entities@.len() - i,
    {
        if w.entities[i].id == id {
            proof {
                let c = choose|c: int|
                    0 <= c < w.entities@.len() && w.entities@[c].id == id && forall|j: int|
                        0 <= j < c ==> #[trigger] w.entities@[j].id != id;
                if c < i {
                } else if c > i {
                    assert(w.entities@[i as int].id != id);
                }
            }
            return Some(i);
        }
        i = i + 1;
    }
    None
}

/// Searches upward from entity `i` for the tab group that contains it.
fn find_enclosing_group(w: &NavWorld, i: usize) -> (r: Option<usize>)
    requires
        nav_world_wf(*w),
        i < w.entities@.len(),
    ensures
        r == enclosing_group(*w, i as int),
        r matches Some(g) ==> g < w.entities@.len(),
{
    let mut cur = i;
    loop
        invariant
            nav_world_wf(*w),
            cur < w.entities@.len(),
            enclosing_group(*w, i as int) == enclosing_group(*w, cur as int),
        decreases cur,
    {
        let e = &w.entities[cur];
        if e.group.is_some() && e.children.len() > 0 {
            return Some(cur);
        }
        if !e.node {
            return None;
        }
        match e.parent {
            Some(p) => {
                assert(p < cur);
                cur = p;
            },
            None => return None,
        }
    }
}

/// Navigates from the focused entity (if any): finds the tab group holding the focus, then
/// the entity to move to. `None` when there are no tab groups or nothing is focusable.
pub fn navigate(w: &NavWorld, focus: Option<u64>, action: NavAction) -> (r: Option<u64>)
    requires
        nav_world_wf(*w),
    ensures
        r == spec_navigate(*w, focus, action),
{
    if w.groups.len() == 0 {
        return None;
    }
    let tabgroup = match focus {
        Some(f) => match find_entity(w, f) {
            Some(i) => find_enclosing_group(w, i),
            None => None,
        },
        None => None,
    };
    navigate_in_group(w, tabgroup, focus, action)
}

/// Every entry of the sequence has a tab index `>= 0`.
pub open spec fn all_sequentially_focusable(s: Seq<(u64, i32)>) -> bool {
    forall|k: int| 0 <= k < s.len() ==> #[trigger] s[k].1 >= 0
}

proof fn lemma_concat_focusable(a: Seq<(u64, i32)>, b: Seq<(u64, i32)>)
    requires
        all_sequentially_focusable(a),
        all_sequentially_focusable(b),
    ensures
        all_sequentially_focusable(a + b),
{
    assert forall|k: int| 0 <= k < (a + b).len() implies #[trigger] (a + b)[k].1 >= 0 by {
        if k < a.len() {
            assert((a + b)[k] == a[k]);
        } else {
            assert((a + b)[k] == b[k - a.len()]);
        }
    }
}

proof fn lemma_gathered_focusable(w: NavWorld, i: int)
    ensures
        all_sequentially_focusable(gathered(w, i)),
    decreases w.entities@.len() - i, 1int, 0int,
{
    if 0 <= i < w.entities@.len() {
        let n = w.entities@[i].children@.len() as int;
        if is_index_entity(w, i) {
            lemma_children_focusable(w, i, n, true);
            lemma_concat_focusable(own_entry(w, i), gathered_children(w, i, n, true));
        } else if is_group_entity(w, i) && !is_modal_group(w, i) {
            lemma_children_focusable(w, i, n, false);
        }
    }
}

proof fn lemma_children_focusable(w: NavWorld, i: int, k: int, skip_groups: bool)
    ensures
        all_sequentially_focusable(gathered_children(w, i, k, skip_groups)),
    decreases w.entities@.len() - i, 0int, k,
{
    if 0 < k && 0 <= i < w.entities@.len() && k <= w.entities@[i].children@.len() {
        let c = w.entities@[i].children@[k - 1] as int;
        lemma_children_focusable(w, i, k - 1, skip_groups);
        if i < c < w.entities@.len() && !(skip_groups && is_group_entity(w, c)) {
            lemma_gathered_focusable(w, c);
            lemma_concat_focusable(gathered_children(w, i, k - 1, skip_groups), gathered(w, c));
        } else {
            lemma_concat_focusable(gathered_children(w, i, k - 1, skip_groups), Seq::empty());
        }
    }
}

proof fn lemma_groups_focusable(w: NavWorld, gs: Seq<(usize, i32)>)
    ensures
        all_sequentially_focusable(gathered_groups(w, gs)),
    decreases gs.len(),
{
    if gs.len() > 0 {
        lemma_groups_focusable(w, gs.drop_last());
        lemma_gathered_focusable(w, gs.last().0 as int);
        lemma_concat_focusable(gathered_groups(w, gs.drop_last()), gathered(w, gs.last().0 as int));
    }
}

/// Law: an entity with a negative tab index is never reached by sequential navigation:
/// every candidate has a tab index `>= 0`.
pub proof fn law_candidates_have_nonnegative_index(w: NavWorld, tabgroup: Option<usize>)
    ensures
        all_sequentially_focusable(focus_candidates(w, tabgroup)),
{
    match tabgroup {
        Some(g) if is_modal_group(w, g as int) => {
            lemma_children_focusable(w, g as int, w.entities@[g as int].children@.len() as int, false);
        },
        _ => {
            lemma_groups_focusable(w, sorted_by_key(nonmodal_groups(w, w.groups@)));
        },
    }
}

/// No entity appears twice in the focus order.
pub open spec fn distinct_entities(s: Seq<(u64, i32)>) -> bool {
    forall|i: int, j: int| 0 <= i < j < s.len() ==> #[trigger] s[i].0 != #[trigger] s[j].0
}

proof fn lemma_position_of_distinct(s: Seq<(u64, i32)>, i: int)
    requires
        distinct_entities(s),
        0 <= i < s.len(),
    ensures
        focus_position(s, Some(s[i].0)) == Some(i),
{
    let f = s[i].0;
    assert(s[i].0 == f);
    let c = choose|c: int|
        0 <= c < s.len() && s[c].0 == f && forall|j: int| 0 <= j < c ==> #[trigger] s[j].0 != f;
    if c < i {
        assert(s[c].0 != s[i].0);
    } else if c > i {
        assert(s[i].0 != f);
    }
}

/// Law: in a focus order without repeated entities, moving to the next entity and then to
/// the previous one comes back to where the focus was, and so does the reverse; moving
/// next from the last entity wraps to the first, and previous from the first wraps to the
/// last.
pub proof fn law_next_previous_round_trip(s: Seq<(u64, i32)>, i: int)
    requires
        distinct_entities(s),
        0 <= i < s.len(),
    ensures
        ({
            let f = Some(s[i].0);
            &&& nav_target(s, nav_target(s, f, NavAction::Next), NavAction::Previous) == f
            &&& nav_target(s, nav_target(s, f, NavAction::Previous), NavAction::Next) == f
            &&& i == s.len() - 1 ==> nav_target(s, f, NavAction::Next) == Some(s[0].0)
            &&& i == 0 ==> nav_target(s, f, NavAction::Previous) == Some(s[s.len() - 1].0)
        }),
{
    let n = s.len() as int;
    lemma_position_of_distinct(s, i);
    let nx = (i + 1) % n;
    let pv = (i + n - 1) % n;
    assert(0 <= nx < n && 0 <= pv < n) by (nonlinear_arith)
        requires
            0 <= i < n,
            nx == (i + 1) % n,
            pv == (i + n - 1) % n,
    ;
    assert((nx + n - 1) % n == i) by (nonlinear_arith)
        requires
            0 <= i < n,
            nx == (i + 1) % n,
    ;
    assert((pv + 1) % n == i) by (nonlinear_arith)
        requires
            0 <= i < n,
            pv == (i + n - 1) % n,
    ;
    lemma_position_of_distinct(s, nx);
    lemma_position_of_distinct(s, pv);
    if i == n - 1 {
        assert((i + 1) % n == 0) by (nonlinear_arith)
            requires
                i == n - 1,
                n > 0,
        ;
    }
    if i == 0 {
        assert((i + n - 1) % n == n - 1) by (nonlinear_arith)
            requires
                i == 0,
                n > 0,
        ;
    }
}

/// An entity that occurs in a focus order has a first occurrence.
proof fn lemma_first_occurrence(s: Seq<(u64, i32)>, f: u64, i0: int)
    requires
        0 <= i0 < s.len(),
        s[i0].0 == f,
    ensures
        exists|i: int|
            0 <= i < s.len() && s[i].0 == f && forall|j: int| 0 <= j < i ==> #[trigger] s[j].0 != f,
    decreases i0,
{
    if exists|j: int| 0 <= j < i0 && #[trigger] s[j].0 == f {
        let j = choose|j: int| 0 <= j < i0 && #[trigger] s[j].0 == f;
        lemma_first_occurrence(s, f, j);
    } else {
        assert(forall|j: int| 0 <= j < i0 ==> #[trigger] s[j].0 != f);
    }
}

/// The target of navigating in a non-empty focus order is one of its entries.
proof fn lemma_nav_target_in_order(s: Seq<(u64, i32)>, focus: Option<u64>, action: NavAction)
    requires
        s.len() > 0,
    ensures
        exists|k: int| 0 <= k < s.len() && nav_target(s, focus, action) == Some(#[trigger] s[k].0),
{
    let n = s.len() as int;
    let pos = focus_position(s, focus);
    match focus {
        Some(f) => {
            if exists|i: int| 0 <= i < s.len() && #[trigger] s[i].0 == f {
                let i0 = choose|i: int| 0 <= i < s.len() && #[trigger] s[i].0 == f;
                lemma_first_occurrence(s, f, i0);
            }
        },
        None => {},
    }
    let idx = next_position(pos, n, action);
    match (pos, action) {
        (Some(i), NavAction::Next) => {
            assert(0 <= (i + 1) % n < n) by (nonlinear_arith)
                requires
                    0 <= i < n,
            ;
        },
        (Some(i), NavAction::Previous) => {
            assert(0 <= (i + n - 1) % n < n) by (nonlinear_arith)
                requires
                    0 <= i < n,
            ;
        },
        _ => {},
    }
    assert(0 <= idx < n);
    assert(nav_target(s, focus, action) == Some(s[idx].0));
}

/// Law: sequential navigation always moves the focus to one of the candidates, and so to
/// an entity with a tab index `>= 0`; when the focus is inside a modal tab group, the
/// candidates are the entities under that group, so the focus never leaves it.
pub proof fn law_navigation_stays_among_candidates(
    w: NavWorld,
    focus: Option<u64>,
    action: NavAction,
)
    ensures
        ({
            let cands = focus_candidates(w, focus_group(w, focus));
            spec_navigate(w, focus, action) matches Some(t) ==> exists|k: int|
                0 <= k < cands.len() && #[trigger] cands[k].0 == t && cands[k].1 >= 0
        }),
        match focus_group(w, focus) {
            Some(g) => is_modal_group(w, g as int) ==> focus_candidates(w, focus_group(w, focus))
                == gathered_children(w, g as int, w.entities@[g as int].children@.len() as int, false),
            None => true,
        },
{
    let cands = focus_candidates(w, focus_group(w, focus));
    let s = sorted_by_key(cands);
    lemma_sorted_entries_from_input(cands);
    law_candidates_have_nonnegative_index(w, focus_group(w, focus));
    if w.groups@.len() > 0 && s.len() > 0 {
        lemma_nav_target_in_order(s, focus, action);
        let k = choose|k: int| 0 <= k < s.len() && nav_target(s, focus, action) == Some(#[trigger] s[k].0);
        assert(cands.contains(s[k]));
        let u = choose|u: int| 0 <= u < cands.len() && cands[u] == s[k];
        assert(cands[u].0 == s[k].0);
        assert(cands[u].1 >= 0);
    }
}

/// Every child list agrees with the parent links: each child of an entity has that entity
/// as its parent.
pub open spec fn nav_tree_consistent(w: NavWorld) -> bool {
    forall|i: int, k: int|
        0 <= i < w.entities@.len() && 0 <= k < w.entities@[i].children@.len() ==> w.entities@[
            #[trigger] w.entities@[i].children@[k] as int
        ].parent == Some(i as usize)
}

/// Entity `a` is `x` or one of `x`'s ancestors (following parent links upward from `x`).
pub open spec fn nav_self_or_ancestor(w: NavWorld, a: int, x: int) -> bool
    decreases x,
{
    if a == x {
        true
    } else if 0 <= x < w.entities@.len() {
        match w.entities@[x].parent {
            Some(p) => p < x && nav_self_or_ancestor(w, a, p as int),
            None => false,
        }
    } else {
        false
    }
}

/// Entity `a` is reached from `x` by following parent links upward through entities
/// that take part in tab-index lookups only (`x` itself included, `a` excluded): no tab
/// group stands between them.
pub open spec fn index_path(w: NavWorld, x: int, a: int) -> bool
    decreases x,
{
    if x == a {
        true
    } else if 0 <= x < w.entities@.len() {
        is_index_entity(w, x) && match w.entities@[x].parent {
            Some(p) => p < x && index_path(w, p as int, a),
            None => false,
        }
    } else {
        false
    }
}

/// The focus-order entry `e` stands for an entity `x` under entity `a` (`a` itself
/// included) that takes part in tab-index lookups, with `e`'s identifier and tab index;
/// when `via_index`, no tab group stands between `x` and `a`.
pub open spec fn entry_below(w: NavWorld, e: (u64, i32), a: int, via_index: bool) -> bool {
    exists|x: int|
        0 <= x < w.entities@.len() && #[trigger] w.entities@[x].id == e.0
            && w.entities@[x].tab_index == Some(e.1) && is_index_entity(w, x)
            && nav_self_or_ancestor(w, a, x) && (via_index ==> index_path(w, x, a))
}

proof fn lemma_ancestor_trans(w: NavWorld, a: int, b: int, x: int)
    requires
        nav_self_or_ancestor(w, a, b),
        nav_self_or_ancestor(w, b, x),
    ensures
        nav_self_or_ancestor(w, a, x),
    decreases x,
{
    if b != x {
        let p = w.entities@[x].parent.unwrap();
        lemma_ancestor_trans(w, a, b, p as int);
    }
}

proof fn lemma_index_path_trans(w: NavWorld, x: int, b: int, a: int)
    requires
        index_path(w, x, b),
        index_path(w, b, a),
    ensures
        index_path(w, x, a),
    decreases x,
{
    if x != b {
        let p = w.entities@[x].parent.unwrap();
        lemma_index_path_trans(w, p as int, b, a);
    }
}

/// An entry found under a child `c` of entity `i` is also found under `i`.
proof fn lemma_entry_below_parent(w: NavWorld, e: (u64, i32), i: int, c: int, via_index: bool)
    requires
        nav_world_wf(w),
        0 <= i < c < w.entities@.len(),
        w.entities@[c].parent matches Some(p) && p == i,
        entry_below(w, e, c, via_index),
        via_index ==> is_index_entity(w, c),
    ensures
        entry_below(w, e, i, via_index),
{
    let x = choose|x: int|
        0 <= x < w.entities@.len() && #[trigger] w.entities@[x].id == e.0
            && w.entities@[x].tab_index == Some(e.1) && is_index_entity(w, x)
            && nav_self_or_ancestor(w, c, x) && (via_index ==> index_path(w, x, c));
    assert(nav_self_or_ancestor(w, i, i));
    assert(nav_self_or_ancestor(w, i, c));
    lemma_ancestor_trans(w, i, c, x);
    if via_index {
        assert(index_path(w, i, i));
        assert(index_path(w, c, i));
        lemma_index_path_trans(w, x, c, i);
    }
    assert(w.entities@[x].id == e.0);
}

/// Law: every entry that gathering under entity `i` finds stands for an entity under `i`
/// that takes part in tab-index lookups, with its identifier and tab index; under an
/// entity that takes part in tab-index lookups, no tab group stands between the two (a
/// nested tab group is left to be gathered as a group of its own).
pub proof fn law_gathered_entries_come_from_below(w: NavWorld, i: int)
    requires
        nav_world_wf(w),
        nav_tree_consistent(w),
        0 <= i < w.entities@.len(),
    ensures
        forall|k: int|
            0 <= k < gathered(w, i).len() ==> entry_below(
                w,
                #[trigger] gathered(w, i)[k],
                i,
                is_index_entity(w, i),
            ),
    decreases w.entities@.len() - i, 1int, 0int,
{
    let n = w.entities@[i].children@.len() as int;
    if is_index_entity(w, i) {
        lemma_children_entries_come_from_below(w, i, n, true);
        let own = own_entry(w, i);
        let rest = gathered_children(w, i, n, true);
        assert forall|k: int| 0 <= k < gathered(w, i).len() implies entry_below(
            w,
            #[trigger] gathered(w, i)[k],
            i,
            true,
        ) by {
            assert(gathered(w, i) == own + rest);
            if k < own.len() {
                assert(gathered(w, i)[k] == own[k]);
                assert(w.entities@[i].id == own[k].0);
            } else {
                assert(gathered(w, i)[k] == rest[k - own.len()]);
            }
        }
    } else if is_group_entity(w, i) && !is_modal_group(w, i) {
        lemma_children_entries_come_from_below(w, i, n, false);
        assert forall|k: int| 0 <= k < gathered(w, i).len() implies entry_below(
            w,
            #[trigger] gathered(w, i)[k],
            i,
            false,
        ) by {
            assert(gathered(w, i)[k] == gathered_children(w, i, n, false)[k]);
        }
    }
}

proof fn lemma_children_entries_come_from_below(w: NavWorld, i: int, k: int, skip_groups: bool)
    requires
        nav_world_wf(w),
        nav_tree_consistent(w),
        0 <= i < w.entities@.len(),
        0 <= k <= w.entities@[i].children@.len(),
    ensures
        forall|m: int|
            0 <= m < gathered_children(w, i, k, skip_groups).len() ==> entry_below(
                w,
                #[trigger] gathered_children(w, i, k, skip_groups)[m],
                i,
                skip_groups,
            ),
    decreases w.entities@.len() - i, 0int, k,
{
    if k > 0 {
        lemma_children_entries_come_from_below(w, i, k - 1, skip_groups);
        let c = w.entities@[i].children@[k - 1] as int;
        assert(i < c < w.entities@.len());
        assert(w.entities@[c].parent matches Some(p) && p == i);
        let front = gathered_children(w, i, k - 1, skip_groups);
        let back = if !(skip_groups && is_group_entity(w, c)) {
            gathered(w, c)
        } else {
            Seq::empty()
        };
        assert(gathered_children(w, i, k, skip_groups) == front + back);
        if !(skip_groups && is_group_entity(w, c)) {
            law_gathered_entries_come_from_below(w, c);
        }
        assert forall|m: int|
            0 <= m < gathered_children(w, i, k, skip_groups).len() implies entry_below(
            w,
            #[trigger] gathered_children(w, i, k, skip_groups)[m],
            i,
            skip_groups,
        ) by {
            if m < front.len() {
                assert(gathered_children(w, i, k, skip_groups)[m] == front[m]);
            } else {
                let e = back[m - front.len()];
                assert(gathered_children(w, i, k, skip_groups)[m] == e);
                assert(gathered(w, c)[m - front.len()] == e);
                if skip_groups && !is_index_entity(w, c) {
                    // Neither a tab-index entity nor a group with children: nothing gathered.
                    assert(gathered(w, c).len() == 0);
                }
                lemma_entry_below_parent(w, e, i, c, skip_groups);
            }
        }
    }
}

/// Entity `g` is reached from `x` by following parent links upward through UI nodes that
/// are not tab groups with children (`x` itself included, `g` excluded).
pub open spec fn node_path(w: NavWorld, x: int, g: int) -> bool
    decreases x,
{
    if x == g {
        true
    } else if 0 <= x < w.entities@.len() {
        w.entities@[x].node && !is_group_entity(w, x) && match w.entities@[x].parent {
            Some(p) => p < x && node_path(w, p as int, g),
            None => false,
        }
    } else {
        false
    }
}

/// Law: the tab group containing entity `i` is the nearest tab group with children at or
/// above `i`, reached through any number of UI nodes: it is `g` exactly when `g` is such a
/// group and only UI nodes that are not such groups stand between `i` and `g`.
pub proof fn law_enclosing_group_is_nearest(w: NavWorld, i: int, g: usize)
    requires
        nav_world_wf(w),
        0 <= i < w.entities@.len(),
    ensures
        (enclosing_group(w, i) == Some(g)) <==> (g < w.entities@.len() && is_group_entity(
            w,
            g as int,
        ) && node_path(w, i, g as int)),
        enclosing_group(w, i) matches Some(h) ==> h <= i,
    decreases i,
{
    assert(w.entities@.len() == w.entities.len());
    if is_group_entity(w, i) {
        assert(node_path(w, i, i));
    } else if w.entities@[i].node {
        match w.entities@[i].parent {
            Some(p) => {
                assert(p < i);
                law_enclosing_group_is_nearest(w, p as int, g);
            },
            None => {},
        }
    }
}

/// No two entities share an identifier.
pub open spec fn distinct_ids(w: NavWorld) -> bool {
    forall|a: int, b: int|
        0 <= a < b < w.entities@.len() ==> #[trigger] w.entities@[a].id != #[trigger] w.entities@[b].id
}

/// Law: when the focused entity is inside a modal tab group, at any depth below it,
/// sequential navigation moves the focus to an entity under that same group that takes
/// part in tab-index lookups and has a tab index `>= 0`: the focus never leaves the group.
pub proof fn law_modal_group_traps_focus(
    w: NavWorld,
    i: int,
    g: usize,
    action: NavAction,
)
    requires
        nav_world_wf(w),
        nav_tree_consistent(w),
        distinct_ids(w),
        0 <= i < w.entities@.len(),
        g < w.entities@.len(),
        is_group_entity(w, g as int),
        is_modal_group(w, g as int),
        node_path(w, i, g as int),
    ensures
        spec_navigate(w, Some(w.entities@[i].id), action) matches Some(t) ==> exists|x: int|
            0 <= x < w.entities@.len() && #[trigger] w.entities@[x].id == t && x != g
                && nav_self_or_ancestor(w, g as int, x) && is_index_entity(w, x)
                && (w.entities@[x].tab_index matches Some(ti) && ti >= 0),
{
    let f = w.entities@[i].id;
    let c = choose|c: int|
        0 <= c < w.entities@.len() && w.entities@[c].id == f && forall|j: int|
            0 <= j < c ==> #[trigger] w.entities@[j].id != f;
    assert(w.entities@[i].id == f);
    if c < i {
        assert(w.entities@[c].id != w.entities@[i].id);
    } else if c > i {
        assert(w.entities@[i].id != f);
    }
    assert(entity_position(w, f) == Some(i));
    law_enclosing_group_is_nearest(w, i, g);
    assert(focus_group(w, Some(f)) == Some(g));
    law_navigation_stays_among_candidates(w, Some(f), action);
    let n = w.entities@[g as int].children@.len() as int;
    let cands = gathered_children(w, g as int, n, false);
    assert(focus_candidates(w, Some(g)) == cands);
    match spec_navigate(w, Some(f), action) {
        Some(t) => {
            let k = choose|k: int| 0 <= k < cands.len() && #[trigger] cands[k].0 == t && cands[k].1 >= 0;
            lemma_children_entries_come_from_below(w, g as int, n, false);
            assert(entry_below(w, cands[k], g as int, false));
            let x = choose|x: int|
                0 <= x < w.entities@.len() && #[trigger] w.entities@[x].id == cands[k].0
                    && w.entities@[x].tab_index == Some(cands[k].1) && is_index_entity(w, x)
                    && nav_self_or_ancestor(w, g as int, x);
            assert(w.entities@[x].id == t);
        },
        None => {},
    }
}

/// Every parent link agrees with the child lists: an entity with a parent is one of that
/// parent's children.
pub open spec fn nav_children_listed(w: NavWorld) -> bool {
    forall|x: int|
        0 <= x < w.entities@.len() ==> match #[trigger] w.entities@[x].parent {
            Some(p) => exists|k: int|
                0 <= k < w.entities@[p as int].children@.len() && #[trigger] w.entities@[
                    p as int
                ].children@[k] == x,
            None => true,
        }
}

proof fn lemma_concat_contains(a: Seq<(u64, i32)>, b: Seq<(u64, i32)>, e: (u64, i32))
    requires
        a.contains(e) || b.contains(e),
    ensures
        (a + b).contains(e),
{
    if a.contains(e) {
        let m = choose|m: int| 0 <= m < a.len() && a[m] == e;
        assert((a + b)[m] == e);
    } else {
        let m = choose|m: int| 0 <= m < b.len() && b[m] == e;
        assert((a + b)[a.len() + m] == e);
    }
}

/// What gathering under the `j`-th child finds is part of what gathering under the first
/// `k > j` children finds, unless that child is skipped.
proof fn lemma_children_segment(
    w: NavWorld,
    i: int,
    k: int,
    skip_groups: bool,
    j: int,
    e: (u64, i32),
)
    requires
        nav_world_wf(w),
        0 <= i < w.entities@.len(),
        0 <= j < k <= w.entities@[i].children@.len(),
        !(skip_groups && is_group_entity(w, w.entities@[i].children@[j] as int)),
        gathered(w, w.entities@[i].children@[j] as int).contains(e),
    ensures
        gathered_children(w, i, k, skip_groups).contains(e),
    decreases k,
{
    let c = w.entities@[i].children@[k - 1] as int;
    assert(i < c < w.entities@.len());
    let front = gathered_children(w, i, k - 1, skip_groups);
    if j == k - 1 {
        lemma_concat_contains(front, gathered(w, c), e);
    } else {
        lemma_children_segment(w, i, k - 1, skip_groups, j, e);
        let back = if !(skip_groups && is_group_entity(w, c)) {
            gathered(w, c)
        } else {
            Seq::empty()
        };
        lemma_concat_contains(front, back, e);
    }
}

/// What gathering under `y` finds is found again under the children of each entity that
/// `y` reaches upward through tab-index entities.
proof fn lemma_gathered_climbs(w: NavWorld, y: int, a: int, e: (u64, i32))
    requires
        nav_world_wf(w),
        nav_children_listed(w),
        0 <= a < w.entities@.len(),
        y != a,
        index_path(w, y, a),
        gathered(w, y).contains(e),
    ensures
        gathered_children(
            w,
            a,
            w.entities@[a].children@.len() as int,
            is_index_entity(w, a),
        ).contains(e),
    decreases y,
{
    let p = w.entities@[y].parent.unwrap() as int;
    assert(0 <= p < y);
    assert(is_index_entity(w, y));
    let k = choose|k: int|
        0 <= k < w.entities@[p].children@.len() && #[trigger] w.entities@[p].children@[k] == y;
    let n = w.entities@[p].children@.len() as int;
    if p == a {
        lemma_children_segment(w, p, n, is_index_entity(w, p), k, e);
    } else {
        assert(index_path(w, p, a));
        assert(is_index_entity(w, p));
        lemma_children_segment(w, p, n, true, k, e);
        lemma_concat_contains(own_entry(w, p), gathered_children(w, p, n, true), e);
        assert(gathered(w, p) == own_entry(w, p) + gathered_children(w, p, n, true));
        lemma_gathered_climbs(w, p, a, e);
    }
}

/// Law: gathering misses nothing: an entity that takes part in tab-index lookups, with a
/// tab index `>= 0`, and that reaches entity `a` upward through such entities only, is
/// found by gathering under `a` (when `a` is such an entity itself, or a non-modal tab
/// group), and is among the focus candidates of `a` when `a` is a modal tab group.
pub proof fn law_gathering_is_complete(w: NavWorld, x: int, a: int)
    requires
        nav_world_wf(w),
        nav_children_listed(w),
        0 <= a < w.entities@.len(),
        0 <= x < w.entities@.len(),
        is_index_entity(w, x),
        index_path(w, x, a),
        w.entities@[x].tab_index matches Some(t) && t >= 0,
    ensures
        ({
            let e = (w.entities@[x].id, w.entities@[x].tab_index.unwrap());
            &&& is_index_entity(w, a) || (is_group_entity(w, a) && !is_modal_group(w, a))
                ==> gathered(w, a).contains(e)
            &&& is_group_entity(w, a) && is_modal_group(w, a) ==> focus_candidates(
                w,
                Some(a as usize),
            ).contains(e)
        }),
{
    let e = (w.entities@[x].id, w.entities@[x].tab_index.unwrap());
    let nx = w.entities@[x].children@.len() as int;
    assert(own_entry(w, x)[0] == e);
    lemma_concat_contains(own_entry(w, x), gathered_children(w, x, nx, true), e);
    assert(gathered(w, x) == own_entry(w, x) + gathered_children(w, x, nx, true));
    if x != a {
        let n = w.entities@[a].children@.len() as int;
        lemma_gathered_climbs(w, x, a, e);
        if is_index_entity(w, a) {
            lemma_concat_contains(own_entry(w, a), gathered_children(w, a, n, true), e);
        }
    }
}

/// No child list names the same entity twice.
pub open spec fn nav_children_unique(w: NavWorld) -> bool {
    forall|i: int, k1: int, k2: int|
        0 <= i < w.entities@.len() && 0 <= k1 < k2 < w.entities@[i].children@.len()
            ==> #[trigger] w.entities@[i].children@[k1] != #[trigger] w.entities@[i].children@[k2]
}

proof fn lemma_nav_ancestor_before(w: NavWorld, a: int, x: int)
    requires
        nav_world_wf(w),
        nav_self_or_ancestor(w, a, x),
    ensures
        a <= x,
    decreases x,
{
    if a != x {
        let p = w.entities@[x].parent.unwrap();
        lemma_nav_ancestor_before(w, a, p as int);
    }
}

/// Two children of one entity that are both at or above the same entity are the same.
proof fn lemma_sibling_ancestors(w: NavWorld, i: int, c1: int, c2: int, x: int)
    requires
        nav_world_wf(w),
        0 <= i < c1 < w.entities@.len(),
        0 <= i < c2 < w.entities@.len(),
        w.entities@[c1].parent == Some(i as usize),
        w.entities@[c2].parent == Some(i as usize),
        nav_self_or_ancestor(w, c1, x),
        nav_self_or_ancestor(w, c2, x),
    ensures
        c1 == c2,
    decreases x,
{
    assert(w.entities@.len() == w.entities.len());
    if x == c1 {
        if c2 != c1 {
            assert(nav_self_or_ancestor(w, c2, i));
            lemma_nav_ancestor_before(w, c2, i);
        }
    } else if x == c2 {
        assert(nav_self_or_ancestor(w, c1, i));
        lemma_nav_ancestor_before(w, c1, i);
    } else {
        let p = w.entities@[x].parent.unwrap();
        lemma_sibling_ancestors(w, i, c1, c2, p as int);
    }
}

proof fn lemma_concat_distinct(a: Seq<(u64, i32)>, b: Seq<(u64, i32)>)
    requires
        distinct_entities(a),
        distinct_entities(b),
        forall|p: int, q: int| 0 <= p < a.len() && 0 <= q < b.len() ==> #[trigger] a[p].0 != #[trigger] b[q].0,
    ensures
        distinct_entities(a + b),
{
    assert forall|p: int, q: int| 0 <= p < q < (a + b).len() implies #[trigger] (a + b)[p].0 != #[trigger] (a
        + b)[q].0 by {
        if q < a.len() {
            assert((a + b)[p] == a[p] && (a + b)[q] == a[q]);
        } else if p < a.len() {
            assert((a + b)[p] == a[p] && (a + b)[q] == b[q - a.len()]);
        } else {
            assert((a + b)[p] == b[p - a.len()] && (a + b)[q] == b[q - a.len()]);
        }
    }
}

/// Law: gathering under any entity finds each entity at most once: the entries have
/// pairwise different identifiers, when identifiers are unique and child lists agree with
/// parent links and name no child twice. (Across the non-modal groups, a group that is a
/// direct child of another group is gathered both inside that group and on its own.)
pub proof fn law_gathered_has_no_repeats(w: NavWorld, i: int)
    requires
        nav_world_wf(w),
        nav_tree_consistent(w),
        nav_children_unique(w),
        distinct_ids(w),
        0 <= i < w.entities@.len(),
    ensures
        distinct_entities(gathered(w, i)),
    decreases w.entities@.len() - i, 1int, 0int,
{
    let n = w.entities@[i].children@.len() as int;
    if is_index_entity(w, i) {
        lemma_children_no_repeats(w, i, n, true);
        let own = own_entry(w, i);
        let rest = gathered_children(w, i, n, true);
        assert forall|p: int, q: int| 0 <= p < own.len() && 0 <= q < rest.len() implies #[trigger] own[p].0
            != #[trigger] rest[q].0 by {
            let j = choose|j: int| 0 <= j < n && entry_below(w, rest[q], w.entities@[i].children@[j] as int, false);
            let c = w.entities@[i].children@[j] as int;
            let x = choose|x: int|
                0 <= x < w.entities@.len() && #[trigger] w.entities@[x].id == rest[q].0
                    && w.entities@[x].tab_index == Some(rest[q].1) && is_index_entity(w, x)
                    && nav_self_or_ancestor(w, c, x);
            lemma_nav_ancestor_before(w, c, x);
            assert(w.entities@[i].id != w.entities@[x].id);
        }
        lemma_concat_distinct(own, rest);
        assert(gathered(w, i) == own + rest);
    } else if is_group_entity(w, i) && !is_modal_group(w, i) {
        lemma_children_no_repeats(w, i, n, false);
    }
}

/// Gathering under the first `k` children of `i` finds each entity at most once, and each
/// entry it finds stands for an entity under one of those children.
proof fn lemma_children_no_repeats(w: NavWorld, i: int, k: int, skip_groups: bool)
    requires
        nav_world_wf(w),
        nav_tree_consistent(w),
        nav_children_unique(w),
        distinct_ids(w),
        0 <= i < w.entities@.len(),
        0 <= k <= w.entities@[i].children@.len(),
    ensures
        distinct_entities(gathered_children(w, i, k, skip_groups)),
        forall|m: int|
            0 <= m < gathered_children(w, i, k, skip_groups).len() ==> exists|j: int|
                0 <= j < k && entry_below(
                    w,
                    #[trigger] gathered_children(w, i, k, skip_groups)[m],
                    w.entities@[i].children@[j] as int,
                    false,
                ),
    decreases w.entities@.len() - i, 0int, k,
{
    if k > 0 {
        lemma_children_no_repeats(w, i, k - 1, skip_groups);
        let c = w.entities@[i].children@[k - 1] as int;
        assert(i < c < w.entities@.len());
        let front = gathered_children(w, i, k - 1, skip_groups);
        let back = if !(skip_groups && is_group_entity(w, c)) {
            gathered(w, c)
        } else {
            Seq::empty()
        };
        assert(gathered_children(w, i, k, skip_groups) == front + back);
        if !(skip_groups && is_group_entity(w, c)) {
            law_gathered_has_no_repeats(w, c);
            law_gathered_entries_come_from_below(w, c);
        }
        assert forall|q: int| 0 <= q < back.len() implies entry_below(w, #[trigger] back[q], c, false) by {
            assert(gathered(w, c)[q] == back[q]);
            assert(entry_below(w, gathered(w, c)[q], c, is_index_entity(w, c)));
            let x = choose|x: int|
                0 <= x < w.entities@.len() && #[trigger] w.entities@[x].id == back[q].0
                    && w.entities@[x].tab_index == Some(back[q].1) && is_index_entity(w, x)
                    && nav_self_or_ancestor(w, c, x) && (is_index_entity(w, c) ==> index_path(
                    w,
                    x,
                    c,
                ));
            assert(w.entities@[x].id == back[q].0);
        }
        assert forall|p: int, q: int| 0 <= p < front.len() && 0 <= q < back.len() implies #[trigger] front[p].0
            != #[trigger] back[q].0 by {
            let j = choose|j: int| 0 <= j < k - 1 && entry_below(w, front[p], w.entities@[i].children@[j] as int, false);
            let cj = w.entities@[i].children@[j] as int;
            assert(i < cj < w.entities@.len());
            let x1 = choose|x: int|
                0 <= x < w.entities@.len() && #[trigger] w.entities@[x].id == front[p].0
                    && w.entities@[x].tab_index == Some(front[p].1) && is_index_entity(w, x)
                    && nav_self_or_ancestor(w, cj, x);
            assert(entry_below(w, back[q], c, false));
            let x2 = choose|x: int|
                0 <= x < w.entities@.len() && #[trigger] w.entities@[x].id == back[q].0
                    && w.entities@[x].tab_index == Some(back[q].1) && is_index_entity(w, x)
                    && nav_self_or_ancestor(w, c, x);
            if front[p].0 == back[q].0 {
                if x1 < x2 {
                    assert(w.entities@[x1].id != w.entities@[x2].id);
                } else if x2 < x1 {
                    assert(w.entities@[x2].id != w.entities@[x1].id);
                }
                lemma_sibling_ancestors(w, i, cj, c, x1);
                assert(w.entities@[i].children@[j] != w.entities@[i].children@[k - 1]);
            }
        }
        lemma_concat_distinct(front, back);
        let all = gathered_children(w, i, k, skip_groups);
        assert forall|m: int| 0 <= m < all.len() implies exists|j: int|
            0 <= j < k && entry_below(w, #[trigger] all[m], w.entities@[i].children@[j] as int, false) by {
            if m < front.len() {
                assert(all[m] == front[m]);
                let j = choose|j: int| 0 <= j < k - 1 && entry_below(w, front[m], w.entities@[i].children@[j] as int, false);
                assert(entry_below(w, all[m], w.entities@[i].children@[j] as int, false));
            } else {
                assert(all[m] == back[m - front.len()]);
                assert(entry_below(w, all[m], w.entities@[i].children@[k - 1] as int, false));
            }
        }
    }
}

/// An entry stands for an entity under at most one child of a given entity.
proof fn lemma_entry_under_one_child(w: NavWorld, i: int, a: int, b: int, e: (u64, i32))
    requires
        nav_world_wf(w),
        nav_tree_consistent(w),
        nav_children_unique(w),
        distinct_ids(w),
        0 <= i < w.entities@.len(),
        0 <= a < w.entities@[i].children@.len(),
        0 <= b < w.entities@[i].children@.len(),
        entry_below(w, e, w.entities@[i].children@[a] as int, false),
        entry_below(w, e, w.entities@[i].children@[b] as int, false),
    ensures
        a == b,
{
    let ca = w.entities@[i].children@[a] as int;
    let cb = w.entities@[i].children@[b] as int;
    assert(i < ca < w.entities@.len() && i < cb < w.entities@.len());
    let x1 = choose|x: int|
        0 <= x < w.entities@.len() && #[trigger] w.entities@[x].id == e.0
            && w.entities@[x].tab_index == Some(e.1) && is_index_entity(w, x)
            && nav_self_or_ancestor(w, ca, x);
    let x2 = choose|x: int|
        0 <= x < w.entities@.len() && #[trigger] w.entities@[x].id == e.0
            && w.entities@[x].tab_index == Some(e.1) && is_index_entity(w, x)
            && nav_self_or_ancestor(w, cb, x);
    if x1 < x2 {
        assert(w.entities@[x1].id != w.entities@[x2].id);
    } else if x2 < x1 {
        assert(w.entities@[x2].id != w.entities@[x1].id);
    }
    lemma_sibling_ancestors(w, i, ca, cb, x1);
    if a < b {
        assert(w.entities@[i].children@[a] != w.entities@[i].children@[b]);
    } else if b < a {
        assert(w.entities@[i].children@[b] != w.entities@[i].children@[a]);
    }
}

/// Entries gathered under the first `k` children of `i` come child by child: an entry under
/// an earlier child stands before an entry under a later one.
proof fn lemma_children_in_order(w: NavWorld, i: int, k: int, skip_groups: bool)
    requires
        nav_world_wf(w),
        nav_tree_consistent(w),
        nav_children_unique(w),
        distinct_ids(w),
        0 <= i < w.entities@.len(),
        0 <= k <= w.entities@[i].children@.len(),
    ensures
        forall|m1: int, m2: int, j1: int, j2: int|
            0 <= m1 < m2 < gathered_children(w, i, k, skip_groups).len() && 0 <= j1
                < w.entities@[i].children@.len() && 0 <= j2 < w.entities@[i].children@.len()
                && entry_below(
                w,
                #[trigger] gathered_children(w, i, k, skip_groups)[m1],
                #[trigger] w.entities@[i].children@[j1] as int,
                false,
            ) && entry_below(
                w,
                #[trigger] gathered_children(w, i, k, skip_groups)[m2],
                #[trigger] w.entities@[i].children@[j2] as int,
                false,
            ) ==> j1 <= j2,
    decreases k,
{
    if k > 0 {
        lemma_children_in_order(w, i, k - 1, skip_groups);
        lemma_children_no_repeats(w, i, k - 1, skip_groups);
        let c = w.entities@[i].children@[k - 1] as int;
        assert(i < c < w.entities@.len());
        let front = gathered_children(w, i, k - 1, skip_groups);
        let back = if !(skip_groups && is_group_entity(w, c)) {
            gathered(w, c)
        } else {
            Seq::empty()
        };
        let all = gathered_children(w, i, k, skip_groups);
        assert(all == front + back);
        if !(skip_groups && is_group_entity(w, c)) {
            law_gathered_entries_come_from_below(w, c);
        }
        assert forall|m1: int, m2: int, j1: int, j2: int|
            0 <= m1 < m2 < all.len() && 0 <= j1 < w.entities@[i].children@.len() && 0 <= j2
                < w.entities@[i].children@.len() && entry_below(
                w,
                #[trigger] all[m1],
                #[trigger] w.entities@[i].children@[j1] as int,
                false,
            ) && entry_below(
                w,
                #[trigger] all[m2],
                #[trigger] w.entities@[i].children@[j2] as int,
                false,
            ) implies j1 <= j2 by {
            if m2 >= front.len() {
                let q = m2 - front.len();
                assert(all[m2] == back[q] && gathered(w, c)[q] == back[q]);
                assert(entry_below(w, gathered(w, c)[q], c, is_index_entity(w, c)));
                let x = choose|x: int|
                    0 <= x < w.entities@.len() && #[trigger] w.entities@[x].id == back[q].0
                        && w.entities@[x].tab_index == Some(back[q].1) && is_index_entity(w, x)
                        && nav_self_or_ancestor(w, c, x) && (is_index_entity(w, c) ==> index_path(
                        w,
                        x,
                        c,
                    ));
                assert(w.entities@[x].id == all[m2].0);
                assert(entry_below(w, all[m2], w.entities@[i].children@[k - 1] as int, false));
                lemma_entry_under_one_child(w, i, j2, k - 1, all[m2]);
                if m1 < front.len() {
                    assert(all[m1] == front[m1]);
                    let j = choose|j: int|
                        0 <= j < k - 1 && entry_below(
                            w,
                            front[m1],
                            w.entities@[i].children@[j] as int,
                            false,
                        );
                    lemma_entry_under_one_child(w, i, j1, j, all[m1]);
                } else {
                    let q1 = m1 - front.len();
                    assert(all[m1] == back[q1] && gathered(w, c)[q1] == back[q1]);
                    assert(entry_below(w, gathered(w, c)[q1], c, is_index_entity(w, c)));
                    let x1 = choose|x: int|
                        0 <= x < w.entities@.len() && #[trigger] w.entities@[x].id == back[q1].0
                            && w.entities@[x].tab_index == Some(back[q1].1) && is_index_entity(
                            w,
                            x,
                        ) && nav_self_or_ancestor(w, c, x) && (is_index_entity(w, c)
                            ==> index_path(w, x, c));
                    assert(w.entities@[x1].id == all[m1].0);
                    assert(entry_below(w, all[m1], w.entities@[i].children@[k - 1] as int, false));
                    lemma_entry_under_one_child(w, i, j1, k - 1, all[m1]);
                }
            } else {
                assert(all[m1] == front[m1] && all[m2] == front[m2]);
            }
        }
    }
}

/// Law: gathering under an entity finds entities in tree order: the entity's own entry
/// first, then the entries under its children, child by child in the order of its child
/// list.
pub proof fn law_gathered_in_tree_order(w: NavWorld, i: int)
    requires
        nav_world_wf(w),
        nav_tree_consistent(w),
        nav_children_unique(w),
        distinct_ids(w),
        0 <= i < w.entities@.len(),
    ensures
        is_index_entity(w, i) && (w.entities@[i].tab_index matches Some(t) && t >= 0)
            ==> gathered(w, i)[0] == (w.entities@[i].id, w.entities@[i].tab_index.unwrap()),
        forall|m1: int, m2: int, j1: int, j2: int|
            0 <= m1 < m2 < gathered(w, i).len() && 0 <= j1 < w.entities@[i].children@.len() && 0
                <= j2 < w.entities@[i].children@.len() && entry_below(
                w,
                #[trigger] gathered(w, i)[m1],
                #[trigger] w.entities@[i].children@[j1] as int,
                false,
            ) && entry_below(
                w,
                #[trigger] gathered(w, i)[m2],
                #[trigger] w.entities@[i].children@[j2] as int,
                false,
            ) ==> j1 <= j2,
{
    let n = w.entities@[i].children@.len() as int;
    let g = gathered(w, i);
    if is_index_entity(w, i) {
        lemma_children_in_order(w, i, n, true);
        let own = own_entry(w, i);
        let rest = gathered_children(w, i, n, true);
        assert(g == own + rest);
        assert forall|m1: int, m2: int, j1: int, j2: int|
            0 <= m1 < m2 < g.len() && 0 <= j1 < n && 0 <= j2 < n && entry_below(
                w,
                #[trigger] g[m1],
                #[trigger] w.entities@[i].children@[j1] as int,
                false,
            ) && entry_below(
                w,
                #[trigger] g[m2],
                #[trigger] w.entities@[i].children@[j2] as int,
                false,
            ) implies j1 <= j2 by {
            if m1 < own.len() {
                // The entity's own entry stands under none of its children.
                let c = w.entities@[i].children@[j1] as int;
                assert(i < c < w.entities@.len());
                assert(g[m1] == own[m1]);
                let x = choose|x: int|
                    0 <= x < w.entities@.len() && #[trigger] w.entities@[x].id == g[m1].0
                        && w.entities@[x].tab_index == Some(g[m1].1) && is_index_entity(w, x)
                        && nav_self_or_ancestor(w, c, x);
                lemma_nav_ancestor_before(w, c, x);
                assert(w.entities@[i].id != w.entities@[x].id);
            } else {
                assert(g[m1] == rest[m1 - own.len()] && g[m2] == rest[m2 - own.len()]);
            }
        }
    } else if is_group_entity(w, i) && !is_modal_group(w, i) {
        lemma_children_in_order(w, i, n, false);
        assert(g == gathered_children(w, i, n, false));
    }
}

/// The entity is a tab group that is not modal.
pub open spec fn is_nonmodal_group(w: NavWorld, g: usize) -> bool {
    match w.entities@[g as int].group {
        Some(tg) => !tg.modal,
        None => false,
    }
}

/// The order of the entity's tab group (0 when it is none).
pub open spec fn group_order(w: NavWorld, g: usize) -> i32 {
    match w.entities@[g as int].group {
        Some(tg) => tg.order,
        None => 0,
    }
}

/// Law: the groups tabbing cycles through are exactly the non-modal tab groups among
/// `gs`, in the order of `gs`, each paired with its own order.
pub proof fn law_nonmodal_groups_filters(w: NavWorld, gs: Seq<usize>)
    ensures
        nonmodal_groups(w, gs) == gs.filter(|g: usize| is_nonmodal_group(w, g)).map_values(
            |g: usize| (g, group_order(w, g)),
        ),
    decreases gs.len(),
{
    reveal(Seq::filter);
    let pred = |g: usize| is_nonmodal_group(w, g);
    let f = |g: usize| (g, group_order(w, g));
    if gs.len() > 0 {
        law_nonmodal_groups_filters(w, gs.drop_last());
        let sub = gs.drop_last().filter(pred);
        if pred(gs.last()) {
            assert(gs.filter(pred) == sub.push(gs.last()));
            assert(sub.push(gs.last()).map_values(f) =~= sub.map_values(f) + seq![f(gs.last())]);
        } else {
            assert(gs.filter(pred) == sub);
        }
        assert(nonmodal_groups(w, gs) =~= gs.filter(pred).map_values(f));
    } else {
        assert(gs.filter(pred) =~= Seq::<usize>::empty());
        assert(nonmodal_groups(w, gs) =~= gs.filter(pred).map_values(f));
    }
}

/// Law: the candidates of several groups are those of each group, one group after the
/// other: gathering over `a` then `b` is gathering over `a` followed by gathering over
/// `b`, and gathering over one group is gathering under it.
pub proof fn law_gathered_groups_concatenates(
    w: NavWorld,
    a: Seq<(usize, i32)>,
    b: Seq<(usize, i32)>,
    g: (usize, i32),
)
    ensures
        gathered_groups(w, a + b) == gathered_groups(w, a) + gathered_groups(w, b),
        gathered_groups(w, seq![g]) == gathered(w, g.0 as int),
    decreases b.len(),
{
    assert(seq![g].drop_last() =~= Seq::<(usize, i32)>::empty());
    assert(gathered_groups(w, seq![g]) =~= gathered_groups(w, Seq::empty()) + gathered(
        w,
        g.0 as int,
    ));
    if b.len() == 0 {
        assert(a + b =~= a);
        assert(gathered_groups(w, a) + gathered_groups(w, b) =~= gathered_groups(w, a));
    } else {
        law_gathered_groups_concatenates(w, a, b.drop_last(), g);
        assert((a + b).drop_last() =~= a + b.drop_last());
        assert((a + b).last() == b.last());
        assert(gathered_groups(w, a + b) =~= gathered_groups(w, a) + gathered_groups(w, b));
    }
}

/// Law: navigating in an empty focus order finds nothing; otherwise `First` and `Last`
/// move to the first and last entries whatever the focus, and from a focus that is not in
/// the order `Next` moves to the first entry and `Previous` to the last.
pub proof fn law_nav_target_ends(s: Seq<(u64, i32)>, focus: Option<u64>)
    ensures
        s.len() == 0 ==> nav_target(s, focus, NavAction::Next) is None && nav_target(
            s,
            focus,
            NavAction::Previous,
        ) is None && nav_target(s, focus, NavAction::First) is None && nav_target(
            s,
            focus,
            NavAction::Last,
        ) is None,
        s.len() > 0 ==> nav_target(s, focus, NavAction::First) == Some(s[0].0),
        s.len() > 0 ==> nav_target(s, focus, NavAction::Last) == Some(s[s.len() - 1].0),
        s.len() > 0 && (forall|k: int| 0 <= k < s.len() ==> Some(#[trigger] s[k].0) != focus)
            ==> nav_target(s, focus, NavAction::Next) == Some(s[0].0) && nav_target(
            s,
            focus,
            NavAction::Previous,
        ) == Some(s[s.len() - 1].0),
{
}

/// Law: without tab groups nothing is focusable: navigation finds no entity, whatever the
/// focus and the action.
pub proof fn law_no_groups_no_navigation(w: NavWorld, focus: Option<u64>, action: NavAction)
    requires
        w.groups@.len() == 0,
    ensures
        spec_navigate(w, focus, action) is None,
{
}

/// No non-modal tab group with children has a child that is itself a tab group with
/// children.
pub open spec fn nav_groups_not_nested(w: NavWorld) -> bool {
    forall|i: int, k: int|
        0 <= i < w.entities@.len() && 0 <= k < w.entities@[i].children@.len() && is_group_entity(
            w,
            i,
        ) && !is_modal_group(w, i) ==> !is_group_entity(
            w,
            #[trigger] w.entities@[i].children@[k] as int,
        )
}

/// Skipping tab groups changes nothing when none of the first `k` children is one.
proof fn lemma_skip_irrelevant(w: NavWorld, i: int, k: int)
    requires
        0 <= i < w.entities@.len(),
        0 <= k <= w.entities@[i].children@.len(),
        forall|t: int| 0 <= t < k ==> !is_group_entity(w, #[trigger] w.entities@[i].children@[t] as int),
    ensures
        gathered_children(w, i, k, false) == gathered_children(w, i, k, true),
    decreases k,
{
    if k > 0 {
        lemma_skip_irrelevant(w, i, k - 1);
        assert(!is_group_entity(w, w.entities@[i].children@[k - 1] as int));
    }
}

/// Under the non-nesting rule, every entry gathered under a non-modal group stands for an
/// entity that reaches the group through tab-index entities only.
proof fn lemma_group_entries_via_index(w: NavWorld, g: int)
    requires
        nav_world_wf(w),
        nav_tree_consistent(w),
        nav_groups_not_nested(w),
        0 <= g < w.entities@.len(),
        is_group_entity(w, g),
        !is_modal_group(w, g),
    ensures
        forall|m: int| 0 <= m < gathered(w, g).len() ==> entry_below(w, #[trigger] gathered(w, g)[m], g, true),
{
    let n = w.entities@[g].children@.len() as int;
    lemma_skip_irrelevant(w, g, n);
    lemma_children_entries_come_from_below(w, g, n, true);
    assert(gathered(w, g) == gathered_children(w, g, n, true));
}

proof fn lemma_index_path_ancestor(w: NavWorld, x: int, a: int)
    requires
        index_path(w, x, a),
    ensures
        nav_self_or_ancestor(w, a, x),
    decreases x,
{
    if x != a {
        let p = w.entities@[x].parent.unwrap();
        lemma_index_path_ancestor(w, p as int, a);
    }
}

proof fn lemma_ancestors_comparable(w: NavWorld, a: int, b: int, x: int)
    requires
        nav_self_or_ancestor(w, a, x),
        nav_self_or_ancestor(w, b, x),
    ensures
        nav_self_or_ancestor(w, a, b) || nav_self_or_ancestor(w, b, a),
    decreases x,
{
    if x != a && x != b {
        let p = w.entities@[x].parent.unwrap();
        lemma_ancestors_comparable(w, a, b, p as int);
    }
}

/// Every entity strictly below `a` on an index path from `x` is a tab-index entity.
proof fn lemma_index_path_passes(w: NavWorld, x: int, a: int, b: int)
    requires
        nav_world_wf(w),
        index_path(w, x, a),
        nav_self_or_ancestor(w, b, x),
        nav_self_or_ancestor(w, a, b),
        b != a,
    ensures
        is_index_entity(w, b),
    decreases x,
{
    if x == a {
        lemma_nav_ancestor_before(w, b, x);
        lemma_nav_ancestor_before(w, a, b);
    } else if x != b {
        let p = w.entities@[x].parent.unwrap();
        lemma_index_path_passes(w, p as int, a, b);
    }
}

/// The groups tabbing cycles through have pairwise different positions when `gs` has,
/// and each is a non-modal tab group from `gs`.
proof fn lemma_nonmodal_groups_distinct(w: NavWorld, gs: Seq<usize>)
    requires
        forall|p: int, q: int| 0 <= p < q < gs.len() ==> #[trigger] gs[p] != #[trigger] gs[q],
    ensures
        distinct_firsts(nonmodal_groups(w, gs)),
        forall|t: int|
            0 <= t < nonmodal_groups(w, gs).len() ==> gs.contains(
                #[trigger] nonmodal_groups(w, gs)[t].0,
            ) && is_nonmodal_group(w, nonmodal_groups(w, gs)[t].0),
    decreases gs.len(),
{
    if gs.len() > 0 {
        let d = gs.drop_last();
        let g = gs.last();
        assert forall|p: int, q: int| 0 <= p < q < d.len() implies #[trigger] d[p] != #[trigger] d[q] by {
            assert(d[p] == gs[p] && d[q] == gs[q]);
        }
        lemma_nonmodal_groups_distinct(w, d);
        let front = nonmodal_groups(w, d);
        let back = match w.entities@[g as int].group {
            Some(tg) => if !tg.modal {
                seq![(g, tg.order)]
            } else {
                Seq::empty()
            },
            None => Seq::empty(),
        };
        let all = nonmodal_groups(w, gs);
        assert(all == front + back);
        assert forall|t: int| 0 <= t < front.len() implies #[trigger] front[t].0 != g by {
            let u = choose|u: int| 0 <= u < d.len() && d[u] == front[t].0;
            assert(gs[u] == d[u] && gs[gs.len() - 1] == g);
        }
        assert forall|p: int, q: int| 0 <= p < q < all.len() implies #[trigger] all[p].0
            != #[trigger] all[q].0 by {
            if q < front.len() {
                assert(all[p] == front[p] && all[q] == front[q]);
            } else {
                assert(all[q] == back[q - front.len()]);
                assert(all[p] == front[p]);
            }
        }
        assert forall|t: int| 0 <= t < all.len() implies gs.contains(#[trigger] all[t].0)
            && is_nonmodal_group(w, all[t].0) by {
            if t < front.len() {
                assert(all[t] == front[t]);
                let u = choose|u: int| 0 <= u < d.len() && d[u] == front[t].0;
                assert(gs[u] == d[u]);
            } else {
                assert(all[t] == back[t - front.len()]);
                assert(gs[gs.len() - 1] == g);
            }
        }
    }
}

/// Gathering over groups with pairwise different positions, none nested directly in a
/// non-modal group, finds each entity at most once; each entry reaches one of the groups
/// through tab-index entities only.
proof fn lemma_groups_no_repeats(w: NavWorld, gs: Seq<(usize, i32)>)
    requires
        nav_world_wf(w),
        nav_tree_consistent(w),
        nav_children_unique(w),
        nav_groups_not_nested(w),
        distinct_ids(w),
        distinct_firsts(gs),
        forall|t: int|
            0 <= t < gs.len() ==> #[trigger] gs[t].0 < w.entities@.len() && is_nonmodal_group(
                w,
                gs[t].0,
            ),
    ensures
        distinct_entities(gathered_groups(w, gs)),
        forall|m: int|
            0 <= m < gathered_groups(w, gs).len() ==> exists|t: int|
                0 <= t < gs.len() && entry_below(
                    w,
                    #[trigger] gathered_groups(w, gs)[m],
                    gs[t].0 as int,
                    true,
                ),
    decreases gs.len(),
{
    if gs.len() > 0 {
        let d = gs.drop_last();
        let b = gs.last().0 as int;
        assert(gs[gs.len() - 1].0 < w.entities@.len());
        assert forall|p: int, q: int| 0 <= p < q < d.len() implies #[trigger] d[p].0
            != #[trigger] d[q].0 by {
            assert(d[p] == gs[p] && d[q] == gs[q]);
        }
        assert forall|t: int| 0 <= t < d.len() implies #[trigger] d[t].0 < w.entities@.len()
            && is_nonmodal_group(w, d[t].0) by {
            assert(d[t] == gs[t]);
        }
        lemma_groups_no_repeats(w, d);
        let front = gathered_groups(w, d);
        let back = gathered(w, b);
        let all = gathered_groups(w, gs);
        assert(all == front + back);
        assert(!is_index_entity(w, b));
        if is_group_entity(w, b) {
            law_gathered_has_no_repeats(w, b);
            lemma_group_entries_via_index(w, b);
        } else {
            assert(back.len() == 0);
        }
        assert forall|p: int, q: int| 0 <= p < front.len() && 0 <= q < back.len() implies #[trigger] front[p].0
            != #[trigger] back[q].0 by {
            let t = choose|t: int| 0 <= t < d.len() && entry_below(w, front[p], d[t].0 as int, true);
            let a = d[t].0 as int;
            assert(d[t] == gs[t]);
            assert(a != b);
            assert(!is_index_entity(w, a));
            let x1 = choose|x: int|
                0 <= x < w.entities@.len() && #[trigger] w.entities@[x].id == front[p].0
                    && w.entities@[x].tab_index == Some(front[p].1) && is_index_entity(w, x)
                    && nav_self_or_ancestor(w, a, x) && index_path(w, x, a);
            assert(entry_below(w, back[q], b, true));
            let x2 = choose|x: int|
                0 <= x < w.entities@.len() && #[trigger] w.entities@[x].id == back[q].0
                    && w.entities@[x].tab_index == Some(back[q].1) && is_index_entity(w, x)
                    && nav_self_or_ancestor(w, b, x) && index_path(w, x, b);
            if front[p].0 == back[q].0 {
                if x1 < x2 {
                    assert(w.entities@[x1].id != w.entities@[x2].id);
                } else if x2 < x1 {
                    assert(w.entities@[x2].id != w.entities@[x1].id);
                }
                lemma_ancestors_comparable(w, a, b, x1);
                if nav_self_or_ancestor(w, a, b) {
                    lemma_index_path_passes(w, x1, a, b);
                } else {
                    lemma_index_path_passes(w, x1, b, a);
                }
            }
        }
        lemma_concat_distinct(front, back);
        assert forall|m: int| 0 <= m < all.len() implies exists|t: int|
            0 <= t < gs.len() && entry_below(w, #[trigger] all[m], gs[t].0 as int, true) by {
            if m < front.len() {
                assert(all[m] == front[m]);
                let t = choose|t: int| 0 <= t < d.len() && entry_below(w, front[m], d[t].0 as int, true);
                assert(d[t] == gs[t]);
                assert(entry_below(w, all[m], gs[t].0 as int, true));
            } else {
                assert(all[m] == back[m - front.len()]);
                assert(entry_below(w, all[m], gs[gs.len() - 1].0 as int, true));
            }
        }
    }
}

/// Law: navigation never sees an entity twice among its candidates (so tabbing cannot get
/// stuck on a repeated entity), when identifiers are unique, child lists agree with parent
/// links and name no child twice, the host enumerates each tab group once, and no
/// non-modal tab group holds a tab group directly among its children. (A tab group nested
/// below a node is gathered as a group of its own only.)
pub proof fn law_candidates_have_no_repeats(w: NavWorld, tabgroup: Option<usize>)
    requires
        nav_world_wf(w),
        nav_tree_consistent(w),
        nav_children_unique(w),
        nav_groups_not_nested(w),
        distinct_ids(w),
        forall|p: int, q: int|
            0 <= p < q < w.groups@.len() ==> #[trigger] w.groups@[p] != #[trigger] w.groups@[q],
        tabgroup matches Some(g) ==> g < w.entities@.len(),
    ensures
        distinct_entities(focus_candidates(w, tabgroup)),
{
    match tabgroup {
        Some(g) if is_modal_group(w, g as int) => {
            lemma_children_no_repeats(w, g as int, w.entities@[g as int].children@.len() as int, false);
        },
        _ => {
            let ng = nonmodal_groups(w, w.groups@);
            lemma_nonmodal_groups_distinct(w, w.groups@);
            lemma_sorted_distinct_firsts(ng);
            lemma_sorted_entries_from_input(ng);
            let sorted = sorted_by_key(ng);
            assert forall|t: int| 0 <= t < sorted.len() implies #[trigger] sorted[t].0
                < w.entities@.len() && is_nonmodal_group(w, sorted[t].0) by {
                let u = choose|u: int| 0 <= u < ng.len() && ng[u] == sorted[t];
                assert(w.groups@.contains(ng[u].0));
                let v = choose|v: int| 0 <= v < w.groups@.len() && w.groups@[v] == ng[u].0;
            }
            lemma_groups_no_repeats(w, sorted);
        },
    }
}

} // verus!
