//! Decisions of the reactive effects: conditional children, switch cases, conditional
//! components, dependency-tracked mutations, memoized values and list refreshes.
use vstd::prelude::*;
use vstd::std_specs::cmp::PartialEqSpec;
use vstd::std_specs::iter::IteratorSpec;

verus! {

// ---------------------------------------------------------------------------------------
// Conditional children (`cond`).
// ---------------------------------------------------------------------------------------

/// State of a conditional node: the last branch built, and whether nothing was built yet.
#[derive(Clone, Copy, PartialEq, Eq, Debug)]
pub struct CondState {
    pub state: bool,
    pub first: bool,
}

/// One step of a conditional node. `test` is the predicate's result (`None` when the
/// predicate could not run). Returns the new state, and the branch to build when the
/// children must be rebuilt.
pub open spec fn cond_step(s: CondState, test: Option<bool>) -> (CondState, Option<bool>) {
    match test {
        None => (s, None),
        Some(t) => if s.state != t || s.first {
            (CondState { state: t, first: false }, Some(t))
        } else {
            (s, None)
        },
    }
}

impl CondState {
    /// A conditional node that has not built anything yet.
    pub fn new() -> (r: Self)
        ensures
            r == (CondState { state: false, first: true }),
    {
        CondState { state: false, first: true }
    }

    /// Runs one update with the predicate's result; returns `Some(branch)` when the old
    /// children are to be despawned and `branch` built.
    pub fn update(&mut self, test: Option<bool>) -> (rebuild: Option<bool>)
        ensures
            (*final(self), rebuild) == cond_step(*old(self), test),
    {
        match test {
            None => None,
            Some(t) => {
                if self.state != t || self.first {
                    self.first = false;
                    self.state = t;
                    Some(t)
                } else {
                    None
                }
            },
        }
    }
}

/// Law: the first successful update always builds the branch the predicate chose.
pub proof fn law_cond_first_update_builds(t: bool)
    ensures
        cond_step(CondState { state: false, first: true }, Some(t)).1 == Some(t),
{
}

/// Law: once a branch is built, the same predicate result again leaves the children alone,
/// and a different result rebuilds with the other branch.
pub proof fn law_cond_rebuilds_only_on_change(s: CondState, t: bool, u: bool)
    ensures
        ({
            let s1 = cond_step(s, Some(t)).0;
            &&& s1.state == t
            &&& cond_step(s1, Some(u)).1 == (if u == t { None } else { Some(u) })
        }),
{
}

/// Law: from any state, a predicate that could not run changes nothing; one that ran
/// records its result and rebuilds, with the branch it chose, exactly when nothing was
/// built yet or the result differs from the branch built last.
pub proof fn law_cond_step_from_any_state(s: CondState, test: Option<bool>)
    ensures
        test is None ==> cond_step(s, test) == (s, None::<bool>),
        test matches Some(t) ==> cond_step(s, test).0 == (CondState { state: t, first: false }),
        test matches Some(t) ==> cond_step(s, test).1 == if s.first || s.state != t {
            Some(t)
        } else {
            None
        },
{
}

// ---------------------------------------------------------------------------------------
// Switch cases (`switch`).
// ---------------------------------------------------------------------------------------

/// Index of the first case value equal to `value`, or `usize::MAX` when none is.
pub open spec fn first_case<P: PartialEq>(values: Seq<P>, value: P) -> int {
    if exists|i: int| 0 <= i < values.len() && #[trigger] values[i].eq_spec(&value) {
        choose|i: int|
            0 <= i < values.len() && values[i].eq_spec(&value) && forall|j: int|
                0 <= j < i ==> !#[trigger] values[j].eq_spec(&value)
    } else {
        usize::MAX as int
    }
}

/// Finds the index of the first case whose value equals `value`; `usize::MAX` when no case
/// matches.
pub fn find_case<P: PartialEq>(values: &Vec<P>, value: &P) -> (r: usize)
    requires
        values@.len() < usize::MAX - 1,
    ensures
        r == usize::MAX || r < values@.len(),
        P::obeys_eq_spec() ==> r == first_case(values@, *value),
{
    let mut i: usize = 0;
    while i < values.len()
        invariant
            i <= values@.len() < usize::MAX - 1,
            P::obeys_eq_spec() ==> forall|j: int| 0 <= j < i ==> !#[trigger] values@[j].eq_spec(value),
        decreases values@.len() - i,
    {
        if values[i] == *value {
            proof {
                if P::obeys_eq_spec() {
                    let w = i as int;
                    assert(values@[w].eq_spec(value));
                    let c = choose|c: int|
                        0 <= c < values@.len() && values@[c].eq_spec(value) && forall|j: int|
                            0 <= j < c ==> !#[trigger] values@[j].eq_spec(value);
                    if c < w {
                    } else if c > w {
                        assert(!values@[w].eq_spec(value));
                    }
                }
            }
            return i;
        }
        i = i + 1;
    }
    usize::MAX
}

/// What a switch node does to its children after an update.
#[derive(Clone, Copy, PartialEq, Eq, Debug)]
pub enum SwitchAction {
    /// The selected case did not change: leave the children alone.
    Unchanged,
    /// Despawn the children and build the case at this index.
    ShowCase(usize),
    /// Despawn the children and build the fallback.
    ShowFallback,
    /// Despawn the children; there is no fallback to build.
    ShowNothing,
}

/// The case index a switch node has built; starts at a value no case index can take.
#[derive(Clone, Copy, PartialEq, Eq, Debug)]
pub struct SwitchState {
    pub switch_index: usize,
}

/// One step of a switch node, given the index of the matching case (`usize::MAX` for none).
pub open spec fn switch_step(
    s: SwitchState,
    index: usize,
    num_cases: usize,
    has_fallback: bool,
) -> (SwitchState, SwitchAction) {
    if s.switch_index == index {
        (s, SwitchAction::Unchanged)
    } else if index < num_cases {
        (SwitchState { switch_index: index }, SwitchAction::ShowCase(index))
    } else if has_fallback {
        (SwitchState { switch_index: index }, SwitchAction::ShowFallback)
    } else {
        (SwitchState { switch_index: index }, SwitchAction::ShowNothing)
    }
}

impl SwitchState {
    /// A switch node that has selected nothing yet.
    pub fn new() -> (r: Self)
        ensures
            r.switch_index == usize::MAX - 1,
    {
        SwitchState { switch_index: usize::MAX - 1 }
    }

    /// Records the newly selected case index and says what to do with the children.
    pub fn update(&mut self, index: usize, num_cases: usize, has_fallback: bool) -> (action: SwitchAction)
        ensures
            (*final(self), action) == switch_step(*old(self), index, num_cases, has_fallback),
    {
        if self.switch_index == index {
            SwitchAction::Unchanged
        } else {
            self.switch_index = index;
            if index < num_cases {
                SwitchAction::ShowCase(index)
            } else if has_fallback {
                SwitchAction::ShowFallback
            } else {
                SwitchAction::ShowNothing
            }
        }
    }
}

/// Law: the first update of a switch node always builds something (a case, the fallback,
/// or an empty set), whatever the value; a repeated value then changes nothing.
pub proof fn law_switch_first_update_builds_then_settles(
    index: usize,
    num_cases: usize,
    has_fallback: bool,
)
    requires
        index == usize::MAX || index < num_cases,
        num_cases < usize::MAX - 1,
    ensures
        ({
            let (s1, a1) = switch_step(
                SwitchState { switch_index: (usize::MAX - 1) as usize },
                index,
                num_cases,
                has_fallback,
            );
            &&& a1 != SwitchAction::Unchanged
            &&& switch_step(s1, index, num_cases, has_fallback).1 == SwitchAction::Unchanged
        }),
{
}

/// The first matching case exists whenever some case matches.
proof fn lemma_first_case<P: PartialEq>(values: Seq<P>, value: P, i0: int)
    requires
        0 <= i0 < values.len(),
        values[i0].eq_spec(&value),
    ensures
        exists|i: int|
            0 <= i < values.len() && values[i].eq_spec(&value) && forall|j: int|
                0 <= j < i ==> !#[trigger] values[j].eq_spec(&value),
    decreases i0,
{
    if exists|j: int| 0 <= j < i0 && #[trigger] values[j].eq_spec(&value) {
        let j = choose|j: int| 0 <= j < i0 && #[trigger] values[j].eq_spec(&value);
        lemma_first_case(values, value, j);
    }
}

/// Law: a fresh switch node shows, on its first update, the first case whose value equals
/// the switch value (the fallback when none does, nothing when there is no fallback
/// either), and a second update with the same value changes nothing. `find_case` computes
/// `first_case` for every value type whose `==` obeys its specification.
pub proof fn law_switch_shows_first_matching_case<P: PartialEq>(
    values: Seq<P>,
    value: P,
    has_fallback: bool,
)
    requires
        values.len() < usize::MAX - 1,
    ensures
        ({
            let idx = first_case(values, value);
            let (s1, a1) = switch_step(
                SwitchState { switch_index: (usize::MAX - 1) as usize },
                idx as usize,
                values.len() as usize,
                has_fallback,
            );
            &&& idx == usize::MAX || 0 <= idx < values.len()
            &&& 0 <= idx < values.len() ==> values[idx].eq_spec(&value) && forall|j: int|
                0 <= j < idx ==> !#[trigger] values[j].eq_spec(&value)
            &&& idx == usize::MAX ==> forall|j: int|
                0 <= j < values.len() ==> !#[trigger] values[j].eq_spec(&value)
            &&& a1 == if 0 <= idx < values.len() {
                SwitchAction::ShowCase(idx as usize)
            } else if has_fallback {
                SwitchAction::ShowFallback
            } else {
                SwitchAction::ShowNothing
            }
            &&& switch_step(s1, idx as usize, values.len() as usize, has_fallback).1
                == SwitchAction::Unchanged
        }),
{
    if exists|i: int| 0 <= i < values.len() && #[trigger] values[i].eq_spec(&value) {
        let i0 = choose|i: int| 0 <= i < values.len() && #[trigger] values[i].eq_spec(&value);
        lemma_first_case(values, value, i0);
    }
}

/// What a switch node builds for a newly selected case index: the case, else the
/// fallback, else nothing.
pub open spec fn switch_build(index: usize, num_cases: usize, has_fallback: bool) -> SwitchAction {
    if index < num_cases {
        SwitchAction::ShowCase(index)
    } else if has_fallback {
        SwitchAction::ShowFallback
    } else {
        SwitchAction::ShowNothing
    }
}

/// Law: from any state, an update records the new case index, and it leaves the children
/// alone exactly when that index is the one already recorded; any other index (another
/// case, the fallback, or nothing) despawns the children and builds what it selects.
pub proof fn law_switch_rebuilds_on_change(
    s: SwitchState,
    index: usize,
    num_cases: usize,
    has_fallback: bool,
)
    ensures
        switch_step(s, index, num_cases, has_fallback).0.switch_index == index,
        (switch_step(s, index, num_cases, has_fallback).1 == SwitchAction::Unchanged) <==> (
        s.switch_index == index),
        s.switch_index != index ==> switch_step(s, index, num_cases, has_fallback).1
            == switch_build(index, num_cases, has_fallback),
{
}

/// Law: of two consecutive updates, the second changes nothing exactly when it selects the
/// same case index as the first, and otherwise builds what it selects.
pub proof fn law_switch_consecutive_updates(
    s: SwitchState,
    first: usize,
    second: usize,
    num_cases: usize,
    has_fallback: bool,
)
    ensures
        ({
            let s1 = switch_step(s, first, num_cases, has_fallback).0;
            switch_step(s1, second, num_cases, has_fallback).1 == if first == second {
                SwitchAction::Unchanged
            } else {
                switch_build(second, num_cases, has_fallback)
            }
        }),
{
}

// ---------------------------------------------------------------------------------------
// Conditional components (`InsertWhen`).
// ---------------------------------------------------------------------------------------

/// What to do with the component of an `InsertWhen` effect.
#[derive(Clone, Copy, PartialEq, Eq, Debug)]
pub enum InsertAction {
    Nothing,
    Insert,
    Remove,
}

/// Whether the component is currently inserted.
#[derive(Clone, Copy, PartialEq, Eq, Debug)]
pub struct InsertWhenState {
    pub state: bool,
}

/// One step of an `InsertWhen` effect.
pub open spec fn insert_when_step(s: InsertWhenState, test: Option<bool>) -> (
    InsertWhenState,
    InsertAction,
) {
    match test {
        Some(t) => if s.state != t {
            (InsertWhenState { state: t }, if t {
                InsertAction::Insert
            } else {
                InsertAction::Remove
            })
        } else {
            (s, InsertAction::Nothing)
        },
        None => (s, InsertAction::Nothing),
    }
}

impl InsertWhenState {
    /// A fresh effect: the component is not inserted.
    pub fn new() -> (r: Self)
        ensures
            !r.state,
    {
        InsertWhenState { state: false }
    }

    /// Runs one update with the predicate's result.
    pub fn update(&mut self, test: Option<bool>) -> (action: InsertAction)
        ensures
            (*final(self), action) == insert_when_step(*old(self), test),
    {
        match test {
            Some(t) => {
                if self.state != t {
                    self.state = t;
                    if t {
                        InsertAction::Insert
                    } else {
                        InsertAction::Remove
                    }
                } else {
                    InsertAction::Nothing
                }
            },
            None => InsertAction::Nothing,
        }
    }
}

/// Law: after any successful update the component is present exactly when the predicate
/// held, and inserts and removals alternate (no double insert, no double remove).
pub proof fn law_insert_when_tracks_predicate(s: InsertWhenState, t: bool, u: bool)
    ensures
        insert_when_step(s, Some(t)).0.state == t,
        insert_when_step(s, Some(t)).1 == InsertAction::Insert ==> !s.state,
        insert_when_step(s, Some(t)).1 == InsertAction::Remove ==> s.state,
        insert_when_step(insert_when_step(s, Some(t)).0, Some(u)).1 != insert_when_step(s, Some(t)).1
            || insert_when_step(s, Some(t)).1 == InsertAction::Nothing,
{
}

/// Law: from any state, a predicate that could not run changes nothing; one that ran
/// inserts the component exactly when it holds and the component is absent, removes it
/// exactly when it fails and the component is present, and records the result.
pub proof fn law_insert_when_step_from_any_state(s: InsertWhenState, test: Option<bool>)
    ensures
        test is None ==> insert_when_step(s, test) == (s, InsertAction::Nothing),
        test matches Some(t) ==> insert_when_step(s, test).0.state == t,
        test matches Some(t) ==> (insert_when_step(s, test).1 == InsertAction::Insert <==> (t
            && !s.state)),
        test matches Some(t) ==> (insert_when_step(s, test).1 == InsertAction::Remove <==> (!t
            && s.state)),
{
}

// ---------------------------------------------------------------------------------------
// Dependency-tracked mutations (`MutateDyn` and entity effects).
// ---------------------------------------------------------------------------------------

/// The dependency value an effect last ran with.
pub struct DepsTracker<P> {
    pub deps: Option<P>,
}

impl<P: PartialEq + Clone> DepsTracker<P> {
    /// An effect that has not run yet.
    pub fn new() -> (r: Self)
        ensures
            r.deps is None,
    {
        DepsTracker { deps: None }
    }

    /// Offers the freshly computed dependencies (`None` when they could not be computed).
    /// Returns the value to run the effect with, when the effect must run: the
    /// dependencies were computed and differ from those of the last run.
    pub fn update(&mut self, deps: Option<P>) -> (run: Option<P>)
        ensures
            match deps {
                None => run is None && final(self).deps == old(self).deps,
                Some(v) => {
                    &&& P::obeys_eq_spec() ==> (run is Some <==> match old(self).deps {
                        None => true,
                        Some(d) => !v.eq_spec(&d),
                    })
                    &&& run is Some ==> run == Some(v) && (final(self).deps matches Some(c)
                        && cloned(v, c))
                    &&& run is None ==> final(self).deps == old(self).deps
                },
            },
    {
        match deps {
            None => None,
            Some(v) => {
                let changed = match &self.deps {
                    None => true,
                    Some(d) => !(v == *d),
                };
                if changed {
                    self.deps = Some(v.clone());
                    Some(v)
                } else {
                    None
                }
            },
        }
    }
}

/// Stores `value` in `slot` unless it equals the stored value (so that an unchanged
/// value is not reported as a change). Returns whether it was stored.
pub fn set_if_changed<T: PartialEq>(slot: &mut T, value: T) -> (stored: bool)
    ensures
        T::obeys_eq_spec() ==> stored == !(*old(slot)).eq_spec(&value),
        stored ==> *final(slot) == value,
        !stored ==> *final(slot) == *old(slot),
{
    if *slot != value {
        *slot = value;
        true
    } else {
        false
    }
}

// ---------------------------------------------------------------------------------------
// List refresh (`For`).
// ---------------------------------------------------------------------------------------

/// What a list node does after its item system ran.
#[derive(Clone, Copy, PartialEq, Eq, Debug)]
pub struct ListRefresh {
    /// Reconcile the old children with the new items.
    pub reconcile: bool,
    /// Despawn the node's current dynamic children.
    pub clear_children: bool,
    /// Build the fallback (the list is empty).
    pub show_fallback: bool,
    /// Replace the node's dynamic children with the reconciled children.
    pub attach_children: bool,
}

/// Whether the list node has not been refreshed yet.
#[derive(Clone, Copy, PartialEq, Eq, Debug)]
pub struct ListRefreshState {
    pub first: bool,
}

/// One refresh of a list node: `changed` says whether the item system reported a change,
/// `prev_len` and `next_len` are the lengths of the old and new item lists.
pub open spec fn list_refresh_step(
    s: ListRefreshState,
    changed: bool,
    prev_len: nat,
    next_len: nat,
) -> (ListRefreshState, ListRefresh) {
    if !(changed || s.first) {
        (
            s,
            ListRefresh {
                reconcile: false,
                clear_children: false,
                show_fallback: false,
                attach_children: false,
            },
        )
    } else if next_len == 0 {
        if prev_len > 0 || s.first {
            (
                ListRefreshState { first: false },
                ListRefresh {
                    reconcile: true,
                    clear_children: true,
                    show_fallback: true,
                    attach_children: false,
                },
            )
        } else {
            (
                s,
                ListRefresh {
                    reconcile: true,
                    clear_children: false,
                    show_fallback: false,
                    attach_children: false,
                },
            )
        }
    } else {
        (
            ListRefreshState { first: false },
            ListRefresh {
                reconcile: true,
                clear_children: prev_len == 0,
                show_fallback: false,
                attach_children: true,
            },
        )
    }
}

impl ListRefreshState {
    /// A list node before its first update.
    pub fn new() -> (r: Self)
        ensures
            r.first,
    {
        ListRefreshState { first: true }
    }

    /// Decides what to do after the item system ran.
    pub fn refresh(&mut self, changed: bool, prev_len: usize, next_len: usize) -> (r: ListRefresh)
        ensures
            (*final(self), r) == list_refresh_step(*old(self), changed, prev_len as nat, next_len as nat),
    {
        if !(changed || self.first) {
            return ListRefresh {
                reconcile: false,
                clear_children: false,
                show_fallback: false,
                attach_children: false,
            };
        }
        if next_len == 0 {
            if prev_len > 0 || self.first {
                self.first = false;
                ListRefresh {
                    reconcile: true,
                    clear_children: true,
                    show_fallback: true,
                    attach_children: false,
                }
            } else {
                ListRefresh {
                    reconcile: true,
                    clear_children: false,
                    show_fallback: false,
                    attach_children: false,
                }
            }
        } else {
            self.first = false;
            ListRefresh {
                reconcile: true,
                clear_children: prev_len == 0,
                show_fallback: false,
                attach_children: true,
            }
        }
    }
}

/// Law: the fallback is built when the list first shows up empty or becomes empty, and
/// never while items are shown; a non-empty list always gets its children attached.
pub proof fn law_list_fallback_iff_empty(
    s: ListRefreshState,
    changed: bool,
    prev_len: nat,
    next_len: nat,
)
    requires
        changed || s.first,
    ensures
        list_refresh_step(s, changed, prev_len, next_len).1.show_fallback <==> next_len == 0 && (
        prev_len > 0 || s.first),
        list_refresh_step(s, changed, prev_len, next_len).1.attach_children <==> next_len > 0,
        list_refresh_step(s, changed, prev_len, next_len).1.show_fallback ==> list_refresh_step(
            s,
            changed,
            prev_len,
            next_len,
        ).1.clear_children,
{
}

/// Law: once a list node has been refreshed, an update in which the item system reported
/// no change leaves everything alone: nothing is reconciled, cleared, built or attached.
pub proof fn law_list_unchanged_is_left_alone(
    s: ListRefreshState,
    changed: bool,
    prev_len: nat,
    next_len: nat,
    later_prev_len: nat,
    later_next_len: nat,
)
    requires
        changed || s.first,
    ensures
        !list_refresh_step(s, changed, prev_len, next_len).0.first,
        list_refresh_step(
            list_refresh_step(s, changed, prev_len, next_len).0,
            false,
            later_prev_len,
            later_next_len,
        ).1 == (ListRefresh {
            reconcile: false,
            clear_children: false,
            show_fallback: false,
            attach_children: false,
        }),
{
}

/// Law: a refresh that runs (a reported change, or the first refresh) always reconciles
/// the children with the new items, and despawns the current children exactly when the
/// list switches between showing items and showing the fallback: it becomes non-empty
/// after being empty, or it becomes (or first shows up) empty.
pub proof fn law_list_refresh_clears_on_switch(
    s: ListRefreshState,
    changed: bool,
    prev_len: nat,
    next_len: nat,
)
    requires
        changed || s.first,
    ensures
        list_refresh_step(s, changed, prev_len, next_len).1.reconcile,
        list_refresh_step(s, changed, prev_len, next_len).1.clear_children <==> (next_len > 0
            && prev_len == 0) || (next_len == 0 && (prev_len > 0 || s.first)),
{
}

/// The items a list node's item system produced, and whether it changed them.
pub struct ListItems<Item> {
    items: Vec<Item>,
    changed: bool,
}

impl<Item> View for ListItems<Item> {
    type V = (Seq<Item>, bool);

    closed spec fn view(&self) -> (Seq<Item>, bool) {
        (self.items@, self.changed)
    }
}

/// Appends the iterator's items, in order (`Vec::extend`). For an iterator that follows
/// vstd's iterator laws, what is appended is the sequence of items it will yield.
#[verifier::external_body]
fn vec_extend<T, I: Iterator<Item = T>>(v: &mut Vec<T>, items: I)
    ensures
        final(v)@.len() >= old(v)@.len(),
        final(v)@.take(old(v)@.len() as int) == old(v)@,
        items.obeys_prophetic_iter_laws() ==> final(v)@ == old(v)@ + items.remaining(),
{
    v.extend(items);
}

impl<Item: Clone> ListItems<Item> {
    /// An empty, unchanged item list.
    pub fn new() -> (r: Self)
        ensures
            r@ == (Seq::<Item>::empty(), false),
    {
        ListItems { items: Vec::new(), changed: false }
    }

    /// The items.
    pub fn items(&self) -> (r: &Vec<Item>)
        ensures
            r@ == self@.0,
    {
        &self.items
    }

    /// Whether the items were changed.
    pub fn changed(&self) -> (r: bool)
        ensures
            r == self@.1,
    {
        self.changed
    }

    /// Replaces the items with clones of `items`.
    pub fn clone_from(&mut self, items: &Vec<Item>)
        ensures
            final(self)@.1,
            final(self)@.0.len() == items@.len(),
            forall|i: int| 0 <= i < items@.len() ==> cloned(items@[i], #[trigger] final(self)@.0[i]),
    {
        self.items = items.clone();
        self.changed = true;
    }

    /// Appends the items of an iterator, in order.
    pub fn clone_from_iter<I: Iterator<Item = Item>>(&mut self, items: I)
        ensures
            final(self)@.1,
            final(self)@.0.len() >= old(self)@.0.len(),
            final(self)@.0.take(old(self)@.0.len() as int) == old(self)@.0,
            items.obeys_prophetic_iter_laws() ==> final(self)@.0 == old(self)@.0 + items.remaining(),
    {
        vec_extend(&mut self.items, items);
        self.changed = true;
    }

    /// Appends one item.
    pub fn push(&mut self, item: Item)
        ensures
            final(self)@ == (old(self)@.0.push(item), true),
    {
        self.items.push(item);
        self.changed = true;
    }

    /// Removes every item.
    pub fn clear(&mut self)
        ensures
            final(self)@ == (Seq::<Item>::empty(), true),
    {
        self.items.clear();
        self.changed = true;
    }
}

} // verus!
