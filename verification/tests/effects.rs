use thorium_ui::effects::{
    find_case, set_if_changed, CondState, DepsTracker, InsertAction, InsertWhenState,
    ListItems, ListRefresh, ListRefreshState, SwitchAction, SwitchState,
};

#[test]
fn cond_builds_on_first_update_and_on_change_only() {
    let mut c = CondState::new();
    assert_eq!(c.update(Some(false)), Some(false));
    assert_eq!(c.update(Some(false)), None);
    assert_eq!(c.update(None), None);
    assert_eq!(c.update(Some(true)), Some(true));
    assert_eq!(c.update(Some(true)), None);
    assert_eq!(c.update(Some(false)), Some(false));
    assert_eq!(c, CondState { state: false, first: false });
}

#[test]
fn switch_finds_first_matching_case() {
    let cases = vec![3u32, 5, 3];
    assert_eq!(find_case(&cases, &3), 0);
    assert_eq!(find_case(&cases, &5), 1);
    assert_eq!(find_case(&cases, &7), usize::MAX);
    assert_eq!(find_case(&Vec::<u32>::new(), &7), usize::MAX);
}

#[test]
fn switch_rebuilds_only_when_the_case_changes() {
    let mut s = SwitchState::new();
    assert_eq!(s.switch_index, usize::MAX - 1);
    assert_eq!(s.update(1, 3, true), SwitchAction::ShowCase(1));
    assert_eq!(s.update(1, 3, true), SwitchAction::Unchanged);
    assert_eq!(s.update(usize::MAX, 3, true), SwitchAction::ShowFallback);
    assert_eq!(s.update(usize::MAX, 3, true), SwitchAction::Unchanged);
    assert_eq!(s.update(0, 3, false), SwitchAction::ShowCase(0));
    assert_eq!(s.update(usize::MAX, 3, false), SwitchAction::ShowNothing);
}

#[test]
fn switch_without_match_on_first_update_shows_fallback() {
    let mut s = SwitchState::new();
    assert_eq!(s.update(usize::MAX, 0, true), SwitchAction::ShowFallback);
    let mut t = SwitchState::new();
    assert_eq!(t.update(usize::MAX, 2, false), SwitchAction::ShowNothing);
}

#[test]
fn insert_when_inserts_and_removes_on_changes() {
    let mut s = InsertWhenState::new();
    assert_eq!(s.update(Some(false)), InsertAction::Nothing);
    assert_eq!(s.update(Some(true)), InsertAction::Insert);
    assert_eq!(s.update(Some(true)), InsertAction::Nothing);
    assert_eq!(s.update(None), InsertAction::Nothing);
    assert_eq!(s.update(Some(false)), InsertAction::Remove);
    assert!(!s.state);
}

#[test]
fn deps_tracker_runs_on_new_values_only() {
    let mut d: DepsTracker<u32> = DepsTracker::new();
    assert_eq!(d.update(None), None);
    assert_eq!(d.update(Some(4)), Some(4));
    assert_eq!(d.deps, Some(4));
    assert_eq!(d.update(Some(4)), None);
    assert_eq!(d.update(None), None);
    assert_eq!(d.deps, Some(4));
    assert_eq!(d.update(Some(5)), Some(5));
    assert_eq!(d.deps, Some(5));
}

#[test]
fn set_if_changed_reports_changes() {
    let mut slot = 3u32;
    assert!(!set_if_changed(&mut slot, 3));
    assert_eq!(slot, 3);
    assert!(set_if_changed(&mut slot, 8));
    assert_eq!(slot, 8);
}

#[test]
fn list_refresh_shows_fallback_when_empty() {
    let mut s = ListRefreshState::new();
    // First update with no items: fallback.
    assert_eq!(
        s.refresh(false, 0, 0),
        ListRefresh { reconcile: true, clear_children: true, show_fallback: true, attach_children: false }
    );
    // Nothing changed afterwards: nothing to do.
    assert_eq!(
        s.refresh(false, 0, 0),
        ListRefresh { reconcile: false, clear_children: false, show_fallback: false, attach_children: false }
    );
    // Items arrive: the fallback is cleared and children attached.
    assert_eq!(
        s.refresh(true, 0, 2),
        ListRefresh { reconcile: true, clear_children: true, show_fallback: false, attach_children: true }
    );
    // Items change: children re-attached without clearing.
    assert_eq!(
        s.refresh(true, 2, 3),
        ListRefresh { reconcile: true, clear_children: false, show_fallback: false, attach_children: true }
    );
    // Becomes empty: fallback again.
    assert_eq!(
        s.refresh(true, 3, 0),
        ListRefresh { reconcile: true, clear_children: true, show_fallback: true, attach_children: false }
    );
    // Stays empty: no second fallback.
    assert_eq!(
        s.refresh(true, 0, 0),
        ListRefresh { reconcile: true, clear_children: false, show_fallback: false, attach_children: false }
    );
}

#[test]
fn list_refresh_with_items_first_keeps_refreshing() {
    let mut s = ListRefreshState::new();
    assert!(s.refresh(false, 0, 2).attach_children);
    // The first refresh ran: unchanged items are left alone from now on.
    assert!(!s.first);
    assert!(!s.refresh(false, 2, 2).reconcile);
    assert!(s.refresh(true, 2, 3).reconcile);
}

#[test]
fn unchanged_list_is_not_rebuilt() {
    let none = ListRefresh {
        reconcile: false,
        clear_children: false,
        show_fallback: false,
        attach_children: false,
    };
    let mut s = ListRefreshState::new();
    assert!(s.refresh(true, 0, 3).attach_children);
    // An update that reported no change, even with an empty item list, touches nothing.
    assert_eq!(s.refresh(false, 3, 0), none);
    // A changed update to an empty list shows the fallback.
    assert_eq!(
        s.refresh(true, 3, 0),
        ListRefresh { reconcile: true, clear_children: true, show_fallback: true, attach_children: false }
    );
}

#[test]
fn list_items_track_changes() {
    let mut items: ListItems<u32> = ListItems::new();
    assert!(!items.changed());
    assert!(items.items().is_empty());
    items.push(1);
    assert!(items.changed());
    items.clone_from(&vec![7, 8]);
    assert_eq!(items.items(), &vec![7, 8]);
    items.clone_from_iter(vec![9, 10].into_iter());
    assert_eq!(items.items(), &vec![7, 8, 9, 10]);
    items.clear();
    assert!(items.items().is_empty());
    assert!(items.changed());
}
