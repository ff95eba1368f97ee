use thorium_ui::hierarchy::{find_recompute_target, flatten_children, is_hovering, HierEntity, Hierarchy};
use thorium_ui::input::NavAction;
use thorium_ui::stable_sort::stable_sort_by_key;
use thorium_ui::tab_navigation::{navigate, navigate_in_group, NavEntity, NavWorld, TabGroup};

fn node(id: u64, tab: Option<i32>, parent: Option<usize>, children: Vec<usize>) -> NavEntity {
    NavEntity { id, node: true, tab_index: tab, group: None, parent, children }
}

fn group(id: u64, order: i32, modal: bool, parent: Option<usize>, children: Vec<usize>) -> NavEntity {
    NavEntity { id, node: true, tab_index: None, group: Some(TabGroup { order, modal }), parent, children }
}

/// Two non-modal groups and one modal group:
/// 0: group A (order 1): children 1, 2, 3
///   1: node id 11 tab 1
///   2: node id 12 tab 0, child 4
///     4: node id 14 tab 0
///   3: node id 13 tab -1
/// 5: group B (order 0): child 6
///   6: node id 16 tab 2
/// 7: modal group M: children 8, 9
///   8: node id 18 tab 0
///   9: node id 19 tab 0
fn world() -> NavWorld {
    NavWorld {
        entities: vec![
            group(100, 1, false, None, vec![1, 2, 3]),
            node(11, Some(1), Some(0), vec![]),
            node(12, Some(0), Some(0), vec![4]),
            node(13, Some(-1), Some(0), vec![]),
            node(14, Some(0), Some(2), vec![]),
            group(105, 0, false, None, vec![6]),
            node(16, Some(2), Some(5), vec![]),
            group(107, 0, true, None, vec![8, 9]),
            node(18, Some(0), Some(7), vec![]),
            node(19, Some(0), Some(7), vec![]),
        ],
        groups: vec![0, 5, 7],
    }
}

#[test]
fn stable_sort_keeps_order_of_equal_keys() {
    let items = vec![(1u64, 2), (2, 0), (3, 1), (4, 0), (5, 2)];
    assert_eq!(stable_sort_by_key(&items), vec![(2, 0), (4, 0), (3, 1), (1, 2), (5, 2)]);
    assert_eq!(stable_sort_by_key(&Vec::<(u64, i32)>::new()), vec![]);
}

#[test]
fn stable_sort_with_wide_keys() {
    let items = vec![('a', 5_000_000_000u64), ('b', 3), ('c', 5_000_000_000), ('d', 0)];
    assert_eq!(
        stable_sort_by_key(&items),
        vec![('d', 0), ('b', 3), ('a', 5_000_000_000), ('c', 5_000_000_000)]
    );
}

#[test]
fn tab_order_follows_index_then_hierarchy() {
    // Non-modal order: group B (order 0) first, then group A.
    // Candidates in tree order: 16(2), 11(1), 12(0), 14(0); sorted: 12, 14, 11, 16.
    let w = world();
    assert_eq!(navigate(&w, None, NavAction::Next), Some(12));
    assert_eq!(navigate(&w, Some(12), NavAction::Next), Some(14));
    assert_eq!(navigate(&w, Some(14), NavAction::Next), Some(11));
    assert_eq!(navigate(&w, Some(11), NavAction::Next), Some(16));
    assert_eq!(navigate(&w, Some(16), NavAction::Next), Some(12));
    assert_eq!(navigate(&w, Some(12), NavAction::Previous), Some(16));
    assert_eq!(navigate(&w, None, NavAction::Previous), Some(16));
    assert_eq!(navigate(&w, Some(14), NavAction::First), Some(12));
    assert_eq!(navigate(&w, Some(14), NavAction::Last), Some(16));
}

#[test]
fn negative_tab_index_is_skipped() {
    let w = world();
    // Entity 13 has tab index -1: from it, navigation starts over as if unfocused.
    assert_eq!(navigate(&w, Some(13), NavAction::Next), Some(12));
}

#[test]
fn modal_group_traps_focus() {
    let w = world();
    assert_eq!(navigate(&w, Some(18), NavAction::Next), Some(19));
    assert_eq!(navigate(&w, Some(19), NavAction::Next), Some(18));
    assert_eq!(navigate(&w, Some(18), NavAction::Previous), Some(19));
    assert_eq!(navigate_in_group(&w, Some(7), None, NavAction::First), Some(18));
}

#[test]
fn no_groups_means_no_navigation() {
    let w = NavWorld { entities: vec![node(1, Some(0), None, vec![])], groups: vec![] };
    assert_eq!(navigate(&w, None, NavAction::Next), None);
}

fn hier(id: u64, fragment: bool, children: Vec<usize>, parent: Option<usize>) -> HierEntity {
    HierEntity { id, fragment, has_children: !children.is_empty() || !fragment, children, parent }
}

/// 0: root (not a fragment): children 1, 2, 5
///   1: plain child
///   2: fragment: children 3, 4
///     3: plain
///     4: fragment: child 6? (placed after) -- children 6
///       6: plain
///   5: plain
fn hierarchy() -> Hierarchy {
    Hierarchy {
        entities: vec![
            hier(0, false, vec![1, 2, 5], None),
            hier(1, false, vec![], Some(0)),
            hier(2, true, vec![3, 4], Some(0)),
            hier(3, false, vec![], Some(2)),
            hier(4, true, vec![6], Some(2)),
            hier(5, false, vec![], Some(0)),
            hier(6, false, vec![], Some(4)),
        ],
    }
}

#[test]
fn fragments_are_flattened() {
    let h = hierarchy();
    assert_eq!(flatten_children(&h, 0), vec![1, 3, 6, 5]);
    assert_eq!(flatten_children(&h, 2), vec![3, 6]);
    assert_eq!(flatten_children(&h, 1), vec![]);
}

#[test]
fn fragment_without_children_list_stays() {
    let mut h = hierarchy();
    h.entities[4].has_children = false;
    assert_eq!(flatten_children(&h, 0), vec![1, 3, 4, 5]);
}

#[test]
fn changed_fragment_marks_nearest_real_ancestor() {
    let h = hierarchy();
    assert_eq!(find_recompute_target(&h, 4), Some(0));
    assert_eq!(find_recompute_target(&h, 2), Some(0));
    assert_eq!(find_recompute_target(&h, 0), None);
}

#[test]
fn hovering_covers_descendants() {
    let h = hierarchy();
    assert!(is_hovering(&h, &vec![6], 2));
    assert!(is_hovering(&h, &vec![6], 6));
    assert!(!is_hovering(&h, &vec![6], 5));
    assert!(!is_hovering(&h, &vec![], 0));
}

#[test]
fn world_well_formedness_is_checked() {
    assert!(world().is_well_formed());
    let mut w = world();
    w.groups.push(10);
    assert!(!w.is_well_formed());
    let mut w = world();
    w.entities[4].parent = Some(4);
    assert!(!w.is_well_formed());
    let mut w = world();
    w.entities[2].children = vec![1];
    assert!(!w.is_well_formed());
}

#[test]
fn hierarchy_well_formedness_is_checked() {
    assert!(hierarchy().is_well_formed());
    let mut h = hierarchy();
    h.entities[3].parent = Some(5);
    assert!(!h.is_well_formed());
    let mut h = hierarchy();
    h.entities[0].children.push(7);
    assert!(!h.is_well_formed());
}
