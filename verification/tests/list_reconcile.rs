use thorium_ui::lcs::lcs;
use thorium_ui::list_diff::{plan_list_update, ListOp};

fn eq(a: &u32, b: &u32) -> bool {
    a == b
}

#[test]
fn lcs_finds_longest_common_run() {
    let a = [1u32, 2, 3, 4, 5];
    let b = [9u32, 3, 4, 5, 7];
    assert_eq!(lcs(&a, &b, eq), (2, 1, 3));
}

#[test]
fn lcs_takes_first_of_equal_runs() {
    let a = [1u32, 2, 7, 8];
    let b = [7u32, 8, 1, 2];
    assert_eq!(lcs(&a, &b, eq), (0, 2, 2));
}

#[test]
fn lcs_of_disjoint_and_empty_lists_is_empty() {
    assert_eq!(lcs(&[1u32, 2], &[3u32, 4], eq), (0, 0, 0));
    assert_eq!(lcs(&[] as &[u32], &[3u32, 4], eq), (0, 0, 0));
    assert_eq!(lcs(&[1u32], &[] as &[u32], eq), (0, 0, 0));
}

#[test]
fn lcs_uses_the_comparator() {
    // Compare by parity only.
    let a = [1u32, 3, 5];
    let b = [2u32, 7, 9, 11];
    assert_eq!(lcs(&a, &b, |x: &u32, y: &u32| x % 2 == y % 2), (0, 1, 3));
}

#[test]
fn unchanged_list_keeps_every_child() {
    let items = [10u32, 20, 30];
    let patch = plan_list_update(&items, &items, eq);
    assert_eq!(patch.ops, vec![ListOp::Keep(0), ListOp::Keep(1), ListOp::Keep(2)]);
    assert!(patch.removed.is_empty());
}

#[test]
fn appended_items_are_inserted_only() {
    let prev = [10u32, 20];
    let next = [10u32, 20, 30, 40];
    let patch = plan_list_update(&prev, &next, eq);
    assert_eq!(
        patch.ops,
        vec![ListOp::Keep(0), ListOp::Keep(1), ListOp::Insert(2), ListOp::Insert(3)]
    );
    assert!(patch.removed.is_empty());
}

#[test]
fn prepended_and_middle_insertions() {
    let prev = [10u32, 30];
    let next = [5u32, 10, 20, 30];
    let patch = plan_list_update(&prev, &next, eq);
    assert_eq!(
        patch.ops,
        vec![ListOp::Insert(0), ListOp::Keep(0), ListOp::Insert(2), ListOp::Keep(1)]
    );
    assert!(patch.removed.is_empty());
}

#[test]
fn removed_items_are_despawned_only() {
    let prev = [10u32, 20, 30, 40];
    let next = [10u32, 40];
    let patch = plan_list_update(&prev, &next, eq);
    assert_eq!(patch.ops, vec![ListOp::Keep(0), ListOp::Keep(3)]);
    assert_eq!(patch.removed, vec![1, 2]);
}

#[test]
fn replaced_item_is_removed_and_rebuilt() {
    let prev = [1u32, 2, 3];
    let next = [1u32, 9, 3];
    let patch = plan_list_update(&prev, &next, eq);
    assert_eq!(patch.ops, vec![ListOp::Keep(0), ListOp::Insert(1), ListOp::Keep(2)]);
    assert_eq!(patch.removed, vec![1]);
}

#[test]
fn disjoint_lists_rebuild_everything() {
    let prev = [1u32, 2];
    let next = [3u32, 4, 5];
    let patch = plan_list_update(&prev, &next, eq);
    assert_eq!(patch.ops, vec![ListOp::Insert(0), ListOp::Insert(1), ListOp::Insert(2)]);
    assert_eq!(patch.removed, vec![0, 1]);
}

#[test]
fn empty_transitions() {
    let items = [1u32, 2];
    let none: [u32; 0] = [];
    let grow = plan_list_update(&none, &items, eq);
    assert_eq!(grow.ops, vec![ListOp::Insert(0), ListOp::Insert(1)]);
    assert!(grow.removed.is_empty());
    let shrink = plan_list_update(&items, &none, eq);
    assert!(shrink.ops.is_empty());
    assert_eq!(shrink.removed, vec![0, 1]);
}

#[test]
fn swapped_items_keep_the_longer_run() {
    let prev = [1u32, 2, 3, 4];
    let next = [4u32, 1, 2, 3];
    let patch = plan_list_update(&prev, &next, eq);
    assert_eq!(
        patch.ops,
        vec![ListOp::Insert(0), ListOp::Keep(0), ListOp::Keep(1), ListOp::Keep(2)]
    );
    assert_eq!(patch.removed, vec![3]);
}
