use reactive_core::error::ReactiveError;
use reactive_core::reconcile::reconcile;
use reactive_core::reconcile::Op;

#[test]
fn insert_all_into_empty() {
    let prev: Vec<(u64, u64)> = vec![];
    let next: Vec<(u64, u64)> = vec![(1, 10), (2, 20)];
    let ops = reconcile(&prev, &next).unwrap();
    assert_eq!(
        ops,
        vec![
            Op::Insert { index: 0, key: 1, item: 10 },
            Op::Insert { index: 1, key: 2, item: 20 },
        ]
    );
}

#[test]
fn swap_is_one_move() {
    let prev: Vec<(u64, u64)> = vec![(1, 10), (2, 20)];
    let next: Vec<(u64, u64)> = vec![(2, 20), (1, 10)];
    let ops = reconcile(&prev, &next).unwrap();
    let moves = ops
        .iter()
        .filter(|op| matches!(op, Op::Move { .. }))
        .count();
    assert_eq!(moves, 1);
    assert_eq!(ops.len(), 1);
    assert_eq!(ops, vec![Op::Move { key: 1, new_index: 1 }]);
}

#[test]
fn middle_removal_moves_nothing() {
    let prev: Vec<(u64, u64)> = vec![(1, 10), (2, 20), (3, 30)];
    let next: Vec<(u64, u64)> = vec![(1, 10), (3, 30)];
    let ops = reconcile(&prev, &next).unwrap();
    assert_eq!(ops, vec![Op::Remove { key: 2 }]);
}

#[test]
fn self_reconciliation_is_empty() {
    let snapshot: Vec<(u64, u64)> = vec![(1, 10), (2, 20), (3, 30)];
    let ops = reconcile(&snapshot, &snapshot).unwrap();
    assert_eq!(ops, vec![]);
}

#[test]
fn empty_against_empty_is_empty() {
    let snapshot: Vec<(u64, u64)> = vec![];
    let ops = reconcile(&snapshot, &snapshot).unwrap();
    assert_eq!(ops, vec![]);
}

#[test]
fn duplicate_key_in_previous_is_reported() {
    let prev: Vec<(u64, u64)> = vec![(1, 10), (1, 20)];
    let next: Vec<(u64, u64)> = vec![(1, 10)];
    assert_eq!(reconcile(&prev, &next), Err(ReactiveError::DuplicateKey));
}

#[test]
fn duplicate_key_in_next_is_reported() {
    let prev: Vec<(u64, u64)> = vec![(1, 10)];
    let next: Vec<(u64, u64)> = vec![(2, 20), (2, 30)];
    assert_eq!(reconcile(&prev, &next), Err(ReactiveError::DuplicateKey));
}

#[test]
fn changed_item_is_one_update() {
    let prev: Vec<(u64, u64)> = vec![(1, 10)];
    let next: Vec<(u64, u64)> = vec![(1, 99)];
    let ops = reconcile(&prev, &next).unwrap();
    assert_eq!(ops, vec![Op::Update { key: 1, item: 99 }]);
}

#[test]
fn update_insert_and_remove_together() {
    let prev: Vec<(u64, u64)> = vec![(1, 10), (2, 20)];
    let next: Vec<(u64, u64)> = vec![(2, 21), (5, 50)];
    let ops = reconcile(&prev, &next).unwrap();
    assert_eq!(
        ops,
        vec![
            Op::Update { key: 2, item: 21 },
            Op::Insert { index: 1, key: 5, item: 50 },
            Op::Remove { key: 1 },
        ]
    );
}

#[test]
fn longest_run_stays_put() {
    // Rotating 4 to the front should move only 4: keys 1, 2, 3 form the
    // longest increasing run of previous indices and stay where they are.
    let prev: Vec<(u64, u64)> = vec![(1, 10), (2, 20), (3, 30), (4, 40)];
    let next: Vec<(u64, u64)> = vec![(4, 40), (1, 10), (2, 20), (3, 30)];
    let ops = reconcile(&prev, &next).unwrap();
    assert_eq!(ops, vec![Op::Move { key: 4, new_index: 0 }]);
}
