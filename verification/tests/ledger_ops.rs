use sputnik_median::ledger::WeightsData;

#[test]
fn upsert_keeps_votes_sorted_and_merged() {
    let mut d = WeightsData::new();
    assert_eq!(d.upsert(5, 10), (0, true));
    assert_eq!(d.upsert(3, 7), (0, true));
    assert_eq!(d.upsert(9, 1), (2, true));
    assert_eq!(d.y, vec![3i128, 5, 9]);
    assert_eq!(d.w, vec![7u128, 10, 1]);
    // weight for an existing vote is merged, not duplicated
    assert_eq!(d.upsert(5, 5), (1, false));
    assert_eq!(d.y, vec![3i128, 5, 9]);
    assert_eq!(d.w, vec![7u128, 15, 1]);
    assert!(d.contains_vote(5));
    assert!(!d.contains_vote(4));
}

#[test]
fn upsert_saturates_at_the_weight_maximum() {
    let mut d = WeightsData::new();
    d.upsert(5, 10);
    d.upsert(5, u128::MAX);
    assert_eq!(d.w, vec![u128::MAX]);
}

#[test]
fn decrement_clamps_at_zero_and_removes_empty_entries() {
    let mut d = WeightsData::new();
    d.upsert(3, 7);
    d.upsert(5, 10);
    assert_eq!(d.decrement(3, 3), (0, false));
    assert_eq!(d.w, vec![4u128, 10]);
    // withdrawing more than is there clamps to zero and vacates the entry
    assert_eq!(d.decrement(3, 100), (0, true));
    assert_eq!(d.y, vec![5i128]);
    assert_eq!(d.w, vec![10u128]);
}

#[test]
fn upsert_then_decrement_restores_the_ledger() {
    let mut d = WeightsData::new();
    d.upsert(2, 4);
    d.upsert(8, 6);
    let y_before = d.y.clone();
    let w_before = d.w.clone();
    // a fresh entry is created and removed again
    let (_, added) = d.upsert(5, 42);
    assert!(added);
    assert_eq!(d.decrement(5, 42), (1, true));
    assert_eq!(d.y, y_before);
    assert_eq!(d.w, w_before);
    // an existing entry is topped up and drained again
    let (_, added) = d.upsert(8, 11);
    assert!(!added);
    assert_eq!(d.decrement(8, 11), (1, false));
    assert_eq!(d.y, y_before);
    assert_eq!(d.w, w_before);
}
