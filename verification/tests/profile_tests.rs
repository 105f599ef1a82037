use idioms::Profile;

#[test]
fn absent_index_reads_zero() {
    let p = Profile::new(4);
    assert_eq!(p.get(7), 0);
}

#[test]
fn weights_accumulate_per_index() {
    let mut p = Profile::new(4);
    p.add(1, 5);
    p.add(2, 3);
    p.add(1, 2);
    assert_eq!(p.get(1), 7);
    assert_eq!(p.get(2), 3);
}

#[test]
fn overflow_evicts_smallest_weight() {
    let mut p = Profile::new(2);
    p.add(1, 5);
    p.add(2, 3);
    p.add(3, 4);
    // index 2 held the smallest weight and was evicted
    assert_eq!(p.get(2), 0);
    assert_eq!(p.get(1), 5);
    assert_eq!(p.get(3), 4);
    assert_eq!(p.snapshot().len(), 2);
}

#[test]
fn fresh_smallest_entry_is_evicted_at_once() {
    let mut p = Profile::new(2);
    p.add(1, 5);
    p.add(2, 3);
    p.add(3, 1);
    assert_eq!(p.get(3), 0);
    assert_eq!(p.get(1), 5);
    assert_eq!(p.get(2), 3);
}

#[test]
fn evicted_index_can_reaccumulate() {
    let mut p = Profile::new(2);
    p.add(1, 5);
    p.add(2, 3);
    p.add(3, 4);
    // index 2 was evicted; feeding it again starts from zero
    p.add(2, 10);
    assert_eq!(p.get(2), 10);
}

#[test]
fn snapshot_lists_entries_in_storage_order() {
    let mut p = Profile::new(3);
    p.add(4, 2);
    p.add(9, -1);
    assert_eq!(p.snapshot(), vec![(4, 2), (9, -1)]);
}

#[test]
fn addition_saturates_at_i64_bounds() {
    let mut p = Profile::new(2);
    p.add(1, i64::MAX);
    p.add(1, 10);
    assert_eq!(p.get(1), i64::MAX);
    p.add(2, i64::MIN);
    p.add(2, -10);
    assert_eq!(p.get(2), i64::MIN);
}

#[test]
fn capacity_never_exceeded() {
    let mut p = Profile::new(3);
    for i in 0..50 {
        p.add(i, 1 + (i as i64 % 5));
    }
    assert!(p.snapshot().len() <= 3);
}
