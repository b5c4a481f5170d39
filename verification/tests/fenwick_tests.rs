use algos::fenwick::FenwickTree;
use algos::fenwick::UpdateError;

#[test]
fn test_fenwick_construction() {
    let x = vec![1, 3, 4, 8, 6, 1, 4, 2];
    let fenwick_tree = FenwickTree::new(x);
    let tree2 = fenwick_tree.clone();

    assert!(fenwick_tree == vec![1, 4, 4, 16, 6, 7, 4, 29]);
    assert!(fenwick_tree == tree2);
}

#[test]
fn test_fenwick_sum() {
    let x = vec![1, 3, 4, 8, 6, 1, 4, 2];
    let fenwick_tree = FenwickTree::new(x);

    assert_eq!(fenwick_tree.sum(6), 27);
}

#[test]
fn test_fenwick_round_trip() {
    // Every prefix sum matches the plain running total of the seed array,
    // both right after construction and after updates with deltas folded in.
    let x: Vec<i64> = vec![5, -2, 0, 7, 3, -4];
    let mut t = FenwickTree::new(x.clone());
    let mut running = 0;
    for k in 0..x.len() {
        running += x[k];
        assert_eq!(t.sum(k), running);
    }
    t.add(1, 10);
    t.add(4, -3);
    let mut updated = x.clone();
    updated[1] += 10;
    updated[4] += -3;
    let mut running2 = 0;
    for k in 0..updated.len() {
        running2 += updated[k];
        assert_eq!(t.sum(k), running2);
    }
}

#[test]
fn test_fenwick_update_locality() {
    // add(i, delta) moves prefix sums at or past i by exactly delta and
    // leaves earlier prefixes unchanged.
    let x: Vec<i64> = vec![2, 9, 4, 4, 1, 7, 3];
    let mut t = FenwickTree::new(x);
    let before: Vec<i64> = (0..7).map(|k| t.sum(k)).collect();
    t.add(3, 11);
    for k in 0..7 {
        if k >= 3 {
            assert_eq!(t.sum(k), before[k] + 11);
        } else {
            assert_eq!(t.sum(k), before[k]);
        }
    }
}

#[test]
fn test_fenwick_equality_structural() {
    // Trees built by different operation sequences over the same logical
    // array compare equal; a differing array compares unequal.
    let a = FenwickTree::new(vec![1, 2, 3, 4]);
    let mut b = FenwickTree::new(vec![1, 2, 0, 4]);
    b.add(2, 3);
    assert!(a == b);

    let c = FenwickTree::new(vec![1, 2, 3, 5]);
    assert!(!(a == c));
}

#[test]
fn test_fenwick_len_and_empty() {
    let t = FenwickTree::new(vec![4, 5, 6]);
    assert_eq!(t.len(), 3);
    assert!(!t.is_empty());

    let e = FenwickTree::new(vec![]);
    assert_eq!(e.len(), 0);
    assert!(e.is_empty());
}

#[test]
fn test_fenwick_scenario() {
    // Seeded with [1, 3, 4, 8, 6, 1, 4, 2]: prefixSum(5) is 23; after
    // add(5, 10) it is 33, and prefixSum(7) is 39.
    let mut t = FenwickTree::new(vec![1, 3, 4, 8, 6, 1, 4, 2]);
    assert_eq!(t.sum(5), 23);
    t.add(5, 10);
    assert_eq!(t.sum(5), 33);
    assert_eq!(t.sum(7), 39);
}

#[test]
fn test_fenwick_checked_update() {
    let mut t = FenwickTree::new(vec![10, 20, 30]);

    // In-range update succeeds and is observable.
    assert_eq!(t.checked_update(1, 5), Ok(()));
    assert_eq!(t.sum(2), 65);

    // An out-of-range position is refused with the index error.
    assert_eq!(t.checked_update(3, 1), Err(UpdateError::IndexOutOfRange));
    assert_eq!(t.sum(2), 65);

    // A delta that would leave the maintained range is refused.
    assert_eq!(
        t.checked_update(0, 0x4000_0000),
        Err(UpdateError::ValueOutOfBounds)
    );
    assert_eq!(t.sum(2), 65);
}
