use interval_tree::pointsum::PointSumTree;

#[test]
fn pointsum_queries_on_empty() {
    let t = PointSumTree::new(0, 10);

    assert_eq!(t.query(-1), None);
    assert_eq!(t.query(11), None);
    assert_eq!(t.query(1), Some(0));
    assert_eq!(t.query(5), Some(0));
}

#[test]
fn pointsum_singleton_tree() {
    let mut t = PointSumTree::new(0, 0);
    t.insert(0, 0, 10);
    assert_eq!(t.query(0), Some(10));
    assert_eq!(t.query(1), None);
    assert_eq!(t.query(-11), None);
    assert_eq!(t.bounds(), (0, 0));
}

#[test]
fn pointsum_small_queries() {
    let mut t = PointSumTree::new(0, 10);
    t.insert(0, 2, 1);
    t.insert(0, 5, 10);
    t.insert(5, 6, 2);
    t.insert(5, 7, 1);
    t.insert(10, 10, 5);
    assert_eq!(t.bounds(), (0, 10));
    let values = vec![11, 11, 11, 10, 10, 13, 3, 1, 0, 0, 5];
    assert_eq!(t.query(-1), None);
    assert_eq!(t.query(11), None);
    assert_eq!(t.query(100), None);
    for (p, v) in (0..10).zip(values) {
        assert_eq!(t.query(p), Some(v));
    }
}

#[test]
fn pointsum_bounds_are_kept() {
    let mut t = PointSumTree::new(-7, 23);
    assert_eq!(t.bounds(), (-7, 23));
    t.insert(-7, 23, 4);
    t.insert(0, 0, 1);
    assert_eq!(t.bounds(), (-7, 23));
}

#[test]
fn pointsum_same_range_twice() {
    let mut t = PointSumTree::new(2, 11);
    t.insert(3, 7, 1);
    t.insert(3, 7, 1);
    assert_eq!(t.query(5), Some(2));
    assert_eq!(t.query(3), Some(2));
    assert_eq!(t.query(7), Some(2));
    assert_eq!(t.query(2), Some(0));
    assert_eq!(t.query(8), Some(0));
}

#[test]
fn pointsum_range_additions_step_by_step() {
    let mut t = PointSumTree::new(2, 11);
    t.insert(3, 7, 1);
    assert_eq!(t.query(2), Some(0));
    assert_eq!(t.query(4), Some(1));
    assert_eq!(t.query(9), Some(0));
    t.insert(2, 4, 1);
    assert_eq!(t.query(2), Some(1));
    assert_eq!(t.query(4), Some(2));
    t.insert(7, 9, 5);
    assert_eq!(t.query(7), Some(6));
    assert_eq!(t.query(9), Some(5));
}

#[test]
fn pointsum_matches_plain_table() {
    let lo: i64 = 2;
    let hi: i64 = 11;
    let mut t = PointSumTree::new(lo, hi);
    let mut table = vec![0i64; (hi - lo + 1) as usize];
    let mut seed: u64 = 12345;
    for _ in 0..200 {
        seed = seed.wrapping_mul(6364136223846793005).wrapping_add(1442695040888963407);
        let a = lo + ((seed >> 33) % 10) as i64;
        seed = seed.wrapping_mul(6364136223846793005).wrapping_add(1442695040888963407);
        let b = lo + ((seed >> 33) % 10) as i64;
        seed = seed.wrapping_mul(6364136223846793005).wrapping_add(1442695040888963407);
        let v = ((seed >> 33) % 41) as i64 - 20;
        let (s, e) = if a <= b { (a, b) } else { (b, a) };
        t.insert(s, e, v);
        for p in s..=e {
            table[(p - lo) as usize] += v;
        }
        for p in lo..=hi {
            assert_eq!(t.query(p), Some(table[(p - lo) as usize]));
        }
        assert_eq!(t.query(lo - 1), None);
        assert_eq!(t.query(hi + 1), None);
    }
}

#[test]
fn pointsum_negative_bounds_and_extremes() {
    let mut t = PointSumTree::new(i64::MIN, i64::MAX);
    assert_eq!(t.bounds(), (i64::MIN, i64::MAX));
    t.insert(i64::MIN, -1, 3);
    t.insert(-1, i64::MAX, 4);
    assert_eq!(t.query(i64::MIN), Some(3));
    assert_eq!(t.query(-1), Some(7));
    assert_eq!(t.query(0), Some(4));
    assert_eq!(t.query(i64::MAX), Some(4));
}
