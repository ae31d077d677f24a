use interval_tree::segmentpoint::SegmentPointTree;

#[test]
fn segmentpoint_queries_on_empty() {
    let t = SegmentPointTree::new(0, 10, 0, Box::new(|x: &i64, y: &i64| x + y));

    assert_eq!(t.query(-1), None);
    assert_eq!(t.query(11), None);
    assert_eq!(t.query(1), Some(0));
    assert_eq!(t.query(5), Some(0));
}

#[test]
fn segmentpoint_singleton_tree() {
    let mut t = SegmentPointTree::new(0, 0, 0, Box::new(|x: &i64, y: &i64| x + y));
    t.insert(0, 0, 10);
    assert_eq!(t.query(0), Some(10));
    t.insert(0, 0, 11);
    assert_eq!(t.query(0), Some(21));
    assert_eq!(t.query(1), None);
    assert_eq!(t.query(-11), None);
    assert_eq!(t.bounds(), (0, 0));
}

#[test]
fn segmentpoint_small_queries() {
    let mut t = SegmentPointTree::new(0, 10, 0, Box::new(|x: &i32, y: &i32| x + y));
    t.insert(0, 2, 1);
    t.insert(0, 5, 10);
    t.insert(5, 6, 2);
    t.insert(5, 7, 1);
    t.insert(10, 10, 5);
    assert_eq!(t.bounds(), (0, 10));
    let values = vec![11, 11, 11, 10, 10, 13, 3, 1, 0, 0, 5];
    assert_eq!(t.query(-1), None);
    assert_eq!(t.query(11), None);
    assert_eq!(t.query(100), None);
    for (p, v) in (0..10).zip(values) {
        assert_eq!(t.query(p), Some(v));
    }
}

#[test]
fn segmentpoint_small_queries_2() {
    let mut t = SegmentPointTree::new(0, 10, 1, Box::new(|x: &i32, y: &i32| x * y));
    t.insert(0, 2, 1);
    t.insert(0, 5, 3);
    t.insert(5, 6, 2);
    t.insert(5, 7, 1);
    t.insert(10, 10, 0);
    assert_eq!(t.bounds(), (0, 10));
    let values = vec![3, 3, 3, 3, 3, 6, 2, 1, 1, 1, 0];
    assert_eq!(t.query(-1), None);
    assert_eq!(t.query(11), None);
    assert_eq!(t.query(100), None);
    for (p, v) in (0..10).zip(values) {
        assert_eq!(t.query(p), Some(v));
    }
}

#[test]
fn small_queries_3() {
    let concat_f = Box::new(|x: &String, y: &String| (x.clone() + &*y).to_string());
    let mut t: SegmentPointTree<String, _> = SegmentPointTree::new(4, 6, "".to_string(), concat_f);
    assert_eq!(t.bounds(), (4, 6));
    t.insert(4, 5, "a".to_string());
    t.insert(5, 6, "b".to_string());
    t.insert(5, 5, "c".to_string());
    t.insert(6, 6, "x".to_string());
    let values = vec!["a".to_string(), "abc".to_string(), "bx".to_string()];
    assert_eq!(t.query(3), None);
    assert_eq!(t.query(11), None);
    for (p, v) in (4..6).zip(values) {
        assert_eq!(t.query(p), Some(v));
    }
}

#[test]
fn segmentpoint_large_queries() {
    let mut t = SegmentPointTree::new(0, 1_000_000, 0, Box::new(|x: &i64, y: &i64| x + y));
    assert_eq!(t.bounds(), (0, 1_000_000));
    assert_eq!(t.query(-1), None);
    assert_eq!(t.query(2_000_000), None);
    t.insert(0, 1000, 1000);
    t.insert(1, 1000, 1000);
    t.insert(2, 1000, 1000);
    t.insert(3, 1000, 1000);
    t.insert(4, 1000, 1000);

    assert_eq!(t.query(0), Some(1000));
    assert_eq!(t.query(1), Some(2000));
    assert_eq!(t.query(2), Some(3000));
    assert_eq!(t.query(3), Some(4000));
    assert_eq!(t.query(4), Some(5000));
    assert_eq!(t.query(100), Some(5000));
    assert_eq!(t.query(1000), Some(5000));

    t.insert(2000, 10_000, 2000);
    t.insert(2000, 20_000, 2000);
    t.insert(120_444, 120_444, 8);
    t.insert(3000, 100_000, 2000);
    t.insert(3000, 200_000, 2000);

    assert_eq!(t.query(2000), Some(4000));
    assert_eq!(t.query(3000), Some(8000));
    assert_eq!(t.query(100_000), Some(4000));
    assert_eq!(t.query(120_443), Some(2000));
    assert_eq!(t.query(120_444), Some(2008));
    assert_eq!(t.query(120_445), Some(2000));
    assert_eq!(t.query(200_000), Some(2000));

    assert_eq!(t.query(0), Some(1000));
    assert_eq!(t.query(1_000_000), Some(0));
    assert_eq!(t.query(1_000_001), None);
}

#[test]
fn segmentpoint_last_points_are_read() {
    let mut t = SegmentPointTree::new(0, 10, 0, Box::new(|x: &i32, y: &i32| x + y));
    t.insert(0, 5, 10);
    t.insert(5, 7, 1);
    t.insert(10, 10, 5);
    assert_eq!(t.query(10), Some(5));
    assert_eq!(t.query(7), Some(1));
    assert_eq!(t.query(8), Some(0));
    let mut s: SegmentPointTree<String, _> = SegmentPointTree::new(
        4,
        6,
        "".to_string(),
        |x: &String, y: &String| format!("{}{}", x, y),
    );
    s.insert(5, 6, "b".to_string());
    s.insert(6, 6, "x".to_string());
    assert_eq!(s.query(6), Some("bx".to_string()));
}

#[test]
fn segmentpoint_range_additions_step_by_step() {
    let mut t = SegmentPointTree::new(2, 11, 0, |x: &i64, y: &i64| x + y);
    assert_eq!(t.bounds(), (2, 11));
    t.insert(3, 7, 1);
    assert_eq!(t.query(2), Some(0));
    assert_eq!(t.query(4), Some(1));
    assert_eq!(t.query(9), Some(0));
    t.insert(2, 4, 1);
    assert_eq!(t.query(2), Some(1));
    assert_eq!(t.query(4), Some(2));
    t.insert(7, 9, 5);
    assert_eq!(t.query(7), Some(6));
    assert_eq!(t.query(9), Some(5));
}

#[test]
fn segmentpoint_same_range_twice() {
    let mut t = SegmentPointTree::new(2, 11, 0, |x: &i64, y: &i64| x + y);
    t.insert(3, 7, 1);
    t.insert(3, 7, 1);
    assert_eq!(t.query(5), Some(2));
    assert_eq!(t.query(2), Some(0));
    assert_eq!(t.query(8), Some(0));
}

#[test]
fn segmentpoint_fresh_tree_combines_default_with_itself() {
    let t = SegmentPointTree::new(0, 3, 2, |x: &i64, y: &i64| x * y);
    assert_eq!(t.query(0), Some(4));
    assert_eq!(t.query(3), Some(4));
    assert_eq!(t.query(4), None);
}

#[test]
fn segmentpoint_matches_plain_table() {
    let lo: i64 = 2;
    let hi: i64 = 11;
    let mut t = SegmentPointTree::new(lo, hi, 0u64, |x: &u64, y: &u64| if *x >= *y { *x } else { *y });
    let mut table = vec![0u64; (hi - lo + 1) as usize];
    let mut seed: u64 = 99;
    for _ in 0..200 {
        seed = seed.wrapping_mul(6364136223846793005).wrapping_add(1442695040888963407);
        let a = lo + ((seed >> 33) % 10) as i64;
        seed = seed.wrapping_mul(6364136223846793005).wrapping_add(1442695040888963407);
        let b = lo + ((seed >> 33) % 10) as i64;
        seed = seed.wrapping_mul(6364136223846793005).wrapping_add(1442695040888963407);
        let v = (seed >> 33) % 1000;
        let (s, e) = if a <= b { (a, b) } else { (b, a) };
        t.insert(s, e, v);
        for p in s..=e {
            let cell = &mut table[(p - lo) as usize];
            if v > *cell {
                *cell = v;
            }
        }
        for p in lo..=hi {
            assert_eq!(t.query(p), Some(table[(p - lo) as usize]));
        }
    }
}

#[test]
fn segmentpoint_takes_a_boxed_operator() {
    let combine: Box<dyn Fn(&i64, &i64) -> i64> = Box::new(|x: &i64, y: &i64| x + y);
    let mut t: SegmentPointTree<i64, Box<dyn Fn(&i64, &i64) -> i64>> =
        SegmentPointTree::new(-5, 5, 0, combine);
    t.insert(-5, 0, 2);
    t.insert(0, 5, 3);
    assert_eq!(t.query(-5), Some(2));
    assert_eq!(t.query(0), Some(5));
    assert_eq!(t.query(5), Some(3));
    assert_eq!(t.query(6), None);
}

#[test]
fn segmentpoint_order_of_a_lawless_operator() {
    let mut t: SegmentPointTree<String, _> =
        SegmentPointTree::new(4, 6, "".to_string(), |x: &String, y: &String| format!("{}{}", x, y));
    t.insert(5, 5, "c".to_string());
    t.insert(4, 5, "a".to_string());
    assert_eq!(t.query(5), Some("ac".to_string()));
    assert_eq!(t.query(4), Some("a".to_string()));
    assert_eq!(t.query(6), Some("".to_string()));
}
