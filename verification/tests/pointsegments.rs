use interval_tree::pointsegment::PointSegmentTree;
use std::cmp::max;

#[test]
fn pointsegments_queries_on_empty() {
    let t = PointSegmentTree::new(0, 10, 0, Box::new(|x: &i64, y: &i64| x + y));
    assert_eq!(t.query(0, 10), Some(0));
    assert_eq!(t.query(5, 10), Some(0));
    assert_eq!(t.query(5, 5), Some(0));
    assert_eq!(t.query(10, 0), None);
    assert_eq!(t.query(-1, 5), None);
    assert_eq!(t.query(5, 11), None);
}

#[test]
fn pointsegments_single_point_accumulates() {
    let mut t = PointSegmentTree::new(5, 5, 0, Box::new(|x: &i64, y: &i64| x + y));
    assert_eq!(t.query(5, 5), Some(0));
    t.insert(5, 1);
    assert_eq!(t.query(5, 5), Some(1));
    t.insert(5, 100);
    assert_eq!(t.query(5, 5), Some(101));
    assert_eq!(t.query(4, 5), None);
    assert_eq!(t.query(5, 6), None);
    assert_eq!(t.bounds(), (5, 5));
}

#[test]
fn test_bounds() {
    let t = PointSegmentTree::new(3, 15, 0, Box::new(|x: &i64, y: &i64| max(*x, *y)));
    assert_eq!(t.bounds(), (3, 15));
}

#[test]
fn pointsegments_small_queries() {
    let mut t = PointSegmentTree::new(3, 15, 0, Box::new(|x: &i64, y: &i64| max(*x, *y)));
    t.insert(3, 1);
    t.insert(4, 2);
    t.insert(5, 5);
    assert_eq!(t.query(3, 3), Some(1));
    assert_eq!(t.query(4, 4), Some(2));
    assert_eq!(t.query(5, 5), Some(5));
    assert_eq!(t.query(3, 5), Some(5));
    assert_eq!(t.query(6, 10), Some(0));
    assert_eq!(t.query(5, 10), Some(5));
    assert_eq!(t.query(-10, 10), None);
    assert_eq!(t.query(100, 200), None);
    t.insert(6, 7);
    t.insert(9, 5);
    t.insert(11, 7);
    t.insert(12, 10);
    t.insert(14, 2);
    assert_eq!(t.query(6, 6), Some(7));
    assert_eq!(t.query(7, 7), Some(0));
    assert_eq!(t.query(9, 9), Some(5));
    assert_eq!(t.query(11, 11), Some(7));
    assert_eq!(t.query(12, 12), Some(10));
    assert_eq!(t.query(13, 13), Some(0));
    assert_eq!(t.query(14, 14), Some(2));
    assert_eq!(t.query(6, 9), Some(7));
    assert_eq!(t.query(7, 9), Some(5));
    assert_eq!(t.query(11, 13), Some(10));
    assert_eq!(t.query(12, 15), Some(10));
    assert_eq!(t.query(13, 15), Some(2));
    assert_eq!(t.query(14, 15), Some(2));
    assert_eq!(t.query(15, 15), Some(0));
}

#[test]
fn pointsegments_small_queries_2() {
    let mut t = PointSegmentTree::new(2, 15, 1.0, Box::new(|x: &f64, y: &f64| x * y));
    t.insert(3, 10.);
    t.insert(2, -1.);
    t.insert(5, 5.);
    assert_eq!(t.query(3, 3), Some(10.));
    assert_eq!(t.query(2, 2), Some(-1.));
    assert_eq!(t.query(5, 5), Some(5.));
    assert_eq!(t.query(3, 5), Some(50.));
    assert_eq!(t.query(6, 10), Some(1.));
    assert_eq!(t.query(2, 10), Some(-50.));
    assert_eq!(t.query(-10, 10), None);
    assert_eq!(t.query(100, 200), None);
    t.insert(6, 7.);
    t.insert(9, 5.);
    t.insert(11, 7.);
    t.insert(12, 10.);
    t.insert(14, 2.);
    assert_eq!(t.query(6, 6), Some(7.));
    assert_eq!(t.query(7, 7), Some(1.));
    assert_eq!(t.query(9, 9), Some(5.));
    assert_eq!(t.query(11, 11), Some(7.));
    assert_eq!(t.query(12, 12), Some(10.));
    assert_eq!(t.query(13, 13), Some(1.));
    assert_eq!(t.query(14, 14), Some(2.));
    assert_eq!(t.query(6, 9), Some(35.));
    assert_eq!(t.query(7, 9), Some(5.));
    assert_eq!(t.query(11, 13), Some(70.));
    assert_eq!(t.query(12, 15), Some(20.));
    assert_eq!(t.query(13, 15), Some(2.));
    assert_eq!(t.query(14, 15), Some(2.));
    assert_eq!(t.query(15, 15), Some(1.));
    assert_eq!(t.query(-10, 10), None);
    assert_eq!(t.query(100, 200), None);
}

#[test]
fn pointsegments_large_queries() {
    let mut t = PointSegmentTree::new(10, 1_000_000, 0, Box::new(|x: &i64, y: &i64| x + y));
    t.insert(100, 1);
    t.insert(200, 1);
    t.insert(300, 1);
    assert_eq!(t.query(10, 150), Some(1));
    assert_eq!(t.query(150, 250), Some(1));
    assert_eq!(t.query(250, 350), Some(1));
    assert_eq!(t.query(50, 350), Some(3));
    assert_eq!(t.query(50, 350_000), Some(3));

    for i in 1..10 {
        t.insert(i * 1000, 1000);
    }

    assert_eq!(t.query(1000, 3000), Some(3000));
    assert_eq!(t.query(1500, 5700), Some(4000));
    assert_eq!(t.query(5500, 9999), Some(4000));
    assert_eq!(t.query(50, 350_000), Some(9003));
    assert_eq!(t.query(250, 900_000), Some(9001));

    t.insert(900_200, 100);
    t.insert(900_300, -1000);

    assert_eq!(t.query(50, 900_250), Some(9103));
    assert_eq!(t.query(250, 999_000), Some(8101));
}

#[test]
fn pointsegments_largest_of_three_points() {
    let mut t = PointSegmentTree::new(-3, 5, 0, |x: &i64, y: &i64| max(*x, *y));
    t.insert(1, 3);
    t.insert(2, 5);
    t.insert(-1, 10);
    assert_eq!(t.query(1, 1), Some(3));
    assert_eq!(t.query(-1, 5), Some(10));
    assert_eq!(t.query(0, 0), Some(0));
    assert_eq!(t.bounds(), (-3, 5));
}

#[test]
fn pointsegments_order_of_insertion_does_not_matter() {
    let points: Vec<(i64, i64)> = vec![(4, 7), (9, 2), (4, 1), (12, 30), (3, 5), (9, 9)];
    let mut forward = PointSegmentTree::new(3, 15, 0, |x: &i64, y: &i64| x + y);
    let mut backward = PointSegmentTree::new(3, 15, 0, |x: &i64, y: &i64| x + y);
    for (p, v) in points.iter() {
        forward.insert(*p, *v);
    }
    for (p, v) in points.iter().rev() {
        backward.insert(*p, *v);
    }
    for a in 3..=15 {
        for b in a..=15 {
            let mut expected = 0;
            for (p, v) in points.iter() {
                if a <= *p && *p <= b {
                    expected += *v;
                }
            }
            assert_eq!(forward.query(a, b), Some(expected));
            assert_eq!(backward.query(a, b), Some(expected));
        }
    }
}

#[test]
fn pointsegments_matches_plain_table() {
    let lo: i64 = 2;
    let hi: i64 = 11;
    let mut t = PointSegmentTree::new(lo, hi, 0i64, |x: &i64, y: &i64| x + y);
    let mut table = vec![0i64; (hi - lo + 1) as usize];
    let mut seed: u64 = 7;
    for _ in 0..100 {
        seed = seed.wrapping_mul(6364136223846793005).wrapping_add(1442695040888963407);
        let p = lo + ((seed >> 33) % 10) as i64;
        seed = seed.wrapping_mul(6364136223846793005).wrapping_add(1442695040888963407);
        let v = ((seed >> 33) % 41) as i64 - 20;
        t.insert(p, v);
        table[(p - lo) as usize] += v;
        for a in lo..=hi {
            for b in a..=hi {
                let mut expected = 0;
                for q in a..=b {
                    expected += table[(q - lo) as usize];
                }
                assert_eq!(t.query(a, b), Some(expected));
            }
        }
        assert_eq!(t.query(lo - 1, hi), None);
        assert_eq!(t.query(lo, hi + 1), None);
        assert_eq!(t.query(5, 4), None);
    }
}

#[test]
fn pointsegments_fresh_tree_answers_default() {
    let t = PointSegmentTree::new(0, 7, 1, |x: &i64, y: &i64| x * y);
    assert_eq!(t.query(0, 7), Some(1));
    assert_eq!(t.query(2, 3), Some(1));
    assert_eq!(t.query(7, 7), Some(1));
}

#[test]
fn pointsegments_default_that_is_no_identity() {
    let mut t = PointSegmentTree::new(0, 7, 1, |x: &i64, y: &i64| x + y);
    assert_eq!(t.query(0, 7), Some(2));
    assert_eq!(t.query(2, 3), Some(1));
    assert_eq!(t.query(7, 7), Some(1));
    t.insert(0, 5);
    assert_eq!(t.query(0, 0), Some(7));
    assert_eq!(t.query(1, 1), Some(1));
}
