use interval_tree::pointmax::PointMaxTree;

#[test]
fn pointmax_queries_on_empty() {
    let t = PointMaxTree::new(0, 10);

    assert_eq!(t.query(-1), None);
    assert_eq!(t.query(11), None);
    assert_eq!(t.query(1), Some(0));
    assert_eq!(t.query(5), Some(0));
}

#[test]
fn pointmax_small_queries() {
    let mut t = PointMaxTree::new(0, 10);
    t.insert(0, 2, 1);
    t.insert(0, 5, 10);
    t.insert(5, 6, 2);
    t.insert(5, 7, 1);
    t.insert(10, 10, 5);
    println!("{:?}", t);
    let values = vec![11, 11, 11, 10, 10, 13, 3, 1, 0, 0, 5];
    assert_eq!(t.query(-1), None);
    assert_eq!(t.query(11), None);
    assert_eq!(t.query(100), None);
    for (p, v) in (0..10).zip(values) {
        println!("{}", p);
        assert_eq!(t.query(p), Some(v));
    }
}

#[test]
fn pointmax_last_point_is_read() {
    let mut t = PointMaxTree::new(0, 10);
    t.insert(10, 10, 5);
    t.insert(0, 10, -2);
    assert_eq!(t.query(10), Some(3));
    assert_eq!(t.query(9), Some(-2));
}

#[test]
fn pointmax_singleton_tree_has_bounds() {
    let mut t = PointMaxTree::new(4, 4);
    t.insert(4, 4, 7);
    assert_eq!(t.query(4), Some(7));
    assert_eq!(t.query(3), None);
    assert_eq!(t.query(5), None);
}
