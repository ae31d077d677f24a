use interval_tree::common::mid;

#[test]
fn mid_splits_at_the_floor() {
    assert_eq!(mid(0, 10), 5);
    assert_eq!(mid(0, 1), 0);
    assert_eq!(mid(3, 15), 9);
    assert_eq!(mid(4, 6), 5);
    assert_eq!(mid(7, 7), 7);
}

#[test]
fn mid_of_negative_bounds() {
    assert_eq!(mid(-3, 5), 1);
    assert_eq!(mid(-10, -3), -7);
    assert_eq!(mid(-1, 0), -1);
}

#[test]
fn mid_of_the_widest_interval() {
    assert_eq!(mid(i64::MIN, i64::MAX), -1);
    assert_eq!(mid(i64::MAX - 1, i64::MAX), i64::MAX - 1);
    assert_eq!(mid(i64::MIN, i64::MIN + 1), i64::MIN);
}
