use lenstra::residue::{product, reduce};

#[test]
fn reduce_gives_the_least_residue() {
    assert_eq!(reduce(0, 7), 0);
    assert_eq!(reduce(6, 7), 6);
    assert_eq!(reduce(7, 7), 0);
    assert_eq!(reduce(100, 7), 2);
    assert_eq!(reduce(-1, 7), 6);
    assert_eq!(reduce(-7, 7), 0);
    assert_eq!(reduce(-100, 7), 5);
    assert_eq!(reduce(12345, 1), 0);
}

#[test]
fn reduce_on_wide_values() {
    let m = i64::MAX;
    assert_eq!(reduce(i128::from(m) * 3 + 5, m), 5);
    assert_eq!(reduce(-(i128::from(m) * 3) - 5, m), m - 5);
    assert_eq!(reduce(i128::MAX, 2), 1);
    assert_eq!(reduce(i128::MIN, 2), 0);
    assert_eq!(reduce(i128::MIN + 1, 2), 1);
}

#[test]
fn product_never_overflows() {
    assert_eq!(product(3, -4), -12);
    assert_eq!(product(0, i64::MIN), 0);
    assert_eq!(product(i64::MAX, i64::MAX), (i64::MAX as i128) * (i64::MAX as i128));
    assert_eq!(product(i64::MIN, i64::MIN), 1i128 << 126);
    assert_eq!(product(i64::MIN, i64::MAX), (i64::MIN as i128) * (i64::MAX as i128));
}
