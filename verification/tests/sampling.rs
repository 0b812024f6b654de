use lenstra::sampler::{curve_through, sample};

#[test]
fn curve_through_exact_values() {
    let curve = curve_through(3, 6, 2, 97);
    assert_eq!((curve.point, curve.a, curve.b, curve.g), ((3, 6, 1), 2, 3, 1));
    let curve = curve_through(1, 2, 4, 1271);
    assert_eq!((curve.point, curve.a, curve.b, curve.g), ((1, 2, 1), 4, 1270, 1));
    let curve = curve_through(10, 20, 31, 1271);
    assert_eq!((curve.b, curve.g), (361, 1));
    let curve = curve_through(2, 3, 1, 15);
    assert_eq!((curve.b, curve.g), (14, 1));
}

#[test]
fn curve_through_finds_a_shared_divisor() {
    let curve = curve_through(5, 7, 3, 35);
    assert_eq!((curve.b, curve.g), (14, 5));
}

#[test]
fn curve_through_singular_everywhere() {
    let curve = curve_through(0, 0, 0, 1271);
    assert_eq!((curve.b, curve.g), (0, 1271));
    let curve = curve_through(1, 1, 1, 1);
    assert_eq!((curve.b, curve.g), (0, 1));
}

#[test]
fn curve_through_takes_any_integers() {
    let curve = curve_through(-3, 6, 2, 97);
    assert_eq!((curve.point, curve.b, curve.g), ((-3, 6, 1), 69, 1));
    let n = i64::MAX;
    let curve = curve_through(i64::MIN, i64::MAX, i64::MIN, n);
    assert!(0 <= curve.b && curve.b < n);
    assert!(1 <= curve.g && curve.g <= n);
    assert_eq!(n % curve.g, 0);
}

#[test]
fn curve_through_puts_the_point_on_the_curve() {
    for n in [7i64, 35, 97, 1271] {
        for x in 0..n.min(12) {
            for y in 0..n.min(12) {
                for a in 0..n.min(6) {
                    let curve = curve_through(x, y, a, n);
                    assert_eq!((y * y - x * x * x - a * x - curve.b).rem_euclid(n), 0);
                    let discriminant = 4 * a * a * a + 27 * curve.b * curve.b;
                    assert_eq!(curve.g, lenstra::arith::gcd(discriminant, n));
                }
            }
        }
    }
}

#[test]
fn sample_draws_a_point_on_its_curve() {
    let n = 1_000_003i64;
    let mut drawn = 0;
    let mut distinct = std::collections::BTreeSet::new();
    for _ in 0..50 {
        if let Some(curve) = sample(n) {
            drawn += 1;
            let (x, y, z) = curve.point;
            assert_eq!(z, 1);
            assert!(0 <= x && x < n);
            assert!(0 <= y && y < n);
            assert!(0 <= curve.a && curve.a < n);
            assert!(0 <= curve.b && curve.b < n);
            assert!(1 <= curve.g && curve.g < n);
            let lhs = (y as i128) * (y as i128);
            let rhs = (x as i128) * (x as i128) * (x as i128)
                + (curve.a as i128) * (x as i128)
                + curve.b as i128;
            assert_eq!((lhs - rhs).rem_euclid(n as i128), 0);
            distinct.insert((x, y, curve.a));
        }
    }
    assert!(drawn >= 45);
    assert!(distinct.len() >= 40);
}

#[test]
fn sample_gives_up_modulo_one() {
    assert!(sample(1).is_none());
}
