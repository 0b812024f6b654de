use lenstra::curve::{elliptic_add, elliptic_mul};

const INFINITY: (i64, i64, i64) = (0, 1, 0);

#[test]
fn add_infinity_is_the_identity() {
    let p = (3, 6, 1);
    assert_eq!(elliptic_add(INFINITY, p, 2, 3, 97), p);
    assert_eq!(elliptic_add(p, INFINITY, 2, 3, 97), p);
    assert_eq!(elliptic_add(INFINITY, INFINITY, 2, 3, 97), INFINITY);
    assert_eq!(elliptic_add((5, 9, 0), p, 2, 3, 97), p);
    assert_eq!(elliptic_add(p, (5, 9, 0), 2, 3, 97), p);
}

#[test]
fn add_inverse_points_gives_infinity() {
    assert_eq!(elliptic_add((3, 6, 1), (3, 91, 1), 2, 3, 97), INFINITY);
    assert_eq!(elliptic_add((3, 91, 1), (3, 6, 1), 2, 3, 97), INFINITY);
    assert_eq!(elliptic_add((10, 0, 1), (10, 0, 1), 2, 3, 97), INFINITY);
}

#[test]
fn add_doubles_along_the_tangent() {
    assert_eq!(elliptic_add((3, 6, 1), (3, 6, 1), 2, 3, 97), (80, 10, 1));
}

#[test]
fn add_along_the_chord() {
    assert_eq!(elliptic_add((3, 6, 1), (80, 10, 1), 2, 3, 97), (80, 87, 1));
    assert_eq!(elliptic_add((80, 10, 1), (3, 6, 1), 2, 3, 97), (80, 87, 1));
}

#[test]
fn add_does_not_read_the_constant() {
    for b in [-5i64, 0, 3, 96, i64::MAX] {
        assert_eq!(elliptic_add((3, 6, 1), (80, 10, 1), 2, b, 97), (80, 87, 1));
    }
}

#[test]
fn add_reduces_its_arguments() {
    assert_eq!(elliptic_add((3 + 97, 6 - 97, 1), (80 + 2 * 97, 10, 1), 2, 3, 97), (80, 87, 1));
    assert_eq!(elliptic_add((3, 6, 1), (80, 10, 1), 2 + 97, 3, 97), (80, 87, 1));
    assert_eq!(elliptic_add((3, 6, 1), (3 + 97, 6, 1), 2, 3, 97), (80, 10, 1));
}

#[test]
fn add_commutes_on_a_curve_modulo_a_prime() {
    let mut points = vec![INFINITY];
    for x in 0..97i64 {
        for y in 0..97i64 {
            if (y * y - x * x * x - 2 * x - 3).rem_euclid(97) == 0 {
                points.push((x, y, 1));
            }
        }
    }
    assert!(points.len() > 50);
    for p in points.iter() {
        for q in points.iter() {
            let sum = elliptic_add(*p, *q, 2, 3, 97);
            assert_eq!(sum, elliptic_add(*q, *p, 2, 3, 97));
            assert!(points.contains(&sum));
        }
    }
}

#[test]
fn add_meets_a_denominator_without_inverse() {
    assert_eq!(elliptic_add((1, 2, 1), (32, 5, 1), 4, 0, 1271), (0, 0, 31));
    assert_eq!(elliptic_add((32, 5, 1), (1, 2, 1), 4, 0, 1271), (0, 0, 1240));
    assert_eq!(elliptic_add((0, 1, 1), (41, 7, 1), 4, 0, 1271), (0, 0, 41));
    assert_eq!(elliptic_add((10, 3, 1), (72, 3, 1), 4, 0, 1271), (0, 0, 62));
}

#[test]
fn add_same_x_follows_the_first_tangent() {
    assert_eq!(elliptic_add((5, 9, 1), (5, 20, 1), 4, 0, 1271), (531, 1213, 1));
    assert_eq!(elliptic_add((5, 20, 1), (5, 9, 1), 4, 0, 1271), (573, 1146, 1));
}

#[test]
fn add_keeps_a_marker() {
    assert_eq!(elliptic_add((0, 0, 31), (1, 2, 1), 4, 0, 1271), (0, 0, 31));
    assert_eq!(elliptic_add((1, 2, 1), (0, 0, 31), 4, 0, 1271), (0, 0, 31));
    assert_eq!(elliptic_add((0, 0, 31), (0, 0, 41), 4, 0, 1271), (0, 0, 31));
    assert_eq!(elliptic_add((0, 0, 31), INFINITY, 4, 0, 1271), (0, 0, 31));
    assert_eq!(elliptic_add(INFINITY, (0, 0, 31), 4, 0, 1271), (0, 0, 31));
}

#[test]
fn add_modulo_one() {
    assert_eq!(elliptic_add((3, 6, 1), (80, 10, 1), 2, 3, 1), INFINITY);
}

#[test]
fn add_with_a_large_modulus() {
    let m = i64::MAX;
    let p = (m - 1, m - 2, 1);
    let q = (m - 3, 5, 1);
    let sum = elliptic_add(p, q, m - 7, 0, m);
    assert_eq!(sum, elliptic_add(q, p, m - 7, 0, m));
    if sum.2 == 1 {
        assert!(0 <= sum.0 && sum.0 < m && 0 <= sum.1 && sum.1 < m);
    }
    let twice = elliptic_add(p, p, m - 7, 0, m);
    assert!(twice.2 >= 0);
}

#[test]
fn mul_by_zero_is_infinity() {
    assert_eq!(elliptic_mul(0, (3, 6, 1), 2, 3, 97), INFINITY);
    assert_eq!(elliptic_mul(0, (0, 0, 31), 4, 0, 1271), INFINITY);
    assert_eq!(elliptic_mul(0, (5, 9, 0), 2, 3, 97), INFINITY);
    assert_eq!(elliptic_mul(-4, (3, 6, 1), 2, 3, 97), INFINITY);
}

#[test]
fn mul_by_one_is_the_point() {
    assert_eq!(elliptic_mul(1, (3, 6, 1), 2, 3, 97), (3, 6, 1));
    assert_eq!(elliptic_mul(1, (1, 2, 1), 4, 0, 1271), (1, 2, 1));
    assert_eq!(elliptic_mul(1, (0, 0, 31), 4, 0, 1271), (0, 0, 31));
    assert_eq!(elliptic_mul(1, INFINITY, 4, 0, 1271), INFINITY);
    assert_eq!(elliptic_mul(1, (2, 0, 1), 4, 0, 1271), (2, 0, 1));
}

#[test]
fn mul_walks_through_the_group() {
    let p = (3, 6, 1);
    let expected = [INFINITY, (3, 6, 1), (80, 10, 1), (80, 87, 1), (3, 91, 1)];
    for k in 0..40i64 {
        assert_eq!(elliptic_mul(k, p, 2, 3, 97), expected[(k % 5) as usize], "{}", k);
    }
}

#[test]
fn mul_is_repeated_addition() {
    let p = (1, 2, 1);
    let mut sum = INFINITY;
    for k in 1..60i64 {
        sum = elliptic_add(sum, p, 4, 0, 1009);
        assert_eq!(elliptic_mul(k, p, 4, 0, 1009), sum, "{}", k);
    }
}

#[test]
fn mul_exact_values_modulo_a_composite() {
    assert_eq!(elliptic_mul(2, (1, 2, 1), 4, 0, 1271), (716, 971, 1));
    assert_eq!(elliptic_mul(3, (1, 2, 1), 4, 0, 1271), (508, 605, 1));
    assert_eq!(elliptic_mul(7, (1, 2, 1), 4, 0, 1271), (1145, 452, 1));
    assert_eq!(elliptic_mul(210, (1, 2, 1), 4, 0, 1271), (404, 684, 1));
    assert_eq!(elliptic_mul(720, (7, 11, 1), 4, 0, 1271), (975, 16, 1));
    assert_eq!(elliptic_mul(720, (3, 5, 1), 4, 0, 1271), INFINITY);
}

#[test]
fn mul_stops_at_a_marker() {
    assert_eq!(elliptic_mul(720, (1, 2, 1), 4, 0, 1271), (0, 0, 310));
    assert_eq!(elliptic_mul(5, (0, 0, 31), 4, 0, 1271), (0, 0, 31));
    assert_eq!(elliptic_mul(i64::MAX, (0, 0, 41), 4, 0, 1271), (0, 0, 41));
}
