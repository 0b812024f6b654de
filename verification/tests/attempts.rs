use lenstra::factor::{lenstra, lenstra_, smooth_walk, ATTEMPTS, NOT_FOUND, RETRIES};
use lenstra::sieve::primes;

#[test]
fn the_budgets() {
    assert_eq!(RETRIES, 10);
    assert_eq!(ATTEMPTS, 500);
    assert_eq!(NOT_FOUND, -1);
}

#[test]
fn smooth_walk_finds_a_divisor() {
    let list = primes(1000);
    assert_eq!(smooth_walk(&list, (1, 2, 1), 4, 1270, 1271, 1000), Some(31));
    assert_eq!(smooth_walk(&list, (7, 11, 1), 4, 0, 1271, 1000), Some(31));
    assert_eq!(smooth_walk(&primes(50), (10, 20, 1), 31, 361, 1271, 50), Some(41));
    assert_eq!(smooth_walk(&primes(10), (5, 7, 1), 3, 14, 35, 10), Some(7));
    assert_eq!(smooth_walk(&primes(20), (2, 3, 1), 1, 14, 15, 20), Some(3));
}

#[test]
fn smooth_walk_finds_nothing() {
    assert_eq!(smooth_walk(&primes(1000), (3, 5, 1), 4, 0, 1271, 1000), None);
    assert_eq!(smooth_walk(&primes(100), (3, 6, 1), 2, 3, 97, 100), None);
    assert_eq!(smooth_walk(&primes(1000), (0, 1, 0), 4, 0, 1271, 1000), None);
}

#[test]
fn smooth_walk_with_a_small_bound() {
    assert_eq!(smooth_walk(&primes(2), (1, 2, 1), 4, 0, 1271, 2), None);
    assert_eq!(smooth_walk(&primes(3), (1, 2, 1), 4, 0, 1271, 3), None);
    assert_eq!(smooth_walk(&primes(8), (1, 2, 1), 4, 0, 1271, 8), None);
    assert_eq!(smooth_walk(&Vec::new(), (1, 2, 1), 4, 0, 1271, 1000), None);
    assert_eq!(smooth_walk(&primes(1000), (1, 2, 1), 4, 0, 1271, 0), None);
    assert_eq!(smooth_walk(&primes(1000), (1, 2, 1), 4, 0, 1271, -5), None);
}

#[test]
fn smooth_walk_from_a_marker() {
    assert_eq!(smooth_walk(&primes(1000), (0, 0, 31), 4, 0, 1271, 1000), Some(31));
    assert_eq!(smooth_walk(&primes(1000), (0, 0, 62), 4, 0, 1271, 1000), Some(31));
    assert_eq!(smooth_walk(&Vec::new(), (0, 0, 82), 4, 0, 1271, 0), Some(41));
}

#[test]
fn lenstra_attempt_returns_a_proper_divisor() {
    for n in [1271i64, 35, 25, 49, 221, 997 * 991, 1_000_003 * 7, 2 * 3 * 5 * 7 * 11 * 13] {
        let mut found = 0;
        for _ in 0..40 {
            if let Some(f) = lenstra_(n, 1000) {
                found += 1;
                assert!(1 < f && f < n, "{} {}", n, f);
                assert_eq!(n % f, 0, "{} {}", n, f);
            }
        }
        assert!(found > 0, "{}", n);
    }
}

#[test]
fn lenstra_attempt_finds_nothing_in_a_prime() {
    for n in [2i64, 3, 5, 97, 1009, 1_000_003] {
        for _ in 0..5 {
            assert_eq!(lenstra_(n, 100), None);
        }
    }
    assert_eq!(lenstra_(1, 100), None);
}

#[test]
fn lenstra_returns_a_proper_divisor() {
    for n in [1271i64, 35, 221, 997 * 991] {
        let f = lenstra(n, 1000);
        assert!(1 < f && f < n, "{} {}", n, f);
        assert_eq!(n % f, 0);
    }
}

#[test]
fn lenstra_reports_nothing_found() {
    assert_eq!(lenstra(1009, 100), NOT_FOUND);
    assert_eq!(lenstra(2, 100), -1);
    assert_eq!(lenstra(1, 100), -1);
}

#[test]
fn attempt_on_returns_what_the_discriminant_shares() {
    let curve = lenstra::sampler::curve_through(5, 7, 3, 35);
    assert_eq!(curve.g, 5);
    assert_eq!(lenstra::attempt_on(curve, 35, 1000), Some(5));
    let curve = lenstra::sampler::curve_through(5, 7, 3, 35);
    assert_eq!(lenstra::attempt_on(curve, 35, 0), Some(5));
}

#[test]
fn attempt_on_walks_the_point_of_the_curve() {
    let curve = lenstra::sampler::curve_through(1, 2, 4, 1271);
    assert_eq!(lenstra::attempt_on(curve, 1271, 1000), Some(31));
    let curve = lenstra::sampler::curve_through(10, 20, 31, 1271);
    assert_eq!(lenstra::attempt_on(curve, 1271, 50), Some(41));
    let curve = lenstra::sampler::curve_through(2, 3, 1, 15);
    assert_eq!(lenstra::attempt_on(curve, 15, 20), Some(3));
}

#[test]
fn attempt_on_finds_nothing() {
    let curve = lenstra::sampler::curve_through(3, 5, 4, 1271);
    assert_eq!(lenstra::attempt_on(curve, 1271, 1000), None);
    let curve = lenstra::sampler::curve_through(3, 6, 2, 97);
    assert_eq!(lenstra::attempt_on(curve, 97, 100), None);
    let curve = lenstra::sampler::curve_through(1, 2, 4, 1271);
    assert_eq!(lenstra::attempt_on(curve, 1271, 0), None);
    let curve = lenstra::sampler::curve_through(1, 2, 4, 1271);
    assert_eq!(lenstra::attempt_on(curve, 1271, -7), None);
    let curve = lenstra::sampler::curve_through(1, 2, 4, 1271);
    assert_eq!(lenstra::attempt_on(curve, 1271, 8), None);
}
