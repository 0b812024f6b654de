use lenstra::sieve::primes;

#[test]
fn primes_below_thirty() {
    assert_eq!(primes(30), vec![2, 3, 5, 7, 11, 13, 17, 19, 23, 29]);
}

#[test]
fn primes_below_small_bounds() {
    assert_eq!(primes(0), Vec::<i64>::new());
    assert_eq!(primes(1), Vec::<i64>::new());
    assert_eq!(primes(2), Vec::<i64>::new());
    assert_eq!(primes(3), vec![2]);
    assert_eq!(primes(4), vec![2, 3]);
    assert_eq!(primes(8), vec![2, 3, 5, 7]);
}

#[test]
fn primes_leave_the_bound_out() {
    assert_eq!(primes(29), vec![2, 3, 5, 7, 11, 13, 17, 19, 23]);
    assert_eq!(primes(31), vec![2, 3, 5, 7, 11, 13, 17, 19, 23, 29]);
    assert_eq!(primes(32), vec![2, 3, 5, 7, 11, 13, 17, 19, 23, 29, 31]);
}

#[test]
fn primes_below_a_thousand() {
    let list = primes(1000);
    assert_eq!(list.len(), 168);
    assert_eq!(list[0], 2);
    assert_eq!(list[167], 997);
    for pair in list.windows(2) {
        assert!(pair[0] < pair[1]);
    }
}

#[test]
fn primes_agree_with_trial_division() {
    let list = primes(2000);
    for n in 0..2000i64 {
        let prime = n >= 2 && (2..n).all(|d| n % d != 0);
        assert_eq!(list.contains(&n), prime, "{}", n);
    }
}

#[test]
fn primes_under_a_signed_bound() {
    assert_eq!(lenstra::primes_under(30), vec![2, 3, 5, 7, 11, 13, 17, 19, 23, 29]);
    assert_eq!(lenstra::primes_under(3), vec![2]);
    assert_eq!(lenstra::primes_under(2), Vec::<i64>::new());
    assert_eq!(lenstra::primes_under(0), Vec::<i64>::new());
    assert_eq!(lenstra::primes_under(-1), Vec::<i64>::new());
    assert_eq!(lenstra::primes_under(i64::MIN), Vec::<i64>::new());
    for limit in 0..300usize {
        assert_eq!(lenstra::primes_under(limit as i64), primes(limit));
    }
}
