//! The primes below a bound, by the sieve of Eratosthenes.

use crate::arith::{divides, lemma_divides_combination};
use vstd::arithmetic::div_mod::{
    lemma_fundamental_div_mod, lemma_mod_multiples_vanish, lemma_mod_self_0,
};
use vstd::prelude::*;

verus! {

/// `n` is prime: it is at least two and nothing from two up to `n - 1`
/// divides it.
pub open spec fn is_prime(n: int) -> bool {
    n >= 2 && forall|d: int| 2 <= d < n ==> !#[trigger] divides(d, n)
}

/// The primes below `limit`, in ascending order.
pub open spec fn primes_below(limit: int) -> Seq<i64>
    decreases limit,
{
    if limit <= 0 {
        Seq::empty()
    } else if is_prime(limit - 1) {
        primes_below(limit - 1).push((limit - 1) as i64)
    } else {
        primes_below(limit - 1)
    }
}

/// `k` is at least two and has no divisor from two up to `bound - 1` other
/// than itself.
pub open spec fn unsieved(k: int, bound: int) -> bool {
    k >= 2 && forall|d: int| 2 <= d < bound && d < k ==> !#[trigger] divides(d, k)
}

/// What divides a divisor of `k` divides `k`.
proof fn lemma_divides_transitive(d: int, i: int, k: int)
    requires
        d > 0,
        i > 0,
        divides(d, i),
        divides(i, k),
    ensures
        divides(d, k),
{
    lemma_fundamental_div_mod(k, i);
    lemma_divides_combination(d, i, k / i, 0);
}

/// A multiple of `i` below the multiple that follows `mult` is at most `mult`.
proof fn lemma_no_multiple_between(i: int, mult: int, k: int)
    requires
        i > 0,
        divides(i, mult),
        divides(i, k),
        k < mult + i,
    ensures
        k <= mult,
{
    lemma_fundamental_div_mod(k, i);
    lemma_fundamental_div_mod(mult, i);
    let u = k / i;
    let c = mult / i;
    assert(u <= c) by (nonlinear_arith)
        requires
            i > 0,
            i * u < i * c + i,
    ;
    assert(i * u <= i * c) by (nonlinear_arith)
        requires
            i > 0,
            u <= c,
    ;
}

/// The multiple of `i` that follows a multiple of `i` is one.
proof fn lemma_next_multiple(i: int, mult: int)
    requires
        i > 0,
        divides(i, mult),
    ensures
        divides(i, mult + i),
{
    lemma_mod_multiples_vanish(1, mult, i);
}

/// Raising the bound of `unsieved` from `i` to `i + 1` rules out the proper
/// multiples of `i`, where `i` is at least two.
proof fn lemma_unsieved_step(k: int, i: int)
    ensures
        i >= 2 ==> unsieved(k, i + 1) == (unsieved(k, i) && !(i < k && divides(i, k))),
        i < 2 ==> unsieved(k, i + 1) == unsieved(k, i),
{
    if i >= 2 && unsieved(k, i) && !(i < k && divides(i, k)) {
        assert forall|d: int| 2 <= d < i + 1 && d < k implies !#[trigger] divides(d, k) by {
            if d < i {
                assert(!divides(d, k));
            }
        }
    }
}

/// Below the bound, what the sieve leaves is what is prime.
proof fn lemma_unsieved_is_prime(k: int, bound: int)
    requires
        k < bound,
    ensures
        unsieved(k, bound) == is_prime(k),
{
}

/// Below a bound that is not positive there is no prime.
proof fn lemma_primes_below_nothing(limit: int)
    ensures
        limit <= 0 ==> primes_below(limit) == primes_below(0),
{
}

/// All primes below `limit`, in ascending order. A bound that is not
/// positive has none below it.
///
/// The sieve holds one flag for each number below `limit`. A vector never
/// holds more than the machine can address, so where it was filled, `limit`
/// is known to fit an index.
pub fn primes_under(limit: i64) -> (list: Vec<i64>)
    ensures
        list@ == primes_below(limit as int),
        forall|j: int| 0 <= j < list.len() ==> is_prime(#[trigger] list[j] as int) && list[j] < limit,
        forall|j: int, k: int| 0 <= j < k < list.len() ==> list[j] < list[k],
        forall|p: int| is_prime(p) && p < limit ==> list@.contains(p as i64),
{
    let mut sieve: Vec<bool> = Vec::new();
    let mut filled: i64 = 0;
    while filled < limit
        invariant
            0 <= filled,
            limit > 0 ==> filled <= limit,
            limit <= 0 ==> filled == 0,
            sieve.len() == filled,
            forall|k: int| 0 <= k < filled ==> sieve[k] == (k >= 2),
        decreases limit - filled,
    {
        sieve.push(filled >= 2);
        filled += 1;
    }
    let size: usize = sieve.len();
    proof {
        lemma_primes_below_nothing(limit as int);
    }
    let mut i: usize = 0;
    while i < size
        invariant
            i <= size,
            limit > 0 ==> size == limit,
            limit <= 0 ==> size == 0 && primes_below(limit as int) == primes_below(0),
            sieve.len() == size,
            forall|k: int| 0 <= k < size ==> sieve[k] == unsieved(k, i as int),
        decreases size - i,
    {
        if sieve[i] {
            proof {
                assert(sieve[i as int] == unsieved(i as int, i as int));
                lemma_mod_self_0(i as int);
            }
            let mut mult: usize = i;
            while size - mult > i
                invariant
                    2 <= i <= mult < size,
                    sieve.len() == size,
                    divides(i as int, mult as int),
                    forall|k: int|
                        0 <= k < size ==> sieve[k] == (unsieved(k, i as int) && !(i < k <= mult
                            && divides(i as int, k))),
                decreases size - mult,
            {
                let ghost before = mult;
                mult += i;
                sieve.set(mult, false);
                proof {
                    lemma_next_multiple(i as int, before as int);
                    assert forall|k: int| 0 <= k < size implies sieve[k] == (unsieved(k, i as int)
                        && !(i < k <= mult && divides(i as int, k))) by {
                        if before < k < mult && divides(i as int, k) {
                            lemma_no_multiple_between(i as int, before as int, k);
                        }
                    }
                }
            }
            proof {
                assert forall|k: int| 0 <= k < size implies sieve[k] == unsieved(k, i + 1) by {
                    lemma_unsieved_step(k, i as int);
                    if k > i && divides(i as int, k) {
                        lemma_no_multiple_between(i as int, mult as int, k);
                    }
                }
            }
        } else {
            proof {
                assert(sieve[i as int] == unsieved(i as int, i as int));
                assert forall|k: int| 0 <= k < size implies sieve[k] == unsieved(k, i + 1) by {
                    lemma_unsieved_step(k, i as int);
                    if i >= 2 && k > i && divides(i as int, k) && unsieved(k, i as int) {
                        let d = choose|d: int| 2 <= d < i && d < i && divides(d, i as int);
                        lemma_divides_transitive(d, i as int, k);
                        assert(divides(d, k));
                    }
                }
            }
        }
        i += 1;
    }

    proof {
        assert forall|k: int| 0 <= k < size implies sieve[k] == is_prime(k) by {
            lemma_unsieved_is_prime(k, size as int);
        }
    }
    let mut list: Vec<i64> = Vec::new();
    let mut n: usize = 0;
    while n < size
        invariant
            n <= size <= i64::MAX,
            limit > 0 ==> size == limit,
            limit <= 0 ==> size == 0 && primes_below(limit as int) == primes_below(0),
            sieve.len() == size,
            forall|k: int| 0 <= k < size ==> sieve[k] == is_prime(k),
            list@ == primes_below(n as int),
            forall|j: int| 0 <= j < list.len() ==> is_prime(#[trigger] list[j] as int) && list[j] < n,
            forall|j: int, k: int| 0 <= j < k < list.len() ==> list[j] < list[k],
            forall|p: int| is_prime(p) && p < n ==> list@.contains(p as i64),
        decreases size - n,
    {
        if sieve[n] {
            let ghost earlier = list@;
            list.push(n as i64);
            proof {
                assert forall|p: int| is_prime(p) && p < n + 1 implies list@.contains(p as i64) by {
                    if p < n {
                        let j = choose|j: int| 0 <= j < earlier.len() && earlier[j] == p as i64;
                        assert(list@[j] == p as i64);
                    } else {
                        assert(list@[list.len() - 1] == p as i64);
                    }
                }
            }
        }
        n += 1;
    }
    list
}

/// All primes below `limit`, in ascending order.
pub fn primes(limit: usize) -> (list: Vec<i64>)
    requires
        limit <= i64::MAX,
    ensures
        list@ == primes_below(limit as int),
        forall|j: int| 0 <= j < list.len() ==> is_prime(#[trigger] list[j] as int) && list[j] < limit,
        forall|j: int, k: int| 0 <= j < k < list.len() ==> list[j] < list[k],
        forall|p: int| is_prime(p) && p < limit ==> list@.contains(p as i64),
{
    primes_under(limit as i64)
}

} // verus!
