//! Sets of divisors of a number, kept as vectors in ascending order.

use crate::arith::divides;
use vstd::arithmetic::div_mod::{lemma_fundamental_div_mod, lemma_fundamental_div_mod_converse};
use vstd::prelude::*;

verus! {

/// Each element is smaller than the one after it, so none occurs twice.
pub open spec fn ascending(s: Seq<i64>) -> bool {
    forall|i: int, j: int| 0 <= i < j < s.len() ==> s[i] < s[j]
}

/// `s` is a set of divisors of `n` as `factors_of` keeps it: in ascending
/// order, with one and `n` in it, and each element a divisor of `n` from one
/// up to `n`.
pub open spec fn divisor_set(s: Seq<i64>, n: int) -> bool {
    &&& ascending(s)
    &&& s.contains(1i64)
    &&& s.contains(n as i64)
    &&& forall|j: int| 0 <= j < s.len() ==> 1 <= #[trigger] s[j] <= n && divides(s[j] as int, n)
}

/// Every divisor of `n` from one up to `n` is in `s`.
pub open spec fn holds_every_divisor(s: Seq<i64>, n: int) -> bool {
    forall|d: int| 1 <= d <= n && divides(d, n) ==> #[trigger] s.contains(d as i64)
}

/// The quotient of `n` by a divisor is a divisor again, and dividing by it
/// gives the first one back.
pub proof fn lemma_cofactor(f: int, n: int)
    requires
        n > 0,
        1 <= f <= n,
        divides(f, n),
    ensures
        1 <= n / f <= n,
        divides(n / f, n),
        n / (n / f) == f,
        f * (n / f) == n,
{
    let c = n / f;
    lemma_fundamental_div_mod(n, f);
    assert(1 <= c <= n) by (nonlinear_arith)
        requires
            n == f * c,
            n > 0,
            1 <= f <= n,
    ;
    assert(n == f * c + 0 && n == c * f) by (nonlinear_arith)
        requires
            n == f * c,
    ;
    lemma_fundamental_div_mod_converse(n, c, f, 0);
}

/// Whether `value` is in `set`.
pub fn member(set: &Vec<i64>, value: i64) -> (found: bool)
    ensures
        found == set@.contains(value),
{
    let mut i: usize = 0;
    while i < set.len()
        invariant
            i <= set.len(),
            forall|j: int| 0 <= j < i ==> set[j] != value,
        decreases set.len() - i,
    {
        if set[i] == value {
            return true;
        }
        i += 1;
    }
    false
}

/// Puts `value` into the ascending `set` at its place, unless it is there
/// already. Returns whether the set grew.
pub fn insert_sorted(set: &mut Vec<i64>, value: i64) -> (added: bool)
    requires
        ascending(old(set)@),
    ensures
        ascending(final(set)@),
        forall|x: i64| final(set)@.contains(x) <==> (old(set)@.contains(x) || x == value),
        added == !old(set)@.contains(value),
        !added ==> final(set)@ == old(set)@,
        added ==> final(set)@.len() == old(set)@.len() + 1,
{
    let mut i: usize = 0;
    while i < set.len() && set[i] < value
        invariant
            i <= set.len(),
            set@ == old(set)@,
            forall|j: int| 0 <= j < i ==> set[j] < value,
        decreases set.len() - i,
    {
        i += 1;
    }
    if i < set.len() && set[i] == value {
        return false;
    }
    let ghost before = set@;
    set.insert(i, value);
    proof {
        before.insert_ensures(i as int, value);
        assert forall|x: i64| set@.contains(x) <==> (before.contains(x) || x == value) by {
            if before.contains(x) {
                let j = choose|j: int| 0 <= j < before.len() && before[j] == x;
                if j < i {
                    assert(set@[j] == x);
                } else {
                    assert(set@[j + 1] == x);
                }
            }
            if x == value {
                assert(set@[i as int] == x);
            }
            if set@.contains(x) {
                let j = choose|j: int| 0 <= j < set@.len() && set@[j] == x;
                if j < i {
                    assert(before[j] == x);
                } else if j > i {
                    assert(before[j - 1] == x);
                }
            }
        }
        assert forall|a: int, b: int| 0 <= a < b < set@.len() implies set@[a] < set@[b] by {
            let from_a = if a < i {
                a
            } else {
                a - 1
            };
            let from_b = if b < i {
                b
            } else {
                b - 1
            };
            if a != i {
                assert(set@[a] == before[from_a]);
            }
            if b != i {
                assert(set@[b] == before[from_b]);
            }
        }
        if before.contains(value) {
            let j = choose|j: int| 0 <= j < before.len() && before[j] == value;
            assert(false);
        }
    }
    true
}

/// Whether `set` holds every divisor of `n`. It is enough to look at the
/// divisors up to the square root: each larger one is the quotient of `n` by
/// one of those.
pub fn holds_all_divisors(set: &Vec<i64>, n: i64) -> (all: bool)
    requires
        n > 0,
    ensures
        all == holds_every_divisor(set@, n as int),
{
    let mut d: i64 = 1;
    while d <= n / d
        invariant
            n > 0,
            1 <= d <= n + 1,
            forall|e: int|
                1 <= e < d && #[trigger] divides(e, n as int) ==> set@.contains(e as i64)
                    && set@.contains(((n as int) / e) as i64),
        decreases n + 1 - d,
    {
        proof {
            lemma_fundamental_div_mod(n as int, d as int);
            assert(d * d <= n && 2 * d <= n + 1) by (nonlinear_arith)
                requires
                    d <= n / d,
                    n == d * (n / d) + n % d,
                    0 <= n % d,
                    d >= 1,
            ;
        }
        if n % d == 0 {
            proof {
                lemma_cofactor(d as int, n as int);
            }
            if !member(set, d) || !member(set, n / d) {
                proof {
                    let c = (n as int) / (d as int);
                    assert(!set@.contains((d as int) as i64) || !set@.contains(c as i64));
                }
                return false;
            }
        }
        d += 1;
    }
    proof {
        lemma_fundamental_div_mod(n as int, d as int);
        assert forall|e: int| 1 <= e <= n && divides(e, n as int) implies #[trigger] set@.contains(
            e as i64,
        ) by {
            if e >= d {
                let c = (n as int) / e;
                lemma_cofactor(e, n as int);
                assert(c < d) by (nonlinear_arith)
                    requires
                        e * c == n,
                        e >= d,
                        d >= 1,
                        c >= 1,
                        d > n / d,
                        n == d * (n / d) + n % d,
                        0 <= n % d < d,
                ;
                assert(divides(c, n as int));
            }
        }
    }
    true
}

/// Puts the divisor `f` of `n` into a set of divisors of `n`. Returns
/// whether the set grew.
pub fn insert_divisor(set: &mut Vec<i64>, f: i64, n: i64) -> (grew: bool)
    requires
        divisor_set(old(set)@, n as int),
        1 <= f <= n,
        divides(f as int, n as int),
    ensures
        divisor_set(final(set)@, n as int),
        forall|x: i64| final(set)@.contains(x) <==> (old(set)@.contains(x) || x == f),
        grew == !old(set)@.contains(f),
        !grew ==> final(set)@ == old(set)@,
        grew ==> final(set)@.len() == old(set)@.len() + 1,
{
    let grew = insert_sorted(set, f);
    proof {
        let before = old(set)@;
        let after = set@;
        assert forall|j: int| 0 <= j < after.len() implies 1 <= #[trigger] after[j] <= n
            && divides(after[j] as int, n as int) by {
            let x = after[j];
            assert(after.contains(x));
            if before.contains(x) {
                let i = choose|i: int| 0 <= i < before.len() && before[i] == x;
            }
        }
    }
    grew
}

} // verus!
