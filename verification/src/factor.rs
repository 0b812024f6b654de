//! One attempt to split `n` on a random curve, the retries around it, and
//! the collection of the divisors that the attempts find.

use crate::arith::{divides, gcd, gcd_of, lemma_gcd_of_bound, lemma_gcd_of_is_gcd};
use crate::divisors::{divisor_set, holds_all_divisors, holds_every_divisor, insert_divisor};
use crate::curve::{
    elliptic_mul, ints, lemma_mul_marker, lemma_mul_sound, mul_spec, sound, Point,
};
use crate::residue::product;
use crate::sampler::{discriminant, sample, sampled, Curve};
use crate::sieve::{is_prime, primes_below, primes_under};
use vstd::arithmetic::div_mod::lemma_mod_self_0;
use vstd::prelude::*;

verus! {

/// How often `lenstra` tries before it reports that it found nothing.
pub const RETRIES: u32 = 10;

/// How many attempts `factors_of` makes at most.
pub const ATTEMPTS: u32 = 500;

/// What `lenstra` returns when no attempt found a divisor.
pub const NOT_FOUND: i64 = -1;

/// How far the power `pp` is below `limit`.
pub open spec fn room(pp: int, limit: int) -> int {
    if pp < limit {
        limit - pp
    } else {
        0
    }
}

/// The point `q` multiplied by `p` once for each of the powers `pp`,
/// `p * pp`, ... of `p` that lie below `limit`.
pub open spec fn power_walk(p: int, pp: int, q: (int, int, int), a: int, n: int, limit: int) -> (
    int,
    int,
    int,
)
    decreases room(pp, limit),
{
    if p < 2 || pp < 1 || pp >= limit {
        q
    } else {
        proof {
            assert(p * pp > pp) by (nonlinear_arith)
                requires
                    p >= 2,
                    pp >= 1,
            ;
        }
        power_walk(p, p * pp, mul_spec(p, q, a, n), a, n, limit)
    }
}

/// The point `q` after the walk over every number of `list` in turn.
pub open spec fn prime_walk(list: Seq<i64>, q: (int, int, int), a: int, n: int, limit: int) -> (
    int,
    int,
    int,
)
    decreases list.len(),
{
    if list.len() == 0 {
        q
    } else {
        prime_walk(
            list.drop_first(),
            power_walk(list[0] as int, list[0] as int, q, a, n, limit),
            a,
            n,
            limit,
        )
    }
}

/// A marker stays as it is through the powers of one prime.
proof fn lemma_power_walk_marker(p: int, pp: int, q: (int, int, int), a: int, n: int, limit: int)
    requires
        q.2 > 1,
    ensures
        power_walk(p, pp, q, a, n, limit) == q,
    decreases room(pp, limit),
{
    if !(p < 2 || pp < 1 || pp >= limit) {
        assert(p * pp > pp) by (nonlinear_arith)
            requires
                p >= 2,
                pp >= 1,
        ;
        lemma_mul_marker(p, q, a, n);
        lemma_power_walk_marker(p, p * pp, q, a, n, limit);
    }
}

/// A marker stays as it is through the whole walk.
proof fn lemma_prime_walk_marker(list: Seq<i64>, q: (int, int, int), a: int, n: int, limit: int)
    requires
        q.2 > 1,
    ensures
        prime_walk(list, q, a, n, limit) == q,
    decreases list.len(),
{
    if list.len() > 0 {
        lemma_power_walk_marker(list[0] as int, list[0] as int, q, a, n, limit);
        lemma_prime_walk_marker(list.drop_first(), q, a, n, limit);
    }
}

/// The powers of one prime keep the markers sound.
proof fn lemma_power_walk_sound(p: int, pp: int, q: (int, int, int), a: int, n: int, limit: int)
    requires
        n > 0,
        sound(q, n),
    ensures
        sound(power_walk(p, pp, q, a, n, limit), n),
    decreases room(pp, limit),
{
    if !(p < 2 || pp < 1 || pp >= limit) {
        assert(p * pp > pp) by (nonlinear_arith)
            requires
                p >= 2,
                pp >= 1,
        ;
        lemma_mul_sound(p, q, crate::curve::infinity(), a, n);
        lemma_power_walk_sound(p, p * pp, mul_spec(p, q, a, n), a, n, limit);
    }
}

/// The walk keeps the markers sound: where it starts from a point, a marker
/// at its end carries a number below `n` that shares a divisor with `n`.
pub proof fn lemma_prime_walk_sound(
    list: Seq<i64>,
    q: (int, int, int),
    a: int,
    n: int,
    limit: int,
)
    requires
        n > 0,
        sound(q, n),
    ensures
        sound(prime_walk(list, q, a, n, limit), n),
    decreases list.len(),
{
    if list.len() > 0 {
        let next = power_walk(list[0] as int, list[0] as int, q, a, n, limit);
        lemma_power_walk_sound(list[0] as int, list[0] as int, q, a, n, limit);
        lemma_prime_walk_sound(list.drop_first(), next, a, n, limit);
    }
}

/// What a marker gives away: the greatest common divisor of its number and
/// `n` is a divisor of `n` strictly between one and `n`.
pub proof fn lemma_marker_splits(end: (int, int, int), n: int)
    requires
        n > 0,
        end.2 > 1,
        sound(end, n),
    ensures
        1 < gcd_of(end.2, n) < n,
        divides(gcd_of(end.2, n), n),
{
    lemma_gcd_of_bound(end.2, n);
    lemma_gcd_of_is_gcd(end.2, n);
}

/// Walks the point over the numbers of `list`, which are meant to be the
/// primes below `limit`: for each `p` of them the point is multiplied by `p`
/// once for every power of `p` below `limit`. The first marker met ends the
/// walk, and the greatest common divisor of its number and `n` is returned.
/// A walk that meets none returns `None`.
pub fn smooth_walk(list: &Vec<i64>, point: Point, a: i64, b: i64, n: i64, limit: i64) -> (found:
    Option<i64>)
    requires
        n > 0,
        forall|j: int| 0 <= j < list.len() ==> list[j] >= 2,
    ensures
        ({
            let end = prime_walk(list@, ints(point), a as int, n as int, limit as int);
            match found {
                Some(f) => end.2 > 1 && f == gcd_of(end.2, n as int),
                None => end.2 <= 1,
            }
        }),
        sound(ints(point), n as int) ==> (match found {
            Some(f) => 1 < f < n && divides(f as int, n as int),
            None => true,
        }),
{
    let ghost whole = prime_walk(list@, ints(point), a as int, n as int, limit as int);
    proof {
        assert(list@.subrange(0, list.len() as int) == list@);
        if whole.2 > 1 {
            lemma_gcd_of_bound(whole.2, n as int);
            if sound(ints(point), n as int) {
                lemma_prime_walk_sound(list@, ints(point), a as int, n as int, limit as int);
                lemma_marker_splits(whole, n as int);
            }
        }
    }
    if point.2 > 1 {
        proof {
            lemma_prime_walk_marker(list@, ints(point), a as int, n as int, limit as int);
        }
        return Some(gcd(point.2, n));
    }
    let mut q = point;
    let mut i: usize = 0;
    while i < list.len()
        invariant
            n > 0,
            i <= list.len(),
            q.2 <= 1,
            forall|j: int| 0 <= j < list.len() ==> list[j] >= 2,
            whole == prime_walk(list@, ints(point), a as int, n as int, limit as int),
            whole == prime_walk(
                list@.subrange(i as int, list.len() as int),
                ints(q),
                a as int,
                n as int,
                limit as int,
            ),
            whole.2 > 1 ==> gcd_of(whole.2, n as int) <= i64::MAX,
            whole.2 > 1 && sound(ints(point), n as int) ==> 1 < gcd_of(whole.2, n as int) < n
                && divides(gcd_of(whole.2, n as int), n as int),
        decreases list.len() - i,
    {
        let p = list[i];
        let ghost rest = list@.subrange(i as int + 1, list.len() as int);
        let ghost start = ints(q);
        proof {
            assert(list@.subrange(i as int, list.len() as int).drop_first() == rest);
        }
        let mut pp: i128 = p as i128;
        while pp < limit as i128
            invariant
                n > 0,
                p >= 2,
                pp >= 1,
                q.2 <= 1,
                whole == prime_walk(list@, ints(point), a as int, n as int, limit as int),
                whole == prime_walk(
                    rest,
                    power_walk(p as int, pp as int, ints(q), a as int, n as int, limit as int),
                    a as int,
                    n as int,
                    limit as int,
                ),
                whole.2 > 1 ==> gcd_of(whole.2, n as int) <= i64::MAX,
                whole.2 > 1 && sound(ints(point), n as int) ==> 1 < gcd_of(whole.2, n as int) < n
                    && divides(gcd_of(whole.2, n as int), n as int),
            decreases room(pp as int, limit as int),
        {
            let ghost before = ints(q);
            q = elliptic_mul(p, q, a, b, n);
            let next = product(p, pp as i64);
            proof {
                assert(p * pp > pp) by (nonlinear_arith)
                    requires
                        p >= 2,
                        pp >= 1,
                ;
                assert(power_walk(p as int, pp as int, before, a as int, n as int, limit as int)
                    == power_walk(
                    p as int,
                    next as int,
                    ints(q),
                    a as int,
                    n as int,
                    limit as int,
                ));
            }
            if q.2 > 1 {
                proof {
                    lemma_power_walk_marker(
                        p as int,
                        next as int,
                        ints(q),
                        a as int,
                        n as int,
                        limit as int,
                    );
                    lemma_prime_walk_marker(rest, ints(q), a as int, n as int, limit as int);
                }
                return Some(gcd(q.2, n));
            }
            pp = next;
        }
        i += 1;
    }
    None
}

/// What an attempt makes of the curve `curve`: the divisor that its
/// discriminant shares with `n`, where that is above one; otherwise what the
/// marker gives away that ends the walk of its point over the primes below
/// `limit`; `None` where the walk ends in no marker.
pub open spec fn curve_outcome(curve: Curve, n: int, limit: int) -> Option<int> {
    if curve.g > 1 {
        Some(curve.g as int)
    } else {
        let end = prime_walk(primes_below(limit), ints(curve.point), curve.a as int, n, limit);
        if end.2 > 1 {
            Some(gcd_of(end.2, n))
        } else {
            None
        }
    }
}

/// What an attempt makes of what the sampling gave: nothing where no curve
/// was drawn, otherwise what it makes of the curve.
pub open spec fn attempt_outcome(drawn: Option<Curve>, n: int, limit: int) -> Option<int> {
    match drawn {
        Some(curve) => curve_outcome(curve, n, limit),
        None => None,
    }
}

/// A result as a machine integer is the given outcome.
pub open spec fn agrees(found: Option<i64>, outcome: Option<int>) -> bool {
    match found {
        Some(f) => outcome == Some(f as int),
        None => outcome is None,
    }
}

/// What an attempt finds on a curve that was drawn. A divisor above one that
/// the discriminant shares with `n` is returned at once. Otherwise the point
/// of the curve is walked over the primes below `limit`, and what the first
/// marker gives away is returned; `None` where the walk meets no marker.
pub fn attempt_on(curve: Curve, n: i64, limit: i64) -> (found: Option<i64>)
    requires
        n > 0,
    ensures
        agrees(found, curve_outcome(curve, n as int, limit as int)),
        curve.wf(n as int) && curve.g < n ==> (match found {
            Some(f) => 1 < f < n && divides(f as int, n as int),
            None => true,
        }),
{
    if curve.g > 1 {
        proof {
            lemma_gcd_of_is_gcd(discriminant(curve.a as int, curve.b as int), n as int);
        }
        return Some(curve.g);
    }
    let list = primes_under(limit);
    smooth_walk(&list, curve.point, curve.a, curve.b, n, limit)
}

/// `outcome` is what one attempt to split `n` can give: there are draws of
/// the sampling, and what the attempt makes of their curve is `outcome`.
pub open spec fn attempted(outcome: Option<i64>, n: int, limit: int) -> bool {
    exists|draws: Seq<(i64, i64, i64)>, drawn: Option<Curve>|
        #[trigger] sampled(draws, n, drawn) && agrees(outcome, attempt_outcome(drawn, n, limit))
}

/// One attempt to split `n`: a random curve is drawn, and `attempt_on` says
/// what is found on it. Where the sampling gives no curve, nothing is found.
///
/// Which curve is drawn is left to chance, so no `n` is sure of a divisor.
/// Whatever the draw, a number that is returned divides `n` and lies
/// strictly between one and `n`, so that nothing is found in one or in a
/// prime.
pub fn lenstra_(n: i64, limit: i64) -> (found: Option<i64>)
    requires
        n > 0,
    ensures
        attempted(found, n as int, limit as int),
        match found {
            Some(f) => 1 < f < n && divides(f as int, n as int),
            None => true,
        },
        n == 1 || is_prime(n as int) ==> found is None,
{
    let drawn = sample(n);
    let ghost draws = choose|draws: Seq<(i64, i64, i64)>| sampled(draws, n as int, drawn);
    let ghost given = drawn;
    let found = match drawn {
        Some(curve) => attempt_on(curve, n, limit),
        None => None,
    };
    proof {
        assert(sampled(draws, n as int, given) && agrees(
            found,
            attempt_outcome(given, n as int, limit as int),
        ));
    }
    found
}

/// `factor` is what `lenstra` returns where its attempts give `outcomes`, in
/// that order. There are at most `RETRIES` of them, and all but the last
/// found nothing. Either the last found a divisor, which is `factor`; or all
/// `RETRIES` found nothing, and `factor` is `NOT_FOUND`.
pub open spec fn retried(outcomes: Seq<Option<i64>>, n: int, limit: int, factor: i64) -> bool {
    &&& 1 <= outcomes.len() <= RETRIES
    &&& forall|i: int| 0 <= i < outcomes.len() ==> attempted(#[trigger] outcomes[i], n, limit)
    &&& forall|i: int| 0 <= i < outcomes.len() - 1 ==> #[trigger] outcomes[i] is None
    &&& match outcomes.last() {
        Some(m) => factor == m,
        None => outcomes.len() == RETRIES && factor == NOT_FOUND,
    }
}

/// Tries up to `RETRIES` curves and returns the first divisor of `n` that
/// one of them finds; `NOT_FOUND` where none of them finds one. No curve is
/// tried after the first find.
pub fn lenstra(n: i64, limit: i64) -> (factor: i64)
    requires
        n > 0,
    ensures
        exists|outcomes: Seq<Option<i64>>| retried(outcomes, n as int, limit as int, factor),
        factor == NOT_FOUND || (1 < factor < n && divides(factor as int, n as int)),
        n == 1 || is_prime(n as int) ==> factor == NOT_FOUND,
{
    let mut tries: u32 = 0;
    let ghost mut history: Seq<Option<i64>> = Seq::empty();
    while tries < RETRIES
        invariant
            n > 0,
            tries <= RETRIES,
            history.len() == tries,
            forall|i: int|
                0 <= i < history.len() ==> attempted(#[trigger] history[i], n as int, limit as int),
            forall|i: int| 0 <= i < history.len() ==> #[trigger] history[i] is None,
        decreases RETRIES - tries,
    {
        let found = lenstra_(n, limit);
        proof {
            history = history.push(found);
        }
        match found {
            Some(m) => {
                proof {
                    assert(retried(history, n as int, limit as int, m));
                }
                return m;
            },
            None => {},
        }
        tries += 1;
    }
    proof {
        assert(retried(history, n as int, limit as int, NOT_FOUND));
    }
    NOT_FOUND
}

/// `factors` is what `factors_of` collects where its attempts give
/// `outcomes`, in that order. There are at most `ATTEMPTS` of them. In
/// `factors` are one, `n` and every divisor that an attempt found, and
/// nothing else. Fewer than `ATTEMPTS` attempts were made only where
/// `factors` holds every divisor of `n`.
pub open spec fn collected(outcomes: Seq<Option<i64>>, n: int, limit: int, factors: Seq<i64>) -> bool {
    &&& outcomes.len() <= ATTEMPTS
    &&& forall|i: int| 0 <= i < outcomes.len() ==> attempted(#[trigger] outcomes[i], n, limit)
    &&& forall|x: i64|
        #![trigger factors.contains(x)]
        #![trigger outcomes.contains(Some(x))]
        factors.contains(x) <==> x == 1 || x == n || outcomes.contains(Some(x))
    &&& outcomes.len() < ATTEMPTS ==> holds_every_divisor(factors, n)
}

/// The divisors of `n` that up to `ATTEMPTS` attempts find, in ascending
/// order and each once, with one and `n` always among them. An attempt that
/// finds nothing adds nothing. What is returned need not hold every prime
/// factor of `n`.
///
/// Where `n` is at most the square of `limit`, looking through the divisors
/// of `n` up to its square root is no more work than the sieve of one
/// attempt. This is then done at the start and after each find, and the
/// attempts end once every divisor of `n` is there, when no further attempt
/// could add one.
pub fn factors_of(n: i64, limit: i64) -> (factors: Vec<i64>)
    requires
        n > 0,
    ensures
        exists|outcomes: Seq<Option<i64>>| collected(outcomes, n as int, limit as int, factors@),
        divisor_set(factors@, n as int),
        factors.len() <= 2 + ATTEMPTS,
{
    let mut factors: Vec<i64> = Vec::new();
    factors.push(1);
    if n > 1 {
        factors.push(n);
    }
    proof {
        assert(factors@[0] == 1);
        assert(factors@[factors.len() - 1] == n);
        lemma_mod_self_0(n as int);
    }
    let scan = limit > 0 && n as i128 <= product(limit, limit);
    let mut complete = scan && holds_all_divisors(&factors, n);
    let mut attempts: u32 = 0;
    let ghost mut history: Seq<Option<i64>> = Seq::empty();
    while attempts < ATTEMPTS && !complete
        invariant
            n > 0,
            attempts <= ATTEMPTS,
            divisor_set(factors@, n as int),
            factors.len() <= 2 + attempts,
            history.len() == attempts,
            forall|i: int|
                0 <= i < history.len() ==> attempted(#[trigger] history[i], n as int, limit as int),
            forall|x: i64|
                #![trigger factors@.contains(x)]
                #![trigger history.contains(Some(x))]
                factors@.contains(x) <==> x == 1 || x == n || history.contains(Some(x)),
            complete ==> holds_every_divisor(factors@, n as int),
        decreases ATTEMPTS - attempts,
    {
        let found = lenstra_(n, limit);
        let q = match found {
            Some(m) => m,
            None => 1,
        };
        let ghost earlier = history;
        let ghost before = factors@;
        proof {
            history = history.push(found);
        }
        let grew = insert_divisor(&mut factors, q, n);
        proof {
            assert forall|x: i64|
                #![trigger factors@.contains(x)]
                #![trigger history.contains(Some(x))]
                factors@.contains(x) <==> x == 1 || x == n || history.contains(Some(x)) by {
                lemma_pushed_contains(earlier, found, Some(x));
                assert(before.contains(1i64));
            }
        }
        if grew && scan {
            complete = holds_all_divisors(&factors, n);
        }
        attempts += 1;
    }
    proof {
        assert(collected(history, n as int, limit as int, factors@));
    }
    factors
}

/// After a push, a sequence holds what it held and what was pushed.
proof fn lemma_pushed_contains(s: Seq<Option<i64>>, pushed: Option<i64>, x: Option<i64>)
    ensures
        s.push(pushed).contains(x) <==> s.contains(x) || x == pushed,
{
    let t = s.push(pushed);
    if s.contains(x) {
        let i = choose|i: int| 0 <= i < s.len() && s[i] == x;
        assert(t[i] == x);
    }
    if x == pushed {
        assert(t[s.len() as int] == x);
    }
    if t.contains(x) {
        let i = choose|i: int| 0 <= i < t.len() && t[i] == x;
        if i < s.len() {
            assert(s[i] == x);
        }
    }
}

} // verus!
