//! Divisibility, greatest common divisors and the extended Euclidean
//! algorithm on machine integers.

use vstd::arithmetic::div_mod::{
    lemma_fundamental_div_mod, lemma_mod_multiples_vanish, lemma_mod_self_0, lemma_small_mod,
};
use vstd::math::abs;
use vstd::prelude::*;

verus! {

/// `d` divides `a`. Zero divides only zero.
pub open spec fn divides(d: int, a: int) -> bool {
    if d == 0 {
        a == 0
    } else {
        a % d == 0
    }
}

/// `g` is the greatest common divisor of `a` and `b`: it is not negative, it
/// divides both, and every positive common divisor divides it.
pub open spec fn is_gcd(g: int, a: int, b: int) -> bool {
    &&& g >= 0
    &&& divides(g, a)
    &&& divides(g, b)
    &&& forall|d: int| d > 0 && divides(d, a) && divides(d, b) ==> #[trigger] divides(d, g)
}

/// Euclid's algorithm on natural numbers.
pub open spec fn euclid(a: nat, b: nat) -> nat
    decreases a,
{
    if a == 0 {
        b
    } else {
        euclid(b % a, a)
    }
}

/// The greatest common divisor of two integers of either sign.
pub open spec fn gcd_of(a: int, b: int) -> int {
    euclid(abs(a), abs(b)) as int
}

/// A multiple of `x` plus `y` is divisible by whatever divides both.
pub proof fn lemma_divides_combination(d: int, x: int, k: int, y: int)
    requires
        d > 0,
        x % d == 0,
        y % d == 0,
    ensures
        (x * k + y) % d == 0,
{
    let u = x / d;
    lemma_fundamental_div_mod(x, d);
    assert(x * k + y == d * (u * k) + y) by (nonlinear_arith)
        requires
            x == d * u,
    ;
    lemma_mod_multiples_vanish(u * k, y, d);
}

/// A number and its negation have the same divisors.
pub proof fn lemma_divides_negation(d: int, x: int)
    requires
        d > 0,
    ensures
        (x % d == 0) <==> ((-x) % d == 0),
{
    lemma_small_mod(0, d as nat);
    if x % d == 0 {
        lemma_divides_combination(d, x, -1, 0);
        assert(x * (-1) + 0 == -x);
    }
    if (-x) % d == 0 {
        lemma_divides_combination(d, -x, -1, 0);
        assert((-x) * (-1) + 0 == x);
    }
}

proof fn lemma_euclid_divides(a: nat, b: nat)
    ensures
        divides(euclid(a, b) as int, a as int),
        divides(euclid(a, b) as int, b as int),
        a > 0 || b > 0 ==> euclid(a, b) > 0,
    decreases a,
{
    if a == 0 {
        if b > 0 {
            lemma_small_mod(0, b);
            lemma_mod_self_0(b as int);
        }
    } else {
        let r = b % a;
        let g = euclid(r, a);
        lemma_euclid_divides(r, a);
        lemma_fundamental_div_mod(b as int, a as int);
        lemma_divides_combination(g as int, a as int, (b / a) as int, r as int);
    }
}

proof fn lemma_euclid_greatest(a: nat, b: nat, d: int)
    requires
        d > 0,
        (a as int) % d == 0,
        (b as int) % d == 0,
    ensures
        (euclid(a, b) as int) % d == 0,
    decreases a,
{
    if a > 0 {
        let r = b % a;
        let q = b / a;
        lemma_fundamental_div_mod(b as int, a as int);
        assert(r == a * (-q) + b) by (nonlinear_arith)
            requires
                b == a * q + r,
        ;
        lemma_divides_combination(d, a as int, -(q as int), b as int);
        lemma_euclid_greatest(r, a, d);
    }
}

/// `gcd_of` is the greatest common divisor.
pub proof fn lemma_gcd_of_is_gcd(a: int, b: int)
    ensures
        is_gcd(gcd_of(a, b), a, b),
        a != 0 || b != 0 ==> gcd_of(a, b) > 0,
{
    let g = gcd_of(a, b);
    lemma_euclid_divides(abs(a), abs(b));
    if g > 0 {
        lemma_divides_negation(g, a);
        lemma_divides_negation(g, b);
    }
    assert forall|d: int| d > 0 && divides(d, a) && divides(d, b) implies #[trigger] divides(
        d,
        g,
    ) by {
        lemma_divides_negation(d, a);
        lemma_divides_negation(d, b);
        lemma_euclid_greatest(abs(a), abs(b), d);
    }
}

/// Two numbers have one greatest common divisor.
pub proof fn lemma_gcd_unique(g: int, h: int, a: int, b: int)
    requires
        is_gcd(g, a, b),
        is_gcd(h, a, b),
    ensures
        g == h,
{
    if g == 0 || h == 0 {
        assert(a == 0 && b == 0);
        if g > 0 {
            lemma_small_mod(0, (g + 1) as nat);
            assert(divides(g + 1, g));
            lemma_small_mod(g as nat, (g + 1) as nat);
        }
        if h > 0 {
            lemma_small_mod(0, (h + 1) as nat);
            assert(divides(h + 1, h));
            lemma_small_mod(h as nat, (h + 1) as nat);
        }
    } else {
        assert(divides(g, h));
        assert(divides(h, g));
        if g < h {
            lemma_small_mod(g as nat, h as nat);
        }
        if h < g {
            lemma_small_mod(h as nat, g as nat);
        }
    }
}

/// The greatest common divisor does not depend on the order of its arguments.
pub proof fn lemma_gcd_of_symmetric(a: int, b: int)
    ensures
        gcd_of(a, b) == gcd_of(b, a),
{
    lemma_gcd_of_is_gcd(a, b);
    lemma_gcd_of_is_gcd(b, a);
    lemma_gcd_unique(gcd_of(a, b), gcd_of(b, a), a, b);
}

/// One step of Euclid's algorithm keeps the greatest common divisor: where
/// `a == q * b + r`, the pairs `(a, b)` and `(b, r)` have the same one.
pub proof fn lemma_gcd_of_step(a: int, b: int, q: int, r: int)
    requires
        a == q * b + r,
    ensures
        gcd_of(b, r) == gcd_of(a, b),
{
    let g = gcd_of(b, r);
    lemma_gcd_of_is_gcd(b, r);
    lemma_gcd_of_is_gcd(a, b);
    if g == 0 {
        assert(b == 0 && r == 0);
        assert(a == 0) by (nonlinear_arith)
            requires
                a == q * b + r,
                b == 0,
                r == 0,
        ;
    } else {
        lemma_divides_combination(g, b, q, r);
        assert(b * q + r == a) by (nonlinear_arith)
            requires
                a == q * b + r,
        ;
    }
    assert forall|d: int| d > 0 && divides(d, a) && divides(d, b) implies #[trigger] divides(
        d,
        g,
    ) by {
        lemma_divides_combination(d, b, -q, a);
        assert(b * (-q) + a == r) by (nonlinear_arith)
            requires
                a == q * b + r,
        ;
        assert(divides(d, r));
    }
    lemma_gcd_unique(g, gcd_of(a, b), a, b);
}

/// Reducing one argument by the other keeps the greatest common divisor.
pub proof fn lemma_gcd_of_mod(x: int, m: int)
    requires
        m > 0,
    ensures
        gcd_of(x % m, m) == gcd_of(x, m),
{
    lemma_fundamental_div_mod(x, m);
    assert(x == (x / m) * m + x % m) by (nonlinear_arith)
        requires
            x == m * (x / m) + x % m,
    ;
    lemma_gcd_of_step(x, m, x / m, x % m);
    lemma_gcd_of_symmetric(m, x % m);
}

/// The greatest common divisor is at most the size of either argument that
/// is not zero.
pub proof fn lemma_gcd_of_bound(a: int, b: int)
    ensures
        0 <= gcd_of(a, b),
        a != 0 ==> gcd_of(a, b) <= abs(a),
        b != 0 ==> gcd_of(a, b) <= abs(b),
        a == 0 ==> gcd_of(a, b) == abs(b),
        b == 0 ==> gcd_of(a, b) == abs(a),
{
    let g = gcd_of(a, b);
    lemma_gcd_of_is_gcd(a, b);
    lemma_gcd_of_symmetric(a, b);
    if a != 0 {
        lemma_divides_negation(g, a);
        if abs(a) < g {
            lemma_small_mod(abs(a), g as nat);
        }
    }
    if b != 0 {
        lemma_divides_negation(g, b);
        if abs(b) < g {
            lemma_small_mod(abs(b), g as nat);
        }
    }
}

/// The size of a machine integer, which always fits in the unsigned type.
fn magnitude(v: i64) -> (r: u64)
    ensures
        r == abs(v as int),
{
    if v >= 0 {
        v as u64
    } else if v == i64::MIN {
        0x8000_0000_0000_0000u64
    } else {
        (-v) as u64
    }
}

/// The greatest common divisor of `m` and `n`, by Euclid's algorithm. It is
/// never negative; with one argument zero it is the size of the other.
///
/// The smallest machine integer has a size that the result type cannot hold,
/// so it may not stand beside zero or itself.
pub fn gcd(m: i64, n: i64) -> (g: i64)
    requires
        m == i64::MIN ==> n != 0 && n != i64::MIN,
        n == i64::MIN ==> m != 0 && m != i64::MIN,
    ensures
        g == gcd_of(m as int, n as int),
        is_gcd(g as int, m as int, n as int),
        m == 0 ==> g == abs(n as int),
        n == 0 ==> g == abs(m as int),
{
    proof {
        lemma_gcd_of_bound(m as int, n as int);
    }
    let mut a: u64 = magnitude(m);
    let mut b: u64 = magnitude(n);
    while a != 0
        invariant
            euclid(a as nat, b as nat) == gcd_of(m as int, n as int),
        decreases a,
    {
        let r: u64 = b % a;
        b = a;
        a = r;
    }
    proof {
        lemma_gcd_of_is_gcd(m as int, n as int);
    }
    b as i64
}

/// The remainder of a division that rounds towards zero: it has the sign of
/// the dividend.
pub open spec fn trunc_rem(a: int, b: int) -> int {
    if a >= 0 {
        (abs(a) % abs(b)) as int
    } else {
        -(abs(a) % abs(b))
    }
}

/// The quotient of a division that rounds towards zero.
pub open spec fn trunc_div(a: int, b: int) -> int {
    if (a >= 0) == (b >= 0) {
        (abs(a) / abs(b)) as int
    } else {
        -(abs(a) / abs(b))
    }
}

/// Quotient and remainder rounded towards zero rebuild the dividend, and the
/// remainder is smaller than the divisor.
pub proof fn lemma_trunc_div_rem(a: int, b: int)
    requires
        b != 0,
    ensures
        a == trunc_div(a, b) * b + trunc_rem(a, b),
        abs(trunc_rem(a, b)) < abs(b),
        abs(a) == abs(trunc_div(a, b)) * abs(b) + abs(trunc_rem(a, b)),
        trunc_rem(a, b) != 0 ==> (trunc_rem(a, b) > 0 <==> a > 0),
{
    let n = abs(a) as int;
    let d = abs(b) as int;
    lemma_fundamental_div_mod(n, d);
    let q = n / d;
    let r = n % d;
    assert(0 <= q) by (nonlinear_arith)
        requires
            n == d * q + r,
            0 <= r < d,
            0 <= n,
    ;
    assert(a == trunc_div(a, b) * b + trunc_rem(a, b)) by (nonlinear_arith)
        requires
            n == d * q + r,
            n == if a >= 0 { a } else { -a },
            d == if b >= 0 { b } else { -b },
            trunc_div(a, b) == if (a >= 0) == (b >= 0) { q } else { -q },
            trunc_rem(a, b) == if a >= 0 { r } else { -r },
    ;
    assert(abs(a) == abs(trunc_div(a, b)) * abs(b) + abs(trunc_rem(a, b))) by (nonlinear_arith)
        requires
            n == d * q + r,
            0 <= q,
            0 <= r,
            abs(a) == n,
            abs(b) == d,
            abs(trunc_div(a, b)) == q,
            abs(trunc_rem(a, b)) == r,
    ;
}

/// A quotient of natural numbers is at most the dividend, and at most half
/// of it where the divisor is two or more.
proof fn lemma_quotient_bound(n: int, d: int)
    requires
        0 <= n,
        0 < d,
    ensures
        0 <= n / d <= n,
        d >= 2 ==> 2 * (n / d) <= n,
{
    lemma_fundamental_div_mod(n, d);
    let q = n / d;
    let r = n % d;
    assert(0 <= q <= n && (d >= 2 ==> 2 * q <= n)) by (nonlinear_arith)
        requires
            n == d * q + r,
            0 <= r < d,
            0 <= n,
    ;
}

/// Quotient and remainder of `a` by `b`, rounded towards zero.
pub fn divmod(a: i64, b: i64) -> (qr: (i64, i64))
    requires
        b != 0,
        !(a == i64::MIN && b == -1),
    ensures
        qr.0 == trunc_div(a as int, b as int),
        qr.1 == trunc_rem(a as int, b as int),
        a == qr.0 * b + qr.1,
        abs(qr.1 as int) < abs(b as int),
        qr.1 != 0 ==> (qr.1 > 0 <==> a > 0),
{
    proof {
        lemma_trunc_div_rem(a as int, b as int);
        lemma_quotient_bound(abs(a as int) as int, abs(b as int) as int);
    }
    let q = a.checked_div(b).unwrap();
    let r = a.checked_rem(b).unwrap();
    (q, r)
}

/// What the extended Euclidean algorithm gives for `a` and `b`: two
/// coefficients and a common divisor. With `b` zero these are one, zero and
/// `a` itself; otherwise those of `b` and the remainder of `a` by `b`,
/// substituted back.
pub open spec fn ext_euclid(a: int, b: int) -> (int, int, int)
    decreases abs(b),
{
    if b == 0 {
        (1, 0, a)
    } else {
        let rest = ext_euclid(b, trunc_rem(a, b));
        (rest.1, rest.0 - trunc_div(a, b) * rest.1, rest.2)
    }
}

/// Bezout's identity: the coefficients of `ext_euclid` combine `a` and `b`
/// into its third number, which is their greatest common divisor or, where a
/// negative remainder ends the algorithm, the negation of it. Of arguments
/// that are not negative it is the greatest common divisor.
///
/// The coefficients are small: where `b` divides `a` they are zero and one,
/// and otherwise each is at most half the size of the other argument.
pub proof fn lemma_ext_euclid(a: int, b: int)
    ensures
        a * ext_euclid(a, b).0 + b * ext_euclid(a, b).1 == ext_euclid(a, b).2,
        ext_euclid(a, b).2 >= 0 ==> ext_euclid(a, b).2 == gcd_of(a, b),
        ext_euclid(a, b).2 < 0 ==> ext_euclid(a, b).2 == -gcd_of(a, b),
        a >= 0 && b >= 0 ==> ext_euclid(a, b).2 >= 0,
        b == 0 ==> ext_euclid(a, b).0 == 1 && ext_euclid(a, b).1 == 0,
        b != 0 && trunc_rem(a, b) == 0 ==> ext_euclid(a, b).0 == 0 && ext_euclid(a, b).1 == 1,
        b != 0 && trunc_rem(a, b) != 0 ==> 2 * abs(ext_euclid(a, b).0) <= abs(b) && 2 * abs(
            ext_euclid(a, b).1,
        ) <= abs(a),
    decreases abs(b),
{
    if b == 0 {
        lemma_gcd_of_bound(a, b);
        assert(a * 1 + b * 0 == a) by (nonlinear_arith);
    } else {
        let q = trunc_div(a, b);
        let r = trunc_rem(a, b);
        let rest = ext_euclid(b, r);
        let (x, y, g) = rest;
        lemma_trunc_div_rem(a, b);
        lemma_ext_euclid(b, r);
        lemma_gcd_of_step(a, b, q, r);
        assert(a * y + b * (x - q * y) == g) by (nonlinear_arith)
            requires
                a == q * b + r,
                b * x + r * y == g,
        ;
        assert(ext_euclid(a, b) == (y, x - q * y, g));
        if r == 0 {
            assert(x - q * y == x) by (nonlinear_arith)
                requires
                    y == 0,
            ;
        } else if trunc_rem(b, r) == 0 {
            lemma_trunc_div_rem(b, r);
            assert(x - q * y == -q) by (nonlinear_arith)
                requires
                    x == 0,
                    y == 1,
            ;
            assert(2 <= abs(b) && 2 * abs(q) <= abs(a)) by (nonlinear_arith)
                requires
                    abs(a) == abs(q) * abs(b) + abs(r),
                    abs(b) == abs(trunc_div(b, r)) * abs(r) + 0,
                    0 < abs(r) < abs(b),
            ;
        } else {
            assert(2 * abs(x - q * y) <= abs(a)) by (nonlinear_arith)
                requires
                    abs(a) == abs(q) * abs(b) + abs(r),
                    2 * abs(x) <= abs(r),
                    2 * abs(y) <= abs(b),
            ;
        }
    }
}

/// The extended Euclidean algorithm: coefficients `x` and `y` and a common
/// divisor `g` of `a` and `b`, with `a * x + b * y == g`. Of arguments that
/// are not negative, `g` is the greatest common divisor; of others it may be
/// the negation of it. Under a modulus `b`, a `g` above one is a divisor that
/// `a` and `b` share; with `g` one, `x` inverts `a`.
///
/// Left out are the two pairs on which a quotient leaves the machine range:
/// the smallest integer beside minus one, in either order.
pub fn modular_inv(a: i64, b: i64) -> (xyg: (i64, i64, i64))
    requires
        !(a == i64::MIN && b == -1),
        !(a == -1 && b == i64::MIN),
    ensures
        xyg.0 == ext_euclid(a as int, b as int).0,
        xyg.1 == ext_euclid(a as int, b as int).1,
        xyg.2 == ext_euclid(a as int, b as int).2,
        b == 0 ==> xyg == (1i64, 0i64, a),
        a * xyg.0 + b * xyg.1 == xyg.2,
        xyg.2 == gcd_of(a as int, b as int) || xyg.2 == -gcd_of(a as int, b as int),
        a >= 0 && b >= 0 ==> xyg.2 == gcd_of(a as int, b as int),
    decreases abs(b as int),
{
    proof {
        lemma_ext_euclid(a as int, b as int);
    }
    if b == 0 {
        return (1, 0, a);
    }
    let (q, r) = divmod(a, b);
    let (x, y, g) = modular_inv(b, r);
    proof {
        lemma_trunc_div_rem(a as int, b as int);
        lemma_ext_euclid(b as int, r as int);
        if r == 0 {
            assert(q * y == 0) by (nonlinear_arith)
                requires
                    y == 0,
            ;
        } else if trunc_rem(b as int, r as int) == 0 {
            assert(q * y == q) by (nonlinear_arith)
                requires
                    y == 1,
            ;
        } else {
            assert(2 * abs(q * y) <= abs(a as int)) by (nonlinear_arith)
                requires
                    abs(a as int) == abs(q as int) * abs(b as int) + abs(r as int),
                    2 * abs(y as int) <= abs(b as int),
            ;
        }
    }
    (y, x - q * y, g)
}

} // verus!
