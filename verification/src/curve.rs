//! Points of an elliptic curve `y^2 = x^3 + a x + b` over the integers modulo
//! `m`, their addition and their multiplication by a scalar.
//!
//! A point is a triple `(x, y, z)`. With `z` zero it is the point at
//! infinity, the identity of the addition. With `z` above one it is no point
//! but a marker: an addition met a denominator that has no inverse modulo
//! `m`, and `z` is that denominator, which shares a divisor with `m`. Every
//! other triple stands for the point `(x, y)`.

use crate::arith::{
    ext_euclid, gcd_of, lemma_ext_euclid, lemma_gcd_of_bound, lemma_gcd_of_is_gcd,
    lemma_gcd_of_mod, modular_inv,
};
use crate::residue::{
    inverse, is_inverse, lemma_inverse_from_bezout, lemma_inverse_of_negation,
    lemma_slope_symmetric, lemma_slope_times_run, product, reduce,
};
use vstd::arithmetic::div_mod::{
    lemma_add_mod_noop, lemma_mod_add_multiples_vanish, lemma_mod_equivalence, lemma_mod_twice,
    lemma_mul_mod_noop_left, lemma_mul_mod_noop_right, lemma_small_mod,
};
use vstd::prelude::*;

verus! {

/// A point as the functions take it.
pub type Point = (i64, i64, i64);

/// The coordinates of a point as mathematical integers.
pub open spec fn ints(p: Point) -> (int, int, int) {
    (p.0 as int, p.1 as int, p.2 as int)
}

/// The point at infinity as the functions return it.
pub open spec fn infinity() -> (int, int, int) {
    (0, 1, 0)
}

/// The sum of `p` and `q` on the curve with coefficient `a` modulo `m`.
///
/// Infinity is the identity and a marker stays as it is. Two points with the
/// same `x` whose `y` add up to zero give infinity. Otherwise the slope of the
/// tangent (same `x`) or of the chord is a numerator times the inverse of a
/// denominator; where the denominator shares a divisor with `m`, the result
/// is the marker that carries it.
pub open spec fn add_spec(p: (int, int, int), q: (int, int, int), a: int, m: int) -> (
    int,
    int,
    int,
) {
    if p.2 == 0 {
        q
    } else if q.2 == 0 {
        p
    } else if p.2 > 1 {
        p
    } else if q.2 > 1 {
        q
    } else {
        let x1 = p.0 % m;
        let y1 = p.1 % m;
        let x2 = q.0 % m;
        let y2 = q.1 % m;
        if x1 == x2 && (y1 + y2) % m == 0 {
            infinity()
        } else {
            let num = if x1 == x2 {
                (3 * x1 * x1 + a) % m
            } else {
                (y2 - y1) % m
            };
            let den = if x1 == x2 {
                (2 * y1) % m
            } else {
                (x2 - x1) % m
            };
            if gcd_of(den, m) > 1 {
                (0, 0, den)
            } else {
                let slope = (num * inverse(den, m)) % m;
                let x3 = (slope * slope - x1 - x2) % m;
                (x3, (slope * (x1 - x3) - y1) % m, 1)
            }
        }
    }
}

/// Adds two points of the curve with coefficient `a` modulo `m`.
/// The curve's constant `b` plays no part in the formulas.
#[allow(unused_variables)]
pub fn elliptic_add(p: Point, q: Point, a: i64, b: i64, m: i64) -> (r: Point)
    requires
        m > 0,
    ensures
        ints(r) == add_spec(ints(p), ints(q), a as int, m as int),
        p.2 > 1 ==> r == p,
        p.2 <= 1 && q.2 > 1 ==> r == q,
{
    if p.2 == 0 {
        return q;
    }
    if q.2 == 0 {
        return p;
    }
    if p.2 > 1 {
        return p;
    }
    if q.2 > 1 {
        return q;
    }
    let x1 = reduce(p.0 as i128, m);
    let y1 = reduce(p.1 as i128, m);
    let x2 = reduce(q.0 as i128, m);
    let y2 = reduce(q.1 as i128, m);
    let num: i64;
    let den: i64;
    if x1 == x2 {
        if reduce(y1 as i128 + y2 as i128, m) == 0 {
            return (0, 1, 0);
        }
        let square = reduce(product(x1, x1), m);
        num = reduce(3 * (square as i128) + a as i128, m);
        den = reduce(2 * (y1 as i128), m);
        proof {
            let x = x1 as int;
            lemma_mul_mod_noop_right(3, x * x, m as int);
            lemma_add_mod_noop(3 * (x * x), a as int, m as int);
            lemma_add_mod_noop(3 * ((x * x) % (m as int)), a as int, m as int);
            assert(3 * x * x == 3 * (x * x)) by (nonlinear_arith);
        }
    } else {
        num = reduce(y2 as i128 - y1 as i128, m);
        den = reduce(x2 as i128 - x1 as i128, m);
    }
    let (coefficient, other, g) = modular_inv(den, m);
    if g > 1 {
        return (0, 0, den);
    }
    proof {
        lemma_gcd_of_is_gcd(den as int, m as int);
        lemma_inverse_from_bezout(den as int, m as int, coefficient as int, other as int);
    }
    let inv = reduce(coefficient as i128, m);
    let slope = reduce(product(num, inv), m);
    let x3 = reduce(product(slope, slope) - x1 as i128 - x2 as i128, m);
    let y3 = reduce(product(slope, x1 - x3) - y1 as i128, m);
    (x3, y3, 1)
}

/// Double-and-add from a running state: `r` plus `k` times `p`, with `k`
/// taken bit by bit from the lowest. A marker in the point that is doubled,
/// seen before a bit is used, or in the sum after an addition, ends the walk
/// and is the result.
pub open spec fn mul_from(k: int, p: (int, int, int), r: (int, int, int), a: int, m: int) -> (
    int,
    int,
    int,
)
    decreases k,
{
    if k <= 0 {
        r
    } else if p.2 > 1 {
        p
    } else {
        let sum = if k % 2 == 1 {
            add_spec(p, r, a, m)
        } else {
            r
        };
        if sum.2 > 1 {
            sum
        } else {
            mul_from(k / 2, add_spec(p, p, a, m), sum, a, m)
        }
    }
}

/// `k` times `p`: double-and-add that starts from infinity.
pub open spec fn mul_spec(k: int, p: (int, int, int), a: int, m: int) -> (int, int, int) {
    mul_from(k, p, infinity(), a, m)
}

/// Zero times any triple is infinity, and one times a triple is the triple
/// itself, infinity being returned as `(0, 1, 0)`.
pub proof fn lemma_mul_by_zero_and_one(p: (int, int, int), a: int, m: int)
    ensures
        mul_spec(0, p, a, m) == infinity(),
        p.2 != 0 ==> mul_spec(1, p, a, m) == p,
        p.2 == 0 ==> mul_spec(1, p, a, m) == infinity(),
{
    reveal_with_fuel(mul_from, 3);
}

/// Multiplies the point `p` by the scalar `k` on the curve with coefficient
/// `a` modulo `m`, by doubling and adding. A scalar that is not positive
/// gives infinity. The curve's constant `b` plays no part.
pub fn elliptic_mul(k: i64, p: Point, a: i64, b: i64, m: i64) -> (r: Point)
    requires
        m > 0,
    ensures
        ints(r) == mul_spec(k as int, ints(p), a as int, m as int),
        k <= 0 ==> ints(r) == infinity(),
        k == 1 && p.2 != 0 ==> r == p,
        k == 1 && p.2 == 0 ==> ints(r) == infinity(),
        k > 0 && p.2 > 1 ==> r == p,
{
    proof {
        lemma_mul_by_zero_and_one(ints(p), a as int, m as int);
    }
    if k > 0 && p.2 > 1 {
        return p;
    }
    let mut left = k;
    let mut doubled = p;
    let mut r: Point = (0, 1, 0);
    while left > 0
        invariant
            m > 0,
            r.2 <= 1,
            left > 0 ==> doubled.2 <= 1,
            k == 1 && p.2 != 0 ==> mul_spec(k as int, ints(p), a as int, m as int) == ints(p),
            k == 1 && p.2 == 0 ==> mul_spec(k as int, ints(p), a as int, m as int) == infinity(),
            mul_from(left as int, ints(doubled), ints(r), a as int, m as int) == mul_spec(
                k as int,
                ints(p),
                a as int,
                m as int,
            ),
        decreases left,
    {
        let ghost whole = mul_from(left as int, ints(doubled), ints(r), a as int, m as int);
        if left % 2 == 1 {
            r = elliptic_add(doubled, r, a, b, m);
            if r.2 > 1 {
                return r;
            }
        }
        left = left / 2;
        let ghost twice = add_spec(ints(doubled), ints(doubled), a as int, m as int);
        assert(whole == mul_from(left as int, twice, ints(r), a as int, m as int));
        if left > 0 {
            doubled = elliptic_add(doubled, doubled, a, b, m);
            if doubled.2 > 1 {
                return doubled;
            }
        } else {
            assert(whole == ints(r));
        }
    }
    r
}

/// A triple that is a marker carries a number below `m` that shares a
/// divisor with `m`.
pub open spec fn sound(p: (int, int, int), m: int) -> bool {
    p.2 > 1 ==> p.2 < m && gcd_of(p.2, m) > 1
}

/// A sum is a marker only where a summand was one or a denominator without
/// an inverse was met.
pub proof fn lemma_add_sound(p: (int, int, int), q: (int, int, int), a: int, m: int)
    requires
        m > 0,
        sound(p, m),
        sound(q, m),
    ensures
        sound(add_spec(p, q, a, m), m),
{
}

/// Double-and-add keeps the markers sound.
pub proof fn lemma_mul_sound(k: int, p: (int, int, int), r: (int, int, int), a: int, m: int)
    requires
        m > 0,
        sound(p, m),
        sound(r, m),
    ensures
        sound(mul_from(k, p, r, a, m), m),
    decreases k,
{
    if k > 0 && p.2 <= 1 {
        lemma_add_sound(p, r, a, m);
        lemma_add_sound(p, p, a, m);
        let sum = if k % 2 == 1 {
            add_spec(p, r, a, m)
        } else {
            r
        };
        if sum.2 <= 1 {
            lemma_mul_sound(k / 2, add_spec(p, p, a, m), sum, a, m);
        }
    }
}

/// A positive multiple of a marker is the marker.
pub proof fn lemma_mul_marker(k: int, p: (int, int, int), a: int, m: int)
    requires
        k > 0,
        p.2 > 1,
    ensures
        mul_spec(k, p, a, m) == p,
{
}

/// A point as the addition returns it: infinity written `(0, 1, 0)`, or a
/// triple with `z` one and both coordinates from zero up to `m - 1`.
pub open spec fn is_point(p: (int, int, int), m: int) -> bool {
    p == infinity() || (p.2 == 1 && 0 <= p.0 < m && 0 <= p.1 < m)
}

/// Two points have the same `x` but are neither equal nor inverse to each
/// other. Such a pair is added along the tangent at the first point.
pub open spec fn tangent_clash(p: (int, int, int), q: (int, int, int), m: int) -> bool {
    p.2 == 1 && q.2 == 1 && p.0 == q.0 && p.1 != q.1 && (p.1 + q.1) % m != 0
}

/// The difference of two different residues is not zero modulo `m`.
proof fn lemma_difference_not_zero(dx: int, m: int)
    requires
        -m < dx < m,
        dx != 0,
    ensures
        dx % m != 0,
{
    if dx > 0 {
        lemma_small_mod(dx as nat, m as nat);
    } else {
        lemma_mod_add_multiples_vanish(dx, m);
        lemma_small_mod((m + dx) as nat, m as nat);
    }
}

/// The sum of two points is a point again or a sound marker, where the pair
/// is not one that is added along a tangent it does not share.
pub proof fn lemma_add_closed(p: (int, int, int), q: (int, int, int), a: int, m: int)
    requires
        m > 0,
        is_point(p, m),
        is_point(q, m),
        !tangent_clash(p, q, m),
    ensures
        is_point(add_spec(p, q, a, m), m) || add_spec(p, q, a, m).2 > 1,
        sound(add_spec(p, q, a, m), m),
{
    if p.2 == 1 && q.2 == 1 {
        lemma_small_mod(p.0 as nat, m as nat);
        lemma_small_mod(p.1 as nat, m as nat);
        lemma_small_mod(q.0 as nat, m as nat);
        lemma_small_mod(q.1 as nat, m as nat);
        if p.0 != q.0 {
            lemma_difference_not_zero(q.0 - p.0, m);
            lemma_gcd_of_bound((q.0 - p.0) % m, m);
        } else if (p.1 + q.1) % m != 0 {
            lemma_gcd_of_bound((2 * p.1) % m, m);
            assert(p.1 + q.1 == 2 * p.1);
        }
    }
}

/// The chord through two points with different `x`, taken from either end,
/// meets denominators with the same greatest common divisor with `m`, and
/// where that is one, the same slope.
proof fn lemma_chord_symmetric(dx: int, dy: int, m: int)
    requires
        m > 0,
    ensures
        gcd_of((-dx) % m, m) == gcd_of(dx % m, m),
        gcd_of(dx % m, m) == 1 ==> {
            &&& is_inverse(inverse(dx % m, m), dx % m, m)
            &&& ((dy % m) * inverse(dx % m, m)) % m == (((-dy) % m) * inverse((-dx) % m, m)) % m
        },
{
    let den = dx % m;
    let back = (-dx) % m;
    lemma_gcd_of_mod(dx, m);
    lemma_gcd_of_mod(-dx, m);
    assert(gcd_of(-dx, m) == gcd_of(dx, m));
    if gcd_of(den, m) == 1 {
        let there = ext_euclid(den, m);
        let here = ext_euclid(back, m);
        lemma_ext_euclid(den, m);
        lemma_ext_euclid(back, m);
        lemma_inverse_from_bezout(den, m, there.0, there.1);
        lemma_inverse_from_bezout(back, m, here.0, here.1);
        lemma_add_mod_noop(dx, -dx, m);
        assert(dx + (-dx) == 0);
        lemma_inverse_of_negation(inverse(den, m), den, inverse(back, m), back, m);
        lemma_slope_symmetric(dy, inverse(den, m), inverse(back, m), m);
    }
}

/// Addition commutes: the sum of two points does not depend on their order.
/// This is stated of sums that are points. A pair with the same `x` that is
/// neither equal nor inverse is left out: its sum follows the tangent at the
/// first point.
pub proof fn lemma_add_commutes(p: (int, int, int), q: (int, int, int), a: int, m: int)
    requires
        m > 0,
        is_point(p, m),
        is_point(q, m),
        !tangent_clash(p, q, m),
        add_spec(p, q, a, m).2 <= 1,
    ensures
        add_spec(p, q, a, m) == add_spec(q, p, a, m),
{
    if p.2 == 1 && q.2 == 1 {
        lemma_small_mod(p.0 as nat, m as nat);
        lemma_small_mod(p.1 as nat, m as nat);
        lemma_small_mod(q.0 as nat, m as nat);
        lemma_small_mod(q.1 as nat, m as nat);
        if p.0 != q.0 {
            let dx = q.0 - p.0;
            let dy = q.1 - p.1;
            lemma_chord_symmetric(dx, dy, m);
            lemma_gcd_of_is_gcd(dx % m, m);
            lemma_gcd_of_bound(dx % m, m);
            lemma_difference_not_zero(dx, m);
            assert(p.0 - q.0 == -dx && p.1 - q.1 == -dy);
            assert(gcd_of(dx % m, m) == 1);
            let i = inverse(dx % m, m);
            let slope = ((dy % m) * i) % m;
            let x3 = (slope * slope - p.0 - q.0) % m;
            assert(slope * slope - p.0 - q.0 == slope * slope - q.0 - p.0);
            lemma_mod_twice((dy % m) * i, m);
            lemma_mul_mod_noop_left(dy, i, m);
            lemma_slope_times_run(slope, dx, dy, i, m);
            let there = slope * (p.0 - x3) - p.1;
            let back = slope * (q.0 - x3) - q.1;
            assert(back - there == slope * dx - dy) by (nonlinear_arith)
                requires
                    there == slope * (p.0 - x3) - p.1,
                    back == slope * (q.0 - x3) - q.1,
                    dx == q.0 - p.0,
                    dy == q.1 - p.1,
            ;
            lemma_mod_equivalence(back, there, m);
        }
    }
}

/// Where the chord through two points meets a denominator without an inverse,
/// it does so from either end, and the two markers share the same divisor
/// with `m`.
pub proof fn lemma_add_markers_agree(p: (int, int, int), q: (int, int, int), a: int, m: int)
    requires
        m > 0,
        is_point(p, m),
        is_point(q, m),
        !tangent_clash(p, q, m),
        add_spec(p, q, a, m).2 > 1,
    ensures
        add_spec(q, p, a, m).2 > 1,
        gcd_of(add_spec(q, p, a, m).2, m) == gcd_of(add_spec(p, q, a, m).2, m),
{
    lemma_small_mod(p.0 as nat, m as nat);
    lemma_small_mod(p.1 as nat, m as nat);
    lemma_small_mod(q.0 as nat, m as nat);
    lemma_small_mod(q.1 as nat, m as nat);
    if p.0 != q.0 {
        let dx = q.0 - p.0;
        lemma_chord_symmetric(dx, q.1 - p.1, m);
        assert(p.0 - q.0 == -dx);
        lemma_gcd_of_bound((-dx) % m, m);
        lemma_gcd_of_bound(dx % m, m);
    }
}

} // verus!
