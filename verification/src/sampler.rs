//! Random curves modulo `n`, each with a point on it.
//!
//! A point `(x, y)` and a coefficient `a` are drawn; the constant `b` is then
//! chosen so that the point lies on `y^2 = x^3 + a x + b`. The curve is of use
//! where its discriminant `4 a^3 + 27 b^2` is not zero modulo `n`; a divisor
//! that the discriminant shares with `n` already splits `n`.

use crate::arith::{gcd, gcd_of, lemma_gcd_of_bound, lemma_gcd_of_mod};
use crate::curve::Point;
use crate::residue::{
    lemma_congruent_difference, lemma_congruent_product, lemma_congruent_sum, product, reduce,
};
use rand::rngs::ThreadRng;
use rand::Rng;
use vstd::arithmetic::div_mod::lemma_mod_twice;
use vstd::prelude::*;

verus! {

/// How many curves `sample` draws before it gives up.
pub const DRAW_LIMIT: u32 = 100;

/// The generator type of rand that `thread_rng` returns, opaque here.
#[verifier::external_type_specification]
#[verifier::external_body]
pub struct ExThreadRng(rand::rngs::ThreadRng);

/// `rand::thread_rng` hands out the generator of the calling thread. Nothing
/// is claimed of it. It panics where the system gives it no seed.
pub assume_specification[ rand::thread_rng ]() -> (rng: ThreadRng);

/// `Rng::gen_range` of rand on the thread's generator: some integer from
/// `low` up to `high - 1`. The call panics where `low >= high`.
#[verifier::external_body]
fn draw(rng: &mut ThreadRng, low: i64, high: i64) -> (v: i64)
    requires
        low < high,
    ensures
        low <= v < high,
{
    rng.gen_range(low, high)
}

/// The constant `b` of the curve with coefficient `a` modulo `n` on which
/// the point `(x, y)` lies.
pub open spec fn curve_constant(x: int, y: int, a: int, n: int) -> int {
    (y * y - x * x * x - a * x) % n
}

/// The discriminant of the curve `y^2 = x^3 + a x + b`.
pub open spec fn discriminant(a: int, b: int) -> int {
    4 * a * a * a + 27 * b * b
}

/// A curve modulo some `n` with a point on it, and the greatest common
/// divisor of its discriminant with `n`.
pub struct Curve {
    pub point: Point,
    pub a: i64,
    pub b: i64,
    pub g: i64,
}

impl Curve {
    /// The curve is the one through `(x, y)` with coefficient `a` modulo `n`.
    pub open spec fn passes_through(self, x: int, y: int, a: int, n: int) -> bool {
        &&& self.point == (x as i64, y as i64, 1i64)
        &&& self.a == a
        &&& self.b == curve_constant(x, y, a, n)
        &&& self.g == gcd_of(discriminant(a, self.b as int), n)
    }

    /// The point lies on the curve modulo `n`, and `g` is what the
    /// discriminant shares with `n`.
    pub open spec fn wf(self, n: int) -> bool {
        self.passes_through(self.point.0 as int, self.point.1 as int, self.a as int, n)
    }
}

/// The residue of a cube.
fn cube(v: i64, n: i64) -> (r: i64)
    requires
        n > 0,
    ensures
        r == (v * v * v) % (n as int),
        0 <= r < n,
{
    let square = reduce(product(v, v), n);
    let r = reduce(product(square, v), n);
    proof {
        lemma_mod_twice(v * v, n as int);
        lemma_congruent_product(square as int, v * v, v as int, v as int, n as int);
    }
    r
}

/// The curve with coefficient `a` modulo `n` through the point `(x, y)`.
pub fn curve_through(x: i64, y: i64, a: i64, n: i64) -> (curve: Curve)
    requires
        n > 0,
    ensures
        curve.passes_through(x as int, y as int, a as int, n as int),
        0 <= curve.b < n,
        1 <= curve.g <= n,
{
    let ghost m = n as int;
    let y_square = reduce(product(y, y), n);
    let x_cube = cube(x, n);
    let a_x = reduce(product(a, x), n);
    let b = reduce(y_square as i128 - x_cube as i128 - a_x as i128, n);
    proof {
        lemma_mod_twice(y * y, m);
        lemma_mod_twice(x * x * x, m);
        lemma_mod_twice(a * x, m);
        lemma_congruent_difference(y_square as int, y * y, x_cube as int, x * x * x, m);
        lemma_congruent_difference(y_square - x_cube, y * y - x * x * x, a_x as int, a * x, m);
    }
    let a_cube = cube(a, n);
    let b_square = reduce(product(b, b), n);
    let d = reduce(4 * (a_cube as i128) + 27 * (b_square as i128), n);
    proof {
        lemma_mod_twice(a * a * a, m);
        lemma_mod_twice(b * b, m);
        lemma_mod_twice(4, m);
        lemma_mod_twice(27, m);
        lemma_congruent_product(4, 4, a_cube as int, a * a * a, m);
        lemma_congruent_product(27, 27, b_square as int, b * b, m);
        lemma_congruent_sum(4 * a_cube, 4 * (a * a * a), 27 * b_square, 27 * (b * b), m);
        assert(4 * (a * a * a) + 27 * (b * b) == discriminant(a as int, b as int))
            by (nonlinear_arith);
        lemma_gcd_of_mod(discriminant(a as int, b as int), m);
        lemma_gcd_of_bound(d as int, m);
    }
    let g = gcd(d, n);
    proof {
        crate::arith::lemma_gcd_of_is_gcd(d as int, m);
    }
    Curve { point: (x, y, 1), a, b, g }
}

/// The three numbers of a draw lie from zero up to `n - 1`.
pub open spec fn in_range(d: (i64, i64, i64), n: int) -> bool {
    0 <= d.0 < n && 0 <= d.1 < n && 0 <= d.2 < n
}

/// The curve through the point `(d.0, d.1)` with coefficient `d.2` is of no
/// use modulo `n`: its discriminant is zero modulo `n`.
pub open spec fn singular(d: (i64, i64, i64), n: int) -> bool {
    gcd_of(discriminant(d.2 as int, curve_constant(d.0 as int, d.1 as int, d.2 as int, n)), n)
        == n
}

/// `drawn` is what `sample` gives modulo `n` where its draws are `draws`, in
/// that order: each draw is a point and a coefficient. Every draw but the
/// last gave a singular curve. Either the last one did not, and `drawn` is
/// the curve through it; or all `DRAW_LIMIT` draws did, and `drawn` is
/// `None`.
pub open spec fn sampled(draws: Seq<(i64, i64, i64)>, n: int, drawn: Option<Curve>) -> bool {
    &&& draws.len() <= DRAW_LIMIT
    &&& forall|i: int| 0 <= i < draws.len() ==> in_range(#[trigger] draws[i], n)
    &&& forall|i: int| 0 <= i < draws.len() - 1 ==> singular(#[trigger] draws[i], n)
    &&& match drawn {
        Some(curve) => {
            &&& draws.len() > 0
            &&& !singular(draws.last(), n)
            &&& curve.passes_through(
                draws.last().0 as int,
                draws.last().1 as int,
                draws.last().2 as int,
                n,
            )
        },
        None => draws.len() == DRAW_LIMIT && singular(draws.last(), n),
    }
}

/// Draws curves modulo `n` until the discriminant of one is not zero modulo
/// `n`, and returns that curve; `None` after `DRAW_LIMIT` curves without one.
/// The point and the coefficient `a` are taken from zero up to `n - 1`.
///
/// Which numbers are drawn is left to chance, so no `n` is sure of a curve.
/// Modulo one every curve is singular, and none is returned.
pub fn sample(n: i64) -> (drawn: Option<Curve>)
    requires
        n > 0,
    ensures
        exists|draws: Seq<(i64, i64, i64)>| sampled(draws, n as int, drawn),
        match drawn {
            Some(curve) => {
                &&& curve.wf(n as int)
                &&& 0 <= curve.point.0 < n
                &&& 0 <= curve.point.1 < n
                &&& 0 <= curve.a < n
                &&& 0 <= curve.b < n
                &&& 1 <= curve.g < n
            },
            None => true,
        },
        n == 1 ==> drawn is None,
{
    let mut rng = rand::thread_rng();
    let mut draws: u32 = 0;
    let ghost mut history: Seq<(i64, i64, i64)> = Seq::empty();
    while draws < DRAW_LIMIT
        invariant
            n > 0,
            draws <= DRAW_LIMIT,
            history.len() == draws,
            forall|i: int| 0 <= i < history.len() ==> in_range(#[trigger] history[i], n as int),
            forall|i: int| 0 <= i < history.len() ==> singular(#[trigger] history[i], n as int),
        decreases DRAW_LIMIT - draws,
    {
        let x = draw(&mut rng, 0, n);
        let y = draw(&mut rng, 0, n);
        let a = draw(&mut rng, 0, n);
        let curve = curve_through(x, y, a, n);
        proof {
            history = history.push((x, y, a));
        }
        if curve.g != n {
            proof {
                assert(sampled(history, n as int, Some(curve)));
            }
            return Some(curve);
        }
        draws += 1;
    }
    proof {
        assert(sampled(history, n as int, None));
    }
    None
}

} // verus!
