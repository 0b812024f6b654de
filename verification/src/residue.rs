//! Residues modulo a positive integer: reduction, congruences and inverses.

use vstd::arithmetic::div_mod::{
    lemma_add_mod_noop, lemma_fundamental_div_mod, lemma_fundamental_div_mod_converse_mod,
    lemma_mod_equivalence, lemma_mod_multiples_vanish, lemma_mod_twice, lemma_mul_mod_noop,
    lemma_mul_mod_noop_left, lemma_mul_mod_noop_right, lemma_small_mod, lemma_sub_mod_noop,
};
use vstd::prelude::*;

verus! {

/// `i` is the inverse of `d` modulo `m`, taken from zero up to `m - 1`.
pub open spec fn is_inverse(i: int, d: int, m: int) -> bool {
    0 <= i < m && (d * i) % m == 1int % m
}

/// The inverse of `d` modulo `m`, where there is one.
pub open spec fn inverse(d: int, m: int) -> int {
    choose|i: int| is_inverse(i, d, m)
}

/// Products of congruent factors are congruent.
pub proof fn lemma_congruent_product(a: int, b: int, c: int, d: int, m: int)
    requires
        m > 0,
        a % m == b % m,
        c % m == d % m,
    ensures
        (a * c) % m == (b * d) % m,
{
    lemma_mul_mod_noop(a, c, m);
    lemma_mul_mod_noop(b, d, m);
}

/// Sums of congruent terms are congruent.
pub proof fn lemma_congruent_sum(a: int, b: int, c: int, d: int, m: int)
    requires
        m > 0,
        a % m == b % m,
        c % m == d % m,
    ensures
        (a + c) % m == (b + d) % m,
{
    lemma_add_mod_noop(a, c, m);
    lemma_add_mod_noop(b, d, m);
}

/// Differences of congruent terms are congruent.
pub proof fn lemma_congruent_difference(a: int, b: int, c: int, d: int, m: int)
    requires
        m > 0,
        a % m == b % m,
        c % m == d % m,
    ensures
        (a - c) % m == (b - d) % m,
{
    lemma_sub_mod_noop(a, c, m);
    lemma_sub_mod_noop(b, d, m);
}

/// A number has at most one inverse modulo `m`.
pub proof fn lemma_inverse_unique(i: int, j: int, d: int, m: int)
    requires
        m > 0,
        is_inverse(i, d, m),
        is_inverse(j, d, m),
    ensures
        i == j,
{
    if m > 1 {
        lemma_small_mod(1, m as nat);
        lemma_small_mod(i as nat, m as nat);
        lemma_small_mod(j as nat, m as nat);
        lemma_mul_mod_noop_right(i, d * j, m);
        lemma_mul_mod_noop_right(j, d * i, m);
        assert(i * (d * j) == j * (d * i)) by (nonlinear_arith);
        assert(i * 1 == i && j * 1 == j);
    }
}

/// Where `d * x + m * y` is one, `x` reduced modulo `m` is the inverse of `d`.
pub proof fn lemma_inverse_from_bezout(d: int, m: int, x: int, y: int)
    requires
        m > 0,
        d * x + m * y == 1,
    ensures
        is_inverse(x % m, d, m),
        inverse(d, m) == x % m,
{
    lemma_mul_mod_noop_right(d, x, m);
    lemma_mod_multiples_vanish(-y, 1, m);
    assert(m * (-y) + 1 == d * x) by (nonlinear_arith)
        requires
            d * x + m * y == 1,
    ;
    assert(is_inverse(x % m, d, m));
    lemma_inverse_unique(inverse(d, m), x % m, d, m);
}

/// Numbers that add up to zero modulo `m` have inverses that add up to zero
/// modulo `m`.
pub proof fn lemma_inverse_of_negation(i: int, d: int, j: int, e: int, m: int)
    requires
        m > 0,
        is_inverse(i, d, m),
        is_inverse(j, e, m),
        (d + e) % m == 0,
    ensures
        (i + j) % m == 0,
{
    let k = (-j) % m;
    lemma_mul_mod_noop_right(d, -j, m);
    assert(d * (-j) == (-d) * j) by (nonlinear_arith);
    lemma_mod_equivalence(e, -d, m);
    assert(e - (-d) == d + e);
    lemma_congruent_product(-d, e, j, j, m);
    assert(is_inverse(k, d, m));
    lemma_inverse_unique(i, k, d, m);
    lemma_add_mod_noop(-j, j, m);
    lemma_small_mod(j as nat, m as nat);
    assert((-j) + j == 0);
}

/// The slope of a chord does not depend on the end from which it is taken:
/// with inverses that add up to zero, `dy * i` and `(-dy) * j` are congruent.
pub proof fn lemma_slope_symmetric(dy: int, i: int, j: int, m: int)
    requires
        m > 0,
        (i + j) % m == 0,
    ensures
        ((dy % m) * i) % m == (((-dy) % m) * j) % m,
{
    lemma_mul_mod_noop_left(dy, i, m);
    lemma_mul_mod_noop_left(-dy, j, m);
    lemma_mul_mod_noop_right(dy, i + j, m);
    assert(dy * 0 == 0);
    assert(dy * i - (-dy) * j == dy * (i + j)) by (nonlinear_arith);
    lemma_mod_equivalence(dy * i, (-dy) * j, m);
}

/// A slope times the run is congruent to the rise: with `i` the inverse of
/// `dx` and `s` congruent to `dy * i`, `s * dx` is congruent to `dy`.
pub proof fn lemma_slope_times_run(s: int, dx: int, dy: int, i: int, m: int)
    requires
        m > 0,
        is_inverse(i, dx % m, m),
        s % m == (dy * i) % m,
    ensures
        (s * dx - dy) % m == 0,
{
    lemma_mul_mod_noop_left(dx, i, m);
    lemma_mod_twice(1, m);
    lemma_congruent_product(s, dy * i, dx, dx, m);
    assert((dy * i) * dx == dy * (dx * i)) by (nonlinear_arith);
    lemma_congruent_product(dy, dy, dx * i, 1, m);
    assert(dy * 1 == dy);
    lemma_mod_equivalence(s * dx, dy, m);
}

/// The product of two machine integers, which always fits in twice the width.
pub fn product(x: i64, y: i64) -> (r: i128)
    ensures
        r == x * y,
        -0x4000_0000_0000_0000_0000_0000_0000_0000 <= r <= 0x4000_0000_0000_0000_0000_0000_0000_0000,
{
    assert(-0x4000_0000_0000_0000_0000_0000_0000_0000 <= x * y
        <= 0x4000_0000_0000_0000_0000_0000_0000_0000) by (nonlinear_arith)
        requires
            -0x8000_0000_0000_0000 <= x <= 0x7fff_ffff_ffff_ffff,
            -0x8000_0000_0000_0000 <= y <= 0x7fff_ffff_ffff_ffff,
    ;
    (x as i128) * (y as i128)
}

/// The residue of `v` modulo `m`, from zero up to `m - 1`.
pub fn reduce(v: i128, m: i64) -> (r: i64)
    requires
        m > 0,
    ensures
        r == (v as int) % (m as int),
        0 <= r < m,
{
    let modulus = m as i128;
    let t = v % modulus;
    if t < 0 {
        proof {
            let q = (-(v as int)) / (m as int);
            lemma_fundamental_div_mod(-(v as int), m as int);
            assert(v == (-q - 1) * m + (t + m)) by (nonlinear_arith)
                requires
                    -v == m * q + (-t),
            ;
            lemma_fundamental_div_mod_converse_mod(v as int, m as int, -q - 1, t + m);
        }
        (t + modulus) as i64
    } else {
        proof {
            if v < 0 {
                let q = (-(v as int)) / (m as int);
                lemma_fundamental_div_mod(-(v as int), m as int);
                assert(v == (-q) * m + 0) by (nonlinear_arith)
                    requires
                        -v == m * q + 0,
                ;
                lemma_fundamental_div_mod_converse_mod(v as int, m as int, -q, 0);
            }
        }
        t as i64
    }
}

} // verus!
