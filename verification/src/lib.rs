//! Lenstra's elliptic-curve method for splitting an integer `n`.
//!
//! A random curve modulo `n` is drawn with a point on it, and the point is
//! multiplied by every small prime power. Modulo a prime factor of `n` the
//! curve is a finite group; once the multiplier is a multiple of the point's
//! order there, an addition meets a denominator that has no inverse modulo
//! `n`, and the greatest common divisor of that denominator and `n` is a
//! divisor of `n`.
//!
//! `factors_of` collects the divisors that many such attempts find.

pub mod arith;
pub mod curve;
pub mod divisors;
pub mod factor;
pub mod residue;
pub mod sampler;
pub mod sieve;

pub use arith::{divmod, gcd, modular_inv};
pub use curve::{elliptic_add, elliptic_mul};
pub use factor::{attempt_on, factors_of, lenstra, lenstra_};
pub use sieve::{primes, primes_under};
