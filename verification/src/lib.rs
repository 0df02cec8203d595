//! Sum of `lcm(gcd(a, b), c)` over the ordered triples of positive integers
//! `(a, b, c)` with `a + b + c = n`, evaluated through Euler's totient
//! function instead of enumerating the triples.
//!
//! The work is layered: [`totient::totient_sieve`] tabulates the totient,
//! [`prefix::sums`] accumulates the table, and
//! [`summation::run_calculation`] folds the accumulated tables over the
//! candidate values of `gcd(a, b)`.
//!
//! What the result is, is said in [`enumeration::triple_sum`], which goes
//! through the triples one by one, and what a table entry is, in
//! [`coprime::totient`], which counts coprime numbers. That the sieve and the
//! grouped sum compute these is proved in [`coprime`] and [`enumeration`].

pub mod coprime;
pub mod enumeration;
pub mod error;
pub mod numbers;
pub mod prefix;
pub mod summation;
pub mod totient;
