//! An incremental wheel sieve for computing initial segments of the primes.
//!
//! The library is organised in three layers:
//! - [`arith`] holds the number-theoretic vocabulary (primality, products,
//!   divisibility) and the lemmas the sieve proofs rest on;
//! - [`sieve`] holds the wheel state itself, the step that extends the prime
//!   basis, the boundary scan, and the verification pass that turns a terminal
//!   state into a confirmed list of primes;
//! - [`command`] holds the three execution modes a caller drives the sieve
//!   through.

pub mod arith;
pub mod command;
pub mod sieve;
