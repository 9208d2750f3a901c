//! Montgomery modular exponentiation: computes `m^e mod n` for an odd
//! modulus `n` without any division in the hot loop, by moving operands
//! into the Montgomery residue domain where reduction is cheap.
//!
//! The crate is organised bottom-up:
//! - [`gcd`] holds the extended Euclidean solver used to derive the
//!   Montgomery reduction constant;
//! - [`params`] builds and validates the per-modulus parameter set;
//! - [`montgomery`] holds the REDC multiplier and the square-and-multiply
//!   exponentiation engine.

pub mod gcd;
pub mod montgomery;
pub mod params;
