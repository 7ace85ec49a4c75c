//! Arbitrary precision integer arithmetic: schoolbook and Karatsuba
//! multiplication, long division, modular arithmetic and Miller-Rabin
//! primality testing, on signed integers held as base-10^9 digits.
//!
//! ## Modules
//! - [`bigint`] - Core `BigInt` type and basic operations
//! - [`arithmetic`] - Addition, subtraction, multiplication
//! - [`karatsuba`] - Karatsuba multiplication algorithm
//! - [`modular`] - Modular arithmetic, modular exponentiation, modular inverse
//! - [`primality`] - Miller-Rabin primality testing and GCD
//! - [`digits`] - Values of base-10^9 digit sequences
//! - [`text`] - The textual forms that parsing reads and printing writes

pub mod arithmetic;
pub mod bigint;
pub mod digits;
pub mod karatsuba;
pub mod modular;
pub mod number_theory;
pub mod primality;
pub mod text;

pub use bigint::BigInt;
