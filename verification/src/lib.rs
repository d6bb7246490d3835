//! A small number-theory toolkit over 64-bit signed integers: modulus
//! normalisation, the extended Euclidean algorithm, modular inverses and
//! powers, linear congruences, an integer square root and a deterministic
//! primality test. Every function carries a machine-checked contract.

pub mod divisibility;
pub mod euclid;
pub mod isqrt;
pub mod modular;
pub mod primes;
pub mod truncation;

pub use euclid::extended_gcd;
pub use isqrt::integer_square_root;
pub use modular::{inv_modulo, modulo, power_mod, solve_linear_congruence};
pub use primes::{is_prime, PrimeTable};
