//! Probabilistic primality testing and integer factorization for unsigned
//! integers of up to 128 bits, with machine-checked contracts.
//!
//! - [`wide`] and [`modular`]: multiplication and exponentiation modulo a
//!   128-bit integer, over a 256-bit product.
//! - [`miller_rabin`]: the Miller-Rabin test and `is_prime`.
//! - [`rho`]: Pollard's rho search for a proper factor.
//! - [`factorization`](mod@factorization): the factorization into primes.
//! - [`divisibility`], [`product`] and [`fermat`]: the number theory that
//!   the contracts are stated in and proved from.
//! - [`random`]: the one place where numbers are drawn at random.

pub mod divisibility;
pub mod factorization;
pub mod fermat;
pub mod miller_rabin;
pub mod modular;
pub mod product;
pub mod random;
pub mod rho;
pub mod wide;

pub use crate::divisibility::gcd;
pub use crate::divisibility::smallest_divisor;
pub use crate::factorization::factorization;
pub use crate::miller_rabin::is_prime;
pub use crate::miller_rabin::miller_rabin_round;
pub use crate::miller_rabin::miller_rabin_test;
pub use crate::miller_rabin::split_power_of_two;
pub use crate::miller_rabin::MillerRabinResult;
pub use crate::modular::mul_mod;
pub use crate::modular::pow_mod;
pub use crate::rho::pollard_rho;
pub use crate::rho::pollard_rho_once;
