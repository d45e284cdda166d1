//! Prime generation, prime sums, and factorials by prime-power decomposition.
//!
//! The sieves return the ascending sequence of primes below a bound, the sum
//! of those primes is accumulated into an arbitrary-precision integer, and a
//! factorial is assembled as a product of prime powers whose exponents come
//! from Legendre's formula.

pub mod primes;
pub mod sieve;
pub mod legendre;
pub mod factorization;
pub mod bignum;
pub mod sums;
pub mod factorial;

pub use legendre::multiplicity;
pub use sums::sum_primes;
pub use factorial::factorial;
pub use sieve::adapted_sieve;
pub use sieve::segmented_sieve;
pub use sieve::sieve_with_threshold;
pub use sieve::simple_sieve;
