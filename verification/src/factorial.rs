//! The factorial engine: `n!` built as a product of prime powers, with the
//! exponents given by Legendre's formula, instead of a long chain of
//! big-integer multiplications.

use vstd::prelude::*;
use num_bigint::BigUint;
use crate::bignum::{big_from_usize, big_mul, big_pow, nat_of};
use crate::factorization::{fact, lemma_fact_prime_pow_prod, prime_pow_prod};
use crate::legendre::multiplicity;
use crate::primes::{is_prime, lemma_primes_seq_elems, primes_seq};
use crate::sieve::simple_sieve;

verus! {

/// `n!` exactly: every prime up to `n` is raised to its exponent in `n!` and
/// multiplied into the running product.
#[verifier::loop_isolation(false)]
pub fn factorial(n: usize) -> (r: BigUint)
    requires
        n < usize::MAX,
    ensures
        nat_of(r) == fact(n as nat),
{
    let primes = simple_sieve(n + 1);
    proof {
        lemma_primes_seq_elems((n + 1) as usize);
    }
    let mut result = big_from_usize(1);
    let mut i: usize = 0;
    while i < primes.len()
        invariant
            i <= primes.len(),
            nat_of(result) == prime_pow_prod(primes@.take(i as int), n as nat),
        decreases primes.len() - i,
    {
        let p: usize = primes[i];
        proof {
            assert(is_prime(p as int));
        }
        let e: usize = multiplicity(n, p);
        let base = big_from_usize(p);
        let power = big_pow(base, e);
        result = big_mul(result, &power);
        proof {
            assert(primes@.take(i as int + 1).drop_last() =~= primes@.take(i as int));
            assert(primes@.take(i as int + 1).last() == primes@[i as int]);
        }
        i = i + 1;
    }
    proof {
        assert(primes@.take(primes.len() as int) =~= primes@);
        lemma_fact_prime_pow_prod(n);
    }
    result
}

/// Law: two factorials of the same argument hold the same value, since the
/// contract pins each to `n!`.
pub proof fn lemma_factorial_deterministic(n: usize, first: nat, second: nat)
    requires
        first == fact(n as nat),
        second == fact(n as nat),
    ensures
        first == second,
{
}

/// Law: factorials of 0 and of 1 are both 1, and no prime lies below 2, so
/// the boundary bounds of every operation yield the identity results.
pub proof fn lemma_boundary_identities()
    ensures
        fact(0) == 1,
        fact(1) == 1,
        primes_seq(0) =~= Seq::<usize>::empty(),
        primes_seq(1) =~= Seq::<usize>::empty(),
{
}

} // verus!
