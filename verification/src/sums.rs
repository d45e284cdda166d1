//! Summation of the primes below a bound into an arbitrary-precision total.

use vstd::prelude::*;
use num_bigint::BigUint;
use crate::bignum::{big_add_usize, big_from_usize, nat_of};
use crate::primes::primes_seq;
use crate::sieve::adapted_sieve;

verus! {

/// The sum of the elements of a sequence of machine words.
pub open spec fn sum_seq(s: Seq<usize>) -> int
    decreases s.len(),
{
    if s.len() == 0 {
        0
    } else {
        sum_seq(s.drop_last()) + s.last()
    }
}

/// The exact sum of all primes strictly below `n`, accumulated in ascending
/// order into an arbitrary-precision integer.
#[verifier::loop_isolation(false)]
pub fn sum_primes(n: usize) -> (total: BigUint)
    ensures
        nat_of(total) == sum_seq(primes_seq(n)),
{
    let primes = adapted_sieve(n);
    let mut total = big_from_usize(0);
    let mut i: usize = 0;
    while i < primes.len()
        invariant
            i <= primes.len(),
            nat_of(total) == sum_seq(primes@.take(i as int)),
        decreases primes.len() - i,
    {
        total = big_add_usize(total, primes[i]);
        proof {
            assert(primes@.take(i as int + 1).drop_last() =~= primes@.take(i as int));
            assert(primes@.take(i as int + 1).last() == primes@[i as int]);
        }
        i = i + 1;
    }
    proof {
        assert(primes@.take(primes.len() as int) =~= primes@);
    }
    total
}

/// Law: the prime sum equals the total that summing the direct sieve's
/// output independently yields, since both are pinned to the same sequence
/// of primes.
pub proof fn lemma_prime_sum_consistent(n: usize, direct: Seq<usize>, total: nat)
    requires
        direct == primes_seq(n),
        total == sum_seq(primes_seq(n)),
    ensures
        total == sum_seq(direct),
{
}

/// Law: two prime sums for the same bound hold the same value, since the
/// contract pins each to the sum of the primes below that bound.
pub proof fn lemma_prime_sum_deterministic(n: usize, first: nat, second: nat)
    requires
        first == sum_seq(primes_seq(n)),
        second == sum_seq(primes_seq(n)),
    ensures
        first == second,
{
}

} // verus!
