//! Legendre's formula: the exponent of a prime in the factorization of a
//! factorial, as a spec function and as the repeated-division loop.

use vstd::prelude::*;
use vstd::arithmetic::div_mod::{
    lemma_div_decreases, lemma_div_is_ordered_by_denominator, lemma_fundamental_div_mod,
    lemma_mod_division_less_than_divisor,
};

verus! {

/// The exponent of `p` in the factorization of `n!`: the sum over `k >= 1`
/// of the quotients `n / p^k`, folded as `n/p + legendre(n/p, p)`.
pub open spec fn legendre(n: nat, p: nat) -> nat
    decreases n,
    via legendre_decreases
{
    if p < 2 || n < p {
        0
    } else {
        n / p + legendre(n / p, p)
    }
}

#[via_fn]
proof fn legendre_decreases(n: nat, p: nat) {
    if !(p < 2 || n < p) {
        lemma_div_decreases(n as int, p as int);
    }
}

/// The Legendre sum never exceeds `n` itself.
pub proof fn lemma_legendre_le(n: nat, p: nat)
    requires
        2 <= p,
    ensures
        legendre(n, p) <= n,
    decreases n,
{
    if n >= p {
        lemma_div_decreases(n as int, p as int);
        lemma_legendre_le(n / p, p);
        lemma_div_is_ordered_by_denominator(n as int, 2, p as int);
    }
}

/// The exponent of `prime` in the factorization of `n!`, by repeated integer
/// division. A prime above `n` never divides `n!`; one above half of `n`
/// divides it exactly once; otherwise the quotients are accumulated until
/// they fall below the prime.
#[verifier::loop_isolation(false)]
pub fn multiplicity(n: usize, prime: usize) -> (e: usize)
    requires
        2 <= prime,
    ensures
        e == legendre(n as nat, prime as nat),
{
    let mut q: usize = n;
    let mut m: usize = 0;

    if prime > n {
        0
    } else if prime > n / 2 {
        proof {
            let nn = n as int;
            let pp = prime as int;
            lemma_fundamental_div_mod(nn, 2);
            assert(nn < 2 * pp);
            lemma_fundamental_div_mod(nn, pp);
            lemma_mod_division_less_than_divisor(nn, pp);
            assert(nn / pp == 1) by (nonlinear_arith)
                requires
                    nn == pp * (nn / pp) + nn % pp,
                    0 <= nn % pp < pp,
                    pp <= nn,
                    nn < 2 * pp,
            ;
            assert((n as nat) / (prime as nat) == 1);
            assert(legendre(1, prime as nat) == 0);
        }
        1
    } else {
        proof {
            lemma_legendre_le(n as nat, prime as nat);
        }
        while q >= prime
            invariant
                q <= n,
                m + legendre(q as nat, prime as nat) == legendre(n as nat, prime as nat),
            decreases q,
        {
            proof {
                lemma_div_decreases(q as int, prime as int);
                assert(legendre(q as nat, prime as nat)
                    == q as nat / prime as nat + legendre(q as nat / prime as nat, prime as nat));
            }
            q = q / prime;
            m = m + q;
        }
        m
    }
}

} // verus!
