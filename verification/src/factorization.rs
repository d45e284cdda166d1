//! The number theory behind building a factorial as a product of prime
//! powers: prime valuations, Euclid's lemma, the factorization of a single
//! number, and the identity between `n!` and the product over all primes up
//! to `n` of each prime raised to its Legendre exponent.

use vstd::prelude::*;
use vstd::arithmetic::power::{lemma_pow0, lemma_pow1, lemma_pow_adds, pow};
use vstd::arithmetic::div_mod::{
    lemma_div_decreases, lemma_fundamental_div_mod, lemma_fundamental_div_mod_converse,
    lemma_mod_division_less_than_divisor, lemma_mod_multiples_basic, lemma_mod_self_0,
    lemma_mul_mod_noop_general, lemma_small_mod,
};
use crate::legendre::legendre;
use crate::primes::{
    is_prime, lemma_prime_divisor, lemma_primes_seq_complete, lemma_primes_seq_elems,
    lemma_primes_seq_sorted, primes_seq,
};

verus! {

/// The factorial of `n` as a mathematical value.
pub open spec fn fact(n: nat) -> nat
    decreases n,
{
    if n == 0 {
        1
    } else {
        n * fact((n - 1) as nat)
    }
}

/// The exponent of `p` in the prime factorization of `m`.
pub open spec fn prime_exp(p: nat, m: nat) -> nat
    decreases m,
    via prime_exp_decreases
{
    if p < 2 || m < 1 || m % p != 0 {
        0
    } else {
        1 + prime_exp(p, m / p)
    }
}

#[via_fn]
proof fn prime_exp_decreases(p: nat, m: nat) {
    if !(p < 2 || m < 1 || m % p != 0) {
        lemma_div_decreases(m as int, p as int);
    }
}

/// The product over a prime sequence of each prime raised to its Legendre
/// exponent for `n!`.
pub open spec fn prime_pow_prod(s: Seq<usize>, n: nat) -> int
    decreases s.len(),
{
    if s.len() == 0 {
        1
    } else {
        prime_pow_prod(s.drop_last(), n) * pow(s.last() as int, legendre(n, s.last() as nat))
    }
}

/// The product over a prime sequence of each prime raised to its exponent in
/// the single number `m`.
pub open spec fn exp_pow_prod(s: Seq<usize>, m: nat) -> int
    decreases s.len(),
{
    if s.len() == 0 {
        1
    } else {
        exp_pow_prod(s.drop_last(), m) * pow(s.last() as int, prime_exp(s.last() as nat, m))
    }
}

/// Descent step of Euclid's lemma: a prime dividing the product of a factor
/// below it and anything divides the other factor.
proof fn lemma_euclid_small(p: int, a: int, b: int)
    requires
        is_prime(p),
        1 <= a < p,
        0 <= b,
        (a * b) % p == 0,
    ensures
        b % p == 0,
    decreases a,
{
    if a == 1 {
        assert(1 * b == b) by (nonlinear_arith);
    } else {
        lemma_fundamental_div_mod(p, a);
        let qq = p / a;
        let r = p % a;
        lemma_mod_division_less_than_divisor(p, a);
        if r == 0 {
            // a proper divisor of p would contradict its primality
            assert(p % a != 0);
            assert(false);
        }
        lemma_fundamental_div_mod(a * b, p);
        let k = (a * b) / p;
        assert(a * b == p * k);
        assert(r == p - a * qq);
        assert(r * b == p * b - qq * (a * b)) by (nonlinear_arith)
            requires r == p - a * qq;
        assert(qq * (a * b) == p * (qq * k)) by (nonlinear_arith)
            requires a * b == p * k;
        assert(p * b - p * (qq * k) == p * (b - qq * k)) by (nonlinear_arith);
        assert(r * b == (b - qq * k) * p) by (nonlinear_arith)
            requires r * b == p * (b - qq * k);
        lemma_mod_multiples_basic(b - qq * k, p);
        lemma_euclid_small(p, r, b);
    }
}

/// Euclid's lemma: a prime dividing a product divides one of the factors.
pub proof fn lemma_euclid(p: int, a: int, b: int)
    requires
        is_prime(p),
        0 <= a,
        0 <= b,
        (a * b) % p == 0,
    ensures
        a % p == 0 || b % p == 0,
{
    lemma_mul_mod_noop_general(a, b, p);
    lemma_mod_division_less_than_divisor(a, p);
    let a1 = a % p;
    if a1 != 0 {
        assert((a1 * b) % p == 0);
        lemma_euclid_small(p, a1, b);
    }
}

/// Prime exponents add over products.
proof fn lemma_prime_exp_mul(p: nat, a: nat, b: nat)
    requires
        is_prime(p as int),
        1 <= a,
        1 <= b,
    ensures
        prime_exp(p, a * b) == prime_exp(p, a) + prime_exp(p, b),
    decreases a + b,
{
    let pi = p as int;
    assert(1 <= a * b) by (nonlinear_arith)
        requires 1 <= a, 1 <= b;
    if a % p == 0 {
        lemma_fundamental_div_mod(a as int, pi);
        let a1 = a / p;
        assert(a == p * a1);
        assert(a1 >= 1) by (nonlinear_arith)
            requires a as int == pi * (a1 as int), a >= 1, pi >= 2;
        assert((a * b) as int == ((a1 * b) as int) * pi + 0) by (nonlinear_arith)
            requires a as int == pi * (a1 as int);
        lemma_fundamental_div_mod_converse((a * b) as int, pi, (a1 * b) as int, 0);
        assert(prime_exp(p, a * b) == 1 + prime_exp(p, a1 * b));
        assert(prime_exp(p, a) == 1 + prime_exp(p, a1));
        lemma_div_decreases(a as int, pi);
        lemma_prime_exp_mul(p, a1, b);
    } else if b % p == 0 {
        lemma_fundamental_div_mod(b as int, pi);
        let b1 = b / p;
        assert(b == p * b1);
        assert(b1 >= 1) by (nonlinear_arith)
            requires b as int == pi * (b1 as int), b >= 1, pi >= 2;
        assert((a * b) as int == ((a * b1) as int) * pi + 0) by (nonlinear_arith)
            requires b as int == pi * (b1 as int);
        lemma_fundamental_div_mod_converse((a * b) as int, pi, (a * b1) as int, 0);
        assert(prime_exp(p, a * b) == 1 + prime_exp(p, a * b1));
        assert(prime_exp(p, b) == 1 + prime_exp(p, b1));
        lemma_div_decreases(b as int, pi);
        lemma_prime_exp_mul(p, a, b1);
    } else {
        if (a * b) % p == 0 {
            assert(((a as int) * (b as int)) % pi == 0);
            lemma_euclid(pi, a as int, b as int);
            assert(false);
        }
    }
}

/// The exponent of one prime in another: one for the prime itself, zero for
/// any other prime.
proof fn lemma_prime_exp_prime(p: nat, q: nat)
    requires
        is_prime(p as int),
        is_prime(q as int),
    ensures
        prime_exp(p, q) == (if p == q { 1nat } else { 0nat }),
{
    let pi = p as int;
    if p == q {
        lemma_mod_self_0(pi);
        lemma_fundamental_div_mod_converse(q as int, pi, 1, 0);
        assert(q / p == 1);
        lemma_small_mod(1, p);
        assert(prime_exp(p, 1) == 0);
    } else if p < q {
        // q is prime, so the smaller prime p does not divide it
        assert((q as int) % pi != 0);
    } else {
        lemma_small_mod(q, p);
    }
}

/// A prime above `m` has exponent zero in `m`.
proof fn lemma_prime_exp_none(p: nat, m: nat)
    requires
        1 <= m < p,
    ensures
        prime_exp(p, m) == 0,
{
    lemma_small_mod(m, p);
}

/// Stepping the factorial argument down by one lowers each Legendre exponent
/// by exactly the exponent of the prime in `n` itself.
proof fn lemma_legendre_step(n: nat, p: nat)
    requires
        1 <= n,
        is_prime(p as int),
    ensures
        legendre(n, p) == legendre((n - 1) as nat, p) + prime_exp(p, n),
    decreases n,
{
    let pi = p as int;
    if n < p {
        lemma_small_mod(n, p);
    } else {
        lemma_fundamental_div_mod(n as int, pi);
        lemma_mod_division_less_than_divisor(n as int, pi);
        let k = n / p;
        let r = n % p;
        assert(k >= 1) by (nonlinear_arith)
            requires
                n as int == pi * (k as int) + (r as int),
                0 <= (r as int) < pi,
                (n as int) >= pi,
                pi >= 2,
                k >= 0,
        ;
        if r == 0 {
            // p divides n: the quotient drops by one at n - 1
            assert((n - 1) as int == ((k - 1) as int) * pi + (pi - 1)) by (nonlinear_arith)
                requires n as int == pi * (k as int), k >= 1, pi >= 2;
            lemma_fundamental_div_mod_converse((n - 1) as int, pi, (k - 1) as int, pi - 1);
            lemma_div_decreases(n as int, pi);
            lemma_legendre_step(k, p);
            assert(prime_exp(p, n) == 1 + prime_exp(p, k));
            if n - 1 >= p {
                assert(legendre((n - 1) as nat, p)
                    == (k - 1) + legendre((k - 1) as nat, p));
            } else {
                // n == p, so k == 1 and both sides are zero
                assert(n == p) by (nonlinear_arith)
                    requires n as int == pi * (k as int), n >= p, n - 1 < p, k >= 1, pi >= 2;
                assert(k == 1) by (nonlinear_arith)
                    requires n as int == pi * (k as int), n as int == pi, pi >= 2;
                assert(legendre((n - 1) as nat, p) == 0);
                assert(legendre((k - 1) as nat, p) == 0);
            }
        } else {
            // p does not divide n: the quotient is unchanged at n - 1
            assert((n - 1) as int == (k as int) * pi + ((r - 1) as int)) by (nonlinear_arith)
                requires n as int == pi * (k as int) + (r as int);
            lemma_fundamental_div_mod_converse((n - 1) as int, pi, k as int, (r - 1) as int);
            assert(n as int >= pi + 1) by (nonlinear_arith)
                requires n as int == pi * (k as int) + (r as int), k >= 1, r >= 1, pi >= 2;
            assert(legendre((n - 1) as nat, p) == k + legendre(k, p));
            assert(prime_exp(p, n) == 0);
        }
    }
}

/// Splitting one factorial step off a product of Legendre exponents.
proof fn lemma_prod_split(s: Seq<usize>, n: nat)
    requires
        1 <= n,
        forall|i: int| 0 <= i < s.len() ==> is_prime((#[trigger] s[i]) as int),
    ensures
        prime_pow_prod(s, n) == exp_pow_prod(s, n) * prime_pow_prod(s, (n - 1) as nat),
    decreases s.len(),
{
    if s.len() == 0 {
    } else {
        let p = s.last();
        assert(is_prime(s[s.len() - 1] as int));
        assert forall|i: int| 0 <= i < s.drop_last().len()
            implies is_prime((#[trigger] s.drop_last()[i]) as int) by {
            assert(s.drop_last()[i] == s[i]);
        }
        lemma_prod_split(s.drop_last(), n);
        lemma_legendre_step(n, p as nat);
        lemma_pow_adds(p as int, legendre((n - 1) as nat, p as nat), prime_exp(p as nat, n));
        let a = exp_pow_prod(s.drop_last(), n);
        let b = prime_pow_prod(s.drop_last(), (n - 1) as nat);
        let x = pow(p as int, prime_exp(p as nat, n));
        let y = pow(p as int, legendre((n - 1) as nat, p as nat));
        assert(prime_pow_prod(s, n) == (a * b) * (y * x));
        assert((a * b) * (y * x) == (a * x) * (b * y)) by (nonlinear_arith);
    }
}

/// A product of primes each raised to exponent zero is one.
proof fn lemma_exp_prod_ones(s: Seq<usize>, m: nat)
    requires
        forall|i: int| 0 <= i < s.len() ==> prime_exp((#[trigger] s[i]) as nat, m) == 0,
    ensures
        exp_pow_prod(s, m) == 1,
    decreases s.len(),
{
    if s.len() > 0 {
        assert(prime_exp(s[s.len() - 1] as nat, m) == 0);
        assert forall|i: int| 0 <= i < s.drop_last().len()
            implies prime_exp((#[trigger] s.drop_last()[i]) as nat, m) == 0 by {
            assert(s.drop_last()[i] == s[i]);
        }
        lemma_exp_prod_ones(s.drop_last(), m);
        lemma_pow0(s.last() as int);
    }
}

/// Pointwise equal exponents give equal products.
proof fn lemma_exp_prod_congruent(s: Seq<usize>, m1: nat, m2: nat)
    requires
        forall|i: int| 0 <= i < s.len()
            ==> prime_exp((#[trigger] s[i]) as nat, m1) == prime_exp(s[i] as nat, m2),
    ensures
        exp_pow_prod(s, m1) == exp_pow_prod(s, m2),
    decreases s.len(),
{
    if s.len() > 0 {
        assert(prime_exp(s[s.len() - 1] as nat, m1) == prime_exp(s[s.len() - 1] as nat, m2));
        assert forall|i: int| 0 <= i < s.drop_last().len()
            implies prime_exp((#[trigger] s.drop_last()[i]) as nat, m1)
                == prime_exp(s.drop_last()[i] as nat, m2) by {
            assert(s.drop_last()[i] == s[i]);
        }
        lemma_exp_prod_congruent(s.drop_last(), m1, m2);
    }
}

/// Pulling the single factor `q` out of an exponent product whose exponents
/// at `m` exceed those at `m1` by one exactly at `q`.
proof fn lemma_exp_prod_extract(s: Seq<usize>, q: usize, m: nat, m1: nat)
    requires
        forall|i: int, j: int| 0 <= i < j < s.len() ==> s[i] != s[j],
        exists|i: int| 0 <= i < s.len() && #[trigger] s[i] == q,
        forall|i: int| 0 <= i < s.len() ==> prime_exp((#[trigger] s[i]) as nat, m)
            == prime_exp(s[i] as nat, m1) + (if s[i] == q { 1nat } else { 0nat }),
    ensures
        exp_pow_prod(s, m) == q * exp_pow_prod(s, m1),
    decreases s.len(),
{
    let p = s.last();
    assert(prime_exp(s[s.len() - 1] as nat, m)
        == prime_exp(s[s.len() - 1] as nat, m1) + (if s[s.len() - 1] == q { 1nat } else { 0nat }));
    if p == q {
        // q occurs only last, so the earlier exponents agree
        assert forall|i: int| 0 <= i < s.drop_last().len()
            implies prime_exp((#[trigger] s.drop_last()[i]) as nat, m)
                == prime_exp(s.drop_last()[i] as nat, m1) by {
            assert(s.drop_last()[i] == s[i]);
            assert(s[i] != s[s.len() - 1]);
        }
        lemma_exp_prod_congruent(s.drop_last(), m, m1);
        lemma_pow_adds(q as int, prime_exp(q as nat, m1), 1);
        lemma_pow1(q as int);
        let a = exp_pow_prod(s.drop_last(), m1);
        let x = pow(q as int, prime_exp(q as nat, m1));
        assert(exp_pow_prod(s, m) == a * (x * ((q as int) * 1)));
        assert(a * (x * ((q as int) * 1)) == q * (a * x)) by (nonlinear_arith);
    } else {
        // q occurs among the earlier entries
        let i0 = choose|i: int| 0 <= i < s.len() && #[trigger] s[i] == q;
        assert(i0 < s.len() - 1);
        assert forall|i: int, j: int| 0 <= i < j < s.drop_last().len()
            implies s.drop_last()[i] != s.drop_last()[j] by {
            assert(s.drop_last()[i] == s[i] && s.drop_last()[j] == s[j]);
        }
        assert(s.drop_last()[i0] == q);
        assert forall|i: int| 0 <= i < s.drop_last().len()
            implies prime_exp((#[trigger] s.drop_last()[i]) as nat, m)
                == prime_exp(s.drop_last()[i] as nat, m1)
                    + (if s.drop_last()[i] == q { 1nat } else { 0nat }) by {
            assert(s.drop_last()[i] == s[i]);
        }
        lemma_exp_prod_extract(s.drop_last(), q, m, m1);
        let b = exp_pow_prod(s.drop_last(), m1);
        let x = pow(p as int, prime_exp(p as nat, m1));
        assert(exp_pow_prod(s, m) == ((q as int) * b) * x);
        assert(((q as int) * b) * x == q * (b * x)) by (nonlinear_arith);
    }
}

/// Every number at least 1 is the product, over any distinct prime sequence
/// holding all primes up to it, of each prime raised to its exponent.
proof fn lemma_factorization(s: Seq<usize>, m: nat)
    requires
        1 <= m,
        forall|i: int| 0 <= i < s.len() ==> is_prime((#[trigger] s[i]) as int),
        forall|i: int, j: int| 0 <= i < j < s.len() ==> s[i] != s[j],
        forall|q: int| 2 <= q <= m && #[trigger] is_prime(q)
            ==> (exists|i: int| 0 <= i < s.len() && (#[trigger] s[i]) as int == q),
    ensures
        exp_pow_prod(s, m) == m,
    decreases m,
{
    if m == 1 {
        assert forall|i: int| 0 <= i < s.len()
            implies prime_exp((#[trigger] s[i]) as nat, m) == 0 by {
            assert(is_prime(s[i] as int));
            lemma_prime_exp_none(s[i] as nat, 1);
        }
        lemma_exp_prod_ones(s, m);
    } else {
        lemma_prime_divisor(m as int);
        let q0 = choose|q: int| is_prime(q) && 2 <= q <= m && #[trigger] ((m as int) % q) == 0;
        lemma_fundamental_div_mod(m as int, q0);
        let m1 = m / (q0 as nat);
        assert(m as int == q0 * (m1 as int));
        assert(1 <= m1 && m1 < m) by (nonlinear_arith)
            requires m as int == q0 * (m1 as int), m >= 2, q0 >= 2, m1 >= 0;
        assert forall|i: int| 0 <= i < s.len()
            implies prime_exp((#[trigger] s[i]) as nat, m)
                == prime_exp(s[i] as nat, m1) + (if s[i] as int == q0 { 1nat } else { 0nat }) by {
            assert(is_prime(s[i] as int));
            lemma_prime_exp_mul(s[i] as nat, q0 as nat, m1);
            assert((q0 as nat) * m1 == m);
            lemma_prime_exp_prime(s[i] as nat, q0 as nat);
        }
        assert(is_prime(q0));
        let i0 = choose|i: int| 0 <= i < s.len() && (#[trigger] s[i]) as int == q0;
        assert(s[i0] == q0 as usize);
        assert forall|i: int| 0 <= i < s.len()
            implies prime_exp((#[trigger] s[i]) as nat, m)
                == prime_exp(s[i] as nat, m1)
                    + (if s[i] == q0 as usize { 1nat } else { 0nat }) by {
            assert(prime_exp(s[i] as nat, m)
                == prime_exp(s[i] as nat, m1) + (if s[i] as int == q0 { 1nat } else { 0nat }));
        }
        lemma_exp_prod_extract(s, q0 as usize, m, m1);
        assert forall|q: int| 2 <= q <= m1 && #[trigger] is_prime(q)
            implies (exists|i: int| 0 <= i < s.len() && (#[trigger] s[i]) as int == q) by {
            assert(2 <= q <= m);
        }
        lemma_factorization(s, m1);
    }
}

/// The factorial identity the engine computes by: `n!` equals the product,
/// over every prime up to `n`, of that prime raised to its Legendre exponent.
pub proof fn lemma_fact_prime_pow_prod(n: usize)
    requires
        n < usize::MAX,
    ensures
        prime_pow_prod(primes_seq((n + 1) as usize), n as nat) == fact(n as nat),
    decreases n,
{
    let np1 = (n + 1) as usize;
    let s = primes_seq(np1);
    lemma_primes_seq_elems(np1);
    lemma_primes_seq_sorted(np1);
    if n == 0 {
        assert(s =~= Seq::<usize>::empty());
    } else {
        let s0 = primes_seq(n);
        assert forall|i: int| 0 <= i < s.len() implies is_prime((#[trigger] s[i]) as int) by {}
        lemma_prod_split(s, n as nat);
        lemma_primes_seq_complete(np1);
        assert forall|i: int, j: int| 0 <= i < j < s.len() implies s[i] != s[j] by {
            assert(s[i] < s[j]);
        }
        assert forall|q: int| 2 <= q <= n as nat && #[trigger] is_prime(q)
            implies (exists|i: int| 0 <= i < s.len() && (#[trigger] s[i]) as int == q) by {
            assert(s.contains(q as usize));
            let i = choose|i: int| 0 <= i < s.len() && #[trigger] s[i] == q as usize;
            assert(s[i] as int == q);
        }
        lemma_factorization(s, n as nat);
        assert(prime_pow_prod(s, (n - 1) as nat) == prime_pow_prod(s0, (n - 1) as nat)) by {
            if is_prime(n as int) {
                assert(s == s0.push(n));
                assert(s.drop_last() =~= s0);
                assert(s.last() == n);
                assert(legendre((n - 1) as nat, n as nat) == 0);
                lemma_pow0(n as int);
            } else {
                assert(s == s0);
            }
        }
        lemma_fact_prime_pow_prod((n - 1) as usize);
        assert(fact(n as nat) == n * fact((n - 1) as nat));
    }
}

} // verus!
