//! The notion of primality, the canonical sequence of primes below a bound,
//! and the elementary divisibility facts the sieves rest on.

use vstd::prelude::*;
use vstd::arithmetic::div_mod::{
    lemma_fundamental_div_mod, lemma_mod_multiples_basic, lemma_mod_self_0, lemma_small_mod,
};

verus! {

/// A number is prime when it is at least 2 and no number strictly between
/// 1 and itself divides it.
pub open spec fn is_prime(p: int) -> bool {
    &&& p >= 2
    &&& forall|d: int| 2 <= d < p ==> #[trigger] (p % d) != 0
}

/// The ascending sequence of all primes strictly below `n`.
pub open spec fn primes_seq(n: usize) -> Seq<usize>
    decreases n,
{
    if n <= 2 {
        Seq::empty()
    } else if is_prime(n - 1) {
        primes_seq((n - 1) as usize).push((n - 1) as usize)
    } else {
        primes_seq((n - 1) as usize)
    }
}

/// Divisibility is transitive: if `d` divides `m` and `m` divides `x`,
/// then `d` divides `x`.
pub proof fn lemma_divides_trans(d: int, m: int, x: int)
    requires
        1 <= d,
        1 <= m,
        m % d == 0,
        x % m == 0,
    ensures
        x % d == 0,
{
    lemma_fundamental_div_mod(x, m);
    lemma_fundamental_div_mod(m, d);
    let a = x / m;
    let b = m / d;
    assert(x == (d * b) * a);
    assert((d * b) * a == (b * a) * d) by (nonlinear_arith);
    lemma_mod_multiples_basic(b * a, d);
}

/// Every composite number has a divisor no larger than its square root.
pub proof fn lemma_small_factor(j: int)
    requires
        2 <= j,
        !is_prime(j),
    ensures
        exists|d: int| 2 <= d && d * d <= j && d < j && #[trigger] (j % d) == 0,
{
    let d0 = choose|d: int| 2 <= d < j && #[trigger] (j % d) == 0;
    assert(2 <= d0 < j && j % d0 == 0);
    lemma_fundamental_div_mod(j, d0);
    let e = j / d0;
    assert(j == d0 * e);
    assert(e >= 1) by (nonlinear_arith)
        requires j == d0 * e, d0 >= 2, j >= 2;
    assert(e != 1) by {
        if e == 1 {
            assert(j == d0) by (nonlinear_arith)
                requires j == d0 * e, e == 1;
        }
    }
    if d0 * d0 <= j {
        assert(2 <= d0 && d0 * d0 <= j && d0 < j && j % d0 == 0);
    } else {
        assert(e < d0 && e * e <= j && e < j) by (nonlinear_arith)
            requires j == d0 * e, d0 * d0 > j, d0 >= 2, e >= 2;
        assert(j == e * d0) by (nonlinear_arith)
            requires j == d0 * e;
        lemma_mod_multiples_basic(d0, e);
        assert(2 <= e && e * e <= j && e < j && j % e == 0);
    }
}

/// Every number at least 2 has a prime divisor.
pub proof fn lemma_prime_divisor(m: int)
    requires
        2 <= m,
    ensures
        exists|q: int| is_prime(q) && 2 <= q <= m && #[trigger] (m % q) == 0,
    decreases m,
{
    if is_prime(m) {
        lemma_mod_self_0(m);
        assert(is_prime(m) && 2 <= m <= m && m % m == 0);
    } else {
        lemma_small_factor(m);
        let d = choose|d: int| 2 <= d && d * d <= m && d < m && #[trigger] (m % d) == 0;
        lemma_prime_divisor(d);
        let q = choose|q: int| is_prime(q) && 2 <= q <= d && #[trigger] (d % q) == 0;
        lemma_divides_trans(q, d, m);
        assert(is_prime(q) && 2 <= q <= m && m % q == 0);
    }
}

/// If a number below `c * c` has no divisor below `c` other than itself,
/// it is prime; and conversely.
pub proof fn lemma_unmarked_prime_equiv(j: int, c: int)
    requires
        2 <= j,
        2 <= c,
        j < c * c,
    ensures
        (forall|d: int| 2 <= d < c && d != j ==> #[trigger] (j % d) != 0) <==> is_prime(j),
{
    if is_prime(j) {
        assert forall|d: int| 2 <= d < c && d != j implies #[trigger] (j % d) != 0 by {
            if d < j {
                assert(j % d != 0);
            } else {
                lemma_small_mod(j as nat, d as nat);
            }
        }
    } else {
        lemma_small_factor(j);
        let d = choose|d: int| 2 <= d && d * d <= j && d < j && #[trigger] (j % d) == 0;
        assert(d < c) by (nonlinear_arith)
            requires d * d <= j, j < c * c, d >= 2, c >= 2;
        assert(!(forall|e: int| 2 <= e < c && e != j ==> #[trigger] (j % e) != 0));
    }
}

/// Every element of `primes_seq(n)` is a prime below `n`.
pub proof fn lemma_primes_seq_elems(n: usize)
    ensures
        forall|i: int| 0 <= i < primes_seq(n).len()
            ==> is_prime(#[trigger] primes_seq(n)[i] as int) && primes_seq(n)[i] < n,
    decreases n,
{
    if n > 2 {
        lemma_primes_seq_elems((n - 1) as usize);
        let prev = primes_seq((n - 1) as usize);
        assert forall|i: int| 0 <= i < primes_seq(n).len()
            implies is_prime(#[trigger] primes_seq(n)[i] as int) && primes_seq(n)[i] < n by {
            if i < prev.len() {
                assert(primes_seq(n)[i] == prev[i]);
            } else {
                assert(is_prime(n - 1));
                assert(primes_seq(n)[i] == (n - 1) as usize);
            }
        }
    }
}

/// Every prime below `n` occurs in `primes_seq(n)`.
pub proof fn lemma_primes_seq_complete(n: usize)
    ensures
        forall|p: int| 2 <= p < n && #[trigger] is_prime(p)
            ==> primes_seq(n).contains(p as usize),
    decreases n,
{
    if n > 2 {
        lemma_primes_seq_complete((n - 1) as usize);
        assert forall|p: int| 2 <= p < n && #[trigger] is_prime(p)
            implies primes_seq(n).contains(p as usize) by {
            if p < n - 1 {
                assert(primes_seq((n - 1) as usize).contains(p as usize));
                let i = choose|i: int|
                    0 <= i < primes_seq((n - 1) as usize).len()
                        && #[trigger] primes_seq((n - 1) as usize)[i] == p as usize;
                assert(primes_seq(n)[i] == p as usize);
            } else {
                assert(p == n - 1);
                assert(primes_seq(n).last() == p as usize);
            }
        }
    }
}

/// The sequence of primes below a bound is strictly increasing.
pub proof fn lemma_primes_seq_sorted(n: usize)
    ensures
        forall|i: int, j: int| 0 <= i < j < primes_seq(n).len()
            ==> primes_seq(n)[i] < primes_seq(n)[j],
    decreases n,
{
    if n > 2 {
        lemma_primes_seq_sorted((n - 1) as usize);
        lemma_primes_seq_elems((n - 1) as usize);
        let prev = primes_seq((n - 1) as usize);
        assert forall|i: int, j: int| 0 <= i < j < primes_seq(n).len()
            implies primes_seq(n)[i] < primes_seq(n)[j] by {
            if j < prev.len() {
                assert(primes_seq(n)[i] == prev[i] && primes_seq(n)[j] == prev[j]);
            } else {
                assert(primes_seq(n)[j] == (n - 1) as usize);
                assert(primes_seq(n)[i] == prev[i]);
                assert(prev[i] < (n - 1) as usize);
            }
        }
    }
}

/// For bounds `a <= b`, the primes below `a` form a prefix of the primes
/// below `b`, and the rest of that longer sequence lies at or above `a`.
pub proof fn lemma_primes_seq_prefix(a: usize, b: usize)
    requires
        a <= b,
    ensures
        primes_seq(a).len() <= primes_seq(b).len(),
        forall|i: int| 0 <= i < primes_seq(a).len()
            ==> primes_seq(b)[i] == primes_seq(a)[i],
        forall|i: int| primes_seq(a).len() <= i < primes_seq(b).len()
            ==> a <= #[trigger] primes_seq(b)[i],
    decreases b,
{
    if a < b {
        lemma_primes_seq_prefix(a, (b - 1) as usize);
        lemma_primes_seq_elems((b - 1) as usize);
    }
}

} // verus!
