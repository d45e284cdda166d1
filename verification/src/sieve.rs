//! Prime generation: a direct sieve of Eratosthenes restricted to odd
//! candidates, a memory-bounded segmented sieve, and the adaptive selector
//! between them.

use vstd::prelude::*;
use vstd::pervasive::VecAdditionalExecFns;
use vstd::arithmetic::div_mod::{
    lemma_fundamental_div_mod, lemma_mod_add_multiples_vanish, lemma_mod_division_less_than_divisor,
    lemma_mod_multiples_basic, lemma_mod_multiples_vanish, lemma_mul_mod_noop_general,
    lemma_small_mod, lemma_sub_mod_noop,
};
use crate::primes::{
    is_prime, lemma_divides_trans, lemma_prime_divisor, lemma_primes_seq_complete,
    lemma_primes_seq_elems, lemma_primes_seq_prefix, lemma_small_factor,
    lemma_unmarked_prime_equiv, primes_seq,
};

verus! {

/// Bounds below this value are sieved directly; larger bounds go through the
/// segmented sieve to keep peak memory near the square root of the bound.
pub const SEGMENT_THRESHOLD: usize = 100000000;

/// Holds of `j` when no candidate divisor below `c`, other than `j` itself,
/// divides `j`: exactly the numbers a sieve has not struck after processing
/// every candidate below `c`.
pub open spec fn unstruck(j: int, c: int) -> bool {
    &&& 2 <= j
    &&& forall|d: int| 2 <= d < c && d != j ==> #[trigger] (j % d) != 0
}

/// Raising the processed-candidate bound by one only asks that the new
/// candidate itself not divide `m`.
proof fn lemma_unstruck_step(m: int, c: int)
    requires
        2 <= c,
    ensures
        unstruck(m, c + 1) == (unstruck(m, c) && (m == c || m % c != 0)),
{
    if unstruck(m, c + 1) {
        assert forall|d: int| 2 <= d < c && d != m implies #[trigger] (m % d) != 0 by {
            assert(2 <= d < c + 1);
        }
        if m != c {
            assert(m % c != 0);
        }
    }
    if unstruck(m, c) && (m == c || m % c != 0) {
        assert forall|d: int| 2 <= d < c + 1 && d != m implies #[trigger] (m % d) != 0 by {
            if d < c {
            } else {
                assert(d == c);
            }
        }
    }
}

/// A multiple of a prime candidate `c` that survived all smaller candidates
/// is an odd number at least `c * c`.
proof fn lemma_survivor_multiple(m: int, c: int)
    requires
        3 <= c,
        c % 2 == 1,
        unstruck(m, c),
        m % c == 0,
        m != c,
    ensures
        m % 2 == 1,
        c * c <= m,
{
    lemma_fundamental_div_mod(m, c);
    let k = m / c;
    assert(m == c * k);
    assert(k >= 2) by (nonlinear_arith)
        requires m == c * k, m >= 2, m != c, c >= 3;
    assert(m >= 2 * c) by (nonlinear_arith)
        requires m == c * k, k >= 2, c >= 3;
    if m % 2 == 0 {
        // the even pass would already have struck m
        assert(2 != m);
        assert(m % 2 != 0);
        assert(false);
    }
    if m < c * c {
        // the smaller cofactor would already have struck m
        assert(k < c) by (nonlinear_arith)
            requires m == c * k, m < c * c, c > 0, k >= 0;
        assert(m == k * c) by (nonlinear_arith)
            requires m == c * k;
        lemma_mod_multiples_basic(c, k);
        assert(m % k == 0);
        assert(k != m);
        assert(m % k != 0);
        assert(false);
    }
}

/// Striking the multiples of a candidate that was itself already struck
/// changes nothing: a smaller divisor of the candidate already covered them.
proof fn lemma_redundant_candidate(m: int, c: int)
    requires
        3 <= c,
        !unstruck(c, c),
        unstruck(m, c),
    ensures
        m == c || m % c != 0,
{
    if m != c && m % c == 0 {
        let e = choose|d: int| 2 <= d < c && #[trigger] (c % d) == 0;
        assert(2 <= e < c && c % e == 0) by {
            assert(!(forall|d: int| 2 <= d < c && d != c ==> #[trigger] (c % d) != 0));
            let d0 = choose|d: int| !(2 <= d < c && d != c ==> #[trigger] (c % d) != 0);
            assert(2 <= d0 < c && c % d0 == 0);
        }
        lemma_divides_trans(e, c, m);
        lemma_fundamental_div_mod(m, c);
        let k = m / c;
        assert(m == c * k);
        assert(m >= 2 * c) by (nonlinear_arith)
            requires m == c * k, m >= 2, m != c, c >= 3;
        assert(e != m);
        assert(m % e != 0);
        assert(false);
    }
}

/// The least `s` whose square reaches `n`.
fn ceil_sqrt(n: usize) -> (s: usize)
    ensures
        n <= s * s,
        forall|t: int| 0 <= t < s ==> #[trigger] (t * t) < n,
{
    if n == 0 {
        return 0;
    }
    proof {
        assert forall|t: int| 0 <= t < 1 implies #[trigger] (t * t) < n by {
            assert(t == 0);
            assert(t * t == 0) by (nonlinear_arith)
                requires t == 0;
        }
    }
    let mut s: usize = 1;
    while (n - 1) / s >= s
        invariant
            1 <= s <= n,
            forall|t: int| 0 <= t < s ==> #[trigger] (t * t) < n,
        decreases n - s,
    {
        proof {
            let si = s as int;
            let m = (n - 1) as int;
            lemma_fundamental_div_mod(m, si);
            lemma_mod_division_less_than_divisor(m, si);
            assert(si * si < n) by (nonlinear_arith)
                requires
                    m == si * (m / si) + m % si,
                    m / si >= si,
                    m % si >= 0,
                    m < n,
                    si >= 1,
            ;
            assert(s < n) by (nonlinear_arith)
                requires (s as int) * (s as int) < n as int, s >= 1;
        }
        s = s + 1;
    }
    proof {
        let si = s as int;
        let m = (n - 1) as int;
        lemma_fundamental_div_mod(m, si);
        lemma_mod_division_less_than_divisor(m, si);
        assert(n <= si * si) by (nonlinear_arith)
            requires
                m == si * (m / si) + m % si,
                m / si < si,
                m % si < si,
                m == n - 1,
                si >= 1,
        ;
    }
    s
}

/// Every prime strictly below `n`, ascending, computed with one boolean mask
/// of length `n`: the sieve of Eratosthenes, striking the even numbers first
/// and then only odd multiples of odd candidates.
#[verifier::loop_isolation(false)]
pub fn simple_sieve(n: usize) -> (r: Vec<usize>)
    ensures
        r@ == primes_seq(n),
{
    let mut r: Vec<usize> = Vec::new();
    if n <= 2 {
        assert(primes_seq(n) =~= Seq::<usize>::empty());
        return r;
    }
    let mut mask: Vec<bool> = Vec::new();
    while mask.len() < n
        invariant
            mask.len() <= n,
            forall|k: int| 0 <= k < mask.len() ==> mask@[k],
        decreases n - mask.len(),
    {
        mask.push(true);
    }
    mask.set(0, false);
    mask.set(1, false);
    // strike the even numbers from 4 on
    let mut i: usize = 4;
    while i < n
        invariant
            mask.len() == n,
            4 <= i,
            i < n ==> i % 2 == 0,
            forall|j: int| 0 <= j < n ==> mask@[j] == (2 <= j && !(j % 2 == 0 && 4 <= j < i)),
        decreases n - i,
    {
        mask.set(i, false);
        if n - i > 2 {
            i = i + 2;
        } else {
            i = n;
        }
    }
    proof {
        assert forall|j: int| 0 <= j < n implies mask@[j] == unstruck(j, 3) by {
            if 2 <= j {
                if j % 2 == 0 && 4 <= j {
                    if unstruck(j, 3) {
                        assert(j % 2 != 0);
                    }
                } else {
                    assert forall|d: int| 2 <= d < 3 && d != j implies #[trigger] (j % d) != 0 by {
                        assert(d == 2);
                    }
                }
            }
        }
    }
    // strike odd multiples of each surviving odd candidate below the root
    let s: usize = ceil_sqrt(n);
    let mut c: usize = 3;
    while c < s
        invariant
            3 <= c,
            mask.len() == n,
            forall|j: int| 0 <= j < n ==> mask@[j] == unstruck(j, c as int),
        decreases s - c,
    {
        proof {
            assert((c as int) * (c as int) < n);
            assert(c < n && 2 * c <= c * c) by (nonlinear_arith)
                requires (c as int) * (c as int) < n as int, c >= 3;
        }
        if mask[c] {
            proof {
                let ci = c as int;
                assert(unstruck(ci, ci));
                if ci % 2 == 0 {
                    // a surviving candidate cannot be even: 2 would have struck it
                    assert(ci % 2 != 0);
                    assert(false);
                }
                lemma_mod_multiples_basic(ci, ci);
                assert((ci * ci) % ci == 0);
                lemma_mul_mod_noop_general(ci, ci, 2);
                assert(((ci % 2) * (ci % 2)) % 2 == 1) by (nonlinear_arith)
                    requires ci % 2 == 1;
                assert((ci * ci) % 2 == 1);
            }
            let twoc: usize = 2 * c;
            let mut j: usize = c * c;
            while j < n
                invariant
                    mask.len() == n,
                    c * c <= j,
                    j <= n,
                    j < n ==> ((j as int) % (c as int) == 0 && (j as int) % 2 == 1),
                    forall|m: int| 0 <= m < n ==> (#[trigger] mask@[m]) == (unstruck(m, c as int)
                        && !(m % (c as int) == 0 && m % 2 == 1 && c * c <= m && m < j)),
                decreases n - j,
            {
                let ghost pre = mask@;
                mask.set(j, false);
                let ghost jn: int = if n - j > twoc { j + twoc } else { n as int };
                proof {
                    let ci = c as int;
                    assert(j < jn <= j + 2 * ci);
                    lemma_small_mod(0, ci as nat);
                    assert forall|m: int| 0 <= m < n implies mask@[m] == (unstruck(m, ci)
                        && !(m % ci == 0 && m % 2 == 1 && c * c <= m && m < jn)) by {
                        if m == j {
                            assert(m % ci == 0 && m % 2 == 1 && c * c <= m && m < jn);
                            assert(!mask@[m]);
                        } else {
                            assert(mask@[m] == pre[m]);
                            assert(pre[m] == (unstruck(m, ci)
                                && !(m % ci == 0 && m % 2 == 1 && c * c <= m && m < j)));
                            if m % ci == 0 && m % 2 == 1 && c * c <= m && j <= m < jn {
                                // a struck position and the next differ by 2c; the
                                // lone multiple of c in between is even
                                lemma_sub_mod_noop(m, j as int, ci);
                                assert((m - j) % ci == 0);
                                lemma_fundamental_div_mod(m - j, ci);
                                let q = (m - j) / ci;
                                assert(m - j == ci * q);
                                assert(q == 1) by (nonlinear_arith)
                                    requires m - j == ci * q, 0 < m - j, m - j < 2 * ci, ci > 0;
                                assert(m == j + ci);
                                assert(m % 2 == 0);
                                assert(false);
                            }
                        }
                    }
                }
                if n - j > twoc {
                    j = j + twoc;
                    proof {
                        let ci = c as int;
                        assert((ci * 2 + (j - 2 * ci)) % ci == (j - 2 * ci) % ci) by {
                            lemma_mod_multiples_vanish(2, j - 2 * ci, ci);
                        }
                        assert((j as int) % ci == 0);
                        assert((2 * (c as int)) % 2 == 0) by {
                            lemma_mod_multiples_basic(c as int, 2);
                        }
                    }
                } else {
                    j = n;
                }
            }
            proof {
                let ci = c as int;
                assert forall|m: int| 0 <= m < n implies (unstruck(m, ci)
                    && !(m % ci == 0 && m % 2 == 1 && c * c <= m && m < (j as int)))
                    == unstruck(m, ci + 1) by {
                    lemma_unstruck_step(m, ci);
                    if unstruck(m, ci) {
                        if m % ci == 0 && m != ci {
                            lemma_survivor_multiple(m, ci);
                        } else if m == ci {
                            assert(ci < ci * ci) by (nonlinear_arith)
                                requires ci >= 2;
                        }
                    }
                }
            }
        } else {
            proof {
                let ci = c as int;
                assert forall|m: int| 0 <= m < n implies mask@[m] == unstruck(m, ci + 1) by {
                    lemma_unstruck_step(m, ci);
                    if unstruck(m, ci) {
                        lemma_redundant_candidate(m, ci);
                    }
                }
            }
        }
        c = c + 1;
    }
    proof {
        let cend = c as int;
        assert(n <= cend * cend) by (nonlinear_arith)
            requires cend >= s as int, n <= (s as int) * (s as int), cend >= 0, s >= 0;
        assert forall|j: int| 0 <= j < n implies mask@[j] == is_prime(j) by {
            assert(mask@[j] == unstruck(j, cend));
            if 2 <= j {
                lemma_unmarked_prime_equiv(j, cend);
                assert(unstruck(j, cend) == is_prime(j));
            } else {
                assert(!is_prime(j));
            }
        }
    }
    // collect the survivors in ascending order
    let mut idx: usize = 0;
    while idx < n
        invariant
            idx <= n,
            mask.len() == n,
            r@ == primes_seq(idx),
            forall|j: int| 0 <= j < n ==> mask@[j] == is_prime(j),
        decreases n - idx,
    {
        if mask[idx] {
            proof {
                assert(is_prime(idx as int));
            }
            r.push(idx);
        }
        proof {
            assert(r@ =~= primes_seq((idx + 1) as usize));
        }
        idx = idx + 1;
    }
    r
}

/// Every prime strictly below `n`, ascending, sweeping windows of width near
/// the square root of `n` so that peak memory stays near that root: seed
/// primes from a direct sieve of the root strike each window.
#[verifier::loop_isolation(false)]
pub fn segmented_sieve(n: usize) -> (r: Vec<usize>)
    ensures
        r@ == primes_seq(n),
{
    if n <= 2 {
        // for these bounds the seed range would exceed the bound itself
        return simple_sieve(n);
    }
    let s: usize = ceil_sqrt(n);
    proof {
        if s <= 1 {
            assert((s as int) * (s as int) <= 1) by (nonlinear_arith)
                requires 0 <= s <= 1;
            assert(false);
        }
        let t = (s - 1) as int;
        assert(t * t < n);
        assert(s < n) by (nonlinear_arith)
            requires n > 2, s >= 2, ((s - 1) as int) * ((s - 1) as int) < n as int;
    }
    let w: usize = s + 1;
    let mut r = simple_sieve(w);
    let seed_count: usize = r.len();
    proof {
        lemma_primes_seq_elems(w);
    }
    let mut low: usize = w;
    while low < n
        invariant
            w <= low <= n,
            r@ == primes_seq(low),
            seed_count == primes_seq(w).len(),
        decreases n - low,
    {
        proof {
            lemma_primes_seq_prefix(w, low);
        }
        let high: usize = if n - low > w { low + w } else { n };
        let width: usize = high - low;
        let mut mark: Vec<bool> = Vec::new();
        while mark.len() < width
            invariant
                mark.len() <= width,
                forall|k: int| 0 <= k < mark.len() ==> mark@[k],
            decreases width - mark.len(),
        {
            mark.push(true);
        }
        // strike every multiple of every seed prime inside the window
        let mut k: usize = 0;
        while k < seed_count
            invariant
                k <= seed_count,
                mark.len() == width,
                forall|o: int| 0 <= o < width ==> mark@[o] == (forall|t: int| 0 <= t < k
                    ==> #[trigger] ((low + o) % (primes_seq(w)[t] as int)) != 0),
            decreases seed_count - k,
        {
            let p: usize = r[k];
            proof {
                assert(p == primes_seq(w)[k as int]);
                assert(is_prime(p as int) && p < w);
            }
            let rem: usize = low % p;
            let mut o: usize = if rem == 0 { 0 } else { p - rem };
            proof {
                let pi = p as int;
                lemma_fundamental_div_mod(low as int, pi);
                if rem != 0 {
                    assert((low + (pi - rem)) % pi == 0) by {
                        assert(low + (pi - rem) == pi * (low as int / pi) + pi);
                        assert(pi * (low as int / pi + 1) == pi * (low as int / pi) + pi)
                            by (nonlinear_arith);
                        lemma_mod_multiples_vanish(low as int / pi + 1, 0, pi);
                        lemma_small_mod(0, pi as nat);
                    }
                }
                // offsets below the first multiple are not multiples
                assert forall|o2: int| 0 <= o2 < o implies #[trigger] ((low + o2) % pi) != 0 by {
                    assert(low + o2 == pi * (low as int / pi) + (rem + o2));
                    lemma_mod_multiples_vanish(low as int / pi, rem + o2, pi);
                    lemma_small_mod((rem + o2) as nat, pi as nat);
                }
            }
            while o < width
                invariant
                    mark.len() == width,
                    (low + o) % (p as int) == 0,
                    forall|o2: int| 0 <= o2 < width ==> mark@[o2] == ((forall|t: int| 0 <= t < k
                        ==> #[trigger] ((low + o2) % (primes_seq(w)[t] as int)) != 0)
                        && !((low + o2) % (p as int) == 0 && o2 < o)),
                decreases width + p - o,
            {
                mark.set(o, false);
                proof {
                    let pi = p as int;
                    // offsets strictly between two strikes are not multiples
                    assert forall|o2: int| o < o2 < o + pi implies #[trigger] ((low + o2) % pi)
                        != 0 by {
                        assert(low + o2 == pi * ((low + o) / pi) + (o2 - o)) by {
                            lemma_fundamental_div_mod((low + o) as int, pi);
                        }
                        lemma_mod_multiples_vanish((low + o) as int / pi, o2 - o, pi);
                        lemma_small_mod((o2 - o) as nat, pi as nat);
                    }
                    assert(((low + o) + pi) % pi == 0) by {
                        lemma_mod_add_multiples_vanish((low + o) as int, pi);
                    }
                }
                o = o + p;
            }
            proof {
                let ki = k as int;
                assert forall|o2: int| 0 <= o2 < width implies mark@[o2] == (forall|t: int|
                    0 <= t < ki + 1 ==> #[trigger] ((low + o2) % (primes_seq(w)[t] as int)) != 0)
                    by {
                    if mark@[o2] {
                        assert forall|t: int| 0 <= t < ki + 1 implies
                            #[trigger] ((low + o2) % (primes_seq(w)[t] as int)) != 0 by {
                            if t == ki {
                                assert((low + o2) % (p as int) != 0);
                            }
                        }
                    } else {
                        if (low + o2) % (p as int) == 0 {
                            assert(!(0 <= ki < ki + 1
                                ==> ((low + o2) % (primes_seq(w)[ki] as int)) != 0));
                        } else {
                            let t0 = choose|t: int| !(0 <= t < ki
                                ==> #[trigger] ((low + o2) % (primes_seq(w)[t] as int)) != 0);
                            assert(!(0 <= t0 < ki + 1
                                ==> ((low + o2) % (primes_seq(w)[t0] as int)) != 0));
                        }
                    }
                }
            }
            k = k + 1;
        }
        // a window position survives exactly when its number is prime
        proof {
            assert forall|o: int| 0 <= o < width implies mark@[o] == is_prime(low + o) by {
                let j = low + o;
                assert(2 <= j && j < n <= (s as int) * (s as int));
                if mark@[o] {
                    if !is_prime(j) {
                        lemma_small_factor(j);
                        let d = choose|d: int| 2 <= d && d * d <= j && d < j
                            && #[trigger] (j % d) == 0;
                        assert(d < s) by (nonlinear_arith)
                            requires
                                d * d <= j,
                                j < (s as int) * (s as int),
                                d >= 2,
                                s >= 2,
                        ;
                        lemma_prime_divisor(d);
                        let q = choose|q: int| is_prime(q) && 2 <= q <= d
                            && #[trigger] (d % q) == 0;
                        lemma_divides_trans(q, d, j);
                        lemma_primes_seq_complete(w);
                        assert(primes_seq(w).contains(q as usize));
                        let t = choose|t: int| 0 <= t < primes_seq(w).len()
                            && #[trigger] primes_seq(w)[t] == q as usize;
                        assert((low + o) % (primes_seq(w)[t] as int) != 0);
                        assert(false);
                    }
                } else {
                    let t = choose|t: int| !(0 <= t < seed_count
                        ==> #[trigger] ((low + o) % (primes_seq(w)[t] as int)) != 0);
                    let q = primes_seq(w)[t] as int;
                    assert(is_prime(q) && q < w);
                    if is_prime(j) {
                        assert(j % q != 0);
                        assert(false);
                    }
                }
            }
        }
        // append the survivors, keeping ascending order across windows
        let mut o: usize = 0;
        while o < width
            invariant
                o <= width,
                mark.len() == width,
                r@ == primes_seq((low + o) as usize),
                forall|o2: int| 0 <= o2 < width ==> mark@[o2] == is_prime(low + o2),
            decreases width - o,
        {
            if mark[o] {
                proof {
                    assert(is_prime((low + o) as int));
                }
                r.push(low + o);
            }
            proof {
                assert(r@ =~= primes_seq((low + o + 1) as usize));
            }
            o = o + 1;
        }
        low = high;
    }
    r
}

/// Dispatch on the bound: the direct sieve below the threshold, the
/// segmented sieve at or above it. Both return the same sequence; the
/// threshold trades memory for simplicity, never correctness.
pub fn sieve_with_threshold(n: usize, threshold: usize) -> (r: Vec<usize>)
    ensures
        r@ == primes_seq(n),
{
    if n < threshold {
        simple_sieve(n)
    } else {
        segmented_sieve(n)
    }
}

/// The adaptive sieve with the fixed threshold.
pub fn adapted_sieve(n: usize) -> (r: Vec<usize>)
    ensures
        r@ == primes_seq(n),
{
    sieve_with_threshold(n, SEGMENT_THRESHOLD)
}

/// Law: for every bound the direct and the segmented sieve return the same
/// ascending sequence, since each contract pins the output to the sequence
/// of primes below the bound; for the same reason any two runs of either
/// sieve on one bound agree.
pub proof fn lemma_sieves_agree(n: usize, direct: Seq<usize>, segmented: Seq<usize>)
    requires
        direct == primes_seq(n),
        segmented == primes_seq(n),
    ensures
        direct == segmented,
{
}

} // verus!
