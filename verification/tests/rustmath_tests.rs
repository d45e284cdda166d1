use num_bigint::BigUint;
use rustmath::adapted_sieve;
use rustmath::factorial;
use rustmath::multiplicity;
use rustmath::segmented_sieve;
use rustmath::sieve_with_threshold;
use rustmath::simple_sieve;
use rustmath::sum_primes;

#[test]
fn direct_and_segmented_agree_on_tested_bounds() {
    for b in [0usize, 1, 2, 3, 10, 100, 10000] {
        assert_eq!(simple_sieve(b), segmented_sieve(b));
    }
}

#[test]
fn threshold_override_forces_each_branch() {
    for b in [0usize, 1, 2, 3, 10, 100, 10000] {
        let forced_direct = sieve_with_threshold(b, usize::MAX);
        let forced_segmented = sieve_with_threshold(b, 0);
        assert_eq!(forced_direct, forced_segmented);
    }
}

#[test]
fn no_prime_below_two() {
    assert_eq!(simple_sieve(2), Vec::<usize>::new());
}

#[test]
fn primes_below_three() {
    assert_eq!(simple_sieve(3), vec![2]);
}

#[test]
fn primes_below_twenty() {
    assert_eq!(simple_sieve(20), vec![2, 3, 5, 7, 11, 13, 17, 19]);
}

#[test]
fn legendre_count_of_two_in_ten_factorial() {
    assert_eq!(multiplicity(10, 2), 8);
}

#[test]
fn multiplicity_of_prime_above_n_is_zero() {
    assert_eq!(multiplicity(5, 7), 0);
}

#[test]
fn multiplicity_of_prime_above_half_n_is_one() {
    assert_eq!(multiplicity(10, 7), 1);
}

#[test]
fn factorial_standard_values() {
    let expected: [(usize, u64); 6] = [
        (0, 1),
        (1, 1),
        (2, 2),
        (5, 120),
        (10, 3628800),
        (20, 2432902008176640000),
    ];
    for (n, f) in expected {
        assert_eq!(factorial(n), BigUint::from(f));
    }
}

#[test]
fn factorial_of_thirty_matches_naive_product() {
    let mut naive = BigUint::from(1u32);
    for k in 1usize..=30 {
        naive *= k;
    }
    assert_eq!(factorial(30), naive);
}

#[test]
fn prime_sum_below_ten() {
    assert_eq!(sum_primes(10), BigUint::from(17u32));
}

#[test]
fn prime_sum_matches_direct_sieve_sum() {
    for n in [0usize, 1, 2, 10, 100, 1000] {
        let mut total = BigUint::from(0u32);
        for p in simple_sieve(n) {
            total += p;
        }
        assert_eq!(sum_primes(n), total);
    }
}

#[test]
fn boundary_bounds_give_empty_prime_lists() {
    assert!(adapted_sieve(0).is_empty());
    assert!(adapted_sieve(1).is_empty());
    assert!(simple_sieve(0).is_empty());
    assert!(segmented_sieve(0).is_empty());
    assert!(segmented_sieve(1).is_empty());
}

#[test]
fn boundary_factorials_are_one() {
    assert_eq!(factorial(0), BigUint::from(1u32));
    assert_eq!(factorial(1), BigUint::from(1u32));
}

#[test]
fn boundary_prime_sums_are_zero() {
    assert_eq!(sum_primes(0), BigUint::from(0u32));
    assert_eq!(sum_primes(1), BigUint::from(0u32));
}

#[test]
fn operations_are_deterministic() {
    assert_eq!(simple_sieve(1000), simple_sieve(1000));
    assert_eq!(segmented_sieve(1000), segmented_sieve(1000));
    assert_eq!(adapted_sieve(1000), adapted_sieve(1000));
    assert_eq!(sum_primes(1000), sum_primes(1000));
    assert_eq!(factorial(50), factorial(50));
    assert_eq!(multiplicity(100, 3), multiplicity(100, 3));
}

#[test]
fn prime_count_below_ten_thousand() {
    let primes = simple_sieve(10000);
    assert_eq!(primes.len(), 1229);
    assert_eq!(*primes.last().unwrap(), 9973);
}
