use num::BigUint;
use rand::SeedableRng;
use prime_number_catacombs::miller_rabin::{is_prime, miller_rabin_is_prime, trial_division};

#[test]
fn test_identifies_valid_small_primes() {
    let primes: Vec<u32> = vec![2, 3, 29, 739, 6011, 23357, 356591, 864419, 1298371];

    for prime in primes {
        assert_eq!(is_prime(&BigUint::from(prime)), true);
    }
}

#[test]
fn test_identifies_valid_large_primes() {
    let primes = vec![
        BigUint::parse_bytes(b"14023952574152327483", 10).unwrap(),
        BigUint::parse_bytes(b"12760621611945695291", 10).unwrap(),
        BigUint::parse_bytes(b"15209844024681909301", 10).unwrap(),
        BigUint::parse_bytes(b"10783965725805802043", 10).unwrap(),
    ];

    for prime in primes {
        assert_eq!(is_prime(&prime), true);
    }
}

#[test]
fn test_identifies_invalid_small_primes() {
    let primes: Vec<u32> = vec![4, 6, 15, 741, 6015, 23358, 35659, 864405, 1298377];

    for prime in primes {
        assert_eq!(is_prime(&BigUint::from(prime)), false, "Is Not Prime: {}", prime);
    }
}

#[test]
fn test_identifies_invalid_large_primes() {
    let nonprimes = vec![
        BigUint::parse_bytes(b"14023952574152327473", 10).unwrap(),
        BigUint::parse_bytes(b"12760621611945595291", 10).unwrap(),
        BigUint::parse_bytes(b"15209744024681909301", 10).unwrap(),
        BigUint::parse_bytes(b"10883965725805802043", 10).unwrap(),
    ];

    for nonprime in nonprimes {
        assert_eq!(is_prime(&nonprime), false);
    }
}

#[test]
fn test_threshold_continuity() {
    // Just below the dispatch threshold both paths are callable: the
    // probabilistic test must agree with the exact one on every value.
    let mut rng = rand::rngs::StdRng::seed_from_u64(7);
    for n in [999983u64, 999981, 999979, 999999, 999995, 999961, 999937] {
        assert_eq!(
            miller_rabin_is_prime(&BigUint::from(n), 128, &mut rng),
            trial_division(n),
            "paths disagree at {}",
            n
        );
    }
    // Just above the threshold the probabilistic path takes over; it must
    // classify known values correctly.
    assert_eq!(is_prime(&BigUint::from(1000003u64)), true);
    assert_eq!(is_prime(&BigUint::from(1000033u64)), true);
    assert_eq!(is_prime(&BigUint::from(1000001u64)), false);
    assert_eq!(is_prime(&BigUint::from(1000005u64)), false);
}

#[test]
fn test_zero_and_one_are_composite() {
    assert_eq!(is_prime(&BigUint::from(0u32)), false);
    assert_eq!(is_prime(&BigUint::from(1u32)), false);
}
