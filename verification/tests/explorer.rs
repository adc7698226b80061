use num::BigUint;
use rand::SeedableRng;
use prime_number_catacombs::explorer::{explore, explore_with, Termination};

#[test]
fn test_budget_respected() {
    let (found, term) = explore(BigUint::from(2u32), 2, 1, 3);
    assert_eq!(found.len(), 3);
    assert_eq!(term, Termination::BudgetExceeded);
    // The first levels of the binary prime graph from seed 2: all values
    // lie below the dispatch threshold, so the sequence is fixed.
    assert_eq!(found[0].value, BigUint::from(3u32));
    assert_eq!((found[0].index, found[0].level), (1, 1));
    assert_eq!(found[1].value, BigUint::from(2u32));
    assert_eq!((found[1].index, found[1].level), (2, 2));
    assert_eq!(found[2].value, BigUint::from(7u32));
    assert_eq!((found[2].index, found[2].level), (3, 2));
}

#[test]
fn test_exhausts_frontier_without_prime_neighbors() {
    // Every single-digit perturbation of 200 in base 10 is composite, so
    // the frontier empties with the budget untouched.
    let (found, term) = explore(BigUint::from(200u32), 10, 1, 1000);
    assert_eq!(found.len(), 0);
    assert_eq!(term, Termination::Exhausted);
}

#[test]
fn test_no_duplicate_emission() {
    let (found, _) = explore(BigUint::from(2u32), 2, 1, 50);
    for i in 0..found.len() {
        for j in i + 1..found.len() {
            assert_ne!(found[i].value, found[j].value);
        }
    }
}

#[test]
fn test_deterministic_with_fixed_seed() {
    let start = BigUint::parse_bytes(b"14023952574152327483", 10).unwrap();
    let mut rng1 = rand::rngs::StdRng::seed_from_u64(42);
    let (f1, t1) = explore_with(start.clone(), 2, 1, 4, &mut rng1);
    let mut rng2 = rand::rngs::StdRng::seed_from_u64(42);
    let (f2, t2) = explore_with(start, 2, 1, 4, &mut rng2);
    assert_eq!(t1, t2);
    assert_eq!(f1.len(), f2.len());
    for (a, b) in f1.iter().zip(f2.iter()) {
        assert_eq!(a.value, b.value);
        assert_eq!(a.index, b.index);
        assert_eq!(a.level, b.level);
    }
}
