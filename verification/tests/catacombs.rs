use num::BigUint;
use prime_number_catacombs::catacombs::{compute_catacombs, CatacombNumber};

#[test]
fn catacombs_test_computes_valid_outputs() {
    let number = BigUint::from(0b1101u32); /* 13 */

    let expected: Vec<(u32, bool)> = vec![
        (0b1100, false), /* 12 */
        (0b1111, false), /* 15 */
        (0b1001, false), /* 9 */
        (0b0101, true),  /* 5 */
        (0b11101, true), /* 29 */
    ];

    let catacombs = CatacombNumber::compute_catacombs(&number, 2, 1);
    assert_eq!(catacombs.len(), expected.len());

    for (given, (value, is_prime)) in catacombs.into_iter().zip(expected) {
        assert_eq!(given.get_value(), &BigUint::from(value));
        assert_eq!(given.is_prime(), is_prime);
    }
}

#[test]
fn test_computes_valid_outputs() {
    let number = BigUint::from(0b1101u32); /* 13 */

    let expected: Vec<(u32, bool)> = vec![
        (0b1100, false), /* 12 */
        (0b1111, false), /* 15 */
        (0b1001, false), /* 9 */
        (0b0101, true),  /* 5 */
        (0b11101, true), /* 29 */
    ];

    let catacombs = CatacombNumber::compute_catacombs(&number, 2, 1);
    assert_eq!(catacombs.len(), expected.len());

    for (given, (value, is_prime)) in catacombs.into_iter().zip(expected) {
        assert_eq!(given.get_value(), &BigUint::from(value));
        assert_eq!(given.is_prime(), is_prime);
    }
}

#[test]
fn test_hamming_distance() {
    let number = BigUint::from(0b1101u32); /* 13 */

    let expected: Vec<(u32, bool)> = vec![
        (0b001110, false), /* ----xx 14 */
        (0b001000, false), /* ---x-x 8  */
        (0b000100, false), /* --x--x 4  */
        (0b011100, false), /* -x---x 28 */
        (0b101100, false), /* x----x 44 */
        (0b001011, true),  /* ---xx- 11 */
        (0b000111, true),  /* --x-x- 7  */
        (0b011111, true),  /* -x--x- 31 */
        (0b101111, true),  /* x---x- 47 */
        (0b000001, false), /* --xx-- 1  */
        (0b011001, false), /* -x-x-- 25 */
        (0b101001, true),  /* x--x-- 41 */
        (0b010101, false), /* -xx--- 21 */
        (0b100101, true),  /* x-x--- 37 */
        (0b111101, true),  /* xx---- 61 */
    ];

    let catacombs = CatacombNumber::compute_catacombs(&number, 2, 2);
    assert_eq!(catacombs.len(), expected.len());

    for (given, (value, is_prime)) in catacombs.into_iter().zip(expected) {
        assert_eq!(given.get_value(), &BigUint::from(value));
        assert_eq!(given.is_prime(), is_prime);
    }
}

#[test]
fn test_generation_cardinality() {
    // C(len, h) * (base - 1)^h, where len is the padded digit count.
    let n = BigUint::from(13u32);
    assert_eq!(CatacombNumber::compute_catacombs(&n, 2, 1).len(), 5);
    assert_eq!(CatacombNumber::compute_catacombs(&n, 2, 2).len(), 15);
    assert_eq!(CatacombNumber::compute_catacombs(&n, 10, 1).len(), 27);
    assert_eq!(CatacombNumber::compute_catacombs(&n, 10, 2).len(), 486);
    let zero = BigUint::from(0u32);
    assert_eq!(CatacombNumber::compute_catacombs(&zero, 2, 1).len(), 2);
}

#[test]
fn test_no_self_neighbor() {
    for h in 1usize..=3 {
        for base in [2u8, 3, 10] {
            for v in [0u32, 1, 13, 100] {
                let n = BigUint::from(v);
                for c in CatacombNumber::compute_catacombs(&n, base, h) {
                    assert_ne!(c.get_value(), &n);
                }
            }
        }
    }
}

#[test]
fn test_single_step_query_parses_text() {
    let r = compute_catacombs("13", 2, Some(1)).unwrap();
    assert_eq!(r.len(), 5);
    assert_eq!(r[3].get_value(), &BigUint::from(5u32));
    assert!(r[3].is_prime());
}

#[test]
fn test_single_step_query_rejects_bad_text() {
    assert!(compute_catacombs("13abc", 2, None).is_none());
    assert!(compute_catacombs("", 2, None).is_none());
    assert!(compute_catacombs("_42", 10, None).is_none());
    assert!(compute_catacombs("+4_2", 10, None).is_some());
}

#[test]
fn test_generation_has_no_duplicates() {
    for (base, h) in [(2u8, 1usize), (2, 2), (3, 2), (10, 1)] {
        let out = CatacombNumber::compute_catacombs(&BigUint::from(13u32), base, h);
        for i in 0..out.len() {
            for j in i + 1..out.len() {
                assert_ne!(out[i].get_value(), out[j].get_value());
            }
        }
    }
}
