use num::BigUint;
use prime_number_catacombs::codec::{from_digits, to_digits};

#[test]
fn test_codec_round_trip() {
    for v in [0u64, 1, 2, 13, 255, 256, 1000000, 123456789] {
        for base in [2u8, 3, 10, 16, 255] {
            for guard in [0usize, 1, 2, 5] {
                let n = BigUint::from(v);
                let digits = to_digits(&n, base, guard);
                let back = from_digits(&digits, base).unwrap();
                assert_eq!(back, n);
            }
        }
    }
}

#[test]
fn test_to_digits_layout() {
    assert_eq!(to_digits(&BigUint::from(13u32), 2, 2), vec![1, 0, 1, 1, 0, 0]);
    assert_eq!(to_digits(&BigUint::from(13u32), 10, 1), vec![3, 1, 0]);
    assert_eq!(to_digits(&BigUint::from(0u32), 2, 1), vec![0, 0]);
    assert_eq!(to_digits(&BigUint::from(65535u32), 159, 0), vec![27, 94, 2]);
}

#[test]
fn test_from_digits_rejects_out_of_range() {
    assert!(from_digits(&vec![1, 2], 2).is_none());
    assert_eq!(from_digits(&vec![1, 1], 2), Some(BigUint::from(3u32)));
    assert_eq!(from_digits(&vec![1, 1, 0, 0], 2), Some(BigUint::from(3u32)));
}
