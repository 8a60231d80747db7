use scalar_core::{Curve, ScalarCore};

fn curve11() -> Curve {
    Curve::new(vec![11u64]).unwrap()
}

fn curve_two_limbs() -> Curve {
    // n = 2^64 + 3
    Curve::new(vec![3u64, 1u64]).unwrap()
}

fn curve_max_limb() -> Curve {
    // n = 2^64 - 1
    Curve::new(vec![u64::MAX]).unwrap()
}

#[test]
fn round_trip_be() {
    let c = curve_two_limbs();
    let a = ScalarCore::from_u64(0xDEADBEEF, &c);
    let bytes = a.to_be_bytes();
    assert_eq!(bytes.len(), 16);
    let back = ScalarCore::from_be_bytes(&bytes, &c).unwrap();
    assert!(back == a);
}

#[test]
fn round_trip_le() {
    let c = curve_two_limbs();
    let a = ScalarCore::from_u64(0x123456789ABCDEF0, &c);
    let bytes = a.to_bytes_le();
    assert_eq!(bytes.len(), 16);
    let back = ScalarCore::from_le_bytes(&bytes, &c).unwrap();
    assert!(back == a);
}

#[test]
fn round_trip_boundary_value() {
    // the maximal scalar survives both round trips
    let c = curve11();
    let a = ScalarCore::from_u64(10, &c);
    let be = a.to_be_bytes();
    let le = a.to_bytes_le();
    assert!(ScalarCore::from_be_bytes(&be, &c).unwrap() == a);
    assert!(ScalarCore::from_le_bytes(&le, &c).unwrap() == a);
}

#[test]
fn be_encoding_exact_bytes() {
    let c = curve_max_limb();
    let a = ScalarCore::from_u64(0x0102, &c);
    assert_eq!(a.to_be_bytes(), vec![0u8, 0, 0, 0, 0, 0, 1, 2]);
    assert_eq!(a.to_bytes_le(), vec![2u8, 1, 0, 0, 0, 0, 0, 0]);
}

#[test]
fn le_decoding_exact_value() {
    let c = curve_max_limb();
    let bytes = vec![2u8, 1, 0, 0, 0, 0, 0, 0];
    let a = ScalarCore::from_le_bytes(&bytes, &c).unwrap();
    assert!(a == ScalarCore::from_u64(0x0102, &c));
}

#[test]
fn add_neg_is_zero() {
    let c = curve11();
    for x in 0..11u64 {
        let a = ScalarCore::from_u64(x, &c);
        let n = a.neg(&c);
        assert!(a.add(&n, &c).is_zero());
    }
}

#[test]
fn sub_agrees_with_add_neg() {
    let c = curve11();
    for x in 0..11u64 {
        for y in 0..11u64 {
            let a = ScalarCore::from_u64(x, &c);
            let b = ScalarCore::from_u64(y, &c);
            assert!(a.sub(&b, &c) == a.add(&b.neg(&c), &c));
        }
    }
}

#[test]
fn add_zero_and_sub_self() {
    let c = curve11();
    for x in 0..11u64 {
        let a = ScalarCore::from_u64(x, &c);
        let z = ScalarCore::zero(&c);
        assert!(a.add(&z, &c) == a);
        assert!(a.sub(&a, &c).is_zero());
    }
}

#[test]
fn range_boundary() {
    let c = curve11();
    assert!(ScalarCore::new(vec![10u64], &c).is_some());
    assert!(ScalarCore::new(vec![11u64], &c).is_none());
    assert!(ScalarCore::new(vec![12u64], &c).is_none());
    assert!(ScalarCore::new(vec![u64::MAX], &c).is_none());
}

#[test]
fn length_enforcement() {
    let c = curve11();
    assert!(ScalarCore::from_be_slice(&[], &c).is_err());
    assert!(ScalarCore::from_be_slice(&[0u8; 7], &c).is_err());
    assert!(ScalarCore::from_be_slice(&[0u8; 9], &c).is_err());
    assert!(ScalarCore::from_le_slice(&[0u8; 16], &c).is_err());
    // the right length with a canonical value succeeds
    let ok = ScalarCore::from_be_slice(&[0u8, 0, 0, 0, 0, 0, 0, 9], &c).unwrap();
    assert!(ok == ScalarCore::from_u64(9, &c));
    let ok = ScalarCore::from_le_slice(&[9u8, 0, 0, 0, 0, 0, 0, 0], &c).unwrap();
    assert!(ok == ScalarCore::from_u64(9, &c));
}

#[test]
fn out_of_range_slice_is_rejected() {
    let c = curve11();
    // right length, value 11 == n: a value error, not a length error
    assert!(ScalarCore::from_be_slice(&[0u8, 0, 0, 0, 0, 0, 0, 11], &c).is_err());
    assert!(ScalarCore::from_le_slice(&[11u8, 0, 0, 0, 0, 0, 0, 0], &c).is_err());
}

#[test]
fn parity_exclusive() {
    let c = curve11();
    for x in 0..11u64 {
        let a = ScalarCore::from_u64(x, &c);
        assert_ne!(a.is_even(), a.is_odd());
        assert_eq!(a.is_odd(), x % 2 == 1);
    }
    assert!(ScalarCore::zero(&c).is_even());
    assert!(ScalarCore::one(&c).is_odd());
}

#[test]
fn conditional_select_picks_the_flagged_operand() {
    let c = curve11();
    let a = ScalarCore::from_u64(3, &c);
    let b = ScalarCore::from_u64(8, &c);
    assert!(ScalarCore::conditional_select(&a, &b, false) == a);
    assert!(ScalarCore::conditional_select(&a, &b, true) == b);
}

#[test]
fn comparisons_follow_magnitude() {
    let c = curve11();
    let a = ScalarCore::from_u64(7, &c);
    let b = ScalarCore::from_u64(9, &c);
    assert!(a.ct_lt(&b));
    assert!(!b.ct_lt(&a));
    assert!(b.ct_gt(&a));
    assert!(!a.ct_gt(&b));
    assert!(!a.ct_eq(&b));
    assert!(a.ct_eq(&a));
    let mid = ScalarCore::from_u64(8, &c);
    // transitivity on a concrete chain
    assert!(a.ct_lt(&mid) && mid.ct_lt(&b) && a.ct_lt(&b));
}

#[test]
fn worked_scenario_mod_eleven() {
    let c = curve11();
    let a = ScalarCore::from_u64(7, &c);
    let b = ScalarCore::from_u64(9, &c);
    assert!(a.add(&b, &c) == ScalarCore::from_u64(5, &c));
    assert!(a.sub(&b, &c) == ScalarCore::from_u64(9, &c));
    assert!(a.neg(&c) == ScalarCore::from_u64(4, &c));
    assert!(ScalarCore::new(vec![11u64], &c).is_none());
    assert!(ScalarCore::new(vec![10u64], &c).is_some());
}

#[test]
fn addition_wraps_across_limbs() {
    // n = 2^64 + 3: exercise the carry out of the low limb
    let c = curve_two_limbs();
    let a = ScalarCore::from_u64(u64::MAX, &c);
    let b = ScalarCore::from_u64(5, &c);
    // 2^64 - 1 + 5 = 2^64 + 4 = n + 1, so the sum reduces to 1
    assert!(a.add(&b, &c) == ScalarCore::one(&c));
}

#[test]
fn as_uint_and_as_limbs_expose_the_inner_words() {
    let c = curve_two_limbs();
    let a = ScalarCore::from_u64(42, &c);
    assert_eq!(a.as_uint().as_slice(), &[42u64, 0]);
    assert_eq!(a.as_limbs(), &[42u64, 0]);
}

#[test]
fn zeroize_clears_the_value() {
    let c = curve11();
    let mut a = ScalarCore::from_u64(7, &c);
    assert!(!a.is_zero());
    a.zeroize();
    assert!(a.is_zero());
    assert_eq!(a.as_limbs(), &[0u64]);
}

#[test]
fn random_is_canonical() {
    let c = curve11();
    for _ in 0..50 {
        let r = ScalarCore::random(&c);
        assert!(r.as_limbs().len() == 1 && r.as_limbs()[0] < 11);
    }
    let big = curve_two_limbs();
    for _ in 0..10 {
        let r = ScalarCore::random(&big);
        let bound = ScalarCore::new(vec![3u64, 1u64], &big);
        assert!(bound.is_none());
        assert_eq!(r.as_limbs().len(), 2);
        // canonical: below 2^64 + 3
        let limbs = r.as_limbs();
        assert!(limbs[1] < 1 || (limbs[1] == 1 && limbs[0] < 3));
    }
}

#[test]
fn curve_rejects_unusable_moduli() {
    assert!(Curve::new(vec![]).is_none());
    assert!(Curve::new(vec![0u64]).is_none());
    assert!(Curve::new(vec![1u64]).is_none());
    assert!(Curve::new(vec![0u64, 0u64]).is_none());
    assert!(Curve::new(vec![2u64]).is_some());
    assert!(Curve::new(vec![0u64, 1u64]).is_some());
}

#[test]
fn byte_size_matches_width() {
    assert_eq!(curve11().byte_size(), 8);
    assert_eq!(curve_two_limbs().byte_size(), 16);
}

#[test]
fn equality_is_by_value() {
    let c = curve11();
    assert!(ScalarCore::from_u64(5, &c) == ScalarCore::from_u64(5, &c));
    assert!(ScalarCore::from_u64(5, &c) != ScalarCore::from_u64(6, &c));
}

#[test]
fn in_place_arithmetic_matches_the_pure_forms() {
    let c = curve11();
    let b = ScalarCore::from_u64(9, &c);
    let mut x = ScalarCore::from_u64(7, &c);
    x.add_assign(&b, &c);
    assert!(x == ScalarCore::from_u64(5, &c));
    x.sub_assign(&b, &c);
    assert!(x == ScalarCore::from_u64(7, &c));
}

#[test]
fn order_exposes_the_modulus_limbs() {
    let c = curve_two_limbs();
    assert_eq!(c.order().as_slice(), &[3u64, 1]);
}

#[test]
fn zero_and_one() {
    let c = curve11();
    assert!(ScalarCore::zero(&c).is_zero());
    assert!(ScalarCore::one(&c) == ScalarCore::from_u64(1, &c));
    assert!(!ScalarCore::one(&c).is_zero());
}
