//! Checks of integer arithmetic, comparison and decimal text.

use fplll::integer::Z;
use std::cmp::Ordering;

fn z(s: &str) -> Z {
    Z::from_str(s).unwrap()
}

#[test]
fn z_negative_text() {
    assert_eq!(Z::from_i64(-12345).to_string(), "-12345");
    assert_eq!(Z::zero().to_string(), "0");
    assert_eq!(Z::from_i64(i64::MIN).to_string(), "-9223372036854775808");
    assert_eq!(Z::from_u64(u64::MAX).to_string(), "18446744073709551615");
}

#[test]
fn z_other_radixes() {
    assert_eq!(Z::from_i64(255).to_str_radix(16), "ff");
    assert_eq!(Z::from_i64(-255).to_str_radix(2), "-11111111");
    assert_eq!(Z::from_i64(35).to_str_radix(36), "z");
}

#[test]
fn z_decimal_syntax() {
    assert_eq!(Z::from_str("+42"), Some(Z::from_i64(42)));
    assert_eq!(Z::from_str(" -1_000 "), Some(Z::from_i64(-1000)));
    assert_eq!(Z::from_str("12 34"), Some(Z::from_i64(1234)));
    assert_eq!(Z::from_str("007"), Some(Z::from_i64(7)));
    assert_eq!(Z::from_str("_1"), None);
    assert_eq!(Z::from_str(""), None);
    assert_eq!(Z::from_str("-"), None);
    assert_eq!(Z::from_str("1a"), None);
    assert_eq!(Z::from_str("--1"), None);
    assert_eq!(Z::from_str("1-"), None);
}

#[test]
fn z_decimal_round_trip() {
    for s in ["0", "1", "-1", "18446744073709551621", "-340282366920938463463374607431768211457"] {
        let v = z(s);
        assert_eq!(Z::from_str(&v.to_string()), Some(v.clone()));
        assert_eq!(v.to_string(), s);
    }
}

#[test]
fn z_mul_2si_floor() {
    let mut r = Z::zero();
    r.mul_2si(&Z::from_i64(-3), -1);
    assert_eq!(r, Z::from_i64(-2));
    r.mul_2si(&Z::from_i64(-1), 70);
    assert_eq!(r.to_string(), "-1180591620717411303424");
    r.mul_2si(&Z::from_i64(5), 0);
    assert_eq!(r, Z::from_i64(5));
}

#[test]
fn z_addmul_2si_sets_tmp() {
    let mut acc = Z::from_i64(1);
    let mut tmp = Z::zero();
    acc.addmul_2si(&Z::from_i64(3), 2, &mut tmp);
    assert_eq!(tmp, Z::from_i64(12));
    assert_eq!(acc, Z::from_i64(13));
}

#[test]
fn z_sign_abs_neg() {
    let mut v = Z::from_i64(-5);
    assert_eq!(v.sign(), -1);
    assert!(v.is_negative());
    v.abs_inplace();
    assert_eq!(v, Z::from_i64(5));
    assert_eq!(v.sign(), 1);
    v.neg_inplace();
    assert_eq!(v, Z::from_i64(-5));
    let mut zero = Z::zero();
    zero.neg_inplace();
    assert_eq!(zero.sign(), 0);
    assert!(zero.is_zero());
}

#[test]
fn z_get_si_wraps() {
    assert_eq!(z("18446744073709551619").get_si(), 3);
    assert_eq!(z("9223372036854775808").get_si(), i64::MIN);
    assert_eq!(z("-9223372036854775809").get_si(), i64::MAX);
    assert_eq!(Z::from_i64(-7).get_si(), -7);
}

#[test]
fn z_set_and_set_si() {
    let mut v = Z::zero();
    v.set_si(-99);
    assert_eq!(v, Z::from_i64(-99));
    v.set(&z("123456789012345678901234567890"));
    assert_eq!(v.to_string(), "123456789012345678901234567890");
}

#[test]
fn z_assign_ops() {
    let mut v = Z::from_i64(10);
    v.add_assign_ref(&Z::from_i64(5));
    assert_eq!(v, Z::from_i64(15));
    v.sub_assign_ref(&Z::from_i64(20));
    assert_eq!(v, Z::from_i64(-5));
    v.mul_assign_ref(&Z::from_i64(-6));
    assert_eq!(v, Z::from_i64(30));
    let mut w = Z::zero();
    w.mul_si(&v, -3);
    assert_eq!(w, Z::from_i64(-90));
}

#[test]
fn z_significant_bits() {
    assert_eq!(Z::from_i64(255).significant_bits(), 8);
    assert_eq!(Z::from_i64(-256).significant_bits(), 9);
    assert_eq!(Z::zero().significant_bits(), 0);
    assert_eq!(z("18446744073709551616").significant_bits(), 65);
}

#[test]
fn z_comparisons() {
    let a = Z::from_i64(-3);
    let b = z("100000000000000000000");
    assert_eq!(a.cmp(&b), Ordering::Less);
    assert_eq!(b.cmp(&a), Ordering::Greater);
    assert_eq!(a.cmp(&Z::from_i64(-3)), Ordering::Equal);
    assert_eq!(a.cmp_si(-4), Ordering::Greater);
    assert_eq!(a.cmp_si(-3), Ordering::Equal);
    assert!(a < b);
    assert!(Z::from_i64(-10) < Z::from_i64(-2));
}

#[test]
fn z_next_prime_above_prime() {
    assert_eq!(Z::from_i64(13).next_prime(), Z::from_i64(17));
    assert_eq!(Z::from_i64(1).next_prime(), Z::from_i64(2));
}

#[test]
fn z_sign_magnitude_limbs() {
    let v = Z::from_sign_magnitude(true, &[0, 1, 0]);
    assert_eq!(v.to_string(), "-18446744073709551616");
    assert_eq!(v.magnitude_limbs(), &[0u64, 1u64][..]);
    let zero = Z::from_sign_magnitude(true, &[0, 0]);
    assert!(zero.is_zero());
    assert!(!zero.is_negative());
}

#[test]
fn z_default_and_clone() {
    let d = Z::default();
    assert!(d.is_zero());
    let v = z("-77777777777777777777");
    let c = v.clone();
    assert_eq!(c, v);
}

#[test]
fn z_from_conversions() {
    assert_eq!(Z::from(-5i64), Z::from_i64(-5));
    assert_eq!(Z::from(-5i32), Z::from_i64(-5));
    assert_eq!(Z::from(u64::MAX).to_string(), "18446744073709551615");
    let w: Z = 12i64.into();
    assert_eq!(w, Z::from_i64(12));
}

#[test]
fn z_mul_2si_round_trip() {
    for (s, e) in [("-12345678901234567890123", 70i64), ("7", 0), ("-1", 1), ("0", 5), ("5", (1i64 << 32) + 1)] {
        let a = z(s);
        let mut up = Z::zero();
        up.mul_2si(&a, e);
        let mut back = Z::zero();
        back.mul_2si(&up, -e);
        assert_eq!(back, a);
    }
}

#[test]
fn z_mul_2si_shift_count_is_u32() {
    let mut r = Z::zero();
    r.mul_2si(&Z::from_i64(5), (1i64 << 32) + 1);
    assert_eq!(r, Z::from_i64(10));
}

#[test]
fn z_addmul_then_submul_restores() {
    let x = z("-999999999999999999999");
    let a = z("123456789123456789");
    let b = Z::from_i64(-42);
    let mut acc = x.clone();
    acc.addmul(&a, &b);
    assert_ne!(acc, x);
    acc.submul(&a, &b);
    assert_eq!(acc, x);
}
