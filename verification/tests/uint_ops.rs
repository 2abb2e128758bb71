use kersd::uint::Uint;

fn from_dec(s: &str) -> Uint {
    Uint::from_decimal(&s.as_bytes().to_vec()).expect("valid decimal")
}

fn to_dec(u: &Uint) -> String {
    String::from_utf8(u.to_decimal()).expect("ascii digits")
}

#[test]
fn zero_prints_as_single_digit() {
    assert_eq!(to_dec(&Uint::zero()), "0");
    assert!(Uint::zero().is_zero());
    assert!(!Uint::from_u64(1).is_zero());
}

#[test]
fn small_values_round_trip() {
    for x in [0u64, 1, 9, 10, 99, 1_000_000_007, u64::MAX] {
        let u = Uint::from_u64(x);
        assert_eq!(to_dec(&u), x.to_string());
        assert_eq!(u.to_u64(), x);
    }
}

#[test]
fn u128_values_round_trip() {
    let m = u128::MAX;
    assert_eq!(to_dec(&Uint::from_u128(m)), m.to_string());
    assert_eq!(to_dec(&Uint::from_u128(1u128 << 64)), (1u128 << 64).to_string());
}

#[test]
fn decimal_parse_rejects_bad_input() {
    assert!(Uint::from_decimal(&b"".to_vec()).is_none());
    assert!(Uint::from_decimal(&b"12a3".to_vec()).is_none());
    assert!(Uint::from_decimal(&b"-5".to_vec()).is_none());
    assert!(Uint::from_decimal(&b" 5".to_vec()).is_none());
    assert!(Uint::from_decimal(&b"007".to_vec()).is_some());
    assert_eq!(to_dec(&from_dec("007")), "7");
}

#[test]
fn addition_carries_across_limbs() {
    let a = from_dec("340282366920938463463374607431768211455");
    let one = Uint::from_u64(1);
    let sum = a.add(&one);
    assert_eq!(to_dec(&sum), "340282366920938463463374607431768211456");
}

#[test]
fn subtraction_borrows_and_detects_underflow() {
    let a = from_dec("340282366920938463463374607431768211456");
    let one = Uint::from_u64(1);
    let d = a.checked_sub(&one).expect("no underflow");
    assert_eq!(to_dec(&d), "340282366920938463463374607431768211455");
    assert!(one.checked_sub(&a).is_none());
    let z = a.checked_sub(&a).expect("self minus self");
    assert!(z.is_zero());
}

#[test]
fn multiplication_of_large_values() {
    let a = from_dec("100000000000000000000");
    let p = a.mul(&a);
    assert_eq!(to_dec(&p), "10000000000000000000000000000000000000000");
    assert!(a.mul(&Uint::zero()).is_zero());
    assert_eq!(to_dec(&a.mul(&Uint::from_u64(1))), "100000000000000000000");
}

#[test]
fn division_returns_floor_quotient_and_remainder() {
    let n = from_dec("10000000000000000000000000000000000000000");
    let d = from_dec("100000000000000000001");
    let (q, r) = n.div_rem(&d);
    assert_eq!(to_dec(&q), "99999999999999999999");
    assert_eq!(to_dec(&r), "1");
    let (q2, r2) = Uint::from_u64(7).div_rem(&Uint::from_u64(9));
    assert_eq!(to_dec(&q2), "0");
    assert_eq!(to_dec(&r2), "7");
}

#[test]
fn comparisons_agree_with_values() {
    let a = from_dec("999999999999999999999999999999");
    let b = from_dec("1000000000000000000000000000000");
    assert!(a.lt(&b));
    assert!(a.le(&b));
    assert!(!b.le(&a));
    assert!(a.eq_val(&a.duplicate()));
    assert!(!a.eq_val(&b));
}

#[test]
fn big_endian_bytes_are_read_most_significant_first() {
    let v = vec![0x01u8, 0x00];
    assert_eq!(to_dec(&Uint::from_be_bytes(&v)), "256");
    let w = vec![0xffu8; 16];
    assert_eq!(to_dec(&Uint::from_be_bytes(&w)), u128::MAX.to_string());
    assert!(Uint::from_be_bytes(&vec![]).is_zero());
}
