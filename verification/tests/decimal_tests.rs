use bignum::BigInt;

#[test]
fn decimal_rendering_zero() {
    assert_eq!(BigInt::new(0).to_decimal_string(), "0");
}

#[test]
fn decimal_rendering_single_word() {
    assert_eq!(BigInt::new(1234567890).to_decimal_string(), "1234567890");
    assert_eq!(BigInt::new(7).to_decimal_string(), "7");
    assert_eq!(BigInt::new(u64::MAX).to_decimal_string(), "18446744073709551615");
}

#[test]
fn decimal_rendering_multi_word() {
    let b = BigInt::from_vec(vec![0, 1]);
    assert_eq!(b.to_decimal_string(), "18446744073709551616");
    let c = b.multiply(&b);
    assert_eq!(c.to_decimal_string(), "340282366920938463463374607431768211456");
}

#[test]
fn decimal_rendering_strips_nothing_significant() {
    let a = BigInt::from_vec(vec![10, 0, 0]);
    assert_eq!(a.to_decimal_string(), "10");
}
