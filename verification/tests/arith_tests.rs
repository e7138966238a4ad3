use bignum::BigInt;
use bignum::BigIntError;
use bignum::Comparison;

#[test]
fn add_single_digits() {
    let r = BigInt::new(3).add(&BigInt::new(5));
    assert_eq!(r.to_digits(), vec![8]);
}

#[test]
fn add_with_carry() {
    let r = BigInt::new(u64::MAX).add(&BigInt::new(1));
    assert_eq!(r.to_digits(), vec![0, 1]);
    assert!(r.test_invariant());
}

#[test]
fn multi_digit_addition_value() {
    let a = BigInt::from_vec(vec![2, 1]);
    let b = BigInt::from_vec(vec![3, 2]);
    assert_eq!(a.add(&b).to_digits(), vec![5, 3]);
}

#[test]
fn add_commutes_sample() {
    let a = BigInt::from_vec(vec![u64::MAX, 17]);
    let b = BigInt::from_vec(vec![9, u64::MAX, 3]);
    assert_eq!(a.add(&b).to_digits(), b.add(&a).to_digits());
}

#[test]
fn add_zero_identity() {
    let a = BigInt::from_vec(vec![11, 0, 13]);
    let r = a.add(&BigInt::new(0));
    assert_eq!(r.to_digits(), a.to_digits());
}

#[test]
fn subtract_equal_yields_zero() {
    let r = BigInt::new(5).subtract(&BigInt::new(5)).unwrap();
    assert_eq!(r.number_of_digits(), 0);
    assert!(r.test_invariant());
}

#[test]
fn subtract_smaller_minuend_fails() {
    let r = BigInt::new(3).subtract(&BigInt::new(5));
    assert!(matches!(r, Err(BigIntError::NegativeResult)));
}

#[test]
fn subtract_with_borrow() {
    let a = BigInt::from_vec(vec![0, 1]);
    let r = a.subtract(&BigInt::new(1)).unwrap();
    assert_eq!(r.to_digits(), vec![u64::MAX]);
}

#[test]
fn subtract_add_inverse_sample() {
    let a = BigInt::from_vec(vec![4, 9, 1]);
    let b = BigInt::from_vec(vec![u64::MAX, 8]);
    let d = a.subtract(&b).unwrap();
    assert_eq!(d.add(&b).to_digits(), a.to_digits());
}

#[test]
fn multiply_single_digits() {
    let r = BigInt::new(3).multiply(&BigInt::new(5));
    assert_eq!(r.to_digits(), vec![15]);
}

#[test]
fn multiply_with_carry() {
    let r = BigInt::new(u64::MAX).multiply(&BigInt::new(u64::MAX));
    assert_eq!(r.to_digits(), vec![1, u64::MAX - 1]);
}

#[test]
fn multiply_by_zero() {
    let a = BigInt::from_vec(vec![7, 8, 9]);
    let r = a.multiply(&BigInt::new(0));
    assert_eq!(r.number_of_digits(), 0);
    assert!(r.test_invariant());
}

#[test]
fn multiply_commutes_sample() {
    let a = BigInt::from_vec(vec![u64::MAX, 2, 3]);
    let b = BigInt::from_vec(vec![5, u64::MAX]);
    assert_eq!(a.multiply(&b).to_digits(), b.multiply(&a).to_digits());
}

#[test]
fn compare_by_length_and_digits() {
    let small = BigInt::from_vec(vec![u64::MAX]);
    let big = BigInt::from_vec(vec![0, 1]);
    assert_eq!(small.compare(&big), Comparison::Less);
    assert_eq!(big.compare(&small), Comparison::Greater);
    assert_eq!(big.compare(&big), Comparison::Equal);
    let x = BigInt::from_vec(vec![5, 7]);
    let y = BigInt::from_vec(vec![9, 6]);
    assert_eq!(x.compare(&y), Comparison::Greater);
    assert_eq!(y.compare(&x), Comparison::Less);
}

#[test]
fn compare_transitive_sample() {
    let a = BigInt::new(3);
    let b = BigInt::from_vec(vec![0, 1]);
    let c = b.multiply(&b);
    assert_eq!(a.compare(&b), Comparison::Less);
    assert_eq!(b.compare(&c), Comparison::Less);
    assert_eq!(a.compare(&c), Comparison::Less);
}

#[test]
fn arithmetic_results_keep_invariant() {
    let a = BigInt::from_vec(vec![u64::MAX, u64::MAX]);
    let b = BigInt::new(1);
    assert!(a.add(&b).test_invariant());
    assert!(a.subtract(&b).unwrap().test_invariant());
    assert!(a.multiply(&b).test_invariant());
    assert!(a.subtract(&a).unwrap().test_invariant());
}
