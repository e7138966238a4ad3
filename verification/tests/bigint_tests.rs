use bignum::BigInt;
use bignum::BigIntError;

#[test]
fn new_zero_has_no_digits() {
    let z = BigInt::new(0);
    assert!(z.test_invariant());
    assert_eq!(z.number_of_digits(), 0);
    assert_eq!(z.to_digits(), Vec::<u64>::new());
}

#[test]
fn new_nonzero_single_digit() {
    let b = BigInt::new(42);
    assert!(b.test_invariant());
    assert_eq!(b.to_digits(), vec![42]);
    assert_eq!(b.number_of_digits(), 1);
}

#[test]
fn zero_canonicalization() {
    let a = BigInt::from_vec(vec![0, 0, 0]);
    let b = BigInt::new(0);
    assert_eq!(a.number_of_digits(), 0);
    assert_eq!(a.to_digits(), b.to_digits());
    assert!(a.test_invariant());
}

#[test]
fn normalization_scenario() {
    let b = BigInt::from_vec(vec![0, 1, 0, 2, 0, 3, 0, 0]);
    assert_eq!(b.to_digits(), vec![0, 1, 0, 2, 0, 3]);
    assert_eq!(b.number_of_digits(), 6);
    assert_eq!(b.number_of_non_zero_digits(), 3);
    assert_eq!(b.smallest_digit(), Ok(0));
    assert_eq!(b.biggest_digit(), Ok(3));
}

#[test]
fn digit_extrema_on_zero_fail() {
    let z = BigInt::new(0);
    assert_eq!(z.smallest_digit(), Err(BigIntError::EmptySequence));
    assert_eq!(z.biggest_digit(), Err(BigIntError::EmptySequence));
}

#[test]
fn digit_extrema_single_digit() {
    let b = BigInt::new(7);
    assert_eq!(b.smallest_digit(), Ok(7));
    assert_eq!(b.biggest_digit(), Ok(7));
}

#[test]
fn round_trip_identity() {
    let b = BigInt::from_vec(vec![7, 0, 9, 0, 0, 5]);
    let again = BigInt::from_vec(b.to_digits());
    assert_eq!(again.to_digits(), b.to_digits());
    assert!(again.test_invariant());
}

#[test]
fn clone_is_deep_copy() {
    let b = BigInt::from_vec(vec![1, 2, 3]);
    let c = b.clone();
    assert_eq!(c.to_digits(), b.to_digits());
}

#[test]
fn invariant_holds_after_construction() {
    assert!(BigInt::new(0).test_invariant());
    assert!(BigInt::new(u64::MAX).test_invariant());
    assert!(BigInt::from_vec(vec![]).test_invariant());
    assert!(BigInt::from_vec(vec![0, 0]).test_invariant());
    assert!(BigInt::from_vec(vec![5, 0, 7, 0]).test_invariant());
}
