use big_numbers::algorithms::karatsuba;
use big_numbers::base_ops::{self, base_mul, div};
use big_numbers::errors::ArithmeticError;
use big_numbers::kernel::NATIVE_BASE;
use big_numbers::IntLimb;

#[test]
fn karatsuba_test_1() {
    let a = Vec::from([1, 1, 1, 1, 1, 1]);
    let b = Vec::from([1, 1, 1, 1, 1, 1]);

    let expected_res = Vec::from([1, 2, 3, 4, 5, 6, 5, 4, 3, 2, 1]);
    let res = karatsuba(&a, &b, 3, base_mul, NATIVE_BASE);

    assert_eq!(expected_res, res);
}

#[test]
fn karatsuba_test_2() {
    let a = Vec::from([6, 5, 0, 7, 4, 5, 1, 1, 5, 9, 2, 7, 2, 0, 3]);
    let b = Vec::from([6, 9, 2, 7]);

    let expected_res = Vec::from([
        36, 84, 57, 94, 122, 80, 108, 53, 76, 108, 110, 113, 142, 46, 71, 41, 6, 21,
    ]);

    let res = karatsuba(&a, &b, 7, base_mul, NATIVE_BASE);
    assert_eq!(expected_res, res);
}

#[test]
fn add_reversed_digits_even_sizes() {
    let a = Vec::from([9, 9, 2, 8, 9]);
    let b = Vec::from([1, 2, 2, 8, 9]);

    let c = Vec::from([10, 11, 4, 16, 18]);

    assert_eq!(c, base_ops::add(&a, &b, NATIVE_BASE));
}

#[test]
fn add_reversed_digits_not_even_sizes() {
    let a = Vec::from([9]);
    let b = Vec::from([1, 9, 9, 9, 9]);

    let c = Vec::from([10, 9, 9, 9, 9]);

    assert_eq!(c, base_ops::add(&a, &b, NATIVE_BASE));
}

#[test]
fn sub_reversed_digits_even_sizes() {
    let a = Vec::from([9, 9, 2, 8, 9]);
    let b = Vec::from([1, 2, 2, 8, 9]);

    let c = (1, Vec::from([8, 7]));

    assert_eq!(c, base_ops::sub(&a, &b, NATIVE_BASE));
}

#[test]
fn sub_reversed_digits_not_even_sizes() {
    let x = IntLimb::MAX;
    let a = Vec::from([9]);
    let b = Vec::from([1, 9, 9, 9, 9]);

    let c = (-1, Vec::from([x - 7, 8, 9, 9, 9]));

    assert_eq!(c, base_ops::sub(&a, &b, NATIVE_BASE));
}

#[test]
fn sub_reversed_digits_not_even_sizes2() {
    let x = IntLimb::MAX;
    let a = Vec::from([9, 8, 2]);
    let b = Vec::from([1, 9, 9, 9, 9]);

    let c = (-1, Vec::from([x - 7, 0, 7, 9, 9]));

    assert_eq!(c, base_ops::sub(&a, &b, NATIVE_BASE));
}

#[test]
fn mul_even() {
    let a = Vec::from([2, 2, 2]);
    let b = Vec::from([3]);

    let c = Vec::from([6, 6, 6]);

    assert_eq!(c, base_ops::mul(&a, &b, NATIVE_BASE));
}

#[test]
fn mul_even_larger() {
    let a = Vec::from([2, 2, 2, 4, 5, 6]);
    let b = Vec::from([3]);

    let c = Vec::from([6, 6, 6, 12, 15, 18]);

    assert_eq!(c, base_ops::mul(&a, &b, NATIVE_BASE));
}

#[test]
fn div_by_single() -> Result<(), ArithmeticError> {
    let a = Vec::from([9, 9, 9, 9, 9]);
    let b = Vec::from([3]);

    let c = Vec::from([3, 3, 3, 3, 3]);
    let d: Vec<IntLimb> = Vec::from([]);

    let (q, r) = div(&a, &b, NATIVE_BASE)?;

    assert_eq!(c, q);
    assert_eq!(d, r);

    Ok(())
}

#[test]
fn div_by_single_with_remainder() -> Result<(), ArithmeticError> {
    let a = Vec::from([5, 2, 1]);
    let b = Vec::from([4]);

    let c = [9223372036854775809, 4611686018427387904].to_vec();
    let d = Vec::from([1]);

    let (q, r) = div(&a, &b, NATIVE_BASE)?;

    assert_eq!(c, q);
    assert_eq!(d, r);

    Ok(())
}

#[test]
fn div_by_one() -> Result<(), ArithmeticError> {
    let a = Vec::from([0, 0, 0, 0, 1]);
    let b = Vec::from([1]);

    let c = Vec::from([0, 0, 0, 0, 1]);
    let d: Vec<IntLimb> = Vec::from([]);

    let (q, r) = div(&a, &b, NATIVE_BASE)?;

    assert_eq!(c, q);
    assert_eq!(d, r);

    Ok(())
}

#[test]
fn div_by_zero() -> Result<(), ArithmeticError> {
    let a = Vec::from([0, 0, 0, 0, 1]);
    let b = Vec::from([]);

    match div(&a, &b, NATIVE_BASE) {
        Ok(_) => assert!(false, "Should throw error"),
        Err(_) => assert!(true),
    }

    Ok(())
}

#[test]
fn div_simple_test_1() -> Result<(), ArithmeticError> {
    let a = Vec::from([9, 9, 9]);
    let b = Vec::from([3, 3]);

    let (q, r) = div(&a, &b, NATIVE_BASE)?;

    let c = Vec::from([0, 3]);
    let d = Vec::from([9]);

    assert_eq!(c, q);
    assert_eq!(d, r);

    Ok(())
}

#[test]
fn div_simple_test_2() -> Result<(), ArithmeticError> {
    let a = Vec::from([1, 2, 1]);
    let b = Vec::from([1, 1]);

    let (q, r) = div(&a, &b, NATIVE_BASE)?;

    let c = Vec::from([1, 1]);
    let d: Vec<IntLimb> = Vec::from([]);

    assert_eq!(c, q);
    assert_eq!(d, r);

    Ok(())
}

#[test]
fn div_simple_test_3() -> Result<(), ArithmeticError> {
    let a = Vec::from([0, 0, 0, 9, 9, 1, 2]);
    let b = Vec::from([4, 3]);

    let (q, r) = div(&a, &b, NATIVE_BASE)?;

    let c = Vec::from([
        6756214907654938654,
        17991268911395735529,
        9564978408590137872,
        2049638230412172405,
        12297829382473034410,
    ]);
    let d: Vec<IntLimb> = Vec::from([9868628516799348616]);

    assert_eq!(d, r);
    assert_eq!(c, q);

    Ok(())
}

#[test]
fn div_divisor_longer_than_dividend() {
    let a = vec![7, 1];
    let b = vec![1, 2, 3];
    assert_eq!(div(&a, &b, NATIVE_BASE), Ok((vec![], vec![7, 1])));
}

#[test]
fn div_by_zero_error_message() {
    let e = div(&[1], &[], 10).unwrap_err();
    assert_eq!(e, ArithmeticError::DividedByZero);
    assert_eq!(e.message(), "Division by zero");
}

#[test]
fn operations_on_empty_magnitudes() {
    let empty: Vec<IntLimb> = vec![];
    assert_eq!(base_ops::add(&empty, &empty, 10), empty);
    assert_eq!(base_ops::add(&empty, &[4, 2], 10), vec![4, 2]);
    assert_eq!(base_ops::sub(&empty, &empty, 10), (0, vec![]));
    assert_eq!(base_ops::sub(&empty, &[4, 2], 10), (-1, vec![4, 2]));
    assert_eq!(base_ops::mul(&empty, &[4, 2], 10), empty);
    assert_eq!(base_ops::mul(&[1], &[4, 2], 10), vec![4, 2]);
    assert_eq!(div(&empty, &[4, 2], 10), Ok((vec![], vec![])));
}

#[test]
fn sub_of_equal_magnitudes_is_zero() {
    assert_eq!(base_ops::sub(&[3, 4, 5], &[3, 4, 5], 10), (0, vec![]));
    // equal top limbs do not count
    assert_eq!(base_ops::sub(&[3, 4, 5], &[1, 4, 5], 10), (1, vec![2]));
}

#[test]
fn add_carries_into_a_new_limb_in_base_ten() {
    assert_eq!(base_ops::add(&[9, 9, 9], &[1], 10), vec![0, 0, 0, 1]);
}

#[test]
fn div_in_small_bases() {
    // 27 = [6, 3] in base 7; 2000 = [5, 5, 5, 5] in base 7
    let (q, r) = div(&[5, 5, 5, 5], &[6, 3], 7).unwrap();
    // 2000 = 74 * 27 + 2; 74 = [4, 3, 1] in base 7
    assert_eq!(q, vec![4, 3, 1]);
    assert_eq!(r, vec![2]);
    // 123456 / 789 = 156 rem 372 in base 10
    let (q, r) = div(&[6, 5, 4, 3, 2, 1], &[9, 8, 7], 10).unwrap();
    assert_eq!(q, vec![6, 5, 1]);
    assert_eq!(r, vec![2, 7, 3]);
}
