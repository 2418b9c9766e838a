use big_numbers::conversions::{convert_from_internal, convert_from_string, convert_to_internal};
use big_numbers::kernel::NATIVE_BASE;

#[test]
fn simple_base() {
    let number = "10".to_string();

    let r = convert_from_string(10, number, NATIVE_BASE);

    assert_eq!(Some(vec![10]), r);
}

#[test]
fn smaller_to_larger() {
    let number = "1111111".to_string();

    let r = convert_from_string(2, number, NATIVE_BASE);

    assert_eq!(Some(vec![127]), r);
}

#[test]
fn smaller_to_much_larger() {
    let number = "100000".to_string();

    let r = convert_from_string(10, number, NATIVE_BASE);

    assert_eq!(Some(vec![100000]), r);
}

#[test]
fn zero() {
    let number = "00000000000".to_string();

    let r = convert_from_string(10, number, NATIVE_BASE);

    assert_eq!(Some(vec![0; 0]), r);
}

#[test]
fn convert_from_string_rejects_non_digits() {
    assert_eq!(convert_from_string(10, "12a4".to_string(), NATIVE_BASE), None);
    assert_eq!(convert_from_string(2, "102".to_string(), NATIVE_BASE), None);
    assert_eq!(convert_from_string(16, "fF".to_string(), 10), Some(vec![5, 5, 2]));
    assert_eq!(convert_from_string(36, "z".to_string(), 10), Some(vec![5, 3]));
}

#[test]
fn convert_to_internal_across_limbs() {
    // 2^64 + 5 written in decimal
    let digits = [1, 8, 4, 4, 6, 7, 4, 4, 0, 7, 3, 7, 0, 9, 5, 5, 1, 6, 2, 1];
    assert_eq!(convert_to_internal(10, &digits, NATIVE_BASE), vec![5, 1]);
    assert_eq!(convert_to_internal(10, &[0, 0, 4, 2], 10), vec![2, 4]);
    assert_eq!(convert_to_internal(10, &[], 10), vec![0; 0]);
}

#[test]
fn convert_from_internal_digits() {
    assert_eq!(convert_from_internal(10, &[5, 1], NATIVE_BASE), vec![1, 2, 6, 1, 5, 5, 9, 0, 7, 3, 7, 0, 4, 4, 7, 6, 4, 4, 8, 1]);
    assert_eq!(convert_from_internal(2, &[6], 10), vec![0, 1, 1]);
    assert_eq!(convert_from_internal(10, &[], 10), vec![0; 0]);
}
