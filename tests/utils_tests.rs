use big_numbers::utils::{bit_len, cmp_repr, internal_repr, new_repr, trim_zeros};
use big_numbers::IntLimb;
use std::cmp::Ordering;

#[test]
fn trim_zeros_empty_vec() {
    let mut empty_vec: Vec<IntLimb> = vec![0; 0];

    trim_zeros(&mut empty_vec);

    assert_eq!(empty_vec, []);
}

#[test]
fn trim_zeros_zeros_vec_to_empty_vec() {
    let mut zero_vec: Vec<IntLimb> = vec![100; 0];

    trim_zeros(&mut zero_vec);

    assert_eq!(zero_vec, []);
}

#[test]
fn trim_zeros_zeros_trim_just_zeros() {
    let mut a = [0, 0, 0, 1, 0, 0, 0].to_vec();

    trim_zeros(&mut a);

    assert_eq!(a, [0, 0, 0, 1]);
}

#[test]
fn bit_len_test() {
    let test_inputs = [
        (1, 1),
        (2, 2),
        (3, 2),
        (4, 3),
        (156, 8),
        (IntLimb::pow(2, 32), 33),
    ];

    for input in test_inputs.iter() {
        assert_eq!(bit_len(input.0), input.1);
    }
}

#[test]
fn cmp_repr_test() {
    assert_eq!(Ordering::Greater, cmp_repr(&[1, 2, 3, 4], &[]));
    assert_eq!(Ordering::Greater, cmp_repr(&[1, 2, 3, 4], &[1, 2]));
    assert_eq!(Ordering::Equal, cmp_repr(&[], &[]));
    assert_eq!(Ordering::Less, cmp_repr(&[1], &[5]));
    assert_eq!(Ordering::Less, cmp_repr(&[4], &[1, 2]));
    assert_eq!(Ordering::Greater, cmp_repr(&[1, 2, 3, 4], &[1, 2, 3, 3]));
}

#[test]
fn bit_len_of_extremes() {
    assert_eq!(bit_len(0), 0);
    assert_eq!(bit_len(IntLimb::MAX), 64);
}

#[test]
fn new_repr_splits_into_digits() {
    assert_eq!(new_repr(0, 10), vec![0; 0]);
    assert_eq!(new_repr(9, 10), vec![9]);
    assert_eq!(new_repr(1234, 10), vec![4, 3, 2, 1]);
    assert_eq!(new_repr(IntLimb::MAX, 18446744073709551616), vec![IntLimb::MAX]);
    assert_eq!(internal_repr(7), vec![7]);
}
