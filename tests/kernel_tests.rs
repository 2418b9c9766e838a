use big_numbers::kernel::{
    add_const, add_two_slices, cmp_slices, div_const, mul_const, mul_two_slices, sub_const,
    sub_two_slices, NATIVE_BASE,
};
use big_numbers::IntLimb;

#[test]
fn test_adding_slices_even_len() {
    let a = [1, 2, 3, 4, 6];
    let b = [1, 2, 3, 4, 5];
    let mut dest = vec![0, 0, 0, 0, 0, 0];

    let c = [2, 4, 6, 8, 11, 0];
    add_two_slices(&a, &b, &mut dest, NATIVE_BASE);
    assert_eq!(c, dest[..]);
}

#[test]
fn test_adding_slices_not_even_len() {
    let a = [1, 2, 3, 4, 6, 9];
    let b = [1, 2, 3, 4, 5];
    let mut dest = vec![0, 0, 0, 0, 0, 0, 0];

    let c = [2, 4, 6, 8, 11, 9, 0];
    add_two_slices(&a, &b, &mut dest, NATIVE_BASE);
    assert_eq!(c, dest[..]);
}

#[test]
fn test_adding_slices_overflow() {
    let x = IntLimb::MAX;
    let a = [x, x, x, 0, x];
    let b = [1, 0, 0, x];
    let mut dest = vec![0, 0, 0, 0, 0, 0];

    let c = [0, 0, 0, 0, 0, 1];
    add_two_slices(&a, &b, &mut dest, NATIVE_BASE);
    assert_eq!(c, dest[..]);
}

#[test]
fn test_sub_slices_even_len() {
    let x = IntLimb::MAX;
    let a = [0, 0, 0, 0, 0, 2];
    let b = [1, 1, 0, 0, 0, 1];
    let mut dest = vec![0, 0, 0, 0, 0, 0];

    let c = [x, x - 1, x, x, x, 0];
    sub_two_slices(&a, &b, &mut dest, NATIVE_BASE);
    assert_eq!(c, dest[..]);
}

#[test]
fn test_sub_slices_not_even_len() {
    let x = IntLimb::MAX;
    let a = [0, 1, 2, 1, 0, 1, 1];
    let b = [1, 0, 3];
    let mut dest = vec![0, 0, 0, 0, 0, 0, 0];

    let c = [x, 0, x, 0, 0, 1, 1];
    sub_two_slices(&a, &b, &mut dest, NATIVE_BASE);
    assert_eq!(c, dest[..]);
}

#[test]
fn test_sub_slices_to_zeros() {
    let a = [1, 1, 1, 1, 1, 1];
    let b = [1, 1, 1, 1, 1, 1];
    let mut dest = vec![0, 0, 0, 0, 0, 0];

    let c = [0, 0, 0, 0, 0, 0];
    sub_two_slices(&a, &b, &mut dest, NATIVE_BASE);
    assert_eq!(c, dest[..]);
}

#[test]
fn test_mul_slices_not_even_len() {
    let x = IntLimb::MAX;
    let a = [x, x, x];
    let b = [2, 1];
    let mut dest = vec![0, 0, 0, 0, 0];
    let c = [x - 1, x - 1, x, 1, 1];
    mul_two_slices(&a, &b, &mut dest, NATIVE_BASE);
    assert_eq!(c, dest[..]);
}

#[test]
fn test_mul_slices_even_len() {
    let a = [1, 2, 3, 4, 6];
    let b = [1, 2, 3, 4, 5];
    let mut dest = vec![0, 0, 0, 0, 0, 0, 0, 0, 0, 0];

    let c = [1, 4, 10, 20, 36, 46, 49, 44, 30, 0];
    mul_two_slices(&a, &b, &mut dest, NATIVE_BASE);
    assert_eq!(c, dest[..]);
}

#[test]
fn test_mul_slices_of_nines_even_len() {
    let x = IntLimb::MAX;
    let a = [x, x, x, x, x];
    let b = [x, x, x, x, x];
    let mut dest = vec![0, 0, 0, 0, 0, 0, 0, 0, 0, 0];

    let c = [1, 0, 0, 0, 0, x - 1, x, x, x, x];
    mul_two_slices(&a, &b, &mut dest, NATIVE_BASE);
    assert_eq!(c, dest[..]);
}

#[test]
fn test_mul_by_one() {
    let x = IntLimb::pow(2, 32);
    let a = [x - 1, x - 1, x - 1, x - 1];
    let b = [1];
    let mut dest = vec![0, 0, 0, 0, 0, 0];

    let c = [x - 1, x - 1, x - 1, x - 1, 0, 0];
    mul_two_slices(&a, &b, &mut dest, NATIVE_BASE);
    assert_eq!(c, dest[..]);
}

#[test]
fn test_adding_const() {
    let x = IntLimb::MAX;
    let mut a = vec![x, x, x, 0];
    let b = 1;

    let c = [0, 0, 0, 1];
    add_const(&mut a, b, NATIVE_BASE);
    assert_eq!(c, a[..]);
}

#[test]
fn test_sub_const() {
    let x = IntLimb::MAX;
    let mut a = vec![0, 0, 0, 1];
    let b = 1;

    let c = [x, x, x, 0];
    sub_const(&mut a, b, NATIVE_BASE);
    assert_eq!(c, a[..]);
}

#[test]
fn test_sub_const_overflow() {
    let x = IntLimb::MAX;
    let mut a = vec![1, 0, 0, 1];
    let b = 2;

    let c = [x, x, x, 0];
    sub_const(&mut a, b, NATIVE_BASE);
    assert_eq!(c, a[..]);
}

#[test]
fn test_mul_const_1() {
    let mut a = vec![9, 9, 9, 9, 9, 0];
    let b = 1;

    let c = [9, 9, 9, 9, 9, 0];
    mul_const(&mut a, b, 5, NATIVE_BASE);
    assert_eq!(c, a[..]);
}

#[test]
fn test_mul_const_2() {
    let mut a = vec![9, 9, 9, 9, 9, 0];
    let b = 2;

    let c = [18, 18, 18, 18, 18, 0];
    mul_const(&mut a, b, 5, NATIVE_BASE);
    assert_eq!(c, a[..]);
}

#[test]
fn test_mul_const_3() {
    let x = IntLimb::MAX;
    let mut a = vec![x, x, x, 0];
    let b = x;

    let c = [1, x, x, x - 1];
    mul_const(&mut a, b, 4, NATIVE_BASE);
    assert_eq!(c, a[..]);
}

#[test]
fn test_cmp_slices_1() {
    let a = [1, 2, 3, 4, 6];
    let b = [1, 2, 3, 4, 5];

    let res = cmp_slices(&a, &b);
    assert_eq!(res, 1);
}

#[test]
fn test_cmp_slices_2() {
    let a = [1, 2, 3, 4, 4];
    let b = [1, 2, 3, 4, 5];

    let res = cmp_slices(&a, &b);
    assert_eq!(res, -1);
}

#[test]
fn test_cmp_slices_3() {
    let a = [1, 2, 3, 4, 5];
    let b = [1, 2, 3, 4, 5];

    let res = cmp_slices(&a, &b);
    assert_eq!(res, 0);
}

#[test]
fn test_div_const_1() {
    let mut a = vec![9, 9, 9, 9, 9];

    let c = [3, 3, 3, 3, 3];
    let remainder = div_const(&mut a, 3, NATIVE_BASE);
    assert_eq!(0, remainder);
    assert_eq!(c, a[..]);
}

#[test]
fn test_div_const_2() {
    let mut a = vec![1, 2, 5];

    let c = [0, 4611686018427387904, 9223372036854775809];
    let remainder = div_const(&mut a, 4, NATIVE_BASE);
    assert_eq!(1, remainder);
    assert_eq!(c, a[..]);
}

#[test]
fn test_div_const_3() {
    let mut a = vec![9, 9, 9, 9, 9];

    let c = [
        2,
        4611686018427387906,
        4611686018427387906,
        4611686018427387906,
        4611686018427387906,
    ];
    let remainder = div_const(&mut a, 4, NATIVE_BASE);
    assert_eq!(c, a[..]);
    assert_eq!(1, remainder);
}

#[test]
fn test_div_const_4() {
    let mut a = vec![1];

    let c = [0];
    let remainder = div_const(&mut a, 2, NATIVE_BASE);
    assert_eq!(1, remainder);
    assert_eq!(c, a[..]);
}

#[test]
fn test_div_const_5() {
    let mut a = vec![5];

    let c = [1];
    let remainder = div_const(&mut a, 4, NATIVE_BASE);
    assert_eq!(1, remainder);
    assert_eq!(c, a[..]);
}

#[test]
fn test_div_const_6() {
    let mut a = vec![9223372036854775808, 4611686018427387906];

    let c = [0, 12297829382473034410];
    let remainder = div_const(&mut a, 13835058055282163713, NATIVE_BASE);
    assert_eq!(c, a[..]);
    assert_eq!(1537228672809129304, remainder);
}

#[test]
fn kernel_add_at_carries_above_window() {
    let x = IntLimb::MAX;
    let mut dest = vec![5, x, x, 0];
    big_numbers::kernel::add_at(&mut dest, 1, &[1], NATIVE_BASE);
    assert_eq!(dest, vec![5, 0, 0, 1]);
}

#[test]
fn kernel_sub_at_borrows_above_window() {
    let x = IntLimb::MAX;
    let mut dest = vec![5, 0, 0, 1];
    big_numbers::kernel::sub_at(&mut dest, 1, &[1], NATIVE_BASE);
    assert_eq!(dest, vec![5, x, x, 0]);
}

#[test]
fn kernel_in_base_ten() {
    let mut dest = vec![0, 0, 0];
    add_two_slices(&[9, 9], &[3], &mut dest, 10);
    assert_eq!(dest, vec![2, 0, 1]);
    let mut prod = vec![0, 0, 0, 0];
    mul_two_slices(&[9, 9], &[9, 9], &mut prod, 10);
    assert_eq!(prod, vec![1, 0, 8, 9]);
    let mut q = vec![1, 2, 3];
    let r = div_const(&mut q, 7, 10);
    assert_eq!((q, r), (vec![0, 1, 7], 4));
}
