use big_numbers::algorithms::karatsuba;
use big_numbers::base_ops::{self, base_mul, div};
use big_numbers::conversions::{convert_from_internal, convert_to_internal};
use big_numbers::errors::ArithmeticError;
use big_numbers::kernel::NATIVE_BASE;
use big_numbers::utils::cmp_repr;
use big_numbers::IntLimb;
use std::cmp::Ordering;

/// A deterministic magnitude of `n` limbs below `base`, top limb nonzero.
fn sample(n: usize, seed: u64, base: u128) -> Vec<IntLimb> {
    let mut x = seed.wrapping_mul(6364136223846793005).wrapping_add(1442695040888963407);
    let mut v = Vec::new();
    for _ in 0..n {
        x = x.wrapping_mul(6364136223846793005).wrapping_add(1442695040888963407);
        v.push(((x >> 11) as u128 % base) as IntLimb);
    }
    if let Some(last) = v.last_mut() {
        if *last == 0 {
            *last = 1;
        }
    }
    v
}

fn is_canonical(v: &[IntLimb]) -> bool {
    v.last().map_or(true, |x| *x != 0)
}

#[test]
fn scenario_karatsuba_base_ten() {
    let a = vec![1, 1, 1, 1, 1, 1];
    let b = vec![1, 1, 1, 1, 1, 1];
    assert_eq!(karatsuba(&a, &b, 3, base_mul, 10), vec![1, 2, 3, 4, 5, 6, 5, 4, 3, 2, 1]);
}

#[test]
fn scenario_add_base_ten() {
    assert_eq!(base_ops::add(&[9, 9, 2, 8, 9], &[1, 2, 2, 8, 9], 10), vec![0, 2, 5, 6, 9, 1]);
}

#[test]
fn scenario_sub_base_ten() {
    assert_eq!(base_ops::sub(&[9, 9, 2, 8, 9], &[1, 2, 2, 8, 9], 10), (1, vec![8, 7]));
}

#[test]
fn scenario_div_base_ten() {
    assert_eq!(div(&[9, 9, 9], &[3, 3], 10), Ok((vec![0, 3], vec![9])));
}

#[test]
fn scenario_div_by_empty_base_ten() {
    assert_eq!(div(&[0, 0, 0, 0, 1], &[], 10), Err(ArithmeticError::DividedByZero));
}

#[test]
fn outputs_are_canonical() {
    for base in [10u128, 1 << 32, NATIVE_BASE] {
        for (n, m) in [(0, 3), (3, 3), (5, 2), (20, 17)] {
            let a = sample(n, 3 * n as u64 + 1, base);
            let b = sample(m, 7 * m as u64 + 2, base);
            assert!(is_canonical(&base_ops::add(&a, &b, base)));
            assert!(is_canonical(&base_ops::sub(&a, &b, base).1));
            assert!(is_canonical(&base_ops::mul(&a, &b, base)));
            if !b.is_empty() {
                let (q, r) = div(&a, &b, base).unwrap();
                assert!(is_canonical(&q) && is_canonical(&r));
            }
        }
    }
}

#[test]
fn add_and_mul_commute() {
    for base in [10u128, NATIVE_BASE] {
        for (n, m) in [(1, 4), (14, 30), (40, 40)] {
            let a = sample(n, n as u64, base);
            let b = sample(m, m as u64 + 100, base);
            assert_eq!(base_ops::add(&a, &b, base), base_ops::add(&b, &a, base));
            assert_eq!(base_ops::mul(&a, &b, base), base_ops::mul(&b, &a, base));
        }
    }
}

#[test]
fn add_associates() {
    for base in [10u128, NATIVE_BASE] {
        let a = sample(9, 1, base);
        let b = sample(3, 2, base);
        let c = sample(12, 3, base);
        let left = base_ops::add(&base_ops::add(&a, &b, base), &c, base);
        let right = base_ops::add(&a, &base_ops::add(&b, &c, base), base);
        assert_eq!(left, right);
    }
}

#[test]
fn karatsuba_matches_schoolbook_at_every_threshold() {
    for base in [10u128, 1 << 32, NATIVE_BASE] {
        for (n, m) in [(1, 1), (7, 30), (31, 29), (50, 3), (64, 64)] {
            let a = sample(n, 11 * n as u64, base);
            let b = sample(m, 13 * m as u64, base);
            let expected = base_mul(&a, &b, base);
            for threshold in 1..20 {
                assert_eq!(karatsuba(&a, &b, threshold, base_mul, base), expected);
            }
        }
    }
}

#[test]
fn division_identity() {
    for base in [7u128, 10, 1 << 32, NATIVE_BASE] {
        for (n, m) in [(1, 1), (6, 2), (20, 7), (33, 33), (40, 13), (3, 9)] {
            let a = sample(n, 17 * n as u64 + 5, base);
            let b = sample(m, 19 * m as u64 + 3, base);
            let (q, r) = div(&a, &b, base).unwrap();
            let back = base_ops::add(&base_ops::mul(&q, &b, base), &r, base);
            assert_eq!(back, a);
            assert_eq!(cmp_repr(&r, &b), Ordering::Less);
        }
    }
}

#[test]
fn division_with_a_large_trial_digit_correction() {
    // divisor with a small top limb and a large second limb, in base 2^64
    let x = IntLimb::MAX;
    let a = vec![x, x, x, x, 0x7fff_ffff_ffff_ffff];
    let b = vec![x, 1];
    let (q, r) = div(&a, &b, NATIVE_BASE).unwrap();
    assert_eq!(base_ops::add(&base_ops::mul(&q, &b, NATIVE_BASE), &r, NATIVE_BASE), a);
    assert_eq!(cmp_repr(&r, &b), Ordering::Less);
}

#[test]
fn radix_round_trip() {
    let digits = [0, 0, 1, 2, 3];
    let internal = convert_to_internal(10, &digits, NATIVE_BASE);
    assert_eq!(convert_from_internal(10, &internal, NATIVE_BASE), vec![3, 2, 1]);
    let digits = [1, 0, 1, 1, 0, 1, 1, 1, 0, 0, 1, 0, 1, 1, 1, 1, 1, 0, 1, 0, 1, 1];
    let internal = convert_to_internal(2, &digits, 10);
    let mut expected = digits.to_vec();
    expected.reverse();
    assert_eq!(convert_from_internal(2, &internal, 10), expected);
    let internal = convert_to_internal(7, &[0, 0, 0], 10);
    assert_eq!(convert_from_internal(7, &internal, 10), vec![0; 0]);
}
