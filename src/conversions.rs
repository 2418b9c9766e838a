//! Radix conversion: digits in any radix to a magnitude and back, and the
//! parsing of digit strings.
use crate::base_ops;
use crate::kernel::div_const;
use crate::model::{
    is_mag, len_ok, lemma_mag_len, lemma_to_mag, lemma_val_high_zeros, lemma_val_msf,
    lemma_val_nonneg, limbs_ok, to_mag, val, val_msf, valid_base,
};
use crate::utils::{limbs_range, new_repr, reversed};
use crate::IntLimb;
use vstd::arithmetic::div_mod::*;
use vstd::arithmetic::mul::*;
use vstd::arithmetic::power::*;
use vstd::arithmetic::power2::{lemma2_to64, lemma_pow2};
use vstd::prelude::*;

verus! {

/// A digit sequence short enough that the magnitude it gives fits in memory:
/// each digit can add up to 64 limbs.
pub open spec fn digits_len_ok(n: int) -> bool {
    n <= usize::MAX / 512
}

/// A value below `2^(64 k)` has at most `64 k` limbs in any base.
proof fn lemma_len_from_bits(x: int, k: nat, base: int)
    requires
        valid_base(base),
        0 <= x < pow(2, 64 * k),
    ensures
        to_mag(x, base).len() <= 64 * k,
{
    lemma_to_mag(x, base);
    lemma_pow_increases_base(2, base, 64 * k);
    lemma_mag_len(to_mag(x, base), 64 * k, base);
}

/// Powers grow with the base.
pub proof fn lemma_pow_increases_base(a: int, b: int, e: nat)
    requires
        2 <= a <= b,
    ensures
        pow(a, e) <= pow(b, e),
    decreases e,
{
    if e == 0 {
        lemma_pow0(a);
        lemma_pow0(b);
    } else {
        lemma_pow_increases_base(a, b, (e - 1) as nat);
        lemma_pow_adds(a, 1, (e - 1) as nat);
        lemma_pow_adds(b, 1, (e - 1) as nat);
        lemma_pow1(a);
        lemma_pow1(b);
        lemma_pow_positive(a, (e - 1) as nat);
        lemma_mul_upper_bound(a, b, pow(a, (e - 1) as nat), pow(b, (e - 1) as nat));
    }
}

/// The value of digits read in `radix` grows by at most 64 bits per digit.
proof fn lemma_digits_bound(x: int, radix: int, d: int, k: nat)
    requires
        0 <= x < pow(2, 64 * k),
        0 <= radix < 0x1_0000_0000_0000_0000,
        0 <= d < 0x1_0000_0000_0000_0000,
    ensures
        0 <= x * radix + d < pow(2, 64 * (k + 1)),
{
    lemma_pow_adds(2, 64 * k, 64);
    lemma2_to64();
    lemma_pow2(64);
    lemma_mul_nonnegative(x, radix);
    assert(x * radix + d < pow(2, 64 * k) * 0x1_0000_0000_0000_0000) by (nonlinear_arith)
        requires
            0 <= x < pow(2, 64 * k),
            0 <= radix < 0x1_0000_0000_0000_0000,
            0 <= d < 0x1_0000_0000_0000_0000,
    ;
}

/// Builds the magnitude in `base` of digits given most significant first in
/// radix `from`: `value = value * from + digit` for each digit.
pub fn convert_to_internal(from: IntLimb, numbers: &[IntLimb], base: u128) -> (r: Vec<IntLimb>)
    requires
        valid_base(base as int),
        digits_len_ok(numbers@.len() as int),
    ensures
        r@ == to_mag(val_msf(numbers@, from as int), base as int),
{
    let ghost bs = base as int;
    let mut new_vec: Vec<IntLimb> = Vec::new();
    let bv = new_repr(from, base);
    proof {
        lemma_to_mag(from as int, bs);
        lemma2_to64();
        lemma_pow2(64);
        lemma_pow1(2);
        lemma_len_from_bits(from as int, 1, bs);
        assert(numbers@.take(0) =~= Seq::<u64>::empty());
        assert(to_mag(0, bs) =~= Seq::<u64>::empty());
        lemma_pow0(2);
    }
    let mut i: usize = 0;
    while i < numbers.len()
        invariant
            valid_base(bs),
            bs == base as int,
            digits_len_ok(numbers@.len() as int),
            0 <= i <= numbers@.len(),
            bv@ == to_mag(from as int, bs),
            val(bv@, bs) == from as int,
            is_mag(bv@, bs),
            len_ok(bv@),
            new_vec@ == to_mag(val_msf(numbers@.take(i as int), from as int), bs),
            0 <= val_msf(numbers@.take(i as int), from as int) < pow(2, 64 * i as nat),
        decreases numbers@.len() - i,
    {
        let ghost x = val_msf(numbers@.take(i as int), from as int);
        let ghost d = numbers@[i as int] as int;
        proof {
            lemma2_to64();
            lemma_pow2(64);
            lemma_mul_nonnegative(x, from as int);
            lemma_to_mag(x, bs);
            lemma_len_from_bits(x, i as nat, bs);
            lemma_digits_bound(x, from as int, 0, i as nat);
            lemma_digits_bound(x, from as int, d, i as nat);
            lemma_len_from_bits(x * from, (i + 1) as nat, bs);
            lemma_to_mag(x * from, bs);
            lemma_to_mag(d, bs);
            lemma_len_from_bits(d, 1, bs);
            lemma_pow1(2);
            lemma_pow_increases(2, 64, 64 * (i + 1) as nat);
            assert(numbers@.take(i + 1).drop_last() =~= numbers@.take(i as int));
        }
        let v = new_repr(numbers[i], base);
        let prod = base_ops::mul(&new_vec, &bv, base);
        new_vec = base_ops::add(&prod, &v, base);
        i = i + 1;
    }
    proof {
        assert(numbers@.take(numbers@.len() as int) =~= numbers@);
    }
    new_vec
}

/// A most-significant-first sequence with a nonzero first limb is positive.
proof fn lemma_msf_positive(s: Seq<u64>, base: int)
    requires
        valid_base(base),
        s.len() > 0,
        s[0] != 0,
    ensures
        val_msf(s, base) > 0,
{
    lemma_val_msf(s, base);
    assert(s.reverse().last() == s[0]);
    crate::model::lemma_val_lower(s.reverse(), base);
    crate::model::lemma_pow_nonneg(base, (s.len() - 1) as nat);
}

/// Leading zero limbs of a most-significant-first sequence do not count.
proof fn lemma_msf_leading_zeros(s: Seq<u64>, k: int, base: int)
    requires
        0 <= k <= s.len(),
        forall|i: int| 0 <= i < k ==> #[trigger] s[i] == 0,
    ensures
        val_msf(s, base) == val_msf(s.skip(k), base),
{
    lemma_val_msf(s, base);
    lemma_val_msf(s.skip(k), base);
    let r = s.reverse();
    assert(r.take(s.len() - k) =~= s.skip(k).reverse());
    assert forall|i: int| s.len() - k <= i < r.len() implies #[trigger] r[i] == 0 by {
        assert(r[i] == s[s.len() - 1 - i]);
    }
    lemma_val_high_zeros(r, s.len() - k, base);
}

/// The digits of a magnitude in radix `to`, least significant first: repeated
/// division by `to` of a most-significant-first copy, dropping the limbs that
/// have become zero at its top.
pub fn convert_from_internal(to: IntLimb, numbers: &[IntLimb], base: u128) -> (r: Vec<IntLimb>)
    requires
        valid_base(base as int),
        to >= 2,
        is_mag(numbers@, base as int),
    ensures
        r@ == to_mag(val(numbers@, base as int), to as int),
{
    let ghost bs = base as int;
    let ghost total = val(numbers@, bs);
    let mut nrs = reversed(numbers);
    let mut repr: Vec<IntLimb> = Vec::new();
    proof {
        lemma_val_msf(nrs@, bs);
        assert(nrs@.reverse() =~= numbers@);
        assert forall|i: int| 0 <= i < nrs@.len() implies (#[trigger] nrs@[i] as int) < bs by {
            assert(nrs@[i] == numbers@[numbers@.len() - 1 - i]);
        }
        if nrs@.len() > 0 {
            assert(nrs@[0] == numbers@.last());
        }
    }
    while nrs.len() > 0
        invariant
            valid_base(bs),
            bs == base as int,
            to >= 2,
            limbs_ok(nrs@, bs),
            nrs@.len() > 0 ==> nrs@[0] != 0,
            repr@ + to_mag(val_msf(nrs@, bs), to as int) == to_mag(total, to as int),
        decreases val_msf(nrs@, bs),
    {
        let ghost x = val_msf(nrs@, bs);
        proof {
            lemma_msf_positive(nrs@, bs);
        }
        let remainder = div_const(&mut nrs, to, base);
        let mut i: usize = 0;
        while i < nrs.len() && nrs[i] == 0
            invariant
                0 <= i <= nrs@.len(),
                forall|k: int| 0 <= k < i ==> #[trigger] nrs@[k] == 0,
            decreases nrs@.len() - i,
        {
            i = i + 1;
        }
        proof {
            lemma_msf_leading_zeros(nrs@, i as int, bs);
            lemma_val_msf(nrs@, bs);
            lemma_val_nonneg(nrs@.reverse(), bs);
        }
        let ghost q = val_msf(nrs@, bs);
        let len = nrs.len();
        let ghost before = nrs@;
        nrs = limbs_range(&nrs, i, len);
        proof {
            assert(nrs@ =~= before.skip(i as int));
            assert forall|k: int| 0 <= k < nrs@.len() implies (#[trigger] nrs@[k] as int) < bs by {
                assert(nrs@[k] == before[k + i]);
            }
            if nrs@.len() > 0 {
                assert(nrs@[0] == before[i as int]);
            }
            lemma_div_is_strictly_smaller(x, to as int);
            lemma_fundamental_div_mod_converse(x, to as int, q, remainder as int);
            assert(to_mag(x, to as int) == seq![(x % (to as int)) as u64] + to_mag(
                x / (to as int),
                to as int,
            ));
            assert(repr@.push(remainder) + to_mag(q, to as int) =~= repr@ + to_mag(x, to as int));
        }
        repr.push(remainder);
    }
    proof {
        assert(val_msf(nrs@, bs) == 0);
        assert(to_mag(0, to as int) =~= Seq::<u64>::empty());
        assert(repr@ + Seq::<u64>::empty() =~= repr@);
    }
    repr
}

/// The value of a digit character: `0`-`9`, then `a`-`z` or `A`-`Z` from ten;
/// 36 for any other character, which is a digit in no radix.
pub open spec fn digit_value(c: char) -> int {
    let x = c as int;
    if 48 <= x <= 57 {
        x - 48
    } else if 97 <= x <= 122 {
        x - 97 + 10
    } else if 65 <= x <= 90 {
        x - 65 + 10
    } else {
        36
    }
}

/// Every character is a digit in `radix`.
pub open spec fn all_digits(s: Seq<char>, radix: int) -> bool {
    forall|i: int| 0 <= i < s.len() ==> digit_value(#[trigger] s[i]) < radix
}

/// The digit values of a string, in order.
pub open spec fn digits_of(s: Seq<char>) -> Seq<u64> {
    s.map_values(|c: char| digit_value(c) as u64)
}

/// The value of a character as a digit in `radix`, if it is one.
pub fn char_digit(c: char, radix: u64) -> (r: Option<u64>)
    requires
        radix <= 36,
    ensures
        digit_value(c) < radix ==> r == Some(digit_value(c) as u64),
        digit_value(c) >= radix ==> r is None,
{
    let x = c as u32;
    let d: u64;
    if 48 <= x && x <= 57 {
        d = (x - 48) as u64;
    } else if 97 <= x && x <= 122 {
        d = (x - 97 + 10) as u64;
    } else if 65 <= x && x <= 90 {
        d = (x - 65 + 10) as u64;
    } else {
        return None;
    }
    if d < radix {
        Some(d)
    } else {
        None
    }
}

/// Parses one digit in radix `from` per character and builds the magnitude in
/// `base`; `None` if some character is not a digit in `from`.
pub fn convert_from_string(from: IntLimb, number: String, base: u128) -> (r: Option<Vec<IntLimb>>)
    requires
        2 <= from <= 36,
        valid_base(base as int),
        digits_len_ok(number@.len() as int),
    ensures
        r is Some <==> all_digits(number@, from as int),
        r is Some ==> r->Some_0@ == to_mag(val_msf(digits_of(number@), from as int), base as int),
{
    let s = number.as_str();
    let len = s.unicode_len();
    let mut numbers: Vec<IntLimb> = Vec::new();
    let mut i: usize = 0;
    while i < len
        invariant
            len == number@.len(),
            s@ == number@,
            2 <= from <= 36,
            0 <= i <= len,
            numbers@ == digits_of(number@).take(i as int),
            all_digits(number@.take(i as int), from as int),
        decreases len - i,
    {
        let c = s.get_char(i);
        match char_digit(c, from) {
            Some(d) => {
                numbers.push(d);
                proof {
                    assert(numbers@ =~= digits_of(number@).take(i + 1));
                    assert(number@.take(i + 1) =~= number@.take(i as int).push(c));
                }
            },
            None => {
                proof {
                    assert(!all_digits(number@, from as int)) by {
                        assert(digit_value(number@[i as int]) >= from);
                    }
                }
                return None;
            },
        }
        i = i + 1;
    }
    proof {
        assert(number@.take(len as int) =~= number@);
        assert(digits_of(number@).take(len as int) =~= digits_of(number@));
    }
    Some(convert_to_internal(from, &numbers, base))
}

} // verus!
