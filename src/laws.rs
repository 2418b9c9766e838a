//! Laws that relate the operations: each is stated over the same model the
//! operations' contracts use, `to_mag` of the value of the inputs.
use crate::algorithms::multiplies;
use crate::base_ops::base_mul;
use crate::model::{
    canonical, is_mag, lemma_to_mag, lemma_to_mag_of_val, lemma_val_high_zeros, lemma_val_msf,
    lemma_val_nonneg, limbs_ok, to_mag, val, val_msf, valid_base,
};
use crate::utils::{cmp_mag, lemma_cmp_mag_val};
use vstd::arithmetic::div_mod::*;
use vstd::arithmetic::mul::*;
use vstd::prelude::*;

verus! {

/// Every result of the operations is a canonical magnitude: its digits are
/// below the base and its top limb, if any, is nonzero.
pub proof fn law_canonical(x: int, base: int)
    requires
        valid_base(base),
        x >= 0,
    ensures
        canonical(to_mag(x, base)),
        limbs_ok(to_mag(x, base), base),
        to_mag(x, base).len() > 0 ==> to_mag(x, base).last() != 0,
{
    lemma_to_mag(x, base);
}

/// Addition and multiplication of magnitudes are commutative.
pub proof fn law_commutative(a: Seq<u64>, b: Seq<u64>, base: int)
    requires
        valid_base(base),
        is_mag(a, base),
        is_mag(b, base),
    ensures
        to_mag(val(a, base) + val(b, base), base) == to_mag(val(b, base) + val(a, base), base),
        to_mag(val(a, base) * val(b, base), base) == to_mag(val(b, base) * val(a, base), base),
{
    lemma_mul_is_commutative(val(a, base), val(b, base));
}

/// Addition of magnitudes is associative.
pub proof fn law_add_associative(a: Seq<u64>, b: Seq<u64>, c: Seq<u64>, base: int)
    requires
        valid_base(base),
        is_mag(a, base),
        is_mag(b, base),
        is_mag(c, base),
    ensures
        to_mag(val(to_mag(val(a, base) + val(b, base), base), base) + val(c, base), base)
            == to_mag(val(a, base) + val(to_mag(val(b, base) + val(c, base), base), base), base),
{
    lemma_val_nonneg(a, base);
    lemma_val_nonneg(b, base);
    lemma_val_nonneg(c, base);
    lemma_to_mag(val(a, base) + val(b, base), base);
    lemma_to_mag(val(b, base) + val(c, base), base);
}

/// Schoolbook multiplication is a valid base case for Karatsuba
/// multiplication in every base; with it, Karatsuba multiplication at any
/// threshold of at least one gives what schoolbook multiplication gives, the
/// canonical form of the product.
pub proof fn law_karatsuba_schoolbook(base: u128)
    requires
        valid_base(base as int),
    ensures
        multiplies(base_mul, base),
{
}

/// Division: the quotient times the divisor plus the remainder is the
/// dividend, and the remainder compares below the divisor.
pub proof fn law_div_identity(a: Seq<u64>, b: Seq<u64>, base: int)
    requires
        valid_base(base),
        is_mag(a, base),
        is_mag(b, base),
        b.len() > 0,
    ensures
        ({
            let q = to_mag(val(a, base) / val(b, base), base);
            let r = to_mag(val(a, base) % val(b, base), base);
            &&& to_mag(val(to_mag(val(q, base) * val(b, base), base), base) + val(r, base), base)
                == a
            &&& cmp_mag(r, b) == -1
        }),
{
    let va = val(a, base);
    let vb = val(b, base);
    crate::model::lemma_val_lower(b, base);
    crate::model::lemma_pow_nonneg(base, (b.len() - 1) as nat);
    lemma_val_nonneg(a, base);
    lemma_fundamental_div_mod(va, vb);
    lemma_mod_pos_bound(va, vb);
    lemma_div_pos_is_pos(va, vb);
    lemma_to_mag(va / vb, base);
    lemma_to_mag(va % vb, base);
    lemma_mul_nonnegative(va / vb, vb);
    lemma_to_mag((va / vb) * vb, base);
    lemma_mul_is_commutative(va / vb, vb);
    lemma_to_mag_of_val(a, base);
    lemma_cmp_mag_val(to_mag(va % vb, base), b, base);
}

/// Converting digits of radix `radix` (most significant first, each below
/// `radix`) into a magnitude and back gives the digits without their leading
/// zeros, least significant first.
pub proof fn law_radix_round_trip(digits: Seq<u64>, radix: int, base: int, k: int)
    requires
        valid_base(base),
        valid_base(radix),
        limbs_ok(digits, radix),
        0 <= k <= digits.len(),
        forall|i: int| 0 <= i < k ==> #[trigger] digits[i] == 0,
        k < digits.len() ==> digits[k] != 0,
    ensures
        to_mag(val(to_mag(val_msf(digits, radix), base), base), radix) == digits.skip(k).reverse(),
{
    let x = val_msf(digits, radix);
    lemma_val_msf(digits, radix);
    let rev = digits.reverse();
    lemma_val_nonneg(rev, radix);
    lemma_to_mag(x, base);
    let t = digits.skip(k).reverse();
    assert(rev.take(digits.len() - k) =~= t);
    assert forall|i: int| digits.len() - k <= i < rev.len() implies #[trigger] rev[i] == 0 by {
        assert(rev[i] == digits[digits.len() - 1 - i]);
    }
    lemma_val_high_zeros(rev, digits.len() - k, radix);
    assert(is_mag(t, radix)) by {
        assert forall|i: int| 0 <= i < t.len() implies (#[trigger] t[i] as int) < radix by {
            assert(t[i] == digits[digits.len() - 1 - i]);
        }
        if t.len() > 0 {
            assert(t.last() == digits[k]);
        }
    }
    lemma_to_mag_of_val(t, radix);
}

} // verus!
