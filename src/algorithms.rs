//! Karatsuba multiplication.
use crate::base_ops;
use crate::kernel::add_at;
use crate::model::{
    canonical, is_mag, len_ok, lemma_mag_len, lemma_pow_nonneg, lemma_to_mag, lemma_val_bound,
    lemma_val_lower, lemma_val_nonneg, lemma_val_split, limbs_ok, to_mag, val, valid_base,
};
use crate::utils::{lemma_trimmed, limbs_range, trim_zeros, trimmed};
use crate::IntLimb;
use vstd::arithmetic::mul::*;
use vstd::arithmetic::power::*;
use vstd::prelude::*;

verus! {

/// `f` multiplies magnitudes in `base`: it accepts any two of them and
/// returns the canonical form of their product.
pub open spec fn multiplies<F: Fn(&[IntLimb], &[IntLimb], u128) -> Vec<IntLimb>>(
    f: F,
    base: u128,
) -> bool {
    &&& forall|x: &[IntLimb], y: &[IntLimb]|
        is_mag(x@, base as int) && is_mag(y@, base as int) && len_ok(x@) && len_ok(y@)
            ==> #[trigger] f.requires((x, y, base))
    &&& forall|x: &[IntLimb], y: &[IntLimb], r: Vec<IntLimb>|
        is_mag(x@, base as int) && is_mag(y@, base as int) && #[trigger] f.ensures((x, y, base), r)
            ==> r@ == to_mag(val(x@, base as int) * val(y@, base as int), base as int)
}

/// Splits `a` at limb `l` into a trimmed low part and a trimmed high part.
fn split_at(a: &[IntLimb], l: usize) -> (r: (Vec<IntLimb>, Vec<IntLimb>))
    ensures
        l < a@.len() ==> trimmed(a@.take(l as int), r.0@) && trimmed(a@.skip(l as int), r.1@),
        l >= a@.len() ==> trimmed(a@, r.0@) && r.1@.len() == 0,
{
    let n = a.len();
    let mut a0: Vec<IntLimb>;
    let mut a1: Vec<IntLimb>;
    if l >= n {
        a0 = limbs_range(a, 0, n);
        a1 = Vec::new();
        proof {
            assert(a0@ =~= a@);
        }
    } else {
        a0 = limbs_range(a, 0, l);
        a1 = limbs_range(a, l, n);
        proof {
            assert(a0@ =~= a@.take(l as int));
            assert(a1@ =~= a@.skip(l as int));
        }
    }
    trim_zeros(&mut a0);
    trim_zeros(&mut a1);
    (a0, a1)
}

/// Karatsuba multiplication: operands of at most `threshold` limbs go to
/// `mul_function`; longer ones are split at half the longer length, and the
/// product is formed from three half-size products.
pub fn karatsuba<F: Fn(&[IntLimb], &[IntLimb], u128) -> Vec<IntLimb> + Copy>(
    a: &[IntLimb],
    b: &[IntLimb],
    threshold: usize,
    mul_function: F,
    base: u128,
) -> (r: Vec<IntLimb>)
    requires
        valid_base(base as int),
        is_mag(a@, base as int),
        is_mag(b@, base as int),
        len_ok(a@),
        len_ok(b@),
        threshold >= 1,
        multiplies(mul_function, base),
    ensures
        r@ == to_mag(val(a@, base as int) * val(b@, base as int), base as int),
    decreases val(a@, base as int) + val(b@, base as int),
{
    let ghost bs = base as int;
    let n = a.len();
    let m = b.len();
    if n <= threshold || m <= threshold {
        return mul_function(a, b, base);
    }
    let l: usize = if n > m { n / 2 } else { m / 2 };
    let mut dest: Vec<IntLimb> = vec![0; 6 * l + 1];
    let (a0, a1) = split_at(a, l);
    let (b0, b1) = split_at(b, l);
    let ghost va = val(a@, bs);
    let ghost vb = val(b@, bs);
    let ghost p = pow(bs, l as nat);
    proof {
        lemma_karatsuba_parts(a@, a0@, a1@, l as int, bs);
        lemma_karatsuba_parts(b@, b0@, b1@, l as int, bs);
        lemma_pow_nonneg(bs, l as nat);
        lemma_pow_increases(bs as nat, 1, l as nat);
        lemma_pow1(bs);
        lemma_val_nonneg(a0@, bs);
        lemma_val_nonneg(a1@, bs);
        lemma_val_nonneg(b0@, bs);
        lemma_val_nonneg(b1@, bs);
        // the longer operand has a nonzero high part
        if n > m {
            lemma_high_part_positive(a@, a1@, l as int, bs);
        } else {
            lemma_high_part_positive(b@, b1@, l as int, bs);
        }
        assert(val(a0@, bs) + val(b0@, bs) < va + vb) by (nonlinear_arith)
            requires
                va == val(a0@, bs) + p * val(a1@, bs),
                vb == val(b0@, bs) + p * val(b1@, bs),
                val(a1@, bs) >= 0,
                val(b1@, bs) >= 0,
                val(a1@, bs) + val(b1@, bs) > 0,
                p >= 2,
        ;
        assert(val(a0@, bs) + val(a1@, bs) + val(b0@, bs) + val(b1@, bs) < va + vb) by (nonlinear_arith)
            requires
                va == val(a0@, bs) + p * val(a1@, bs),
                vb == val(b0@, bs) + p * val(b1@, bs),
                val(a1@, bs) >= 0,
                val(b1@, bs) >= 0,
                val(a1@, bs) + val(b1@, bs) > 0,
                p >= 2,
        ;
        assert(val(a1@, bs) + val(b1@, bs) < va + vb) by (nonlinear_arith)
            requires
                va == val(a0@, bs) + p * val(a1@, bs),
                vb == val(b0@, bs) + p * val(b1@, bs),
                val(a0@, bs) >= 0,
                val(b0@, bs) >= 0,
                val(a1@, bs) >= 0,
                val(b1@, bs) >= 0,
                val(a1@, bs) + val(b1@, bs) > 0,
                p >= 2,
        ;
    }
    let z0 = karatsuba(&a0, &b0, threshold, mul_function, base);
    let z2 = karatsuba(&a1, &b1, threshold, mul_function, base);
    let ab0 = base_ops::add(&a0, &a1, base);
    let ab1 = base_ops::add(&b0, &b1, base);
    let ghost s0 = val(a0@, bs) + val(a1@, bs);
    let ghost s1 = val(b0@, bs) + val(b1@, bs);
    proof {
        lemma_to_mag(s0, bs);
        lemma_to_mag(s1, bs);
        assert(s0 <= va && s1 <= vb) by (nonlinear_arith)
            requires
                va == val(a0@, bs) + p * val(a1@, bs),
                vb == val(b0@, bs) + p * val(b1@, bs),
                s0 == val(a0@, bs) + val(a1@, bs),
                s1 == val(b0@, bs) + val(b1@, bs),
                val(a1@, bs) >= 0,
                val(b1@, bs) >= 0,
                p >= 2,
        ;
        lemma_sum_len(a@, s0, bs);
        lemma_sum_len(b@, s1, bs);
    }
    let z1_full = karatsuba(&ab1, &ab0, threshold, mul_function, base);
    let ghost v0 = val(a0@, bs) * val(b0@, bs);
    let ghost v2 = val(a1@, bs) * val(b1@, bs);
    let ghost v1 = val(a0@, bs) * val(b1@, bs) + val(a1@, bs) * val(b0@, bs);
    proof {
        lemma_to_mag(v0, bs);
        lemma_to_mag(v2, bs);
        lemma_to_mag(s1 * s0, bs);
        assert(s1 * s0 - v2 - v0 == v1 && v1 >= 0) by (nonlinear_arith)
            requires
                s0 == val(a0@, bs) + val(a1@, bs),
                s1 == val(b0@, bs) + val(b1@, bs),
                v0 == val(a0@, bs) * val(b0@, bs),
                v2 == val(a1@, bs) * val(b1@, bs),
                v1 == val(a0@, bs) * val(b1@, bs) + val(a1@, bs) * val(b0@, bs),
                val(a0@, bs) >= 0,
                val(a1@, bs) >= 0,
                val(b0@, bs) >= 0,
                val(b1@, bs) >= 0,
        ;
        lemma_mul_nonnegative(val(a0@, bs), val(b0@, bs));
        lemma_mul_nonnegative(val(a1@, bs), val(b1@, bs));
    }
    let (_, z1_high) = base_ops::sub(&z1_full, &z2, base);
    proof {
        lemma_to_mag(s1 * s0 - v2, bs);
    }
    let (_, z1) = base_ops::sub(&z1_high, &z0, base);
    proof {
        lemma_to_mag(v1, bs);
        lemma_pow_adds(bs, l as nat, l as nat);
        lemma_val_bound(a@, bs);
        lemma_val_bound(b@, bs);
        assert(n + m <= 6 * l + 1);
        lemma_product_bound(va, vb, n as nat, m as nat, (6 * l + 1) as nat, bs);
        lemma_karatsuba_fits(
            val(a0@, bs),
            val(a1@, bs),
            val(b0@, bs),
            val(b1@, bs),
            p,
            pow(bs, 2 * l as nat),
            pow(bs, (6 * l + 1) as nat),
        );
        crate::model::lemma_val_zeros(dest@, bs);
        lemma_mul_basics(v0);
        lemma_pow0(bs);
        lemma_window(z0@, 0, (6 * l + 1) as nat, bs);
    }
    add_at(&mut dest, 0, &z0, base);
    proof {
        lemma_window(z1@, l as nat, (6 * l + 1) as nat, bs);
    }
    add_at(&mut dest, l, &z1, base);
    proof {
        lemma_window(z2@, 2 * l as nat, (6 * l + 1) as nat, bs);
    }
    add_at(&mut dest, 2 * l, &z2, base);
    let ghost full = dest@;
    trim_zeros(&mut dest);
    proof {
        lemma_trimmed(full, dest@, bs);
        crate::model::lemma_to_mag_of_val(dest@, bs);
    }
    dest
}

proof fn lemma_karatsuba_parts(a: Seq<u64>, a0: Seq<u64>, a1: Seq<u64>, l: int, base: int)
    requires
        valid_base(base),
        is_mag(a, base),
        len_ok(a),
        0 <= l,
        l < a.len() ==> trimmed(a.take(l), a0) && trimmed(a.skip(l), a1),
        l >= a.len() ==> trimmed(a, a0) && a1.len() == 0,
    ensures
        is_mag(a0, base),
        is_mag(a1, base),
        len_ok(a0),
        len_ok(a1),
        val(a, base) == val(a0, base) + pow(base, l as nat) * val(a1, base),
{
    if l < a.len() {
        assert(limbs_ok(a.take(l), base)) by {
            assert forall|i: int| 0 <= i < a.take(l).len() implies (#[trigger] a.take(l)[i] as int)
                < base by {
                assert(a.take(l)[i] == a[i]);
            }
        }
        assert(limbs_ok(a.skip(l), base)) by {
            assert forall|i: int| 0 <= i < a.skip(l).len() implies (#[trigger] a.skip(l)[i] as int)
                < base by {
                assert(a.skip(l)[i] == a[i + l]);
            }
        }
        lemma_trimmed(a.take(l), a0, base);
        lemma_trimmed(a.skip(l), a1, base);
        lemma_val_split(a, l, base);
    } else {
        lemma_trimmed(a, a0, base);
        assert(val(a1, base) == 0);
        assert(pow(base, l as nat) * 0 == 0) by (nonlinear_arith);
    }
}

proof fn lemma_high_part_positive(a: Seq<u64>, a1: Seq<u64>, l: int, base: int)
    requires
        valid_base(base),
        canonical(a),
        0 <= l < a.len(),
        trimmed(a.skip(l), a1),
    ensures
        val(a1, base) > 0,
{
    let h = a.skip(l);
    assert(h[h.len() - 1] == a.last());
    if a1.len() < h.len() {
        assert(h[h.len() - 1] == 0);
    }
    assert(a1.len() == h.len());
    assert(a1.last() == h[h.len() - 1]);
    lemma_val_lower(a1, base);
    lemma_pow_nonneg(base, (a1.len() - 1) as nat);
}

proof fn lemma_sum_len(a: Seq<u64>, s: int, base: int)
    requires
        valid_base(base),
        is_mag(a, base),
        len_ok(a),
        0 <= s <= val(a, base),
    ensures
        len_ok(to_mag(s, base)),
{
    lemma_val_bound(a, base);
    lemma_to_mag(s, base);
    lemma_mag_len(to_mag(s, base), a.len(), base);
}

proof fn lemma_product_bound(x: int, y: int, n: nat, m: nat, k: nat, base: int)
    requires
        valid_base(base),
        0 <= x < pow(base, n),
        0 <= y < pow(base, m),
        n + m <= k,
    ensures
        x * y < pow(base, k),
{
    lemma_pow_adds(base, n, m);
    lemma_pow_increases(base as nat, n + m, k);
    lemma_pow_nonneg(base, k);
    if x > 0 && y > 0 {
        lemma_mul_inequality(x, pow(base, n), y);
        lemma_mul_strict_inequality(y, pow(base, m), pow(base, n));
        lemma_mul_is_commutative(y, pow(base, n));
    } else {
        lemma_mul_basics(x);
        lemma_mul_basics(y);
    }
}

proof fn lemma_karatsuba_fits(a0: int, a1: int, b0: int, b1: int, p: int, p2: int, bound: int)
    requires
        a0 >= 0,
        a1 >= 0,
        b0 >= 0,
        b1 >= 0,
        p >= 0,
        p2 == p * p,
        (a0 + p * a1) * (b0 + p * b1) < bound,
    ensures
        (a0 + p * a1) * (b0 + p * b1) == a0 * b0 + (a0 * b1 + a1 * b0) * p + a1 * b1 * p2,
        a0 * b0 < bound,
        a0 * b0 + (a0 * b1 + a1 * b0) * p < bound,
{
    let x = a0 + p * a1;
    let y = b0 + p * b1;
    lemma_mul_is_distributive_add_other_way(y, a0, p * a1);
    lemma_mul_is_distributive_add(a0, b0, p * b1);
    lemma_mul_is_distributive_add(p * a1, b0, p * b1);
    assert(a0 * (p * b1) == a0 * b1 * p) by (nonlinear_arith);
    assert((p * a1) * b0 == a1 * b0 * p) by (nonlinear_arith);
    assert((p * a1) * (p * b1) == a1 * b1 * (p * p)) by (nonlinear_arith);
    lemma_mul_is_distributive_add_other_way(p, a0 * b1, a1 * b0);
    assert(a1 * b1 * p2 >= 0 && (a0 * b1 + a1 * b0) * p >= 0) by (nonlinear_arith)
        requires
            a0 >= 0,
            a1 >= 0,
            b0 >= 0,
            b1 >= 0,
            p >= 0,
            p2 == p * p,
    ;
}

/// A magnitude that fits above `off` in `k` limbs has at most `k - off` limbs.
proof fn lemma_window(z: Seq<u64>, off: nat, k: nat, base: int)
    requires
        valid_base(base),
        canonical(z),
        off <= k,
        val(z, base) * pow(base, off) < pow(base, k),
    ensures
        off + z.len() <= k,
{
    lemma_pow_adds(base, off, (k - off) as nat);
    lemma_pow_nonneg(base, off);
    lemma_mul_is_commutative(pow(base, off), pow(base, (k - off) as nat));
    lemma_mul_strict_inequality_converse(val(z, base), pow(base, (k - off) as nat), pow(base, off));
    lemma_mag_len(z, (k - off) as nat, base);
}

} // verus!
