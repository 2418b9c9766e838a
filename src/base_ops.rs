//! Magnitude arithmetic: addition, signed subtraction, schoolbook
//! multiplication, and the dispatch into Karatsuba multiplication.
use crate::algorithms::karatsuba;
use crate::division::{
    lemma_div_window, lemma_divisor_top, lemma_qhat_correction, lemma_qhat_upper, lemma_val_top,
};
use crate::errors::ArithmeticError;
use crate::kernel::{
    add_two_slices, cmp_slices, div_const, mul_const, mul_two_slices, sub_at, sub_two_slices,
};
use crate::model::{
    is_mag, len_ok, lemma_lex_cmp_val, lemma_pow_nonneg, lemma_to_mag_of_val, lemma_val_bound,
    lemma_val_nonneg, lemma_val_split, limbs_ok, native_base, to_mag, val, val_msf, valid_base,
};
use crate::utils::{lemma_trimmed, limbs_range, new_repr, reversed, trim_zeros};
use crate::IntLimb;
use vstd::arithmetic::div_mod::*;
use vstd::arithmetic::mul::*;
use vstd::arithmetic::power::*;
use vstd::prelude::*;

verus! {

/// The sign of `x`: 1, 0 or -1.
pub open spec fn sign_of(x: int) -> int {
    if x > 0 {
        1
    } else if x < 0 {
        -1
    } else {
        0
    }
}

/// The absolute value of `x`.
pub open spec fn abs_of(x: int) -> int {
    if x < 0 {
        -x
    } else {
        x
    }
}

/// A sequence of digits of the base is a magnitude once trimmed; it stands
/// for its value.
proof fn lemma_trimmed_mag(s: Seq<u64>, t: Seq<u64>, base: int)
    requires
        valid_base(base),
        crate::utils::trimmed(s, t),
        limbs_ok(s, base),
    ensures
        is_mag(t, base),
        t == to_mag(val(s, base), base),
{
    lemma_trimmed(s, t, base);
    lemma_to_mag_of_val(t, base);
}

/// The sum of two sequences of digits, in canonical form.
pub fn add(left: &[IntLimb], right: &[IntLimb], base: u128) -> (r: Vec<IntLimb>)
    requires
        valid_base(base as int),
        limbs_ok(left@, base as int),
        limbs_ok(right@, base as int),
        len_ok(left@),
        len_ok(right@),
    ensures
        r@ == to_mag(val(left@, base as int) + val(right@, base as int), base as int),
{
    let l: &[IntLimb];
    let r: &[IntLimb];
    if left.len() > right.len() {
        l = left;
        r = right;
    } else {
        l = right;
        r = left;
    }
    let size = l.len();
    let mut dst: Vec<IntLimb> = vec![0; size + 1];
    add_two_slices(l, r, &mut dst, base);
    let ghost full = dst@;
    trim_zeros(&mut dst);
    proof {
        lemma_trimmed_mag(full, dst@, base as int);
    }
    dst
}

/// The signed difference of two magnitudes: the sign of `left - right` and
/// the magnitude of the difference.
pub fn sub(left: &[IntLimb], right: &[IntLimb], base: u128) -> (r: (i8, Vec<IntLimb>))
    requires
        valid_base(base as int),
        is_mag(left@, base as int),
        is_mag(right@, base as int),
    ensures
        r.0 as int == sign_of(val(left@, base as int) - val(right@, base as int)),
        r.1@ == to_mag(abs_of(val(left@, base as int) - val(right@, base as int)), base as int),
{
    let ghost bs = base as int;
    let n = left.len();
    let m = right.len();
    let sign: i8;
    let l: Vec<IntLimb>;
    let r: Vec<IntLimb>;
    if n > m {
        proof {
            crate::utils::lemma_cmp_mag_val(left@, right@, bs);
        }
        l = limbs_range(left, 0, n);
        r = limbs_range(right, 0, m);
        sign = 1;
        proof {
            assert(l@ =~= left@);
            assert(r@ =~= right@);
        }
    } else if n < m {
        proof {
            crate::utils::lemma_cmp_mag_val(left@, right@, bs);
        }
        l = limbs_range(right, 0, m);
        r = limbs_range(left, 0, n);
        sign = -1;
        proof {
            assert(l@ =~= right@);
            assert(r@ =~= left@);
        }
    } else {
        let mut i: usize = n;
        while i > 0 && left[i - 1] == right[i - 1]
            invariant
                n == left@.len(),
                n == right@.len(),
                0 <= i <= n,
                left@.skip(i as int) == right@.skip(i as int),
            decreases i,
        {
            proof {
                assert(left@.skip(i - 1) =~= seq![left@[i - 1]] + left@.skip(i as int));
                assert(right@.skip(i - 1) =~= seq![right@[i - 1]] + right@.skip(i as int));
            }
            i = i - 1;
        }
        if i == 0 {
            proof {
                assert(left@ =~= left@.skip(0));
                assert(right@ =~= right@.skip(0));
                assert(to_mag(0, bs) =~= Seq::<u64>::empty());
            }
            return (0, Vec::new());
        }
        let ghost h = left@.skip(i as int);
        proof {
            lemma_val_split(left@, i as int, bs);
            lemma_val_split(right@, i as int, bs);
            let lp = left@.take(i as int);
            let rp = right@.take(i as int);
            assert(lp.drop_last().len() == rp.drop_last().len());
            assert(limbs_ok(lp, bs)) by {
                assert forall|k: int| 0 <= k < lp.len() implies (#[trigger] lp[k] as int) < bs by {
                    assert(lp[k] == left@[k]);
                }
            }
            assert(limbs_ok(rp, bs)) by {
                assert forall|k: int| 0 <= k < rp.len() implies (#[trigger] rp[k] as int) < bs by {
                    assert(rp[k] == right@[k]);
                }
            }
            lemma_lex_cmp_val(lp, rp, bs);
        }
        if left[i - 1] > right[i - 1] {
            l = limbs_range(left, 0, i);
            r = limbs_range(right, 0, i);
            sign = 1;
        } else {
            l = limbs_range(right, 0, i);
            r = limbs_range(left, 0, i);
            sign = -1;
        }
        proof {
            assert(left@.take(i as int) =~= left@.subrange(0, i as int));
            assert(right@.take(i as int) =~= right@.subrange(0, i as int));
        }
    }
    proof {
        assert(limbs_ok(l@, bs)) by {
            assert forall|k: int| 0 <= k < l@.len() implies (#[trigger] l@[k] as int) < bs by {
                if sign == 1 {
                    assert(l@[k] == left@[k]);
                } else {
                    assert(l@[k] == right@[k]);
                }
            }
        }
        assert(limbs_ok(r@, bs)) by {
            assert forall|k: int| 0 <= k < r@.len() implies (#[trigger] r@[k] as int) < bs by {
                if sign == 1 {
                    assert(r@[k] == right@[k]);
                } else {
                    assert(r@[k] == left@[k]);
                }
            }
        }
    }
    let size = l.len();
    let mut dst: Vec<IntLimb> = vec![0; size];
    sub_two_slices(&l, &r, &mut dst, base);
    let ghost full = dst@;
    trim_zeros(&mut dst);
    proof {
        lemma_trimmed_mag(full, dst@, bs);
    }
    (sign, dst)
}

/// The schoolbook product; either operand equal to one hands back the other.
fn mul_helper(left: &[IntLimb], right: &[IntLimb], base: u128) -> (r: Vec<IntLimb>)
    requires
        valid_base(base as int),
        is_mag(left@, base as int),
        is_mag(right@, base as int),
        len_ok(left@),
        len_ok(right@),
    ensures
        r@ == to_mag(val(left@, base as int) * val(right@, base as int), base as int),
{
    let ghost bs = base as int;
    let m = left.len();
    let n = right.len();
    proof {
        lemma_to_mag_of_val(left@, bs);
        lemma_to_mag_of_val(right@, bs);
    }
    if m == 1 && left[0] == 1 {
        proof {
            assert(left@ =~= seq![1u64]);
            crate::model::lemma_val_single(1, bs);
            assert(right@.subrange(0, n as int) =~= right@);
        }
        return limbs_range(right, 0, n);
    }
    if n == 1 && right[0] == 1 {
        proof {
            assert(right@ =~= seq![1u64]);
            crate::model::lemma_val_single(1, bs);
            assert(left@.subrange(0, m as int) =~= left@);
        }
        return limbs_range(left, 0, m);
    }
    if n == 0 {
        proof {
            assert(to_mag(0, bs) =~= Seq::<u64>::empty());
        }
        return Vec::new();
    }
    let mut repr: Vec<IntLimb> = vec![0; m + n];
    mul_two_slices(left, right, &mut repr, base);
    let ghost full = repr@;
    trim_zeros(&mut repr);
    proof {
        lemma_trimmed_mag(full, repr@, bs);
    }
    repr
}

/// Schoolbook multiplication, with the longer operand first.
pub fn base_mul(left: &[IntLimb], right: &[IntLimb], base: u128) -> (r: Vec<IntLimb>)
    requires
        valid_base(base as int),
        is_mag(left@, base as int),
        is_mag(right@, base as int),
        len_ok(left@),
        len_ok(right@),
    ensures
        r@ == to_mag(val(left@, base as int) * val(right@, base as int), base as int),
{
    if left.len() > right.len() {
        mul_helper(left, right, base)
    } else {
        proof {
            lemma_mul_is_commutative(val(left@, base as int), val(right@, base as int));
        }
        mul_helper(right, left, base)
    }
}

/// Operands longer than this many limbs are split by Karatsuba's method.
pub const KARATSUBA_THRESHOLD: usize = 13;

/// The product of two magnitudes, by Karatsuba's method over schoolbook
/// multiplication.
pub fn mul(left: &[IntLimb], right: &[IntLimb], base: u128) -> (r: Vec<IntLimb>)
    requires
        valid_base(base as int),
        is_mag(left@, base as int),
        is_mag(right@, base as int),
        len_ok(left@),
        len_ok(right@),
    ensures
        r@ == to_mag(val(left@, base as int) * val(right@, base as int), base as int),
{
    karatsuba(left, right, KARATSUBA_THRESHOLD, base_mul, base)
}

/// One step of long division: finds the quotient digit of the window of
/// `n + 1` limbs of `u` at `j` and subtracts that digit times the divisor
/// there.
fn div_digit(u: &mut Vec<IntLimb>, v: &[IntLimb], j: usize, base: u128) -> (qhat: IntLimb)
    requires
        valid_base(base as int),
        v@.len() >= 2,
        j + v@.len() + 1 <= old(u)@.len(),
        limbs_ok(old(u)@, base as int),
        limbs_ok(v@, base as int),
        v@[v@.len() - 1] >= 1,
        val(old(u)@, base as int) < val(v@, base as int) * pow(base as int, (j + 1) as nat),
    ensures
        final(u)@.len() == old(u)@.len(),
        limbs_ok(final(u)@, base as int),
        (qhat as int) < base,
        val(final(u)@, base as int) == val(old(u)@, base as int) - qhat * val(v@, base as int)
            * pow(base as int, j as nat),
        val(final(u)@, base as int) < val(v@, base as int) * pow(base as int, j as nat),
{
    let ghost bs = base as int;
    let n = v.len();
    let ghost u0 = u@;
    let ghost dv = val(v@, bs);
    let ghost w = u@.subrange(j as int, j + n + 1);
    let ghost ww = val(w, bs);
    let ghost pj = pow(bs, j as nat);
    proof {
        lemma_divisor_top(v@, bs);
        lemma_val_bound(v@, bs);
        lemma_pow_nonneg(bs, (n - 1) as nat);
        lemma_pow_nonneg(bs, (n - 2) as nat);
        lemma_pow_nonneg(bs, j as nat);
        lemma_mul_inequality(1, v@[n - 1] as int, pow(bs, (n - 1) as nat));
        lemma_mul_is_commutative(v@[n - 1] as int, pow(bs, (n - 1) as nat));
        assert(dv > 0);
        assert(dv < pow(bs, n as nat));
        lemma_div_window(u@, j as int, n as int, dv, bs);
        assert(limbs_ok(w, bs)) by {
            assert forall|i: int| 0 <= i < w.len() implies (#[trigger] w[i] as int) < bs by {
                assert(w[i] == u@[j + i]);
            }
        }
        lemma_val_top(w, bs);
        assert(w[n as int] == u@[j + n]);
        assert(w[n - 1] == u@[j + n - 1]);
        assert(w[n - 2] == u@[j + n - 2]);
        lemma_val_bound(w.take(n - 1), bs);
        lemma_val_bound(w.take(n - 2), bs);
        lemma_val_nonneg(w.take(n - 2), bs);
        assert(limbs_ok(w.take(n - 1), bs)) by {
            assert forall|i: int| 0 <= i < n - 1 implies (#[trigger] w.take(n - 1)[i] as int) < bs by {
                assert(w.take(n - 1)[i] == w[i]);
            }
        }
        assert(limbs_ok(w.take(n - 2), bs)) by {
            assert forall|i: int| 0 <= i < n - 2 implies (#[trigger] w.take(n - 2)[i] as int) < bs by {
                assert(w.take(n - 2)[i] == w[i]);
            }
        }
        lemma_val_bound(w.take(n - 1), bs);
        lemma_val_bound(w.take(n - 2), bs);
        lemma_val_nonneg(w, bs);
        lemma_fundamental_div_mod(ww, dv);
        lemma_mod_pos_bound(ww, dv);
        lemma_div_pos_is_pos(ww, dv);
    }
    let ghost qd = ww / dv;
    let vt = v[n - 1] as u128;
    let vs = v[n - 2] as u128;
    let ulen = u.len();
    assert(j + n + 1 <= ulen);
    let u_hi = u[j + n] as u128;
    let u_mid = u[j + n - 1] as u128;
    let u_lo = u[j + n - 2] as u128;
    proof {
        lemma_mul_upper_bound(u_hi as int, bs - 1, bs, bs);
        assert((bs - 1) * bs + bs <= bs * bs) by (nonlinear_arith);
        assert(bs * bs <= 0x1_0000_0000_0000_0000_0000_0000_0000_0000) by {
            lemma_mul_upper_bound(bs, native_base(), bs, native_base());
        }
        // the true digit is below the base
        if qd >= bs {
            lemma_mul_inequality(bs, qd, dv);
            lemma_mul_is_commutative(bs, dv);
            lemma_mul_is_commutative(qd, dv);
        }
        lemma_mul_is_commutative(vt as int, pow(bs, (n - 1) as nat));
        lemma_qhat_upper(
            qd,
            dv,
            ww,
            vt as int,
            u_hi * bs + u_mid,
            val(w.take(n - 1), bs),
            pow(bs, (n - 1) as nat),
        );
    }
    let top2: u128 = u_hi * base + u_mid;
    let mut qhat: u128 = top2 / vt;
    let mut rhat: u128 = top2 % vt;
    proof {
        lemma_fundamental_div_mod(top2 as int, vt as int);
        lemma_mod_pos_bound(top2 as int, vt as int);
    }
    if qhat >= base {
        proof {
            lemma_mul_inequality(bs - 1, qhat as int, vt as int);
            lemma_mul_is_commutative(vt as int, qhat as int);
        }
        qhat = base - 1;
        rhat = top2 - qhat * vt;
    } else {
        proof {
            lemma_mul_is_commutative(vt as int, qhat as int);
            assert(rhat as int == top2 - qhat * vt);
        }
    }
    // trial digit from the top two limbs, refined with the next limb of the
    // divisor while the remainder stays within one limb
    loop
        invariant
            valid_base(bs),
            bs == base as int,
            bs * bs <= 0x1_0000_0000_0000_0000_0000_0000_0000_0000,
            0 <= qd <= qhat < bs,
            1 <= vt < bs,
            vs < bs,
            u_lo < bs,
            rhat as int == top2 - qhat * vt,
            qd * dv <= ww,
            dv >= pow(bs, (n - 2) as nat) * (vt * bs + vs),
            ww == val(w.take(n - 2), bs) + pow(bs, (n - 2) as nat) * (top2 * bs + u_lo),
            0 <= val(w.take(n - 2), bs) < pow(bs, (n - 2) as nat),
            pow(bs, (n - 2) as nat) > 0,
            dv > 0,
        decreases qhat,
    {
        if rhat >= base {
            break;
        }
        proof {
            lemma_mul_upper_bound(qhat as int, bs - 1, vs as int, bs - 1);
            lemma_mul_upper_bound(rhat as int, bs - 1, bs, bs);
            assert((bs - 1) * (bs - 1) < bs * bs) by (nonlinear_arith)
                requires
                    bs >= 2,
            ;
            assert((bs - 1) * bs + bs <= bs * bs) by (nonlinear_arith);
        }
        if qhat * vs <= rhat * base + u_lo {
            break;
        }
        proof {
            lemma_qhat_correction(
                qhat as int,
                rhat as int,
                top2 as int,
                vt as int,
                vs as int,
                u_lo as int,
                dv,
                ww,
                val(w.take(n - 2), bs),
                pow(bs, (n - 2) as nat),
                bs,
            );
            lemma_mul_strict_inequality_converse(qd, qhat as int, dv);
            lemma_mul_is_distributive_sub_other_way(vt as int, qhat as int, 1);
        }
        qhat = qhat - 1;
        rhat = rhat + vt;
    }
    // the multiple of the divisor, one limb longer than it
    let mut vq = limbs_range(v, 0, n);
    vq.push(0);
    let ghost vq0 = vq@;
    proof {
        assert(vq0.take(n as int) =~= v@);
        assert(limbs_ok(vq0, bs)) by {
            assert forall|i: int| 0 <= i < vq0.len() implies (#[trigger] vq0[i] as int) < bs by {
                if i < n {
                    assert(vq0[i] == v@[i]);
                }
            }
        }
    }
    let cq = mul_const(&mut vq, qhat as u64, n, base);
    let ghost vq1 = vq@;
    vq[n] = cq;
    proof {
        assert(vq@.take(n as int) =~= vq1.take(n as int));
        assert(vq@.take(n + 1) =~= vq@);
        crate::kernel::lemma_take_push(vq@, n as int, bs);
        lemma_mul_is_commutative(dv, qhat as int);
    }
    let window = limbs_range(u, j, j + n + 1);
    proof {
        assert(window@ =~= w);
    }
    // final correction: Knuth's analysis bounds it to one step; as a loop the
    // result does not rest on that bound
    while cmp_slices(&vq, &window) == 1
        invariant
            valid_base(bs),
            bs == base as int,
            vq@.len() == n + 1,
            window@ == w,
            w.len() == n + 1,
            limbs_ok(vq@, bs),
            limbs_ok(w, bs),
            limbs_ok(v@, bs),
            v@.len() == n,
            dv == val(v@, bs),
            dv > 0,
            0 <= qd <= qhat < bs,
            qd * dv <= ww,
            ww == val(w, bs),
            val(vq@, bs) == qhat * dv,
        decreases qhat,
    {
        proof {
            lemma_lex_cmp_val(vq@, w, bs);
            if qhat <= qd {
                lemma_mul_inequality(qhat as int, qd, dv);
            }
            lemma_pow0(bs);
            lemma_mul_basics(dv);
            lemma_mul_inequality(1, qhat as int, dv);
        }
        sub_at(&mut vq, 0, v, base);
        proof {
            lemma_mul_is_distributive_sub_other_way(dv, qhat as int, 1);
        }
        qhat = qhat - 1;
    }
    proof {
        lemma_lex_cmp_val(vq@, w, bs);
        // the digit is now exact
        if qhat > qd {
            lemma_mul_inequality(qd + 1, qhat as int, dv);
            lemma_mul_is_distributive_add_other_way(dv, qd, 1);
            lemma_mul_is_commutative(dv, qd);
        }
        assert(qhat == qd);
        lemma_mul_inequality(qd, qd, dv);
        assert(pj * ww >= pj * (qd * dv)) by (nonlinear_arith)
            requires
                ww >= qd * dv,
                pj > 0,
        ;
        lemma_mul_is_commutative(pj, qd * dv);
        lemma_val_bound(u0.take(j as int), bs);
        assert(limbs_ok(u0.take(j as int), bs)) by {
            assert forall|i: int| 0 <= i < j implies (#[trigger] u0.take(j as int)[i] as int) < bs by {
                assert(u0.take(j as int)[i] == u0[i]);
            }
        }
        lemma_val_bound(u0.take(j as int), bs);
        assert(val(u0.take(j as int), bs) + pj * (ww - qd * dv) < dv * pj) by (nonlinear_arith)
            requires
                val(u0.take(j as int), bs) < pj,
                ww - qd * dv < dv,
                pj > 0,
        ;
        assert(pj * ww - (qd * dv) * pj == pj * (ww - qd * dv)) by (nonlinear_arith);
    }
    sub_at(u, j, &vq, base);
    qhat as u64
}

/// A sequence and its reverse hold the same digits.
proof fn lemma_reverse_limbs(s: Seq<u64>, base: int)
    requires
        limbs_ok(s, base),
    ensures
        limbs_ok(s.reverse(), base),
        s.reverse().reverse() == s,
        s.reverse().len() == s.len(),
{
    assert forall|i: int| 0 <= i < s.reverse().len() implies (#[trigger] s.reverse()[i] as int)
        < base by {
        assert(s.reverse()[i] == s[s.len() - 1 - i]);
    }
    assert(s.reverse().reverse() =~= s);
}

/// The quotient and remainder of `a` by `b`, from `u + q * b * d == a * d`
/// with `0 <= u < b * d`.
proof fn lemma_div_result(a: int, b: int, d: int, q: int, u: int)
    requires
        b > 0,
        d > 0,
        q >= 0,
        0 <= u < b * d,
        u + q * (b * d) == a * d,
    ensures
        q == a / b,
        u == (a % b) * d,
{
    let r = a - q * b;
    assert(u == r * d) by (nonlinear_arith)
        requires
            u + q * (b * d) == a * d,
            r == a - q * b,
    ;
    if r < 0 {
        lemma_mul_strict_inequality(r, 0, d);
    }
    if r >= b {
        lemma_mul_inequality(b, r, d);
    }
    lemma_fundamental_div_mod_converse(a, b, q, r);
    lemma_mul_is_commutative(q, b);
}

/// Long division by a divisor of two or more limbs that is no longer than the
/// dividend: Knuth's Algorithm D over normalized operands.
fn div_long(left: &[IntLimb], right: &[IntLimb], base: u128) -> (r: (Vec<IntLimb>, Vec<IntLimb>))
    requires
        valid_base(base as int),
        is_mag(left@, base as int),
        is_mag(right@, base as int),
        2 <= right@.len() <= left@.len(),
        len_ok(left@),
    ensures
        r.0@ == to_mag(val(left@, base as int) / val(right@, base as int), base as int),
        r.1@ == to_mag(val(left@, base as int) % val(right@, base as int), base as int),
{
    let ghost bs = base as int;
    let m = left.len();
    let n = right.len();
    let ghost a = val(left@, bs);
    let ghost b = val(right@, bs);
    let top = right[n - 1] as u128;
    proof {
        assert(right@.last() == right@[n - 1]);
        assert((top as int) < bs);
    }
    // normalize: the largest power of two d with (top + 1) * d <= base; in
    // base 2^64 this is 2^(64 - bit_len(top)), which sets the divisor's top bit
    let mut d: u128 = 1;
    while (top + 1) * d * 2 <= base
        invariant
            valid_base(bs),
            bs == base as int,
            1 <= top < bs,
            d >= 1,
            (top + 1) * d <= bs,
        decreases bs - d,
    {
        proof {
            assert(d * 2 <= (top + 1) * d * 2) by (nonlinear_arith)
                requires
                    top >= 1,
                    d >= 1,
            ;
            assert((top + 1) * (d * 2) == (top + 1) * d * 2) by (nonlinear_arith);
        }
        d = d * 2;
    }
    proof {
        assert(2 * d <= (top + 1) * d) by (nonlinear_arith)
            requires
                top >= 1,
        ;
    }
    let dd = d as u64;
    let mut u = limbs_range(left, 0, m);
    u.push(0);
    let ghost u0 = u@;
    proof {
        assert(u0.take(m as int) =~= left@);
        assert(limbs_ok(u0, bs)) by {
            assert forall|i: int| 0 <= i < u0.len() implies (#[trigger] u0[i] as int) < bs by {
                if i < m {
                    assert(u0[i] == left@[i]);
                }
            }
        }
    }
    let cu = mul_const(&mut u, dd, m, base);
    let ghost u1 = u@;
    u[m] = cu;
    proof {
        assert(u@.take(m as int) =~= u1.take(m as int));
        assert(u@.take(m + 1) =~= u@);
        crate::kernel::lemma_take_push(u@, m as int, bs);
        assert(val(u@, bs) == a * d);
    }
    let mut v = limbs_range(right, 0, n);
    let ghost v0 = v@;
    proof {
        assert(v0 =~= right@);
        assert(v0.take(n as int) =~= v0);
    }
    let cv = mul_const(&mut v, dd, n, base);
    let ghost dv = b * d;
    proof {
        assert(v@.take(n as int) =~= v@);
        lemma_divisor_top(right@, bs);
        lemma_pow_nonneg(bs, (n - 1) as nat);
        lemma_pow_adds(bs, (n - 1) as nat, 1);
        lemma_pow1(bs);
        assert(b * d < pow(bs, n as nat)) by (nonlinear_arith)
            requires
                b < pow(bs, (n - 1) as nat) * (top + 1),
                (top + 1) * d <= bs,
                pow(bs, n as nat) == pow(bs, (n - 1) as nat) * bs,
                d >= 1,
                pow(bs, (n - 1) as nat) > 0,
        ;
        lemma_val_nonneg(v@, bs);
        if cv > 0 {
            lemma_mul_inequality(1, cv as int, pow(bs, n as nat));
        }
        assert(val(v@, bs) == dv);
        crate::model::lemma_val_lower(right@, bs);
        lemma_mul_inequality(1, d as int, b);
        lemma_divisor_top(v@, bs);
        if v@[n - 1] == 0 {
            lemma_mul_basics(pow(bs, (n - 1) as nat));
        }
        lemma_val_bound(u@, bs);
        lemma_val_bound(left@, bs);
        // the dividend is below the divisor times base^(m - n + 1)
        lemma_pow_adds(bs, (n - 1) as nat, (m - n + 1) as nat);
        lemma_pow_nonneg(bs, (m - n + 1) as nat);
        assert(a * d < dv * pow(bs, (m - n + 1) as nat)) by (nonlinear_arith)
            requires
                a < pow(bs, m as nat),
                pow(bs, m as nat) == pow(bs, (n - 1) as nat) * pow(bs, (m - n + 1) as nat),
                b >= pow(bs, (n - 1) as nat),
                dv == b * d,
                d >= 1,
                pow(bs, (m - n + 1) as nat) > 0,
        ;
        lemma_pow_nonneg(bs, (m - n + 1) as nat);
    }
    let qlen = m - n + 1;
    let mut q: Vec<IntLimb> = vec![0; qlen];
    proof {
        crate::model::lemma_val_zeros(q@, bs);
    }
    let mut j: usize = m - n + 1;
    while j > 0
        invariant
            valid_base(bs),
            bs == base as int,
            u@.len() == m + 1,
            q@.len() == m - n + 1,
            v@.len() == n,
            2 <= n <= m,
            j <= m - n + 1,
            limbs_ok(u@, bs),
            limbs_ok(q@, bs),
            limbs_ok(v@, bs),
            v@[n - 1] >= 1,
            val(v@, bs) == dv,
            dv > 0,
            val(u@, bs) + val(q@, bs) * dv == a * d,
            forall|i: int| 0 <= i < j ==> #[trigger] q@[i] == 0,
            val(u@, bs) < dv * pow(bs, j as nat),
        decreases j,
    {
        j = j - 1;
        let ghost ub = u@;
        let digit = div_digit(&mut u, &v, j, base);
        proof {
            crate::model::lemma_val_update(q@, j as int, digit, bs);
            assert(val(u@, bs) + (val(q@, bs) + digit * pow(bs, j as nat)) * dv == a * d)
                by (nonlinear_arith)
                requires
                    val(u@, bs) == val(ub, bs) - digit * dv * pow(bs, j as nat),
                    val(ub, bs) + val(q@, bs) * dv == a * d,
            ;
        }
        q[j] = digit;
    }
    proof {
        lemma_pow0(bs);
        lemma_val_nonneg(u@, bs);
        lemma_val_nonneg(q@, bs);
        lemma_div_result(a, b, d as int, val(q@, bs), val(u@, bs));
    }
    // denormalize: the remainder is what is left of u, divided by d
    let mut ur = reversed(&u);
    proof {
        lemma_reverse_limbs(u@, bs);
        crate::model::lemma_val_msf(ur@, bs);
    }
    let rest = div_const(&mut ur, dd, base);
    let mut rem = reversed(&ur);
    proof {
        crate::model::lemma_val_msf(ur@, bs);
        lemma_reverse_limbs(ur@, bs);
        crate::model::lemma_val_msf(ur@, bs);
        lemma_val_nonneg(rem@, bs);
        let rr = a % b;
        lemma_mul_is_commutative(rr, d as int);
        lemma_fundamental_div_mod_converse(val(u@, bs), d as int, rr, 0);
        lemma_fundamental_div_mod_converse(val(u@, bs), d as int, val_msf(ur@, bs), rest as int);
    }
    let ghost qfull = q@;
    let ghost rfull = rem@;
    trim_zeros(&mut q);
    trim_zeros(&mut rem);
    proof {
        lemma_trimmed_mag(qfull, q@, bs);
        lemma_trimmed_mag(rfull, rem@, bs);
    }
    (q, rem)
}

/// The quotient and remainder of two magnitudes; division by zero (an empty
/// divisor) fails.
pub fn div(left: &[IntLimb], right: &[IntLimb], base: u128) -> (r: Result<
    (Vec<IntLimb>, Vec<IntLimb>),
    ArithmeticError,
>)
    requires
        valid_base(base as int),
        is_mag(left@, base as int),
        is_mag(right@, base as int),
        len_ok(left@),
    ensures
        right@.len() == 0 <==> r is Err,
        r is Err ==> r->Err_0 == ArithmeticError::DividedByZero,
        r is Ok ==> r->Ok_0.0@ == to_mag(val(left@, base as int) / val(right@, base as int), base as int),
        r is Ok ==> r->Ok_0.1@ == to_mag(val(left@, base as int) % val(right@, base as int), base as int),
{
    let ghost bs = base as int;
    let m = left.len();
    let n = right.len();
    if n == 0 {
        return Err(ArithmeticError::DividedByZero);
    }
    let ghost a = val(left@, bs);
    let ghost b = val(right@, bs);
    proof {
        crate::model::lemma_val_lower(right@, bs);
        lemma_pow_nonneg(bs, (n - 1) as nat);
        lemma_val_nonneg(left@, bs);
        lemma_to_mag_of_val(left@, bs);
        assert(to_mag(0, bs) =~= Seq::<u64>::empty());
    }
    if n == 1 && right[0] == 1 {
        proof {
            assert(right@ =~= seq![1u64]);
            crate::model::lemma_val_single(1, bs);
            assert(left@.subrange(0, m as int) =~= left@);
        }
        return Ok((limbs_range(left, 0, m), Vec::new()));
    } else if n == 1 {
        let c = right[0];
        let mut l = reversed(left);
        proof {
            assert(right@ =~= seq![c]);
            crate::model::lemma_val_single(c, bs);
            lemma_reverse_limbs(left@, bs);
            crate::model::lemma_val_msf(l@, bs);
        }
        let remainder = div_const(&mut l, c, base);
        let mut quotient = reversed(&l);
        proof {
            lemma_reverse_limbs(l@, bs);
            crate::model::lemma_val_msf(l@, bs);
            lemma_val_nonneg(quotient@, bs);
            lemma_fundamental_div_mod_converse(a, c as int, val(quotient@, bs), remainder as int);
            lemma_mul_is_commutative(val(quotient@, bs), c as int);
        }
        let ghost qfull = quotient@;
        trim_zeros(&mut quotient);
        proof {
            lemma_trimmed_mag(qfull, quotient@, bs);
        }
        let remainder_repr = new_repr(remainder, base);
        return Ok((quotient, remainder_repr));
    } else if n > m {
        proof {
            lemma_val_bound(left@, bs);
            lemma_pow_increases(bs as nat, m as nat, (n - 1) as nat);
            lemma_small_div_converse_pub(a, b);
        }
        return Ok((Vec::new(), limbs_range(left, 0, m)));
    }
    Ok(div_long(left, right, base))
}

proof fn lemma_small_div_converse_pub(a: int, b: int)
    requires
        0 <= a < b,
    ensures
        a / b == 0,
        a % b == a,
{
    lemma_fundamental_div_mod_converse(a, b, 0, a);
}

} // verus!
