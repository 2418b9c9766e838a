//! Arithmetic facts behind long division: where the trial quotient digit
//! stands against the true one.
use crate::model::{
    lemma_pow_nonneg, lemma_val_bound, lemma_val_nonneg, lemma_val_single, lemma_val_split,
    limbs_ok, val, valid_base,
};
use vstd::arithmetic::div_mod::*;
use vstd::arithmetic::mul::*;
use vstd::arithmetic::power::*;
use vstd::prelude::*;

verus! {

/// The value of two limbs.
pub proof fn lemma_val2(s: Seq<u64>, base: int)
    requires
        s.len() == 2,
    ensures
        val(s, base) == s[0] + base * s[1],
{
    assert(s.drop_last() =~= seq![s[0]]);
    lemma_val_single(s[0], base);
    lemma_pow1(base);
    lemma_mul_is_commutative(base, s[1] as int);
}

/// The value of three limbs.
pub proof fn lemma_val3(s: Seq<u64>, base: int)
    requires
        s.len() == 3,
    ensures
        val(s, base) == s[0] + base * (s[1] + base * s[2]),
{
    lemma_val_split(s, 1, base);
    assert(s.take(1) =~= seq![s[0]]);
    lemma_val_single(s[0], base);
    lemma_val2(s.skip(1), base);
    lemma_pow1(base);
}

/// A sequence of `k + 2` or more limbs, seen from its top two limbs and from
/// its top three.
pub proof fn lemma_val_top(s: Seq<u64>, base: int)
    requires
        s.len() >= 3,
        valid_base(base),
        limbs_ok(s, base),
    ensures
        ({
            let n = s.len() - 1;
            let top2 = s[n] * base + s[n - 1];
            &&& val(s, base) == val(s.take(n - 1), base) + pow(base, (n - 1) as nat) * top2
            &&& val(s, base) == val(s.take(n - 2), base) + pow(base, (n - 2) as nat) * (top2 * base
                + s[n - 2])
        }),
{
    let n = s.len() - 1;
    lemma_val_split(s, n - 1, base);
    lemma_val_split(s, n - 2, base);
    assert(s.skip(n - 1) =~= seq![s[n - 1], s[n]]);
    assert(s.skip(n - 2) =~= seq![s[n - 2], s[n - 1], s[n]]);
    lemma_val2(s.skip(n - 1), base);
    lemma_val3(s.skip(n - 2), base);
    lemma_mul_is_commutative(base, s[n] as int);
    assert(base * (s[n - 1] + base * s[n]) == (s[n] * base + s[n - 1]) * base) by (nonlinear_arith);
}

/// A divisor of `n` limbs, seen from its top limb and from its top two.
pub proof fn lemma_divisor_top(v: Seq<u64>, base: int)
    requires
        v.len() >= 2,
        valid_base(base),
        limbs_ok(v, base),
    ensures
        ({
            let n = v.len();
            &&& val(v, base) >= pow(base, (n - 1) as nat) * v[n - 1]
            &&& val(v, base) >= pow(base, (n - 2) as nat) * (v[n - 1] * base + v[n - 2])
            &&& val(v, base) < pow(base, (n - 1) as nat) * (v[n - 1] + 1)
        }),
{
    let n = v.len();
    lemma_val_split(v, n - 1, base);
    lemma_val_split(v, n - 2, base);
    assert(v.skip(n - 1) =~= seq![v[n - 1]]);
    assert(v.skip(n - 2) =~= seq![v[n - 2], v[n - 1]]);
    lemma_val_single(v[n - 1], base);
    lemma_val2(v.skip(n - 2), base);
    lemma_mul_is_commutative(base, v[n - 1] as int);
    let t1 = v.take(n - 1);
    let t2 = v.take(n - 2);
    assert(limbs_ok(t1, base)) by {
        assert forall|i: int| 0 <= i < t1.len() implies (#[trigger] t1[i] as int) < base by {
            assert(t1[i] == v[i]);
        }
    }
    lemma_val_bound(t1, base);
    lemma_val_nonneg(t2, base);
    lemma_mul_is_distributive_add(pow(base, (n - 1) as nat), v[n - 1] as int, 1);
}

/// The trial digit from the top limbs is never below the true digit.
pub proof fn lemma_qhat_upper(qd: int, dv: int, w: int, vt: int, top2: int, low: int, p: int)
    requires
        dv >= vt * p,
        w == low + p * top2,
        0 <= low < p,
        0 <= qd,
        qd * dv <= w,
        vt > 0,
        p > 0,
    ensures
        qd <= top2 / vt,
{
    lemma_mul_inequality(vt * p, dv, qd);
    lemma_mul_is_commutative(vt * p, qd);
    lemma_mul_is_commutative(dv, qd);
    assert(qd * vt * p < (top2 + 1) * p) by (nonlinear_arith)
        requires
            qd * (vt * p) <= qd * dv,
            qd * dv <= w,
            w == low + p * top2,
            low < p,
    ;
    lemma_mul_strict_inequality_converse(qd * vt, top2 + 1, p);
    lemma_fundamental_div_mod(top2, vt);
    lemma_mod_pos_bound(top2, vt);
    if qd > top2 / vt {
        lemma_mul_inequality(top2 / vt + 1, qd, vt);
        lemma_mul_is_distributive_add_other_way(vt, top2 / vt, 1);
        lemma_mul_is_commutative(vt, top2 / vt);
    }
}

/// When the two-limb test fails, the trial digit is too large.
pub proof fn lemma_qhat_correction(
    qhat: int,
    rhat: int,
    top2: int,
    vt: int,
    vs: int,
    u2: int,
    dv: int,
    w: int,
    low: int,
    p: int,
    base: int,
)
    requires
        rhat == top2 - qhat * vt,
        qhat * vs > rhat * base + u2,
        dv >= p * (vt * base + vs),
        w == low + p * (top2 * base + u2),
        0 <= low < p,
        qhat >= 0,
        p > 0,
    ensures
        qhat * dv > w,
{
    assert(qhat * (vt * base + vs) >= top2 * base + u2 + 1) by (nonlinear_arith)
        requires
            rhat == top2 - qhat * vt,
            qhat * vs > rhat * base + u2,
    ;
    lemma_mul_inequality(p * (vt * base + vs), dv, qhat);
    assert(qhat * (p * (vt * base + vs)) >= p * (top2 * base + u2 + 1)) by (nonlinear_arith)
        requires
            qhat * (vt * base + vs) >= top2 * base + u2 + 1,
            p > 0,
    ;
    lemma_mul_is_commutative(qhat, p * (vt * base + vs));
    lemma_mul_is_commutative(qhat, dv);
    lemma_mul_is_distributive_add(p, top2 * base + u2, 1);
}

/// The window of `n + 1` limbs at `j` holds all of `u` above its lowest `j`
/// limbs, and is below `base` times the divisor.
pub proof fn lemma_div_window(u: Seq<u64>, j: int, n: int, dv: int, base: int)
    requires
        valid_base(base),
        limbs_ok(u, base),
        0 <= j,
        n >= 1,
        j + n + 1 <= u.len(),
        0 < dv < pow(base, n as nat),
        val(u, base) < dv * pow(base, (j + 1) as nat),
    ensures
        val(u, base) == val(u.take(j), base) + pow(base, j as nat) * val(
            u.subrange(j, j + n + 1),
            base,
        ),
        val(u.subrange(j, j + n + 1), base) < dv * base,
{
    let k = j + n + 1;
    let t = u.take(k);
    let h = u.skip(k);
    lemma_val_split(u, k, base);
    lemma_val_split(t, j, base);
    assert(t.take(j) =~= u.take(j));
    assert(t.skip(j) =~= u.subrange(j, k));
    let w = val(u.subrange(j, k), base);
    lemma_val_nonneg(t, base);
    lemma_val_nonneg(h, base);
    lemma_val_nonneg(u.take(j), base);
    lemma_val_nonneg(u.subrange(j, k), base);
    lemma_pow_nonneg(base, j as nat);
    lemma_pow_nonneg(base, k as nat);
    lemma_pow_adds(base, n as nat, (j + 1) as nat);
    lemma_pow_nonneg(base, (j + 1) as nat);
    lemma_mul_strict_inequality(dv, pow(base, n as nat), pow(base, (j + 1) as nat));
    lemma_mul_is_commutative(dv, pow(base, (j + 1) as nat));
    lemma_mul_is_commutative(pow(base, n as nat), pow(base, (j + 1) as nat));
    if val(h, base) > 0 {
        lemma_mul_inequality(1, val(h, base), pow(base, k as nat));
    }
    assert(val(h, base) == 0);
    lemma_mul_basics(pow(base, k as nat));
    lemma_pow_adds(base, j as nat, 1);
    lemma_pow1(base);
    assert(pow(base, j as nat) * w < pow(base, j as nat) * (dv * base)) by (nonlinear_arith)
        requires
            pow(base, j as nat) * w <= val(u, base),
            val(u, base) < dv * pow(base, (j + 1) as nat),
            pow(base, (j + 1) as nat) == pow(base, j as nat) * base,
    ;
    lemma_mul_is_commutative(pow(base, j as nat), w);
    lemma_mul_is_commutative(pow(base, j as nat), dv * base);
    lemma_mul_strict_inequality_converse(w, dv * base, pow(base, j as nat));
}

} // verus!
