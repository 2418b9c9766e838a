//! The mathematical model: the value of a limb sequence, canonical form and
//! the canonical representation of a natural number.
use vstd::arithmetic::div_mod::*;
use vstd::arithmetic::mul::*;
use vstd::arithmetic::power::*;
use vstd::prelude::*;

verus! {

/// The largest base: one more than the largest limb.
pub open spec fn native_base() -> int {
    0x1_0000_0000_0000_0000
}

/// A base fits the limb type: every limb value below it is a `u64`.
pub open spec fn valid_base(base: int) -> bool {
    2 <= base <= native_base()
}

/// A length that leaves room for the buffers the algorithms allocate: no
/// allocation of `u64` limbs comes near it.
pub open spec fn len_ok(s: Seq<u64>) -> bool {
    s.len() <= usize::MAX / 8
}

/// Every limb is a digit of the base.
pub open spec fn limbs_ok(s: Seq<u64>, base: int) -> bool {
    forall|i: int| 0 <= i < s.len() ==> (#[trigger] s[i] as int) < base
}

/// No most-significant zero limb; zero is the empty sequence.
pub open spec fn canonical(s: Seq<u64>) -> bool {
    s.len() == 0 || s.last() != 0
}

/// A well-formed magnitude: digits of the base, in canonical form.
pub open spec fn is_mag(s: Seq<u64>, base: int) -> bool {
    limbs_ok(s, base) && canonical(s)
}

/// The value of a least-significant-first limb sequence.
pub open spec fn val(s: Seq<u64>, base: int) -> int
    decreases s.len(),
{
    if s.len() == 0 {
        0
    } else {
        val(s.drop_last(), base) + s.last() * pow(base, (s.len() - 1) as nat)
    }
}

/// The value of a most-significant-first limb sequence.
pub open spec fn val_msf(s: Seq<u64>, base: int) -> int
    decreases s.len(),
{
    if s.len() == 0 {
        0
    } else {
        val_msf(s.drop_last(), base) * base + s.last()
    }
}

/// The canonical representation of a natural number.
pub open spec fn to_mag(x: int, base: int) -> Seq<u64>
    decreases x,
    via decreases_to_mag
{
    if x <= 0 || base < 2 {
        Seq::empty()
    } else {
        seq![(x % base) as u64] + to_mag(x / base, base)
    }
}

#[via_fn]
proof fn decreases_to_mag(x: int, base: int) {
    if !(x <= 0 || base < 2) {
        lemma_div_pos_is_pos(x, base);
        lemma_div_is_strictly_smaller(x, base);
    }
}

/// Powers of a base of at least two are positive.
pub proof fn lemma_pow_nonneg(base: int, e: nat)
    requires
        base >= 2,
    ensures
        pow(base, e) > 0,
{
    lemma_pow_positive(base, e);
}

/// Values are natural numbers.
pub proof fn lemma_val_nonneg(s: Seq<u64>, base: int)
    requires
        base >= 2,
    ensures
        val(s, base) >= 0,
    decreases s.len(),
{
    if s.len() > 0 {
        lemma_val_nonneg(s.drop_last(), base);
        lemma_pow_nonneg(base, (s.len() - 1) as nat);
        lemma_mul_nonnegative(s.last() as int, pow(base, (s.len() - 1) as nat));
    }
}

/// Appending a limb adds it at the next power of the base.
pub proof fn lemma_val_push(s: Seq<u64>, x: u64, base: int)
    ensures
        val(s.push(x), base) == val(s, base) + x * pow(base, s.len()),
{
    assert(s.push(x).drop_last() =~= s);
}

/// The value of a concatenation.
pub proof fn lemma_val_concat(s: Seq<u64>, t: Seq<u64>, base: int)
    ensures
        val(s + t, base) == val(s, base) + pow(base, s.len()) * val(t, base),
    decreases t.len(),
{
    if t.len() == 0 {
        assert(s + t =~= s);
    } else {
        let t0 = t.drop_last();
        lemma_val_concat(s, t0, base);
        assert((s + t).drop_last() =~= s + t0);
        let ps = pow(base, s.len());
        let pt = pow(base, t0.len());
        lemma_pow_adds(base, s.len(), t0.len());
        assert(val(s + t, base) == val(s + t0, base) + t.last() * (ps * pt));
        assert(val(t, base) == val(t0, base) + t.last() * pt);
        assert(ps * val(t, base) == ps * val(t0, base) + t.last() * (ps * pt)) by (nonlinear_arith)
            requires
                val(t, base) == val(t0, base) + t.last() * pt,
        ;
    }
}

/// Splitting a sequence at `k`.
pub proof fn lemma_val_split(s: Seq<u64>, k: int, base: int)
    requires
        0 <= k <= s.len(),
    ensures
        val(s, base) == val(s.take(k), base) + pow(base, k as nat) * val(s.skip(k), base),
{
    assert(s =~= s.take(k) + s.skip(k));
    lemma_val_concat(s.take(k), s.skip(k), base);
}

/// The value of a sequence is below the base to the power of its length.
pub proof fn lemma_val_bound(s: Seq<u64>, base: int)
    requires
        base >= 2,
        limbs_ok(s, base),
    ensures
        0 <= val(s, base) < pow(base, s.len()),
    decreases s.len(),
{
    lemma_val_nonneg(s, base);
    if s.len() == 0 {
        lemma_pow0(base);
    } else {
        let s0 = s.drop_last();
        assert(limbs_ok(s0, base)) by {
            assert forall|i: int| 0 <= i < s0.len() implies (#[trigger] s0[i] as int) < base by {
                assert(s0[i] == s[i]);
            }
        }
        lemma_val_bound(s0, base);
        let p = pow(base, s0.len());
        assert(pow(base, s.len()) == base * p) by {
            lemma_pow_adds(base, 1, s0.len());
            lemma_pow1(base);
        }
        let x = s.last() as int;
        assert(x < base) by {
            assert(s.last() == s[s.len() - 1]);
        }
        lemma_mul_inequality(x, base - 1, p);
        assert((base - 1) * p == base * p - p) by {
            lemma_mul_is_distributive_sub_other_way(p, base, 1);
        }
    }
}

/// A nonempty canonical sequence is at least the base to its length less one.
pub proof fn lemma_val_lower(s: Seq<u64>, base: int)
    requires
        base >= 2,
        s.len() > 0,
        canonical(s),
    ensures
        val(s, base) >= pow(base, (s.len() - 1) as nat),
{
    let s0 = s.drop_last();
    lemma_val_nonneg(s0, base);
    let p = pow(base, s0.len());
    lemma_pow_nonneg(base, s0.len());
    let x = s.last() as int;
    assert(x * p >= p) by (nonlinear_arith)
        requires
            x >= 1,
            p > 0,
    ;
}

/// The value of a sequence of zeros is zero.
pub proof fn lemma_val_zeros(s: Seq<u64>, base: int)
    requires
        forall|i: int| 0 <= i < s.len() ==> #[trigger] s[i] == 0,
    ensures
        val(s, base) == 0,
    decreases s.len(),
{
    if s.len() > 0 {
        let s0 = s.drop_last();
        assert forall|i: int| 0 <= i < s0.len() implies #[trigger] s0[i] == 0 by {
            assert(s0[i] == s[i]);
        }
        lemma_val_zeros(s0, base);
        assert(s.last() == s[s.len() - 1]);
    }
}

/// Zero limbs above position `k` do not count.
pub proof fn lemma_val_high_zeros(s: Seq<u64>, k: int, base: int)
    requires
        0 <= k <= s.len(),
        forall|i: int| k <= i < s.len() ==> #[trigger] s[i] == 0,
    ensures
        val(s, base) == val(s.take(k), base),
{
    lemma_val_split(s, k, base);
    let t = s.skip(k);
    assert forall|i: int| 0 <= i < t.len() implies #[trigger] t[i] == 0 by {
        assert(t[i] == s[i + k]);
    }
    lemma_val_zeros(t, base);
}

/// Writing one limb changes the value by the difference at its position.
pub proof fn lemma_val_update(s: Seq<u64>, k: int, y: u64, base: int)
    requires
        0 <= k < s.len(),
    ensures
        val(s.update(k, y), base) == val(s, base) + (y - s[k]) * pow(base, k as nat),
{
    let t = s.update(k, y);
    lemma_val_split(s, k, base);
    lemma_val_split(t, k, base);
    assert(t.take(k) =~= s.take(k));
    let a = s.skip(k);
    let b = t.skip(k);
    assert(a =~= seq![s[k]] + a.skip(1));
    assert(b =~= seq![y] + a.skip(1));
    lemma_val_concat(seq![s[k]], a.skip(1), base);
    lemma_val_concat(seq![y], a.skip(1), base);
    lemma_val_single(s[k], base);
    lemma_val_single(y, base);
    let p = pow(base, k as nat);
    assert(p * val(b, base) == p * val(a, base) + (y - s[k]) * p) by (nonlinear_arith)
        requires
            val(b, base) == val(a, base) + y - s[k],
    ;
}

/// The value of a single limb.
pub proof fn lemma_val_single(x: u64, base: int)
    ensures
        val(seq![x], base) == x,
{
    assert(seq![x].drop_last() =~= Seq::<u64>::empty());
    assert(val(Seq::<u64>::empty(), base) == 0);
    assert(seq![x].last() == x);
    lemma_pow0(base);
}

/// Peeling off the least significant limb.
pub proof fn lemma_val_first(s: Seq<u64>, base: int)
    requires
        s.len() > 0,
    ensures
        val(s, base) == s[0] + base * val(s.skip(1), base),
{
    assert(s =~= seq![s[0]] + s.skip(1));
    lemma_val_concat(seq![s[0]], s.skip(1), base);
    lemma_val_single(s[0], base);
    lemma_pow1(base);
}

/// The canonical representation holds the number in canonical form.
pub proof fn lemma_to_mag(x: int, base: int)
    requires
        x >= 0,
        valid_base(base),
    ensures
        is_mag(to_mag(x, base), base),
        val(to_mag(x, base), base) == x,
    decreases x,
{
    if x > 0 {
        proof_div_steps(x, base);
        let q = x / base;
        let r = x % base;
        lemma_to_mag(q, base);
        let t = to_mag(q, base);
        let s = to_mag(x, base);
        assert(s == seq![r as u64] + t);
        lemma_val_concat(seq![r as u64], t, base);
        lemma_val_single(r as u64, base);
        lemma_pow1(base);
        assert(limbs_ok(s, base)) by {
            assert forall|i: int| 0 <= i < s.len() implies (#[trigger] s[i] as int) < base by {
                if i > 0 {
                    assert(s[i] == t[i - 1]);
                }
            }
        }
        if t.len() == 0 {
            assert(val(t, base) == 0);
            assert(r == x);
        } else {
            assert(s.last() == t.last());
        }
    }
}

proof fn proof_div_steps(x: int, base: int)
    requires
        x > 0,
        base >= 2,
    ensures
        x == base * (x / base) + x % base,
        0 <= x % base < base,
        0 <= x / base < x,
{
    lemma_fundamental_div_mod(x, base);
    lemma_mod_bound(x, base);
    lemma_div_pos_is_pos(x, base);
    lemma_div_is_strictly_smaller(x, base);
}

proof fn lemma_mod_bound(x: int, base: int)
    requires
        x >= 0,
        base >= 2,
    ensures
        0 <= x % base < base,
{
    lemma_mod_pos_bound(x, base);
}

/// A magnitude is the canonical representation of its value.
pub proof fn lemma_to_mag_of_val(s: Seq<u64>, base: int)
    requires
        valid_base(base),
        is_mag(s, base),
    ensures
        to_mag(val(s, base), base) == s,
    decreases s.len(),
{
    if s.len() == 0 {
        assert(to_mag(0, base) =~= s);
    } else {
        let t = s.skip(1);
        assert(is_mag(t, base)) by {
            assert forall|i: int| 0 <= i < t.len() implies (#[trigger] t[i] as int) < base by {
                assert(t[i] == s[i + 1]);
            }
            if t.len() > 0 {
                assert(t.last() == s.last());
            }
        }
        lemma_to_mag_of_val(t, base);
        lemma_val_first(s, base);
        lemma_val_lower(s, base);
        lemma_pow_nonneg(base, (s.len() - 1) as nat);
        lemma_val_nonneg(t, base);
        assert((s[0] as int) < base);
        lemma_fundamental_div_mod_converse(val(s, base), base, val(t, base), s[0] as int);
        assert(to_mag(val(s, base), base) =~= seq![s[0]] + t);
        assert(seq![s[0]] + t =~= s);
    }
}

/// Two magnitudes of equal value are equal.
pub proof fn lemma_mag_unique(s: Seq<u64>, t: Seq<u64>, base: int)
    requires
        valid_base(base),
        is_mag(s, base),
        is_mag(t, base),
        val(s, base) == val(t, base),
    ensures
        s == t,
{
    lemma_to_mag_of_val(s, base);
    lemma_to_mag_of_val(t, base);
}

/// A magnitude whose value is below `base^k` has at most `k` limbs.
pub proof fn lemma_mag_len(s: Seq<u64>, k: nat, base: int)
    requires
        valid_base(base),
        canonical(s),
        val(s, base) < pow(base, k),
    ensures
        s.len() <= k,
{
    if s.len() > k {
        lemma_val_lower(s, base);
        lemma_pow_increases(base as nat, k, (s.len() - 1) as nat);
    }
}

/// Most-significant-first value is the value of the reversed sequence.
pub proof fn lemma_val_msf(s: Seq<u64>, base: int)
    ensures
        val_msf(s, base) == val(s.reverse(), base),
    decreases s.len(),
{
    if s.len() > 0 {
        let s0 = s.drop_last();
        lemma_val_msf(s0, base);
        assert(s.reverse() =~= seq![s.last()] + s0.reverse());
        lemma_val_concat(seq![s.last()], s0.reverse(), base);
        lemma_val_single(s.last(), base);
        lemma_pow1(base);
        lemma_mul_is_commutative(base, val_msf(s0, base));
    } else {
        assert(s.reverse() =~= s);
    }
}

/// Compares two sequences of equal length from the most significant limb
/// down: 1, 0 or -1.
pub open spec fn lex_cmp(a: Seq<u64>, b: Seq<u64>) -> int
    decreases a.len(),
{
    if a.len() == 0 || b.len() == 0 {
        0
    } else if a.last() > b.last() {
        1
    } else if a.last() < b.last() {
        -1
    } else {
        lex_cmp(a.drop_last(), b.drop_last())
    }
}

/// Comparing from the top limb down orders sequences of equal length by value.
pub proof fn lemma_lex_cmp_val(a: Seq<u64>, b: Seq<u64>, base: int)
    requires
        valid_base(base),
        a.len() == b.len(),
        limbs_ok(a, base),
        limbs_ok(b, base),
    ensures
        lex_cmp(a, b) == 0 <==> val(a, base) == val(b, base),
        lex_cmp(a, b) == 1 <==> val(a, base) > val(b, base),
        lex_cmp(a, b) == -1 <==> val(a, base) < val(b, base),
    decreases a.len(),
{
    if a.len() > 0 {
        let a0 = a.drop_last();
        let b0 = b.drop_last();
        assert(limbs_ok(a0, base)) by {
            assert forall|i: int| 0 <= i < a0.len() implies (#[trigger] a0[i] as int) < base by {
                assert(a0[i] == a[i]);
            }
        }
        assert(limbs_ok(b0, base)) by {
            assert forall|i: int| 0 <= i < b0.len() implies (#[trigger] b0[i] as int) < base by {
                assert(b0[i] == b[i]);
            }
        }
        lemma_val_bound(a0, base);
        lemma_val_bound(b0, base);
        let p = pow(base, a0.len());
        let x = a.last() as int;
        let y = b.last() as int;
        if x > y {
            lemma_mul_inequality(y + 1, x, p);
            lemma_mul_is_distributive_add_other_way(p, y, 1);
        } else if x < y {
            lemma_mul_inequality(x + 1, y, p);
            lemma_mul_is_distributive_add_other_way(p, x, 1);
        } else {
            lemma_lex_cmp_val(a0, b0, base);
        }
    }
}

} // verus!
