//! Representation utilities: canonical trimming, bit length, comparison of
//! magnitudes, and small representations.
use crate::model::{
    canonical, is_mag, lemma_lex_cmp_val, lemma_val_high_zeros, lemma_val_lower, lex_cmp,
    limbs_ok, to_mag, val, valid_base,
};
use crate::kernel::cmp_slices;
use crate::IntLimb;
use std::cmp::Ordering;
use vstd::arithmetic::div_mod::*;
use vstd::arithmetic::power::*;
use vstd::arithmetic::power2::{lemma2_to64, lemma_pow2};
use vstd::prelude::*;

verus! {

/// `t` is `s` with its zero limbs at the top removed.
pub open spec fn trimmed(s: Seq<u64>, t: Seq<u64>) -> bool {
    &&& canonical(t)
    &&& t.len() <= s.len()
    &&& t == s.take(t.len() as int)
    &&& forall|i: int| t.len() <= i < s.len() ==> #[trigger] s[i] == 0
}

/// Trimming keeps the value and the digits.
pub proof fn lemma_trimmed(s: Seq<u64>, t: Seq<u64>, base: int)
    requires
        trimmed(s, t),
    ensures
        val(t, base) == val(s, base),
        limbs_ok(s, base) ==> limbs_ok(t, base),
{
    lemma_val_high_zeros(s, t.len() as int, base);
    if limbs_ok(s, base) {
        assert forall|i: int| 0 <= i < t.len() implies (#[trigger] t[i] as int) < base by {
            assert(t[i] == s[i]);
        }
    }
}

/// Removes the zero limbs at the top.
pub fn trim_zeros(x: &mut Vec<IntLimb>)
    ensures
        trimmed(old(x)@, final(x)@),
{
    let ghost x0 = x@;
    while x.len() > 0 && x[x.len() - 1] == 0
        invariant
            x@.len() <= x0.len(),
            x@ == x0.take(x@.len() as int),
            forall|i: int| x@.len() <= i < x0.len() ==> #[trigger] x0[i] == 0,
        decreases x@.len(),
    {
        let ghost before = x@;
        x.pop();
        proof {
            assert(x@ =~= x0.take(x@.len() as int));
            assert(x0[x@.len() as int] == before[x@.len() as int]);
        }
    }
}

/// The number of bits of a natural number.
pub open spec fn bits(x: nat) -> nat
    decreases x,
{
    if x == 0 {
        0
    } else {
        1 + bits(x / 2)
    }
}

proof fn lemma_bits_bound(x: nat, k: nat)
    requires
        x < pow(2, k),
    ensures
        bits(x) <= k,
    decreases k,
{
    if x > 0 {
        if k == 0 {
            lemma_pow0(2);
        } else {
            lemma_pow_adds(2, 1, (k - 1) as nat);
            lemma_pow1(2);
            lemma_bits_bound(x / 2, (k - 1) as nat);
        }
    }
}

/// The number of bits needed to write `x`: zero for zero.
pub fn bit_len(x: IntLimb) -> (r: u32)
    ensures
        r == bits(x as nat),
{
    let mut i: u32 = 0;
    let mut y = x;
    proof {
        lemma2_to64();
        lemma_pow2(64);
        lemma_bits_bound(x as nat, 64);
    }
    while y > 0
        invariant
            i + bits(y as nat) == bits(x as nat),
            bits(x as nat) <= 64,
        decreases y,
    {
        y = y / 2;
        i = i + 1;
    }
    i
}

/// Compares magnitudes: by length first, then limb by limb from the top.
pub open spec fn cmp_mag(a: Seq<u64>, b: Seq<u64>) -> int {
    if a.len() < b.len() {
        -1
    } else if a.len() > b.len() {
        1
    } else {
        lex_cmp(a, b)
    }
}

/// On magnitudes, `cmp_mag` orders by value.
pub proof fn lemma_cmp_mag_val(a: Seq<u64>, b: Seq<u64>, base: int)
    requires
        valid_base(base),
        is_mag(a, base),
        is_mag(b, base),
    ensures
        cmp_mag(a, b) == 0 <==> val(a, base) == val(b, base),
        cmp_mag(a, b) == 1 <==> val(a, base) > val(b, base),
        cmp_mag(a, b) == -1 <==> val(a, base) < val(b, base),
{
    if a.len() == b.len() {
        lemma_lex_cmp_val(a, b, base);
    } else if a.len() < b.len() {
        crate::model::lemma_val_bound(a, base);
        lemma_val_lower(b, base);
        lemma_pow_increases(base as nat, a.len(), (b.len() - 1) as nat);
    } else {
        crate::model::lemma_val_bound(b, base);
        lemma_val_lower(a, base);
        lemma_pow_increases(base as nat, b.len(), (a.len() - 1) as nat);
    }
}

/// Compares two magnitudes.
pub fn cmp_repr(left: &[IntLimb], right: &[IntLimb]) -> (r: Ordering)
    ensures
        (r == Ordering::Less) <==> cmp_mag(left@, right@) == -1,
        (r == Ordering::Equal) <==> cmp_mag(left@, right@) == 0,
        (r == Ordering::Greater) <==> cmp_mag(left@, right@) == 1,
{
    let n = left.len();
    let m = right.len();
    if n < m {
        Ordering::Less
    } else if n > m {
        Ordering::Greater
    } else {
        let c = cmp_slices(left, right);
        proof {
            lemma_lex_cmp_range(left@, right@);
        }
        if c < 0 {
            Ordering::Less
        } else if c == 0 {
            Ordering::Equal
        } else {
            Ordering::Greater
        }
    }
}

proof fn lemma_lex_cmp_range(a: Seq<u64>, b: Seq<u64>)
    ensures
        -1 <= lex_cmp(a, b) <= 1,
    decreases a.len(),
{
    if a.len() > 0 && b.len() > 0 {
        lemma_lex_cmp_range(a.drop_last(), b.drop_last());
    }
}

/// The canonical representation of a single value in `base`.
pub fn new_repr(value: IntLimb, base: u128) -> (r: Vec<IntLimb>)
    requires
        valid_base(base as int),
    ensures
        r@ == to_mag(value as int, base as int),
{
    let ghost bs = base as int;
    let mut repr: Vec<IntLimb> = Vec::new();
    let mut v: u128 = value as u128;
    while v >= base
        invariant
            valid_base(bs),
            bs == base as int,
            repr@ + to_mag(v as int, bs) == to_mag(value as int, bs),
        decreases v,
    {
        proof {
            lemma_mod_pos_bound(v as int, bs);
            lemma_div_is_strictly_smaller(v as int, bs);
            assert(to_mag(v as int, bs) == seq![(v % base) as u64] + to_mag((v / base) as int, bs));
            assert(repr@.push((v % base) as u64) + to_mag((v / base) as int, bs) =~= repr@
                + to_mag(v as int, bs));
        }
        repr.push((v % base) as u64);
        v = v / base;
    }
    if v > 0 {
        proof {
            lemma_small_mod(v as nat, bs as nat);
            lemma_basic_div(v as int, bs);
            assert(to_mag(0, bs) =~= Seq::<u64>::empty());
            assert(to_mag(v as int, bs) == seq![(v % base) as u64] + to_mag((v / base) as int, bs));
            assert(repr@.push(v as u64) =~= repr@ + to_mag(v as int, bs));
        }
        repr.push(v as u64);
    } else {
        proof {
            assert(repr@ + to_mag(0, bs) =~= repr@);
        }
    }
    repr
}

/// A single limb as a sequence of one limb.
pub fn internal_repr(value: IntLimb) -> (r: Vec<IntLimb>)
    ensures
        r@ == seq![value],
{
    let mut r: Vec<IntLimb> = Vec::new();
    r.push(value);
    r
}

/// A copy of the limbs `lo..hi`.
pub fn limbs_range(a: &[IntLimb], lo: usize, hi: usize) -> (r: Vec<IntLimb>)
    requires
        lo <= hi <= a@.len(),
    ensures
        r@ == a@.subrange(lo as int, hi as int),
{
    let mut r: Vec<IntLimb> = Vec::new();
    let mut i: usize = lo;
    while i < hi
        invariant
            lo <= i <= hi <= a@.len(),
            r@ == a@.subrange(lo as int, i as int),
        decreases hi - i,
    {
        r.push(a[i]);
        i = i + 1;
        proof {
            assert(r@ =~= a@.subrange(lo as int, i as int));
        }
    }
    r
}

/// The limbs in reverse order.
pub fn reversed(a: &[IntLimb]) -> (r: Vec<IntLimb>)
    ensures
        r@ == a@.reverse(),
{
    let n = a.len();
    let mut r: Vec<IntLimb> = Vec::new();
    let mut i: usize = 0;
    while i < n
        invariant
            n == a@.len(),
            0 <= i <= n,
            r@.len() == i,
            forall|k: int| 0 <= k < i ==> #[trigger] r@[k] == a@[n - 1 - k],
        decreases n - i,
    {
        r.push(a[n - 1 - i]);
        i = i + 1;
    }
    proof {
        assert(r@ =~= a@.reverse());
    }
    r
}

} // verus!
