//! The limb kernel: elementary fixed-length operations on limb sequences in
//! an explicit base. Limb arithmetic is done in `u128`, which holds a product
//! of two limbs plus two more limbs for every base up to `2^64`.
use crate::model::{
    lemma_val_bound, lemma_val_nonneg, lemma_val_push, lemma_val_update, lemma_val_zeros, lex_cmp,
    limbs_ok, native_base, val, val_msf, valid_base,
};
use crate::IntLimb;
use vstd::arithmetic::div_mod::*;
use vstd::arithmetic::mul::*;
use vstd::arithmetic::power::*;
use vstd::prelude::*;

verus! {

/// The largest base, `2^64`: limbs use the whole machine word.
pub const NATIVE_BASE: u128 = 0x1_0000_0000_0000_0000;

/// One digit step: a value `t` below `base^2` splits into a digit and a carry.
proof fn lemma_digit_step(t: int, base: int)
    requires
        valid_base(base),
        0 <= t,
    ensures
        t == t % base + base * (t / base),
        0 <= t % base < base,
        0 <= t / base,
        t < base * base ==> t / base < base,
        t < 2 * base ==> t / base <= 1,
{
    lemma_fundamental_div_mod(t, base);
    lemma_mod_pos_bound(t, base);
    lemma_div_pos_is_pos(t, base);
    if t < base * base {
        lemma_div_is_ordered(t, base * base - 1, base);
        lemma_div_by_multiple(base, base);
        lemma_div_is_ordered(t, base * base, base);
        if t / base >= base {
            lemma_mul_inequality(base, t / base, base);
            lemma_mul_is_commutative(base, t / base);
        }
    }
    if t < 2 * base {
        if t / base >= 2 {
            lemma_mul_inequality(2, t / base, base);
            lemma_mul_is_commutative(base, t / base);
        }
    }
}

/// Prefix values grow one limb at a time.
pub proof fn lemma_take_push(s: Seq<u64>, i: int, base: int)
    requires
        0 <= i < s.len(),
    ensures
        val(s.take(i + 1), base) == val(s.take(i), base) + s[i] * pow(base, i as nat),
{
    assert(s.take(i + 1) =~= s.take(i).push(s[i]));
    lemma_val_push(s.take(i), s[i], base);
}

proof fn lemma_pow_succ(base: int, i: nat)
    ensures
        pow(base, i + 1) == base * pow(base, i),
{
    lemma_pow_adds(base, 1, i);
    lemma_pow1(base);
}

/// `dest = a + b` for `a` at least as long as `b`; `dest` has room for the
/// final carry.
pub fn add_two_slices(a: &[IntLimb], b: &[IntLimb], dest: &mut Vec<IntLimb>, base: u128)
    requires
        valid_base(base as int),
        a@.len() >= b@.len(),
        old(dest)@.len() == a@.len() + 1,
        limbs_ok(a@, base as int),
        limbs_ok(b@, base as int),
    ensures
        final(dest)@.len() == old(dest)@.len(),
        limbs_ok(final(dest)@, base as int),
        val(final(dest)@, base as int) == val(a@, base as int) + val(b@, base as int),
{
    let ghost bs = base as int;
    let n1 = a.len();
    let n2 = b.len();
    let mut carry: u128 = 0;
    let mut i: usize = 0;
    while i < n1
        invariant
            valid_base(bs),
            bs == base as int,
            n1 == a@.len(),
            n2 == b@.len(),
            n2 <= n1,
            0 <= i <= n1,
            dest@.len() == n1 + 1,
            limbs_ok(a@, bs),
            limbs_ok(b@, bs),
            limbs_ok(dest@.take(i as int), bs),
            carry <= 1,
            val(dest@.take(i as int), bs) + carry * pow(bs, i as nat) == val(a@.take(i as int), bs)
                + val(b@.take(if i < n2 { i as int } else { n2 as int }), bs),
        decreases n1 - i,
    {
        let bi: u128 = if i < n2 { b[i] as u128 } else { 0 };
        let t: u128 = a[i] as u128 + bi + carry;
        proof {
            lemma_digit_step(t as int, bs);
            lemma_take_push(a@, i as int, bs);
            if i < n2 {
                lemma_take_push(b@, i as int, bs);
            } else if i == n2 {
                assert(b@.take(n2 as int) =~= b@);
            }
            lemma_pow_succ(bs, i as nat);
        }
        let ghost prev = dest@;
        dest[i] = (t % base) as u64;
        proof {
            assert(dest@.take(i as int) =~= prev.take(i as int));
            lemma_take_push(dest@, i as int, bs);
            let p = pow(bs, i as nat);
            let c2 = t / base;
            assert(c2 * (bs * p) == (bs * c2) * p) by (nonlinear_arith);
            assert((t % base) * p + (bs * c2) * p == (t as int) * p) by (nonlinear_arith)
                requires
                    t == t % base + bs * c2,
            ;
            assert(a[i as int] * p + bi * p + carry * p == (t as int) * p) by (nonlinear_arith)
                requires
                    t == a[i as int] + bi + carry,
            ;
            assert forall|k: int| 0 <= k < i + 1 implies (#[trigger] dest@.take(i + 1)[k] as int)
                < bs by {
                if k < i {
                    assert(dest@.take(i + 1)[k] == prev.take(i as int)[k]);
                }
            }
        }
        carry = t / base;
        i = i + 1;
    }
    let ghost prev = dest@;
    dest[n1] = carry as u64;
    proof {
        assert(dest@.take(n1 as int) =~= prev.take(n1 as int));
        assert forall|k: int| 0 <= k < dest@.len() implies (#[trigger] dest@[k] as int) < bs by {
            if k < n1 {
                assert(dest@[k] == prev.take(n1 as int)[k]);
            }
        }
        assert(b@.take(n2 as int) =~= b@);
        assert(a@.take(n1 as int) =~= a@);
        lemma_take_push(dest@, n1 as int, bs);
        assert(dest@.take(n1 + 1) =~= dest@);
    }
}

/// `dest = a - b` for `a` at least as long as `b` and at least as large.
pub fn sub_two_slices(a: &[IntLimb], b: &[IntLimb], dest: &mut Vec<IntLimb>, base: u128)
    requires
        valid_base(base as int),
        a@.len() >= b@.len(),
        old(dest)@.len() == a@.len(),
        limbs_ok(a@, base as int),
        limbs_ok(b@, base as int),
        val(a@, base as int) >= val(b@, base as int),
    ensures
        final(dest)@.len() == old(dest)@.len(),
        limbs_ok(final(dest)@, base as int),
        val(final(dest)@, base as int) == val(a@, base as int) - val(b@, base as int),
{
    let ghost bs = base as int;
    let n1 = a.len();
    let n2 = b.len();
    let mut borrow: u128 = 0;
    let mut i: usize = 0;
    while i < n1
        invariant
            valid_base(bs),
            bs == base as int,
            n1 == a@.len(),
            n2 == b@.len(),
            n2 <= n1,
            0 <= i <= n1,
            dest@.len() == n1,
            limbs_ok(a@, bs),
            limbs_ok(b@, bs),
            limbs_ok(dest@.take(i as int), bs),
            borrow <= 1,
            val(dest@.take(i as int), bs) == val(a@.take(i as int), bs) - val(
                b@.take(if i < n2 { i as int } else { n2 as int }),
                bs,
            ) + borrow * pow(bs, i as nat),
        decreases n1 - i,
    {
        let bi: u128 = if i < n2 { b[i] as u128 } else { 0 };
        let s: u128 = bi + borrow;
        let ai = a[i] as u128;
        let x: u128;
        let next: u128;
        if ai >= s {
            x = ai - s;
            next = 0;
        } else {
            x = ai + base - s;
            next = 1;
        }
        proof {
            lemma_take_push(a@, i as int, bs);
            if i < n2 {
                lemma_take_push(b@, i as int, bs);
            } else if i == n2 {
                assert(b@.take(n2 as int) =~= b@);
            }
            lemma_pow_succ(bs, i as nat);
        }
        let ghost prev = dest@;
        dest[i] = x as u64;
        proof {
            assert(dest@.take(i as int) =~= prev.take(i as int));
            lemma_take_push(dest@, i as int, bs);
            let p = pow(bs, i as nat);
            assert((x as int) * p == ai * p - bi * p - borrow * p + next * (bs * p)) by (nonlinear_arith)
                requires
                    x as int == ai - bi - borrow + next * bs,
            ;
            assert forall|k: int| 0 <= k < i + 1 implies (#[trigger] dest@.take(i + 1)[k] as int)
                < bs by {
                if k < i {
                    assert(dest@.take(i + 1)[k] == prev.take(i as int)[k]);
                }
            }
        }
        borrow = next;
        i = i + 1;
    }
    proof {
        assert(b@.take(n2 as int) =~= b@);
        assert(a@.take(n1 as int) =~= a@);
        assert(dest@.take(n1 as int) =~= dest@);
        lemma_val_bound(dest@, bs);
        if borrow == 1 {
            assert(val(dest@, bs) >= pow(bs, n1 as nat));
        }
    }
}

/// Compares two sequences of equal length from the most significant limb
/// down: 1 if `a` is larger, -1 if smaller, 0 if they are equal.
pub fn cmp_slices(a: &[IntLimb], b: &[IntLimb]) -> (r: i32)
    requires
        a@.len() == b@.len(),
    ensures
        r as int == lex_cmp(a@, b@),
{
    let mut i: usize = a.len();
    proof {
        assert(a@.take(i as int) =~= a@);
        assert(b@.take(i as int) =~= b@);
    }
    while i > 0
        invariant
            a@.len() == b@.len(),
            0 <= i <= a@.len(),
            lex_cmp(a@, b@) == lex_cmp(a@.take(i as int), b@.take(i as int)),
        decreases i,
    {
        proof {
            assert(a@.take(i as int).drop_last() =~= a@.take(i - 1));
            assert(b@.take(i as int).drop_last() =~= b@.take(i - 1));
        }
        i = i - 1;
        if a[i] > b[i] {
            return 1;
        } else if a[i] < b[i] {
            return -1;
        }
    }
    0
}

/// Adds `a * base^off` into `dest` in place, carrying through the limbs above
/// the window; the sum must fit in `dest`.
pub fn add_at(dest: &mut Vec<IntLimb>, off: usize, a: &[IntLimb], base: u128)
    requires
        valid_base(base as int),
        off + a@.len() <= old(dest)@.len(),
        limbs_ok(old(dest)@, base as int),
        limbs_ok(a@, base as int),
        val(old(dest)@, base as int) + val(a@, base as int) * pow(base as int, off as nat) < pow(
            base as int,
            old(dest)@.len(),
        ),
    ensures
        final(dest)@.len() == old(dest)@.len(),
        limbs_ok(final(dest)@, base as int),
        val(final(dest)@, base as int) == val(old(dest)@, base as int) + val(a@, base as int) * pow(
            base as int,
            off as nat,
        ),
{
    let ghost bs = base as int;
    let ghost d0 = dest@;
    let len = dest.len();
    let n = a.len();
    let mut carry: u128 = 0;
    let mut i: usize = off;
    while i < len
        invariant
            valid_base(bs),
            bs == base as int,
            len == dest@.len(),
            len == d0.len(),
            n == a@.len(),
            off + n <= len,
            off <= i <= len,
            limbs_ok(a@, bs),
            limbs_ok(dest@, bs),
            carry <= 1,
            val(dest@, bs) + carry * pow(bs, i as nat) == val(d0, bs) + val(
                a@.take(if i - off < n { i - off } else { n as int }),
                bs,
            ) * pow(bs, off as nat),
        decreases len - i,
    {
        let k = i - off;
        let ak: u128 = if k < n { a[k] as u128 } else { 0 };
        let t: u128 = dest[i] as u128 + ak + carry;
        let ghost p = pow(bs, i as nat);
        let ghost po = pow(bs, off as nat);
        proof {
            lemma_digit_step(t as int, bs);
            lemma_pow_succ(bs, i as nat);
            lemma_pow_adds(bs, off as nat, k as nat);
            if k < n {
                lemma_take_push(a@, k as int, bs);
                let pk = pow(bs, k as nat);
                assert(val(a@.take(k + 1), bs) * po == val(a@.take(k as int), bs) * po + ak * p)
                    by (nonlinear_arith)
                    requires
                        val(a@.take(k + 1), bs) == val(a@.take(k as int), bs) + ak * pk,
                        p == po * pk,
                ;
            } else if k == n {
                assert(a@.take(n as int) =~= a@);
            }
            lemma_val_update(dest@, i as int, (t % base) as u64, bs);
            let c2 = t / base;
            assert(c2 * (bs * p) == (bs * c2) * p) by (nonlinear_arith);
            assert(((t % base) - dest[i as int]) * p + (bs * c2) * p == ak * p + carry * p)
                by (nonlinear_arith)
                requires
                    t == t % base + bs * c2,
                    t == dest[i as int] + ak + carry,
            ;
        }
        dest[i] = (t % base) as u64;
        carry = t / base;
        i = i + 1;
    }
    proof {
        assert(a@.take(n as int) =~= a@);
        lemma_val_nonneg(dest@, bs);
        if carry == 1 {
            assert(val(dest@, bs) + pow(bs, len as nat) >= pow(bs, len as nat));
        }
    }
}

/// Subtracts `b * base^off` from `dest` in place, borrowing through the limbs
/// above the window; `dest` must be at least as large.
pub fn sub_at(dest: &mut Vec<IntLimb>, off: usize, b: &[IntLimb], base: u128)
    requires
        valid_base(base as int),
        off + b@.len() <= old(dest)@.len(),
        limbs_ok(old(dest)@, base as int),
        limbs_ok(b@, base as int),
        val(old(dest)@, base as int) >= val(b@, base as int) * pow(base as int, off as nat),
    ensures
        final(dest)@.len() == old(dest)@.len(),
        limbs_ok(final(dest)@, base as int),
        val(final(dest)@, base as int) == val(old(dest)@, base as int) - val(b@, base as int) * pow(
            base as int,
            off as nat,
        ),
{
    let ghost bs = base as int;
    let ghost d0 = dest@;
    let len = dest.len();
    let n = b.len();
    let mut borrow: u128 = 0;
    let mut i: usize = off;
    while i < len
        invariant
            valid_base(bs),
            bs == base as int,
            len == dest@.len(),
            len == d0.len(),
            n == b@.len(),
            off + n <= len,
            off <= i <= len,
            limbs_ok(b@, bs),
            limbs_ok(dest@, bs),
            borrow <= 1,
            val(dest@, bs) - borrow * pow(bs, i as nat) == val(d0, bs) - val(
                b@.take(if i - off < n { i - off } else { n as int }),
                bs,
            ) * pow(bs, off as nat),
        decreases len - i,
    {
        let k = i - off;
        let bk: u128 = if k < n { b[k] as u128 } else { 0 };
        let s: u128 = bk + borrow;
        let di = dest[i] as u128;
        let x: u128;
        let next: u128;
        if di >= s {
            x = di - s;
            next = 0;
        } else {
            x = di + base - s;
            next = 1;
        }
        let ghost p = pow(bs, i as nat);
        let ghost po = pow(bs, off as nat);
        proof {
            lemma_pow_succ(bs, i as nat);
            lemma_pow_adds(bs, off as nat, k as nat);
            if k < n {
                lemma_take_push(b@, k as int, bs);
                let pk = pow(bs, k as nat);
                assert(val(b@.take(k + 1), bs) * po == val(b@.take(k as int), bs) * po + bk * p)
                    by (nonlinear_arith)
                    requires
                        val(b@.take(k + 1), bs) == val(b@.take(k as int), bs) + bk * pk,
                        p == po * pk,
                ;
            } else if k == n {
                assert(b@.take(n as int) =~= b@);
            }
            lemma_val_update(dest@, i as int, x as u64, bs);
            assert(next * (bs * p) == (next * bs) * p) by (nonlinear_arith);
            assert((x - di) * p == next * bs * p - bk * p - borrow * p) by (nonlinear_arith)
                requires
                    x == di - bk - borrow + next * bs,
            ;
        }
        dest[i] = x as u64;
        borrow = next;
        i = i + 1;
    }
    proof {
        assert(b@.take(n as int) =~= b@);
        lemma_val_bound(dest@, bs);
    }
}

/// A limb product plus two limbs fits in `u128`.
proof fn lemma_mul_add_fits(x: int, y: int, z: int, w: int, base: int)
    requires
        valid_base(base),
        0 <= x < base,
        0 <= y < base,
        0 <= z < base,
        0 <= w < base,
    ensures
        x * y + z + w < base * base,
        base * base <= 0x1_0000_0000_0000_0000_0000_0000_0000_0000,
{
    lemma_mul_inequality(x, base - 1, y);
    lemma_mul_inequality(y, base - 1, base - 1);
    lemma_mul_is_commutative(base - 1, y);
    assert((base - 1) * (base - 1) == base * base - 2 * base + 1) by (nonlinear_arith);
    lemma_mul_upper_bound(base, native_base(), base, native_base());
}

/// `dest = a * b`: the full schoolbook product; `dest` is at least as long as
/// both operands together and is overwritten whole.
pub fn mul_two_slices(a: &[IntLimb], b: &[IntLimb], dest: &mut Vec<IntLimb>, base: u128)
    requires
        valid_base(base as int),
        old(dest)@.len() >= a@.len() + b@.len(),
        limbs_ok(a@, base as int),
        limbs_ok(b@, base as int),
    ensures
        final(dest)@.len() == old(dest)@.len(),
        limbs_ok(final(dest)@, base as int),
        val(final(dest)@, base as int) == val(a@, base as int) * val(b@, base as int),
{
    let ghost bs = base as int;
    let len = dest.len();
    let n1 = a.len();
    let n2 = b.len();
    let mut k: usize = 0;
    while k < len
        invariant
            len == dest@.len(),
            0 <= k <= len,
            forall|x: int| 0 <= x < k ==> #[trigger] dest@[x] == 0,
        decreases len - k,
    {
        dest[k] = 0;
        k = k + 1;
    }
    proof {
        lemma_val_zeros(dest@, bs);
        assert(b@.take(0) =~= Seq::<u64>::empty());
    }
    let mut j: usize = 0;
    while j < n2
        invariant
            valid_base(bs),
            bs == base as int,
            len == dest@.len(),
            n1 == a@.len(),
            n2 == b@.len(),
            n1 + n2 <= len,
            0 <= j <= n2,
            limbs_ok(a@, bs),
            limbs_ok(b@, bs),
            limbs_ok(dest@, bs),
            forall|x: int| n1 + j <= x < len ==> #[trigger] dest@[x] == 0,
            val(dest@, bs) == val(a@, bs) * val(b@.take(j as int), bs),
        decreases n2 - j,
    {
        let bj = b[j] as u128;
        let ghost f = val(a@, bs) * val(b@.take(j as int), bs);
        let ghost pj = pow(bs, j as nat);
        let mut carry: u128 = 0;
        let mut i: usize = 0;
        proof {
            assert(a@.take(0) =~= Seq::<u64>::empty());
            lemma_pow_adds(bs, 0, j as nat);
            lemma_pow0(bs);
        }
        while i < n1
            invariant
                valid_base(bs),
                bs == base as int,
                len == dest@.len(),
                n1 == a@.len(),
                n2 == b@.len(),
                n1 + n2 <= len,
                0 <= j < n2,
                0 <= i <= n1,
                bj == b@[j as int],
                pj == pow(bs, j as nat),
                limbs_ok(a@, bs),
                limbs_ok(b@, bs),
                limbs_ok(dest@, bs),
                carry < base,
                forall|x: int| n1 + j <= x < len ==> #[trigger] dest@[x] == 0,
                val(dest@, bs) + carry * pow(bs, (i + j) as nat) == f + val(a@.take(i as int), bs)
                    * bj * pj,
            decreases n1 - i,
        {
            let ai = a[i] as u128;
            let di = dest[i + j] as u128;
            proof {
                lemma_mul_add_fits(ai as int, bj as int, di as int, carry as int, bs);
                lemma_mul_upper_bound(ai as int, bs, bj as int, bs);
            }
            let t: u128 = ai * bj + di + carry;
            let ghost p = pow(bs, (i + j) as nat);
            let ghost pi = pow(bs, i as nat);
            proof {
                lemma_digit_step(t as int, bs);
                lemma_pow_succ(bs, (i + j) as nat);
                lemma_pow_adds(bs, i as nat, j as nat);
                lemma_take_push(a@, i as int, bs);
                lemma_val_update(dest@, (i + j) as int, (t % base) as u64, bs);
                let c2 = t / base;
                assert(c2 * (bs * p) == (bs * c2) * p) by (nonlinear_arith);
                assert(((t % base) - di) * p + (bs * c2) * p == ai * bj * p + carry * p)
                    by (nonlinear_arith)
                    requires
                        t == t % base + bs * c2,
                        t == ai * bj + di + carry,
                ;
                assert(val(a@.take(i + 1), bs) * bj * pj == val(a@.take(i as int), bs) * bj * pj
                    + ai * bj * p) by (nonlinear_arith)
                    requires
                        val(a@.take(i + 1), bs) == val(a@.take(i as int), bs) + ai * pi,
                        p == pi * pj,
                ;
            }
            dest[i + j] = (t % base) as u64;
            carry = t / base;
            i = i + 1;
        }
        proof {
            assert(a@.take(n1 as int) =~= a@);
            lemma_val_update(dest@, (n1 + j) as int, carry as u64, bs);
            lemma_take_push(b@, j as int, bs);
            assert(val(a@, bs) * val(b@.take(j + 1), bs) == f + val(a@, bs) * bj * pj)
                by (nonlinear_arith)
                requires
                    val(b@.take(j + 1), bs) == val(b@.take(j as int), bs) + bj * pj,
                    f == val(a@, bs) * val(b@.take(j as int), bs),
            ;
        }
        dest[n1 + j] = carry as u64;
        j = j + 1;
    }
    proof {
        assert(b@.take(n2 as int) =~= b@);
    }
}

/// Adds a single limb to `dest` in place, carrying through every limb;
/// returns the carry out of the top limb.
pub fn add_const(dest: &mut Vec<IntLimb>, c: IntLimb, base: u128) -> (carry: IntLimb)
    requires
        valid_base(base as int),
        (c as int) < base,
        limbs_ok(old(dest)@, base as int),
    ensures
        final(dest)@.len() == old(dest)@.len(),
        limbs_ok(final(dest)@, base as int),
        (carry as int) < base,
        old(dest)@.len() > 0 ==> carry <= 1,
        val(final(dest)@, base as int) + carry * pow(base as int, old(dest)@.len()) == val(
            old(dest)@,
            base as int,
        ) + c,
{
    let ghost bs = base as int;
    let ghost d0 = dest@;
    let len = dest.len();
    let mut carry: u128 = c as u128;
    let mut i: usize = 0;
    proof {
        lemma_pow0(bs);
    }
    while i < len
        invariant
            valid_base(bs),
            bs == base as int,
            len == dest@.len(),
            len == d0.len(),
            0 <= i <= len,
            limbs_ok(dest@, bs),
            carry < base,
            i > 0 ==> carry <= 1,
            val(dest@, bs) + carry * pow(bs, i as nat) == val(d0, bs) + c,
        decreases len - i,
    {
        let t: u128 = dest[i] as u128 + carry;
        let ghost p = pow(bs, i as nat);
        proof {
            lemma_digit_step(t as int, bs);
            lemma_pow_succ(bs, i as nat);
            lemma_val_update(dest@, i as int, (t % base) as u64, bs);
            let c2 = t / base;
            assert(c2 * (bs * p) == (bs * c2) * p) by (nonlinear_arith);
            assert(((t % base) - dest[i as int]) * p + (bs * c2) * p == carry * p)
                by (nonlinear_arith)
                requires
                    t == t % base + bs * c2,
                    t == dest[i as int] + carry,
            ;
        }
        dest[i] = (t % base) as u64;
        carry = t / base;
        i = i + 1;
    }
    proof {
        if len == 0 {
            lemma_val_zeros(d0, bs);
            lemma_val_zeros(dest@, bs);
            lemma_pow0(bs);
        }
    }
    carry as u64
}

/// Subtracts a single limb from `dest` in place, borrowing through every
/// limb; returns the borrow out of the top limb.
pub fn sub_const(dest: &mut Vec<IntLimb>, c: IntLimb, base: u128) -> (borrow: IntLimb)
    requires
        valid_base(base as int),
        (c as int) < base,
        limbs_ok(old(dest)@, base as int),
    ensures
        final(dest)@.len() == old(dest)@.len(),
        limbs_ok(final(dest)@, base as int),
        (borrow as int) < base,
        old(dest)@.len() > 0 ==> borrow <= 1,
        val(final(dest)@, base as int) == val(old(dest)@, base as int) - c + borrow * pow(
            base as int,
            old(dest)@.len(),
        ),
{
    let ghost bs = base as int;
    let ghost d0 = dest@;
    let len = dest.len();
    let mut borrow: u128 = c as u128;
    let mut i: usize = 0;
    proof {
        lemma_pow0(bs);
    }
    while i < len
        invariant
            valid_base(bs),
            bs == base as int,
            len == dest@.len(),
            len == d0.len(),
            0 <= i <= len,
            limbs_ok(dest@, bs),
            borrow < base,
            i > 0 ==> borrow <= 1,
            val(dest@, bs) - borrow * pow(bs, i as nat) == val(d0, bs) - c,
        decreases len - i,
    {
        let di = dest[i] as u128;
        let x: u128;
        let next: u128;
        if di >= borrow {
            x = di - borrow;
            next = 0;
        } else {
            x = di + base - borrow;
            next = 1;
        }
        let ghost p = pow(bs, i as nat);
        proof {
            lemma_pow_succ(bs, i as nat);
            lemma_val_update(dest@, i as int, x as u64, bs);
            assert(next * (bs * p) == (next * bs) * p) by (nonlinear_arith);
            assert((x - di) * p == next * bs * p - borrow * p) by (nonlinear_arith)
                requires
                    x == di - borrow + next * bs,
            ;
        }
        dest[i] = x as u64;
        borrow = next;
        i = i + 1;
    }
    proof {
        if len == 0 {
            lemma_val_zeros(d0, bs);
            lemma_val_zeros(dest@, bs);
            lemma_pow0(bs);
        }
    }
    borrow as u64
}

/// Multiplies the lowest `n` limbs of `dest` by a single limb in place and
/// returns the carry out of limb `n - 1`; the limbs from `n` up are kept.
pub fn mul_const(dest: &mut Vec<IntLimb>, c: IntLimb, n: usize, base: u128) -> (carry: IntLimb)
    requires
        valid_base(base as int),
        (c as int) < base,
        n <= old(dest)@.len(),
        limbs_ok(old(dest)@, base as int),
    ensures
        final(dest)@.len() == old(dest)@.len(),
        limbs_ok(final(dest)@, base as int),
        (carry as int) < base,
        final(dest)@.skip(n as int) == old(dest)@.skip(n as int),
        val(final(dest)@.take(n as int), base as int) + carry * pow(base as int, n as nat) == val(
            old(dest)@.take(n as int),
            base as int,
        ) * c,
{
    let ghost bs = base as int;
    let ghost d0 = dest@;
    let len = dest.len();
    let cc = c as u128;
    let mut carry: u128 = 0;
    let mut i: usize = 0;
    proof {
        assert(dest@.take(0) =~= Seq::<u64>::empty());
    }
    while i < n
        invariant
            valid_base(bs),
            bs == base as int,
            len == dest@.len(),
            len == d0.len(),
            n <= len,
            0 <= i <= n,
            cc == c,
            (c as int) < bs,
            limbs_ok(d0, bs),
            limbs_ok(dest@, bs),
            carry < base,
            dest@.skip(i as int) == d0.skip(i as int),
            val(dest@.take(i as int), bs) + carry * pow(bs, i as nat) == val(d0.take(i as int), bs)
                * c,
        decreases n - i,
    {
        let di = dest[i] as u128;
        proof {
            assert(di == d0[i as int]) by {
                assert(dest@.skip(i as int)[0] == d0.skip(i as int)[0]);
            }
            lemma_mul_add_fits(di as int, cc as int, carry as int, 0, bs);
            lemma_mul_upper_bound(di as int, bs, cc as int, bs);
        }
        let t: u128 = di * cc + carry;
        let ghost p = pow(bs, i as nat);
        let ghost prev = dest@;
        proof {
            lemma_digit_step(t as int, bs);
            lemma_pow_succ(bs, i as nat);
            lemma_take_push(d0, i as int, bs);
            let c2 = t / base;
            assert(c2 * (bs * p) == (bs * c2) * p) by (nonlinear_arith);
            assert((t % base) * p + (bs * c2) * p == di * cc * p + carry * p) by (nonlinear_arith)
                requires
                    t == t % base + bs * c2,
                    t == di * cc + carry,
            ;
            assert((val(d0.take(i as int), bs) + di * p) * c == val(d0.take(i as int), bs) * c
                + di * cc * p) by (nonlinear_arith)
                requires
                    cc == c,
            ;
        }
        dest[i] = (t % base) as u64;
        proof {
            assert(dest@.take(i as int) =~= prev.take(i as int));
            lemma_take_push(dest@, i as int, bs);
            assert(dest@.skip(i + 1) =~= d0.skip(i + 1)) by {
                assert forall|x: int| 0 <= x < dest@.skip(i + 1).len() implies #[trigger] dest@.skip(i + 1)[x]
                    == d0.skip(i + 1)[x] by {
                    assert(prev.skip(i as int)[x + 1] == d0.skip(i as int)[x + 1]);
                }
            }
        }
        carry = t / base;
        i = i + 1;
    }
    carry as u64
}

/// Divides `dest`, read most significant limb first, by a single nonzero
/// value in place and returns the remainder.
pub fn div_const(dest: &mut Vec<IntLimb>, c: IntLimb, base: u128) -> (rem: IntLimb)
    requires
        valid_base(base as int),
        c >= 1,
        limbs_ok(old(dest)@, base as int),
    ensures
        final(dest)@.len() == old(dest)@.len(),
        limbs_ok(final(dest)@, base as int),
        rem < c,
        val_msf(old(dest)@, base as int) == val_msf(final(dest)@, base as int) * c + rem,
{
    let ghost bs = base as int;
    let ghost d0 = dest@;
    let len = dest.len();
    let cc = c as u128;
    let mut rem: u128 = 0;
    let mut i: usize = 0;
    proof {
        assert(dest@.take(0) =~= Seq::<u64>::empty());
        assert(d0.take(0) =~= Seq::<u64>::empty());
    }
    while i < len
        invariant
            valid_base(bs),
            bs == base as int,
            len == dest@.len(),
            len == d0.len(),
            0 <= i <= len,
            cc == c,
            c >= 1,
            limbs_ok(d0, bs),
            limbs_ok(dest@, bs),
            rem < cc,
            dest@.skip(i as int) == d0.skip(i as int),
            val_msf(d0.take(i as int), bs) == val_msf(dest@.take(i as int), bs) * c + rem,
        decreases len - i,
    {
        let di = dest[i] as u128;
        proof {
            assert(di == d0[i as int]) by {
                assert(dest@.skip(i as int)[0] == d0.skip(i as int)[0]);
            }
            assert(rem * bs + di < cc * bs) by (nonlinear_arith)
                requires
                    rem < cc,
                    di < bs,
            ;
            lemma_mul_upper_bound(cc as int, native_base(), bs, native_base());
            lemma_mul_upper_bound(rem as int, cc as int, bs, bs);
        }
        let t: u128 = rem * base + di;
        let q: u128 = t / cc;
        let r2: u128 = t % cc;
        let ghost prev = dest@;
        proof {
            lemma_fundamental_div_mod(t as int, cc as int);
            lemma_mod_pos_bound(t as int, cc as int);
            lemma_div_pos_is_pos(t as int, cc as int);
            if q >= base {
                lemma_mul_inequality(bs, q as int, cc as int);
                lemma_mul_is_commutative(cc as int, q as int);
                lemma_mul_is_commutative(cc as int, bs);
            }
            assert(d0.take(i + 1).drop_last() =~= d0.take(i as int));
        }
        dest[i] = q as u64;
        proof {
            assert(dest@.take(i + 1).drop_last() =~= prev.take(i as int));
            assert(prev.take(i as int) =~= dest@.take(i as int));
            let vq = val_msf(dest@.take(i as int), bs);
            assert(val_msf(d0.take(i + 1), bs) == (vq * c + rem) * bs + di);
            assert(val_msf(dest@.take(i + 1), bs) == vq * bs + q);
            assert((vq * c + rem) * bs + di == (vq * bs + q) * c + r2) by (nonlinear_arith)
                requires
                    t == rem * bs + di,
                    t == cc * q + r2,
                    cc == c,
            ;
            assert(dest@.skip(i + 1) =~= d0.skip(i + 1)) by {
                assert forall|x: int| 0 <= x < dest@.skip(i + 1).len() implies #[trigger] dest@.skip(i + 1)[x]
                    == d0.skip(i + 1)[x] by {
                    assert(prev.skip(i as int)[x + 1] == d0.skip(i as int)[x + 1]);
                }
            }
        }
        rem = r2;
        i = i + 1;
    }
    proof {
        assert(dest@.take(len as int) =~= dest@);
        assert(d0.take(len as int) =~= d0);
    }
    rem as u64
}

} // verus!
