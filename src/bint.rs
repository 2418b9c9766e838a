//! A big unsigned integer held as a magnitude in its own base.
use crate::base_ops;
use crate::conversions::{
    all_digits, convert_from_internal, convert_from_string, digits_len_ok, digits_of,
};
use crate::model::{is_mag, len_ok, lemma_to_mag, limbs_ok, to_mag, val, val_msf};
use crate::utils::{lemma_trimmed, new_repr, trim_zeros};
use crate::IntLimb;
use vstd::arithmetic::div_mod::*;
use vstd::prelude::*;

verus! {

/// The character of a decimal digit.
pub open spec fn digit_char(d: int) -> char {
    (d + 48) as char
}

/// The decimal numeral of a natural number, without leading zeros.
pub open spec fn decimal(x: nat) -> Seq<char>
    decreases x,
{
    if x < 10 {
        seq![digit_char(x as int)]
    } else {
        decimal(x / 10).push(digit_char((x % 10) as int))
    }
}

/// The numeral of least-significant-first decimal digits.
pub open spec fn digits_text(t: Seq<u64>) -> Seq<char>
    decreases t.len(),
{
    if t.len() == 0 {
        Seq::empty()
    } else {
        digits_text(t.skip(1)).push(digit_char(t[0] as int))
    }
}

proof fn lemma_digits_text(x: int)
    requires
        x > 0,
    ensures
        digits_text(to_mag(x, 10)) == decimal(x as nat),
    decreases x,
{
    lemma_fundamental_div_mod(x, 10);
    lemma_mod_pos_bound(x, 10);
    lemma_div_pos_is_pos(x, 10);
    let t = to_mag(x, 10);
    assert(t == seq![(x % 10) as u64] + to_mag(x / 10, 10));
    assert(t.skip(1) =~= to_mag(x / 10, 10));
    assert(t[0] == (x % 10) as u64);
    assert(digits_text(t) == digits_text(t.skip(1)).push(digit_char(x % 10)));
    if x / 10 == 0 {
        assert(to_mag(0, 10) =~= Seq::<u64>::empty());
        assert(digits_text(Seq::<u64>::empty()) == Seq::<char>::empty());
        assert(x < 10);
        lemma_fundamental_div_mod_converse(x, 10, 0, x);
        assert(Seq::<char>::empty().push(digit_char(x)) =~= seq![digit_char(x)]);
    } else {
        lemma_div_is_strictly_smaller(x, 10);
        lemma_digits_text(x / 10);
        assert(x >= 10);
        assert((x as nat) / 10 == x / 10);
        assert((x as nat) % 10 == x % 10);
    }
}

/// The numeral of one decimal digit.
fn digit_str(d: u64) -> (r: &'static str)
    requires
        d < 10,
    ensures
        r@ == seq![digit_char(d as int)],
{
    proof {
        reveal_strlit("0");
        reveal_strlit("1");
        reveal_strlit("2");
        reveal_strlit("3");
        reveal_strlit("4");
        reveal_strlit("5");
        reveal_strlit("6");
        reveal_strlit("7");
        reveal_strlit("8");
        reveal_strlit("9");
    }
    match d {
        0 => "0",
        1 => "1",
        2 => "2",
        3 => "3",
        4 => "4",
        5 => "5",
        6 => "6",
        7 => "7",
        8 => "8",
        _ => "9",
    }
}

/// A big integer: a magnitude in `base` and a signed limb count `size`,
/// negative for a number built with a negative sign. The arithmetic works on
/// the magnitudes.
#[derive(Debug)]
pub struct Bint {
    base: u64,
    size: i32,
    repr: Vec<IntLimb>,
}

impl Bint {
    /// The base is at least two and the limbs form a magnitude in it.
    pub closed spec fn wf(&self) -> bool {
        &&& self.base >= 2
        &&& is_mag(self.repr@, self.base as int)
    }

    /// The magnitude the number holds.
    pub closed spec fn value(&self) -> int {
        val(self.repr@, self.base as int)
    }

    /// The base of the number.
    pub closed spec fn base_spec(&self) -> int {
        self.base as int
    }

    /// The limbs of the number.
    pub closed spec fn limbs(&self) -> Seq<u64> {
        self.repr@
    }

    /// Zero in `base`.
    pub fn zero(base: u64) -> (r: Bint)
        requires
            base >= 2,
        ensures
            r.wf(),
            r.value() == 0,
            r.base_spec() == base,
            r.limbs().len() == 0,
    {
        Bint { base, size: 0, repr: Vec::new() }
    }

    /// One in `base`.
    pub fn one(base: u64) -> (r: Bint)
        requires
            base >= 2,
        ensures
            r.wf(),
            r.value() == 1,
            r.base_spec() == base,
            r.limbs().len() == 1,
    {
        let mut repr: Vec<IntLimb> = Vec::new();
        repr.push(1);
        proof {
            crate::model::lemma_val_single(1, base as int);
        }
        Bint { base, size: 1, repr }
    }

    /// `value` in `base`; `sign` false marks it negative in the limb count.
    pub fn new(base: u64, value: u64, sign: bool) -> (r: Bint)
        requires
            base >= 2,
        ensures
            r.wf(),
            r.value() == value,
            r.base_spec() == base,
            r.limbs().len() <= 64,
    {
        let repr = new_repr(value, base as u128);
        proof {
            lemma_to_mag(value as int, base as int);
            crate::model::lemma_val_bound(repr@, base as int);
            assert(vstd::arithmetic::power::pow(2, 64) == 0x1_0000_0000_0000_0000) by {
                vstd::arithmetic::power2::lemma2_to64();
                vstd::arithmetic::power2::lemma_pow2(64);
            }
            crate::model::lemma_pow_nonneg(base as int, 64);
            crate::conversions::lemma_pow_increases_base(2, base as int, 64);
            crate::model::lemma_mag_len(repr@, 64, base as int);
        }
        let count = repr.len() as i32;
        let size = if value == 0 {
            0
        } else if sign {
            count
        } else {
            -count
        };
        Bint { base, size, repr }
    }

    /// The number with the given limbs in `base`, trimmed to canonical form.
    pub fn from_repr(base: u64, repr: Vec<IntLimb>) -> (r: Bint)
        requires
            base >= 2,
            limbs_ok(repr@, base as int),
        ensures
            r.wf(),
            r.value() == val(repr@, base as int),
            r.base_spec() == base,
    {
        let mut repr = repr;
        let ghost full = repr@;
        trim_zeros(&mut repr);
        proof {
            lemma_trimmed(full, repr@, base as int);
        }
        let size = repr.len() as i32;
        Bint { base, size, repr }
    }

    /// The sum of two numbers in the same base.
    pub fn add(&self, other: &Bint) -> (r: Bint)
        requires
            self.wf(),
            other.wf(),
            self.base_spec() == other.base_spec(),
            len_ok(self.limbs()),
            len_ok(other.limbs()),
        ensures
            r.wf(),
            r.value() == self.value() + other.value(),
            r.base_spec() == self.base_spec(),
    {
        let repr = base_ops::add(&self.repr, &other.repr, self.base as u128);
        proof {
            crate::model::lemma_val_nonneg(self.repr@, self.base as int);
            crate::model::lemma_val_nonneg(other.repr@, self.base as int);
            lemma_to_mag(self.value() + other.value(), self.base as int);
        }
        let size = repr.len() as i32;
        Bint { base: self.base, size, repr }
    }

    /// The product of two numbers in the same base.
    pub fn mul(&self, other: &Bint) -> (r: Bint)
        requires
            self.wf(),
            other.wf(),
            self.base_spec() == other.base_spec(),
            len_ok(self.limbs()),
            len_ok(other.limbs()),
        ensures
            r.wf(),
            r.value() == self.value() * other.value(),
            r.base_spec() == self.base_spec(),
    {
        let repr = base_ops::mul(&self.repr, &other.repr, self.base as u128);
        proof {
            crate::model::lemma_val_nonneg(self.repr@, self.base as int);
            crate::model::lemma_val_nonneg(other.repr@, self.base as int);
            vstd::arithmetic::mul::lemma_mul_nonnegative(self.value(), other.value());
            lemma_to_mag(self.value() * other.value(), self.base as int);
        }
        let size = repr.len() as i32;
        Bint { base: self.base, size, repr }
    }

    /// Parses `(from, to, digits)`: the digits of a number in radix `from`,
    /// most significant first, into a number in base `to`.
    pub fn from(b_number: (u64, u64, &str)) -> (r: Bint)
        requires
            2 <= b_number.0 <= 36,
            b_number.1 >= 2,
            all_digits(b_number.2@, b_number.0 as int),
            digits_len_ok(b_number.2@.len() as int),
        ensures
            r.wf(),
            r.value() == val_msf(digits_of(b_number.2@), b_number.0 as int),
            r.base_spec() == b_number.1,
    {
        let (from, to, number) = b_number;
        let text = String::from_str(number);
        let parsed = convert_from_string(from, text, to as u128);
        let repr = parsed.unwrap();
        proof {
            crate::model::lemma_val_msf(digits_of(number@), from as int);
            crate::model::lemma_val_nonneg(digits_of(number@).reverse(), from as int);
            lemma_to_mag(val_msf(digits_of(number@), from as int), to as int);
        }
        let size = repr.len() as i32;
        Bint { base: to, size, repr }
    }

    /// The decimal numeral of the number.
    pub fn to_string(&self) -> (r: String)
        requires
            self.wf(),
        ensures
            r@ == decimal(self.value() as nat),
    {
        let digits = convert_from_internal(10, &self.repr, self.base as u128);
        let mut s = String::new();
        let n = digits.len();
        proof {
            crate::model::lemma_val_nonneg(self.repr@, self.base as int);
            lemma_to_mag(self.value(), 10);
        }
        if n == 0 {
            proof {
                if self.value() > 0 {
                    assert(to_mag(self.value(), 10).len() > 0);
                }
            }
            s.append(digit_str(0));
            return s;
        }
        let mut k: usize = n;
        proof {
            assert(digits@.skip(n as int) =~= Seq::<u64>::empty());
        }
        while k > 0
            invariant
                0 <= k <= n,
                n == digits@.len(),
                digits@ == to_mag(self.value(), 10),
                crate::model::limbs_ok(digits@, 10),
                s@ == digits_text(digits@.skip(k as int)),
            decreases k,
        {
            k = k - 1;
            proof {
                assert(digits@.skip(k as int).skip(1) =~= digits@.skip(k + 1));
                assert(digits@.skip(k as int)[0] == digits@[k as int]);
            }
            s.append(digit_str(digits[k]));
        }
        proof {
            assert(digits@.skip(0) =~= digits@);
            if self.value() == 0 {
                assert(to_mag(0, 10) =~= Seq::<u64>::empty());
            }
            lemma_digits_text(self.value());
        }
        s
    }
}

} // verus!
