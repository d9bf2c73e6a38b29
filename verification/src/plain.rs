//! A decimal number kept in normal form (little-endian digits, a
//! non-negative scale, no redundant zeros, a positive zero), with exact sums,
//! differences and products, division truncated to twenty fractional digits,
//! numeric comparison and plain formatting.
use vstd::prelude::*;
use std::cmp::Ordering;
use crate::digits::{
    all_digits, all_zero, le_canonical, le_digits_of, le_val, lemma_le_canonical_is_digits_of,
    lemma_le_push, lemma_le_single, pow10,
};
use crate::legacy::{
    digits_and_commas, digits_of_text, lemma_scan_layout, lemma_trim_plain, scan, scan_body,
    scan_error_message, scan_message,
};
use crate::text::{
    chars_of, digit_text, push_char, push_str, split_words, string_of, trim, trim_chars,
    usize_to_text, word_views, words,
};
use crate::rounding::{
    abs, add_abs, compare_digits, diff_value, div_rem_abs, larger, lemma_read_plain,
    lemma_shift_val, lemma_strip_idem, lemma_strip_zero, mul_abs, mul_value, plain_string,
    plain_text, shift_up, strip, sub_abs, sum_value, trim_high_zeros,
};

verus! {

/// A decimal number: the value is `±le_val(digits) / 10^scale`, the digits
/// stored least significant first.
#[derive(Clone, Debug, PartialEq, Eq)]
pub struct BigDecimal {
    sign: bool,
    digits: Vec<u8>,
    scale: usize,
}

/// Errors of parsing and division.
#[derive(Clone, Debug, PartialEq)]
pub enum BigDecimalError {
    InvalidFormat(String),
    DivisionByZero,
    InvalidInput(String),
}

/// The normal form of the value `t.0 / 10^t.1`: the value pair with trailing
/// fractional zeros removed (and a zero at scale 0).
pub open spec fn normal_pair(t: (int, int)) -> (int, int) {
    let q = strip(abs(t.0), t.1);
    (if t.0 < 0 {
        -q.0
    } else {
        q.0 as int
    }, q.1)
}

impl BigDecimal {
    /// The value as a pair: the signed digits value and the scale.
    pub closed spec fn value(&self) -> (int, int) {
        ((if self.sign {
            1int
        } else {
            -1int
        }) * le_val(self.digits@), self.scale as int)
    }

    /// The normal form: canonical digits, no trailing fractional zero, and a
    /// zero stored as `+0` with scale 0.
    pub closed spec fn wf(&self) -> bool {
        &&& le_canonical(self.digits@)
        &&& self.scale > 0 ==> self.digits@[0] != 0
        &&& le_val(self.digits@) == 0 ==> self.sign && self.scale == 0
    }

    /// Decimal digits, at least one.
    pub closed spec fn valid(&self) -> bool {
        all_digits(self.digits@) && 1 <= self.digits@.len()
    }

    /// The number of stored digits.
    pub closed spec fn size(&self) -> nat {
        self.digits@.len()
    }

    /// Decimal digits (not necessarily normal).
    pub closed spec fn raw_ok(&self) -> bool {
        all_digits(self.digits@)
    }

    /// The two operands of an operation fit the machine: the digit count or
    /// scale of one plus the digit count or scale of the other, with room
    /// for the twenty digits of a quotient, is a `usize`. The digit vectors
    /// that the operations build (aligned operands, products, shifted
    /// dividends) are then within `usize` lengths.
    pub open spec fn fits_with(&self, other: &Self) -> bool {
        &&& self.size() + other.size() + 32 <= usize::MAX
        &&& self.size() + other.value().1 + 32 <= usize::MAX
        &&& self.value().1 + other.size() + 32 <= usize::MAX
        &&& self.value().1 + other.value().1 + 32 <= usize::MAX
    }

    /// `self` is the normal form of `t`.
    pub open spec fn denotes(&self, t: (int, int)) -> bool {
        self.wf() && self.value() == normal_pair(t)
    }
}

/// `1` for a positive sign, `-1` for a negative one.
spec fn sign_one(s: bool) -> int {
    if s {
        1
    } else {
        -1
    }
}

proof fn lemma_signed_value(s: bool, m: nat)
    ensures
        s ==> sign_one(s) * m == m,
        !s ==> sign_one(s) * m == -m,
{
    let i = sign_one(s);
    if s {
        assert(i * m == m) by (nonlinear_arith)
            requires
                i == 1,
        ;
    } else {
        assert(i * m == -m) by (nonlinear_arith)
            requires
                i == -1,
        ;
    }
}

proof fn lemma_value_parts(x: BigDecimal)
    ensures
        x.value().0 == sign_one(x.sign) * le_val(x.digits@),
        x.value().1 == x.scale as int,
        abs(x.value().0) == le_val(x.digits@),
        x.value().0 < 0 <==> !x.sign && le_val(x.digits@) > 0,
{
    lemma_signed_value(x.sign, le_val(x.digits@));
}

proof fn lemma_low_digit(d: Seq<u8>)
    requires
        d.len() > 0,
        all_digits(d),
    ensures
        le_val(d) % 10 == d[0] as nat,
        le_val(d) / 10 == le_val(d.drop_first()),
        all_digits(d.drop_first()),
{
    crate::digits::lemma_le_first(d);
    assert(d[0] <= 9);
}

proof fn lemma_strip_zero_scale(s: int)
    requires
        s >= 0,
    ensures
        strip(0, s) == (0nat, 0int),
    decreases s,
{
    if s > 0 {
        lemma_strip_zero_scale(s - 1);
    }
}

proof fn lemma_zero_digits(d: Seq<u8>)
    requires
        le_canonical(d),
    ensures
        (le_val(d) == 0) == (d == seq![0u8]),
{
    if le_val(d) == 0 {
        crate::digits::lemma_val_zero_all_zero(d);
        if d.len() > 1 {
            assert(d.last() == 0);
        }
        assert(d =~= seq![0u8]);
    }
    if d == seq![0u8] {
        lemma_le_single(0);
    }
}

impl BigDecimal {
    /// Zero.
    pub fn zero() -> (r: Self)
        ensures
            r.wf(),
            r.size() == 1,
            r.value() == (0int, 0int),
    {
        let r = BigDecimal { sign: true, digits: vec![0u8], scale: 0 };
        proof {
            assert(r.digits@ =~= seq![0u8]);
            lemma_le_single(0);
        }
        r
    }

    /// One.
    pub fn one() -> (r: Self)
        ensures
            r.wf(),
            r.size() == 1,
            r.value() == (1int, 0int),
    {
        let r = BigDecimal { sign: true, digits: vec![1u8], scale: 0 };
        proof {
            assert(r.digits@ =~= seq![1u8]);
            lemma_le_single(1);
        }
        r
    }

    /// Whether every digit is zero.
    pub fn is_zero(&self) -> (r: bool)
        ensures
            r == (self.value().0 == 0),
    {
        let mut i: usize = 0;
        while i < self.digits.len()
            invariant
                i <= self.digits@.len(),
                all_zero(self.digits@.subrange(0, i as int)),
            decreases self.digits@.len() - i,
        {
            if self.digits[i] != 0 {
                proof {
                    lemma_value_parts(*self);
                    crate::digits::lemma_val_zero_all_zero(self.digits@);
                }
                return false;
            }
            i = i + 1;
            proof {
                let t = self.digits@.subrange(0, i as int);
                assert forall|k: int| 0 <= k < t.len() implies #[trigger] t[k] == 0 by {
                    if k < i - 1 {
                        assert(t[k] == self.digits@.subrange(0, i - 1)[k]);
                    }
                }
            }
        }
        proof {
            assert(self.digits@.subrange(0, self.digits@.len() as int) =~= self.digits@);
            crate::digits::lemma_all_zero_val(self.digits@);
            lemma_value_parts(*self);
        }
        true
    }

    /// Whether the number is below zero.
    pub fn is_negative(&self) -> (r: bool)
        ensures
            r == (self.value().0 < 0),
    {
        proof {
            lemma_value_parts(*self);
        }
        !self.sign && !self.is_zero()
    }

    /// Whether the number is above zero.
    pub fn is_positive(&self) -> (r: bool)
        ensures
            r == (self.value().0 > 0),
    {
        proof {
            lemma_value_parts(*self);
        }
        self.sign && !self.is_zero()
    }

    /// The number of digits after the point.
    pub fn scale(&self) -> (r: usize)
        ensures
            r as int == self.value().1,
    {
        self.scale
    }

    /// Brings the number to its normal form: drops leading zeros of the
    /// integer part and trailing zeros of the fractional part; a zero becomes
    /// `+0` with scale 0.
    pub fn normalize(&mut self)
        requires
            old(self).raw_ok(),
        ensures
            final(self).denotes(old(self).value()),
            final(self).size() <= old(self).size() || final(self).size() == 1,
            final(self).value().1 <= old(self).value().1,
    {
        let ghost v0 = le_val(self.digits@);
        let ghost s0 = self.scale as int;
        let ghost sg = self.sign;
        let ghost len0 = self.digits@.len();
        while self.digits.len() > 1 && self.digits[self.digits.len() - 1] == 0
            invariant
                self.sign == sg,
                self.scale as int == s0,
                all_digits(self.digits@),
                le_val(self.digits@) == v0,
                self.digits@.len() <= len0,
                len0 >= 1 ==> self.digits@.len() >= 1,
                len0 == 0 ==> self.digits@.len() == 0,
            decreases self.digits@.len(),
        {
            let ghost d = self.digits@;
            self.digits.pop();
            proof {
                assert(d.drop_last() =~= self.digits@);
                lemma_le_push(self.digits@, 0);
                assert(self.digits@.push(0) =~= d);
                let w = pow10(self.digits@.len());
                assert(0 * w == 0) by (nonlinear_arith);
                assert(le_val(self.digits@) == le_val(d));
            }
        }
        if self.digits.len() == 0 {
            self.digits.push(0);
            proof {
                lemma_le_single(0);
                assert(self.digits@ =~= seq![0u8]);
            }
        }
        proof {
            assert(le_canonical(self.digits@));
            assert(le_val(self.digits@) == v0);
            lemma_value_parts(*self);
        }
        if self.is_zero() {
            self.sign = true;
            self.scale = 0;
            proof {
                lemma_value_parts(*self);
                lemma_strip_zero_scale(s0);
                lemma_zero_digits(self.digits@);
            }
        }
        let ghost sg2 = self.sign;
        while self.scale > 0
            invariant_except_break
                self.sign == sg2,
                le_canonical(self.digits@),
                le_val(self.digits@) == 0 ==> self.scale == 0,
                strip(le_val(self.digits@), self.scale as int) == strip(v0, s0),
                self.scale as int <= s0,
                self.digits@.len() <= len0 || len0 == 0,
            ensures
                self.sign == sg2,
                le_canonical(self.digits@),
                le_val(self.digits@) == 0 ==> self.scale == 0,
                strip(le_val(self.digits@), self.scale as int) == strip(v0, s0),
                strip(le_val(self.digits@), self.scale as int) == (
                    le_val(self.digits@),
                    self.scale as int,
                ),
                self.scale > 0 ==> self.digits@[0] != 0,
                self.scale as int <= s0,
                self.digits@.len() <= len0 || len0 == 0,
            decreases self.scale,
        {
            if !self.digits.is_empty() && self.digits[0] == 0 {
                proof {
                    lemma_low_digit(self.digits@);
                    if self.digits@.len() == 1 {
                        assert(self.digits@ =~= seq![0u8]);
                        lemma_le_single(0);
                    }
                    assert(self.digits@.len() >= 2);
                }
                let ghost d = self.digits@;
                self.digits.remove(0);
                self.scale = self.scale - 1;
                proof {
                    assert(self.digits@ =~= d.drop_first());
                    assert(self.digits@.last() == d.last());
                }
            } else {
                proof {
                    lemma_low_digit(self.digits@);
                }
                break;
            }
        }
        proof {
            lemma_value_parts(*self);
            lemma_zero_digits(self.digits@);
            lemma_strip_zero(v0, s0);
            if v0 == 0 {
                lemma_strip_zero_scale(s0);
            }
            let t = (sign_one(sg) * v0, s0);
            lemma_signed_value(sg, v0);
            lemma_signed_value(self.sign, le_val(self.digits@));
        }
    }
}

// ---------------------------------------------------------------------------
// Comparison and arithmetic
// ---------------------------------------------------------------------------

/// The magnitude of the value `t` in units of `10^-s`, for `s >= t.1`.
pub open spec fn magnitude_at(t: (int, int), s: int) -> nat {
    abs(t.0) * pow10((s - t.1) as nat)
}

/// `|a|` and `|b|` in units of the smaller unit of the two.
pub open spec fn magnitudes(a: (int, int), b: (int, int)) -> (nat, nat) {
    (magnitude_at(a, larger(a.1, b.1)), magnitude_at(b, larger(a.1, b.1)))
}

/// The quotient `|a| / |b|` truncated to twenty fractional digits, signed by
/// the signs of the operands, at scale twenty.
pub open spec fn quotient_value(a: (int, int), b: (int, int)) -> (int, int) {
    let q = (abs(a.0) * pow10((20 + b.1) as nat) / (abs(b.0) * pow10(a.1 as nat))) as int;
    (if (a.0 < 0) != (b.0 < 0) {
        -q
    } else {
        q
    }, 20)
}

/// The normal form of a value's normal form is itself; negation commutes
/// with it.
pub proof fn lemma_normal_pair(t: (int, int))
    ensures
        normal_pair(normal_pair(t)) == normal_pair(t),
        normal_pair((-t.0, t.1)) == (-normal_pair(t).0, normal_pair(t).1),
{
    lemma_strip_idem(abs(t.0), t.1);
    lemma_strip_zero(abs(t.0), t.1);
}

proof fn lemma_wf_value(x: BigDecimal)
    requires
        x.wf(),
    ensures
        normal_pair(x.value()) == x.value(),
        x.digits@ == le_digits_of(abs(x.value().0)),
        x.value().1 >= 0,
{
    lemma_value_parts(x);
    lemma_le_canonical_is_digits_of(x.digits@);
    let v = le_val(x.digits@);
    if x.scale > 0 {
        lemma_low_digit(x.digits@);
    }
    lemma_zero_digits(x.digits@);
}

impl BigDecimal {
    /// The digits of `|self|` and `|other|` brought to the larger scale, and
    /// that scale.
    fn aligned_magnitudes(&self, other: &Self) -> (r: (Vec<u8>, Vec<u8>, usize))
        requires
            self.valid(),
            other.valid(),
            self.fits_with(other),
        ensures
            r.2 as int == larger(self.value().1, other.value().1),
            le_val(r.0@) == magnitudes(self.value(), other.value()).0,
            le_val(r.1@) == magnitudes(self.value(), other.value()).1,
            all_digits(r.0@),
            all_digits(r.1@),
            1 <= r.0@.len() <= self.size() + other.value().1,
            1 <= r.1@.len() <= other.size() + self.value().1,
    {
        let max_scale = if self.scale >= other.scale {
            self.scale
        } else {
            other.scale
        };
        let a = shift_up(&self.digits, max_scale - self.scale);
        let b = shift_up(&other.digits, max_scale - other.scale);
        proof {
            lemma_value_parts(*self);
            lemma_value_parts(*other);
            let ka = (max_scale - self.scale) as nat;
            let kb = (max_scale - other.scale) as nat;
            lemma_shift_val(self.digits@, ka);
            lemma_shift_val(other.digits@, kb);
            assert(pow10(ka) * le_val(self.digits@) == le_val(self.digits@) * pow10(ka))
                by (nonlinear_arith);
            assert(pow10(kb) * le_val(other.digits@) == le_val(other.digits@) * pow10(kb))
                by (nonlinear_arith);
        }
        (a, b, max_scale)
    }

    /// Compares `|self|` with `|other|`.
    fn compare_abs(&self, other: &Self) -> (r: Ordering)
        requires
            self.valid(),
            other.valid(),
            self.fits_with(other),
        ensures
            (r == Ordering::Less) == (magnitudes(self.value(), other.value()).0 < magnitudes(
                self.value(),
                other.value(),
            ).1),
            (r == Ordering::Equal) == (magnitudes(self.value(), other.value()).0 == magnitudes(
                self.value(),
                other.value(),
            ).1),
            (r == Ordering::Greater) == (magnitudes(self.value(), other.value()).0 > magnitudes(
                self.value(),
                other.value(),
            ).1),
    {
        let (mut a, mut b, _common) = self.aligned_magnitudes(other);
        trim_high_zeros(&mut a);
        trim_high_zeros(&mut b);
        compare_digits(&a, &b)
    }
}

/// The sign facts that `compare` rests on.
proof fn lemma_compare_signs(a: BigDecimal, b: BigDecimal)
    requires
        a.wf(),
        b.wf(),
    ensures
        a.sign && !b.sign ==> diff_value(a.value(), b.value()).0 > 0,
        !a.sign && b.sign ==> diff_value(a.value(), b.value()).0 < 0,
        a.sign && b.sign ==> diff_value(a.value(), b.value()).0 == magnitudes(a.value(), b.value()).0
            - magnitudes(a.value(), b.value()).1,
        !a.sign && !b.sign ==> diff_value(a.value(), b.value()).0 == magnitudes(
            a.value(),
            b.value(),
        ).1 - magnitudes(a.value(), b.value()).0,
{
    lemma_value_parts(a);
    lemma_value_parts(b);
    let s = larger(a.value().1, b.value().1);
    let pa = pow10((s - a.value().1) as nat);
    let pb = pow10((s - b.value().1) as nat);
    crate::digits::lemma_pow10_pos((s - a.value().1) as nat);
    crate::digits::lemma_pow10_pos((s - b.value().1) as nat);
    let x = a.value().0;
    let y = b.value().0;
    lemma_scaled(x, pa);
    lemma_scaled(y, pb);
    if !b.sign {
        assert(abs(y) > 0);
        assert(abs(y) * pb > 0) by (nonlinear_arith)
            requires
                abs(y) > 0,
                pb >= 1,
        ;
    }
    if !a.sign {
        assert(abs(x) > 0);
        assert(abs(x) * pa > 0) by (nonlinear_arith)
            requires
                abs(x) > 0,
                pa >= 1,
        ;
    }
}

proof fn lemma_scaled(t: int, p: nat)
    ensures
        t >= 0 ==> t * p == abs(t) * p,
        t < 0 ==> t * p == -(abs(t) * p),
{
    if t < 0 {
        assert(t * p == -((-t) * p)) by (nonlinear_arith);
    }
}

impl BigDecimal {
    /// Numeric comparison.
    pub fn compare(&self, other: &Self) -> (r: Ordering)
        requires
            self.wf(),
            other.wf(),
            self.fits_with(other),
        ensures
            (r == Ordering::Less) == (diff_value(self.value(), other.value()).0 < 0),
            (r == Ordering::Equal) == (diff_value(self.value(), other.value()).0 == 0),
            (r == Ordering::Greater) == (diff_value(self.value(), other.value()).0 > 0),
    {
        proof {
            lemma_compare_signs(*self, *other);
            lemma_wf_valid(*self);
            lemma_wf_valid(*other);
        }
        if self.sign != other.sign {
            return if self.sign {
                Ordering::Greater
            } else {
                Ordering::Less
            };
        }
        if self.is_zero() && other.is_zero() {
            return Ordering::Equal;
        }
        let abs_order = self.compare_abs(other);
        if self.sign {
            abs_order
        } else {
            match abs_order {
                Ordering::Less => Ordering::Greater,
                Ordering::Greater => Ordering::Less,
                Ordering::Equal => Ordering::Equal,
            }
        }
    }
}

impl BigDecimal {
    /// Whether `self` and `other` fit the machine together (see `fits_with`),
    /// the condition of every operation on the two.
    pub fn operands_fit(&self, other: &Self) -> (r: bool)
        ensures
            r == self.fits_with(other),
    {
        let limit: usize = usize::MAX - 32;
        let la = self.digits.len();
        let lb = other.digits.len();
        la <= limit && lb <= limit - la && other.scale <= limit - la && self.scale <= limit
            && lb <= limit - self.scale && other.scale <= limit - self.scale
    }
}

/// A number in normal form is valid for the arithmetic and for `normalize`.
pub proof fn lemma_wf_valid(x: BigDecimal)
    requires
        x.wf(),
    ensures
        x.valid(),
        x.raw_ok(),
{
}

proof fn lemma_flip_sign(s: bool, x: int)
    ensures
        sign_one(!s) * x == sign_one(s) * (-x),
{
    lemma_signed_int(s, x);
    lemma_signed_int(!s, x);
    lemma_signed_int(s, -x);
}

proof fn lemma_signed_int(s: bool, x: int)
    ensures
        s ==> sign_one(s) * x == x,
        !s ==> sign_one(s) * x == -x,
{
    let i = sign_one(s);
    if s {
        assert(i * x == x) by (nonlinear_arith)
            requires
                i == 1,
        ;
    } else {
        assert(i * x == -x) by (nonlinear_arith)
            requires
                i == -1,
        ;
    }
}

/// A sum in terms of the operands' signs and aligned magnitudes.
proof fn lemma_sum_parts(a: BigDecimal, b: BigDecimal)
    ensures
        sum_value(a.value(), b.value()).0 == sign_one(a.sign) * magnitudes(a.value(), b.value()).0
            + sign_one(b.sign) * magnitudes(a.value(), b.value()).1,
        sum_value(a.value(), b.value()).1 == larger(a.value().1, b.value().1),
        larger(b.value().1, a.value().1) == larger(a.value().1, b.value().1),
        magnitudes(b.value(), a.value()).0 == magnitudes(a.value(), b.value()).1,
        magnitudes(b.value(), a.value()).1 == magnitudes(a.value(), b.value()).0,
{
    lemma_value_parts(a);
    lemma_value_parts(b);
    let s = larger(a.value().1, b.value().1);
    let pa = pow10((s - a.value().1) as nat);
    let pb = pow10((s - b.value().1) as nat);
    let la = le_val(a.digits@);
    let lb = le_val(b.digits@);
    assert(sign_one(a.sign) * la * pa == sign_one(a.sign) * (la * pa)) by (nonlinear_arith);
    assert(sign_one(b.sign) * lb * pb == sign_one(b.sign) * (lb * pb)) by (nonlinear_arith);
}

proof fn lemma_negated_sum(a: (int, int), b: (int, int))
    ensures
        sum_value(a, (-b.0, b.1)) == diff_value(a, b),
{
    let s = larger(a.1, b.1);
    let pb = pow10((s - b.1) as nat);
    assert((-b.0) * pb == -(b.0 * pb)) by (nonlinear_arith);
}

/// Giving a non-negative normal value a sign and normalizing again is the
/// normal form of the signed value.
proof fn lemma_resign(x: nat, s: int, sgn: bool)
    ensures
        normal_pair((sign_one(sgn) * normal_pair((x as int, s)).0, normal_pair((x as int, s)).1))
            == normal_pair((sign_one(sgn) * x, s)),
{
    let t = (x as int, s);
    let n = normal_pair(t);
    lemma_normal_pair(t);
    lemma_signed_int(sgn, n.0);
    lemma_signed_int(sgn, x as int);
    lemma_normal_pair(n);
}

impl BigDecimal {
    /// `|self| + |other|` with the sign of `self`, at the larger scale.
    fn add_abs(&self, other: &Self) -> (r: Result<Self, BigDecimalError>)
        requires
            self.valid(),
            other.valid(),
            self.fits_with(other),
        ensures
            r matches Ok(v) && v.denotes(
                (
                    sign_one(self.sign) * (magnitudes(self.value(), other.value()).0 + magnitudes(
                        self.value(),
                        other.value(),
                    ).1),
                    larger(self.value().1, other.value().1),
                ),
            ),
    {
        let (a, b, max_scale) = self.aligned_magnitudes(other);
        let digits = add_abs(&a, &b);
        let mut result = BigDecimal { sign: self.sign, digits, scale: max_scale };
        proof {
            lemma_value_parts(result);
        }
        result.normalize();
        Ok(result)
    }

    /// `|larger| - |smaller|` (not negative) with sign `sign`, at the larger
    /// scale.
    fn difference(larger_one: &Self, smaller_one: &Self, sign: bool) -> (r: Self)
        requires
            larger_one.valid(),
            smaller_one.valid(),
            larger_one.fits_with(smaller_one),
            magnitudes(larger_one.value(), smaller_one.value()).0 >= magnitudes(
                larger_one.value(),
                smaller_one.value(),
            ).1,
        ensures
            r.denotes(
                (
                    sign_one(sign) * (magnitudes(larger_one.value(), smaller_one.value()).0
                        - magnitudes(larger_one.value(), smaller_one.value()).1),
                    larger(larger_one.value().1, smaller_one.value().1),
                ),
            ),
    {
        let (mut a, mut b, max_scale) = larger_one.aligned_magnitudes(smaller_one);
        trim_high_zeros(&mut a);
        trim_high_zeros(&mut b);
        proof {
            crate::rounding::lemma_le_len_of_order(a@, b@);
        }
        let digits = sub_abs(&a, &b);
        let mut result = BigDecimal { sign, digits, scale: max_scale };
        proof {
            lemma_value_parts(result);
        }
        result.normalize();
        result
    }

    /// `|self| - |other|` with the sign of `self` (its opposite when the
    /// difference is negative), at the larger scale. When `|self|` is the
    /// smaller and `swap_on_less` is off, the result is zero.
    fn subtract_abs(&self, other: &Self, swap_on_less: bool) -> (r: Result<Self, BigDecimalError>)
        requires
            self.valid(),
            other.valid(),
            self.fits_with(other),
        ensures
            r matches Ok(v) && (if magnitudes(self.value(), other.value()).0 >= magnitudes(
                self.value(),
                other.value(),
            ).1 || swap_on_less {
                v.denotes(
                    (
                        sign_one(self.sign) * (magnitudes(self.value(), other.value()).0
                            - magnitudes(self.value(), other.value()).1),
                        larger(self.value().1, other.value().1),
                    ),
                )
            } else {
                v.denotes((0, 0))
            }),
    {
        proof {
            lemma_sum_parts(*self, *other);
        }
        match self.compare_abs(other) {
            Ordering::Greater => Ok(Self::difference(self, other, self.sign)),
            Ordering::Less => {
                if swap_on_less {
                    let r = Self::difference(other, self, !self.sign);
                    proof {
                        lemma_flip_sign(
                            self.sign,
                            magnitudes(other.value(), self.value()).0 - magnitudes(
                                other.value(),
                                self.value(),
                            ).1,
                        );
                    }
                    Ok(r)
                } else {
                    let z = Self::zero();
                    proof {
                        lemma_zero_normal(0);
                    }
                    Ok(z)
                }
            },
            Ordering::Equal => {
                let z = Self::zero();
                proof {
                    lemma_zero_times(sign_one(self.sign));
                    lemma_zero_normal(larger(self.value().1, other.value().1));
                    lemma_zero_normal(0);
                }
                Ok(z)
            },
        }
    }
}

proof fn lemma_zero_times(i: int)
    ensures
        i * 0 == 0,
{
}

proof fn lemma_zero_normal(s: int)
    requires
        s >= 0,
    ensures
        normal_pair((0, s)) == (0int, 0int),
{
    lemma_strip_zero_scale(s);
}

impl BigDecimal {
    /// The exact sum, at the larger of the two scales, in normal form.
    pub fn add(&self, other: &Self) -> (r: Result<Self, BigDecimalError>)
        requires
            self.valid(),
            other.valid(),
            self.fits_with(other),
        ensures
            r matches Ok(v) && v.denotes(sum_value(self.value(), other.value())),
    {
        proof {
            lemma_sum_parts(*self, *other);
            lemma_sum_parts(*other, *self);
            let m = magnitudes(self.value(), other.value());
            lemma_signed_int(self.sign, m.0 as int);
            lemma_signed_int(other.sign, m.1 as int);
            lemma_signed_int(self.sign, (m.0 + m.1) as int);
            lemma_signed_int(self.sign, m.0 - m.1);
            lemma_signed_int(other.sign, m.1 - m.0);
        }
        if self.sign != other.sign {
            if self.sign {
                return self.subtract_abs(other, true);
            } else {
                return other.subtract_abs(self, true);
            }
        }
        self.add_abs(other)
    }

    /// The exact difference `self - other`, at the larger scale, in normal
    /// form.
    pub fn sub(&self, other: &Self) -> (r: Result<Self, BigDecimalError>)
        requires
            self.valid(),
            other.valid(),
            self.fits_with(other),
        ensures
            r matches Ok(v) && v.denotes(diff_value(self.value(), other.value())),
    {
        let neg_other = BigDecimal {
            sign: !other.sign,
            digits: crate::digits::copy_digits(&other.digits),
            scale: other.scale,
        };
        proof {
            lemma_value_parts(neg_other);
            lemma_value_parts(*other);
            lemma_signed_int(other.sign, le_val(other.digits@) as int);
            lemma_signed_int(!other.sign, le_val(other.digits@) as int);
            assert(neg_other.value() == (-other.value().0, other.value().1));
            lemma_negated_sum(self.value(), other.value());
        }
        self.add(&neg_other)
    }

    /// `|self| · |other|` at the sum of the scales, positive.
    fn multiply_abs(&self, other: &Self) -> (r: Result<Self, BigDecimalError>)
        requires
            self.valid(),
            other.valid(),
            self.fits_with(other),
        ensures
            r matches Ok(v) && v.denotes(
                ((abs(self.value().0) * abs(other.value().0)) as int, self.value().1 + other.value().1),
            ) && v.raw_ok(),
    {
        let digits = mul_abs(&self.digits, &other.digits);
        let mut result = BigDecimal { sign: true, digits, scale: self.scale + other.scale };
        proof {
            lemma_value_parts(*self);
            lemma_value_parts(*other);
            lemma_value_parts(result);
        }
        result.normalize();
        proof {
            lemma_wf_value(result);
        }
        Ok(result)
    }

    /// The exact product; its scale is the sum of the scales.
    pub fn mul(&self, other: &Self) -> (r: Result<Self, BigDecimalError>)
        requires
            self.valid(),
            other.valid(),
            self.fits_with(other),
        ensures
            r matches Ok(v) && v.denotes(mul_value(self.value(), other.value())),
    {
        let mut result = match self.multiply_abs(other) {
            Ok(v) => v,
            Err(e) => {
                return Err(e);
            },
        };
        let ghost x = abs(self.value().0) * abs(other.value().0);
        let ghost s = self.value().1 + other.value().1;
        let ghost before = result.value();
        proof {
            lemma_value_parts(result);
        }
        result.sign = self.sign == other.sign;
        proof {
            lemma_value_parts(result);
            lemma_signed_int(result.sign, abs(before.0) as int);
            lemma_signed_product(*self, *other);
            lemma_resign(x, s, result.sign);
        }
        result.normalize();
        Ok(result)
    }
}

proof fn lemma_signed_product(a: BigDecimal, b: BigDecimal)
    ensures
        a.value().0 * b.value().0 == sign_one(a.sign == b.sign) * (abs(a.value().0) * abs(
            b.value().0,
        )),
{
    lemma_value_parts(a);
    lemma_value_parts(b);
    let x = le_val(a.digits@);
    let y = le_val(b.digits@);
    lemma_signed_value(a.sign, x);
    lemma_signed_value(b.sign, y);
    let p = x * y;
    lemma_signed_value(a.sign == b.sign, p);
    assert(x * (-y) == -p && (-x) * y == -p && (-x) * (-y) == p) by (nonlinear_arith)
        requires
            p == x * y,
    ;
}

/// The number of fractional digits that division keeps.
pub const PRECISION: usize = 20;

proof fn lemma_quotient_sign(a: BigDecimal, b: BigDecimal, q: nat)
    requires
        abs(b.value().0) > 0,
        q == abs(quotient_value(a.value(), b.value()).0),
        abs(a.value().0) == 0 ==> q == 0,
    ensures
        normal_pair((sign_one(a.sign == b.sign) * q, 20)) == normal_pair(
            quotient_value(a.value(), b.value()),
        ),
{
    lemma_value_parts(a);
    lemma_value_parts(b);
    lemma_signed_int(a.sign == b.sign, q as int);
    let t = quotient_value(a.value(), b.value());
    let x = abs(a.value().0) * pow10((20 + b.value().1) as nat);
    let y = abs(b.value().0) * pow10(a.value().1 as nat);
    let qq = (x / y) as int;
    crate::digits::lemma_pow10_pos(a.value().1 as nat);
    assert(y > 0) by (nonlinear_arith)
        requires
            abs(b.value().0) > 0,
            pow10(a.value().1 as nat) >= 1,
            y == abs(b.value().0) * pow10(a.value().1 as nat),
    ;
    assert(qq >= 0) by (nonlinear_arith)
        requires
            y > 0,
            x >= 0,
            qq == x / y,
    ;
    assert(t.0 == (if (a.value().0 < 0) != (b.value().0 < 0) {
        -qq
    } else {
        qq
    }));
    assert(q == qq);
    if q == 0 {
        assert(t.0 == 0);
        assert(sign_one(a.sign == b.sign) * q == 0);
    } else {
        assert(abs(a.value().0) != 0);
        assert((a.value().0 < 0) == !a.sign);
        assert((b.value().0 < 0) == !b.sign);
        if a.sign == b.sign {
            assert(t.0 == q);
        } else {
            assert(t.0 == -q);
        }
    }
    assert(t == (sign_one(a.sign == b.sign) * q, 20int));
}

impl BigDecimal {
    /// `|self| / |other|` truncated to `PRECISION` fractional digits,
    /// positive; a zero divisor is refused.
    fn divide_abs(&self, other: &Self) -> (r: Result<Self, BigDecimalError>)
        requires
            self.valid(),
            other.valid(),
            self.fits_with(other),
        ensures
            other.value().0 == 0 ==> r matches Err(BigDecimalError::DivisionByZero),
            other.value().0 != 0 ==> (r matches Ok(v) && v.denotes(
                (abs(quotient_value(self.value(), other.value()).0) as int, 20),
            ) && v.raw_ok()),
    {
        if other.is_zero() {
            return Err(BigDecimalError::DivisionByZero);
        }
        let numerator = shift_up(&self.digits, PRECISION + other.scale);
        let mut denominator = shift_up(&other.digits, self.scale);
        proof {
            lemma_value_parts(*self);
            lemma_value_parts(*other);
            let ka = (20 + other.scale) as nat;
            let kb = self.scale as nat;
            lemma_shift_val(self.digits@, ka);
            lemma_shift_val(other.digits@, kb);
            crate::digits::lemma_pow10_pos(kb);
            assert(pow10(ka) * le_val(self.digits@) == le_val(self.digits@) * pow10(ka))
                by (nonlinear_arith);
            assert(pow10(kb) * le_val(other.digits@) == le_val(other.digits@) * pow10(kb))
                by (nonlinear_arith);
            assert(le_val(other.digits@) * pow10(kb) > 0) by (nonlinear_arith)
                requires
                    le_val(other.digits@) > 0,
                    pow10(kb) >= 1,
            ;
        }
        trim_high_zeros(&mut denominator);
        let (quotient, _remainder) = div_rem_abs(&numerator, &denominator);
        let mut result = BigDecimal { sign: true, digits: quotient, scale: PRECISION };
        proof {
            lemma_value_parts(result);
        }
        result.normalize();
        proof {
            lemma_wf_value(result);
        }
        Ok(result)
    }

    /// The quotient truncated to `PRECISION` fractional digits, in normal
    /// form; a zero divisor is refused.
    pub fn div(&self, other: &Self) -> (r: Result<Self, BigDecimalError>)
        requires
            self.valid(),
            other.valid(),
            self.fits_with(other),
        ensures
            other.value().0 == 0 ==> r matches Err(BigDecimalError::DivisionByZero),
            other.value().0 != 0 ==> (r matches Ok(v) && v.denotes(
                quotient_value(self.value(), other.value()),
            )),
    {
        if other.is_zero() {
            return Err(BigDecimalError::DivisionByZero);
        }
        let mut result = match self.divide_abs(other) {
            Ok(v) => v,
            Err(e) => {
                return Err(e);
            },
        };
        let ghost q = abs(quotient_value(self.value(), other.value()).0);
        let ghost before = result.value();
        proof {
            lemma_value_parts(result);
            lemma_value_parts(*self);
            crate::digits::lemma_pow10_pos(self.value().1 as nat);
            if abs(self.value().0) == 0 {
                assert(0 * pow10((20 + other.value().1) as nat) == 0);
                let d = abs(other.value().0) * pow10(self.value().1 as nat);
                assert(d > 0) by (nonlinear_arith)
                    requires
                        abs(other.value().0) > 0,
                        pow10(self.value().1 as nat) >= 1,
                        d == abs(other.value().0) * pow10(self.value().1 as nat),
                {
                }
                crate::digits::lemma_pow10_pos(self.value().1 as nat);
                assert(0nat / d == 0) by (nonlinear_arith)
                    requires
                        d > 0,
                ;
            }
        }
        result.sign = self.sign == other.sign;
        proof {
            lemma_value_parts(result);
            lemma_signed_int(result.sign, abs(before.0) as int);
            lemma_resign(q, 20, result.sign);
            lemma_quotient_sign(*self, *other, q);
        }
        result.normalize();
        Ok(result)
    }
}

// ---------------------------------------------------------------------------
// Parsing and formatting
// ---------------------------------------------------------------------------

/// What a text denotes: surrounding white space ignored, an optional `+` or
/// `-`, then digits, commas (ignored) and at most one point, with at least
/// one digit. The result is the value pair before normalization, or
/// the message of the error.
pub open spec fn parse_value(input: Seq<char>) -> Result<(int, int), Seq<char>> {
    let t = trim(input);
    if t.len() == 0 {
        Err("Empty input"@)
    } else {
        let start: int = if t[0] == '-' || t[0] == '+' {
            1
        } else {
            0
        };
        let body = t.subrange(start, t.len() as int);
        match scan(body, body.len()) {
            Err(e) => Err(scan_message(e)),
            Ok(st) => if !st.2 {
                Err("No digits found"@)
            } else {
                Ok(
                    (
                        (if t[0] == '-' {
                            -1int
                        } else {
                            1int
                        }) * crate::digits::be_val(st.0),
                        st.1 as int,
                    ),
                )
            },
        }
    }
}

/// The text of a value: `0` for zero, else its plain text (see
/// `plain_text`) with thousands separators on request.
pub open spec fn number_text(t: (int, int), grouping: bool) -> Seq<char> {
    if t.0 == 0 {
        seq!['0']
    } else {
        plain_text(t.0 < 0, le_digits_of(abs(t.0)), t.1 as nat, grouping)
    }
}

/// The text of an error.
pub open spec fn error_text(e: BigDecimalError) -> Seq<char> {
    match e {
        BigDecimalError::InvalidFormat(m) => "Invalid format: "@ + m@,
        BigDecimalError::DivisionByZero => "Division by zero"@,
        BigDecimalError::InvalidInput(m) => "Invalid input: "@ + m@,
    }
}

proof fn lemma_trim_len(s: Seq<char>)
    ensures
        trim(s).len() <= s.len(),
{
    lemma_trim_start_len(s);
    lemma_trim_end_len(crate::text::trim_start(s));
}

proof fn lemma_trim_start_len(s: Seq<char>)
    ensures
        crate::text::trim_start(s).len() <= s.len(),
    decreases s.len(),
{
    if s.len() > 0 && crate::text::is_white_space(s[0]) {
        lemma_trim_start_len(s.drop_first());
    }
}

proof fn lemma_trim_end_len(s: Seq<char>)
    ensures
        crate::text::trim_end(s).len() <= s.len(),
    decreases s.len(),
{
    if s.len() > 0 && crate::text::is_white_space(s.last()) {
        lemma_trim_end_len(s.drop_last());
    }
}

impl BigDecimal {
    /// Parses a decimal number (see `parse_value`) into its normal form. The
    /// number has no more digits, and no larger scale, than the text has
    /// characters.
    pub fn parse(input: &str) -> (r: Result<Self, BigDecimalError>)
        ensures
            match (r, parse_value(input@)) {
                (Ok(v), Ok(t)) => v.denotes(t) && v.size() <= input@.len() && v.value().1
                    <= input@.len(),
                (Err(BigDecimalError::InvalidFormat(m)), Err(msg)) => m@ == msg,
                _ => false,
            },
    {
        let all = chars_of(input);
        let chars = trim_chars(&all);
        if chars.len() == 0 {
            return Err(BigDecimalError::InvalidFormat("Empty input".to_owned()));
        }
        proof {
            lemma_trim_len(input@);
        }
        let sign = chars[0] != '-';
        let start: usize = if chars[0] == '-' || chars[0] == '+' {
            1
        } else {
            0
        };
        let (clean, scale, has_digit, _) = match scan_body(&chars, start) {
            Ok(st) => st,
            Err(e) => {
                return Err(BigDecimalError::InvalidFormat(scan_error_message(&e)));
            },
        };
        if !has_digit {
            return Err(BigDecimalError::InvalidFormat("No digits found".to_owned()));
        }
        let digits = crate::digits::reversed(&clean);
        let mut result = BigDecimal { sign, digits, scale };
        proof {
            crate::digits::lemma_be_rev(clean@);
            crate::digits::lemma_rev_rev(clean@);
            assert(all_digits(result.digits@)) by {
                assert forall|k: int| 0 <= k < result.digits@.len() implies #[trigger] result.digits@[k]
                    <= 9 by {
                    assert(result.digits@[k] == clean@[clean@.len() - 1 - k]);
                }
            }
            lemma_value_parts(result);
            lemma_signed_value(sign, le_val(result.digits@));
        }
        result.normalize();
        Ok(result)
    }

    /// The text with thousands separators when `grouping` is on (see
    /// `number_text`).
    pub fn to_string_with_grouping(&self, grouping: bool) -> (s: String)
        requires
            self.wf(),
        ensures
            s@ == number_text(self.value(), grouping),
    {
        if self.is_zero() {
            let mut s = String::new();
            push_char(&mut s, '0');
            proof {
                assert(s@ =~= seq!['0']);
            }
            return s;
        }
        proof {
            lemma_wf_value(*self);
            lemma_value_parts(*self);
        }
        plain_string(!self.sign, &self.digits, self.scale, grouping)
    }

    /// The text without separators.
    pub fn to_formatted_string(&self) -> (s: String)
        requires
            self.wf(),
        ensures
            s@ == number_text(self.value(), false),
    {
        self.to_string_with_grouping(false)
    }
}

/// The batch printer's text for a result: its plain text with thousands
/// separators in the integer part.
pub fn format_result_cpp_style(num: &BigDecimal) -> (s: String)
    requires
        num.wf(),
    ensures
        s@ == number_text(num.value(), true),
{
    num.to_string_with_grouping(true)
}

impl BigDecimalError {
    /// The text of the error (see `error_text`).
    pub fn message(&self) -> (s: String)
        ensures
            s@ == error_text(*self),
    {
        match self {
            BigDecimalError::InvalidFormat(m) => {
                let mut s = "Invalid format: ".to_owned();
                push_str(&mut s, m.as_str());
                s
            },
            BigDecimalError::DivisionByZero => "Division by zero".to_owned(),
            BigDecimalError::InvalidInput(m) => {
                let mut s = "Invalid input: ".to_owned();
                push_str(&mut s, m.as_str());
                s
            },
        }
    }
}

// ---------------------------------------------------------------------------
// Laws
// ---------------------------------------------------------------------------

/// Reading back the text gives the number: `parse` of
/// `to_string_with_grouping` (with or without separators) is the identity.
pub proof fn law_parse_reads_back_text(x: BigDecimal, grouping: bool)
    requires
        x.wf(),
    ensures
        parse_value(number_text(x.value(), grouping)) == Ok::<(int, int), Seq<char>>(x.value()),
{
    lemma_wf_value(x);
    lemma_value_parts(x);
    lemma_reads_back_pair(x.value(), grouping);
}

/// The text of a value pair with a scale that is not negative (and scale 0
/// for zero) reads back as that pair.
proof fn lemma_reads_back_pair(t: (int, int), grouping: bool)
    requires
        t.1 >= 0,
        t.0 == 0 ==> t.1 == 0,
    ensures
        parse_value(number_text(t, grouping)) == Ok::<(int, int), Seq<char>>(t),
{
    crate::digits::lemma_le_digits_of(abs(t.0));
    if t.0 == 0 {
        let text = number_text(t, grouping);
        assert(text == seq!['0']);
        lemma_trim_plain(text);
        assert(text.subrange(0, 1) =~= text);
        assert(text.drop_last() =~= Seq::<char>::empty());
        assert(digits_of_text(text.drop_last()) =~= Seq::<u8>::empty());
        assert(crate::text::char_digit('0') == 0);
        assert(digits_of_text(text) =~= seq![0u8]);
        assert(digits_and_commas(text)) by {
            assert forall|i: int| 0 <= i < text.len() implies crate::text::is_digit_char(
                #[trigger] text[i],
            ) || text[i] == ',' by {
                assert(text[i] == '0');
            }
        }
        lemma_scan_layout(text, Seq::empty(), false);
        crate::digits::lemma_be_single(0);
    } else {
        let neg = t.0 < 0;
        let d = le_digits_of(abs(t.0));
        let text = plain_text(neg, d, t.1 as nat, grouping);
        assert(number_text(t, grouping) == text);
        lemma_read_plain(neg, d, t.1 as nat, grouping);
        let body = if neg {
            text.drop_first()
        } else {
            text
        };
        assert(text.subrange(if neg { 1int } else { 0int }, text.len() as int) =~= body);
        let st = scan(body, body.len())->Ok_0;
        assert(crate::digits::be_val(st.0) == abs(t.0));
        if neg {
            assert(-1int * abs(t.0) == t.0);
        } else {
            assert(1int * abs(t.0) == t.0);
        }
    }
}

/// `compare` orders the way `sub` subtracts: `compare(a, b)` is `Less`,
/// `Equal` or `Greater` as `a - b` is negative, zero or positive.
pub proof fn law_compare_matches_sub(a: BigDecimal, b: BigDecimal, d: BigDecimal)
    requires
        d.denotes(diff_value(a.value(), b.value())),
    ensures
        (d.value().0 < 0) == (diff_value(a.value(), b.value()).0 < 0),
        (d.value().0 == 0) == (diff_value(a.value(), b.value()).0 == 0),
        (d.value().0 > 0) == (diff_value(a.value(), b.value()).0 > 0),
{
    let t = diff_value(a.value(), b.value());
    lemma_strip_zero(abs(t.0), t.1);
}

/// Comparison is antisymmetric: `a < b` exactly when `b > a`.
pub proof fn law_compare_antisymmetric(a: (int, int), b: (int, int))
    ensures
        (diff_value(a, b).0 < 0) == (diff_value(b, a).0 > 0),
        (diff_value(a, b).0 == 0) == (diff_value(b, a).0 == 0),
{
}

/// Zero is neutral for addition: `x + 0` is `x`.
pub proof fn law_add_zero(x: BigDecimal)
    requires
        x.wf(),
    ensures
        normal_pair(sum_value(x.value(), (0, 0))) == x.value(),
{
    lemma_wf_value(x);
    let t = x.value();
    assert(larger(t.1, 0) == t.1);
    assert(pow10(0) == 1);
    assert((t.1 - t.1) as nat == 0);
    let w = pow10((t.1 - 0) as nat);
    assert(t.0 * 1 == t.0 && 0 * w == 0) by (nonlinear_arith);
    assert(sum_value(t, (0, 0)) == t);
}

/// One is neutral for multiplication: `x * 1` is `x`.
pub proof fn law_mul_one(x: BigDecimal)
    requires
        x.wf(),
    ensures
        normal_pair(mul_value(x.value(), (1, 0))) == x.value(),
{
    lemma_wf_value(x);
    assert(mul_value(x.value(), (1, 0)) == x.value());
}

/// Normalizing a number in normal form changes nothing.
pub proof fn law_normalize_idempotent(x: BigDecimal)
    requires
        x.wf(),
    ensures
        normal_pair(x.value()) == x.value(),
{
    lemma_wf_value(x);
}

/// Commas are ignored: inserting one anywhere after the sign of a trimmed
/// text does not change what it parses to.
pub proof fn law_parse_ignores_commas(s: Seq<char>, k: int)
    requires
        trim(s) == s,
        s.len() > 0,
        0 <= k <= s.len(),
        s[0] == '-' || s[0] == '+' ==> k >= 1,
    ensures
        parse_value(s.insert(k, ',')) == parse_value(s),
{
    crate::legacy::lemma_comma_body(s, k);
    let st: int = if s[0] == '-' || s[0] == '+' {
        1
    } else {
        0
    };
    crate::legacy::law_scan_ignores_commas(s.subrange(st, s.len() as int), k - st);
}

/// The value `t` in units of `10^-n` (for `n >= t.1`).
pub open spec fn units(t: (int, int), n: int) -> int {
    t.0 * pow10((n - t.1) as nat)
}

/// Dropping trailing zeros keeps the value in units of any finer scale.
pub proof fn lemma_strip_units(v: nat, s: int, n: int)
    requires
        n >= s,
    ensures
        strip(v, s).0 * pow10((n - strip(v, s).1) as nat) == v * pow10((n - s) as nat),
        strip(v, s).1 <= s,
    decreases (if s > 0 {
        s
    } else {
        0
    }),
{
    if s > 0 && v % 10 == 0 {
        lemma_strip_units(v / 10, s - 1, n);
        let p = pow10((n - s) as nat);
        assert(pow10((n - (s - 1)) as nat) == 10 * p) by {
            assert((n - (s - 1)) as nat == ((n - s) as nat + 1) as nat);
        }
        assert((v / 10) * (10 * p) == v * p) by (nonlinear_arith)
            requires
                v % 10 == 0,
        ;
    }
}

proof fn lemma_normal_units(t: (int, int), n: int)
    requires
        n >= t.1,
    ensures
        units(normal_pair(t), n) == units(t, n),
        normal_pair(t).1 <= t.1,
{
    let q = strip(abs(t.0), t.1);
    lemma_strip_units(abs(t.0), t.1, n);
    let pq = pow10((n - q.1) as nat);
    let pt = pow10((n - t.1) as nat);
    if t.0 < 0 {
        assert((-q.0) * pq == -(q.0 * pq)) by (nonlinear_arith);
        assert(t.0 * pt == -(abs(t.0) * pt)) by (nonlinear_arith)
            requires
                t.0 < 0,
                abs(t.0) == -t.0,
        ;
    }
}

proof fn lemma_sum_units(a: (int, int), b: (int, int), n: int)
    requires
        n >= larger(a.1, b.1),
    ensures
        units(sum_value(a, b), n) == units(a, n) + units(b, n),
        units(diff_value(a, b), n) == units(a, n) - units(b, n),
{
    let s = larger(a.1, b.1);
    let ka = (s - a.1) as nat;
    let kb = (s - b.1) as nat;
    let kn = (n - s) as nat;
    crate::digits::lemma_pow10_add(ka, kn);
    crate::digits::lemma_pow10_add(kb, kn);
    assert((ka + kn) as int == n - a.1);
    assert((kb + kn) as int == n - b.1);
    let pa = pow10(ka);
    let pb = pow10(kb);
    let pn = pow10(kn);
    assert((a.0 * pa + b.0 * pb) * pn == a.0 * (pa * pn) + b.0 * (pb * pn)) by (nonlinear_arith);
    assert((a.0 * pa - b.0 * pb) * pn == a.0 * (pa * pn) - b.0 * (pb * pn)) by (nonlinear_arith);
}

proof fn lemma_units_cancel(x: int, y: int, p: nat, q: nat)
    requires
        q >= 1,
        x * (p * q) == y * q,
    ensures
        x * p == y,
{
    assert(x * p == y) by (nonlinear_arith)
        requires
            q >= 1,
            x * (p * q) == y * q,
    ;
}

/// Two values in normal form with non-negative scales that are equal as
/// numbers are the same pair.
proof fn lemma_normal_unique(p: (int, int), q: (int, int), n: int)
    requires
        normal_pair(p) == p,
        normal_pair(q) == q,
        p.1 >= 0,
        q.1 >= 0,
        n >= p.1,
        n >= q.1,
        units(p, n) == units(q, n),
    ensures
        p == q,
{
    if p.1 < q.1 {
        lemma_smaller_scale(p, q, n);
    } else if q.1 < p.1 {
        lemma_smaller_scale(q, p, n);
    } else {
        let pn = pow10((n - p.1) as nat);
        crate::digits::lemma_pow10_pos((n - p.1) as nat);
        assert(p.0 == q.0) by (nonlinear_arith)
            requires
                pn >= 1,
                p.0 * pn == q.0 * pn,
        ;
    }
}

/// A value equal to one at a smaller scale is not in normal form.
proof fn lemma_smaller_scale(p: (int, int), q: (int, int), n: int)
    requires
        0 <= p.1 < q.1,
        n >= q.1,
        units(p, n) == units(q, n),
    ensures
        normal_pair(q) != q,
{
    let k = (q.1 - p.1) as nat;
    let m = (n - q.1) as nat;
    crate::digits::lemma_pow10_add(k, m);
    assert((k + m) as int == n - p.1);
    crate::digits::lemma_pow10_pos(m);
    lemma_units_cancel(p.0, q.0, pow10(k), pow10(m));
    assert(pow10(k) == 10 * pow10((k - 1) as nat));
    let r = p.0 * pow10((k - 1) as nat);
    assert(q.0 == 10 * r) by (nonlinear_arith)
        requires
            q.0 == p.0 * pow10(k),
            pow10(k) == 10 * pow10((k - 1) as nat),
            r == p.0 * pow10((k - 1) as nat),
    ;
    assert(abs(q.0) % 10 == 0) by {
        if q.0 < 0 {
            assert(abs(q.0) == 10 * (-r));
        } else {
            assert(abs(q.0) == 10 * r);
        }
    }
    assert(strip(abs(q.0), q.1) == strip(abs(q.0) / 10, q.1 - 1));
    lemma_strip_units(abs(q.0), q.1, q.1);
    assert(strip(abs(q.0), q.1).1 <= q.1 - 1) by {
        lemma_strip_units(abs(q.0) / 10, q.1 - 1, q.1);
    }
}

/// Subtracting and adding back the same number gives the number back:
/// `(a - b) + b` is `a`.
pub proof fn law_sub_then_add(a: BigDecimal, b: BigDecimal)
    requires
        a.wf(),
        b.wf(),
    ensures
        normal_pair(sum_value(normal_pair(diff_value(a.value(), b.value())), b.value())) == a.value(),
{
    lemma_wf_value(a);
    lemma_wf_value(b);
    let x = a.value();
    let y = b.value();
    let d = diff_value(x, y);
    let nd = normal_pair(d);
    let sm = sum_value(nd, y);
    let r = normal_pair(sm);
    let n = larger(x.1, y.1);
    lemma_normal_units(d, n);
    lemma_strip_units(abs(d.0), d.1, n);
    assert(nd.1 >= 0) by {
        lemma_strip_nonneg(abs(d.0), d.1);
    }
    lemma_sum_units(x, y, n);
    lemma_sum_units(nd, y, n);
    lemma_normal_units(sm, n);
    lemma_normal_pair(sm);
    assert(r.1 >= 0) by {
        lemma_strip_nonneg(abs(sm.0), sm.1);
    }
    assert(units(x, n) == units(r, n));
    lemma_normal_unique(x, r, n);
}

proof fn lemma_strip_nonneg(v: nat, s: int)
    requires
        s >= 0,
    ensures
        strip(v, s).1 >= 0,
    decreases s,
{
    if s > 0 && v % 10 == 0 {
        lemma_strip_nonneg(v / 10, s - 1);
    }
}

// ---------------------------------------------------------------------------
// The batch printer's line
// ---------------------------------------------------------------------------

/// The batch printer's line for input line number `i`: the result of the
/// request `op num1 num2` in plain text, or the message of what went wrong.
pub open spec fn line_answer(line: Seq<char>, i: nat) -> Seq<char> {
    let t = trim(line);
    let ws = words(t);
    let num = digit_text(crate::digits::be_digits_of(i));
    if ws.len() != 3 {
        "ERROR: Invalid format in line "@ + num + ": "@ + t
    } else {
        match (parse_value(ws[1]), parse_value(ws[2])) {
            (Err(_), _) => "ERROR: Cannot parse "@ + ws[1] + " in line "@ + num,
            (Ok(_), Err(_)) => "ERROR: Cannot parse "@ + ws[2] + " in line "@ + num,
            (Ok(x), Ok(y)) => {
                let a = normal_pair(x);
                let b = normal_pair(y);
                if ws[0] == seq!['+'] {
                    number_text(normal_pair(sum_value(a, b)), false)
                } else if ws[0] == seq!['-'] {
                    number_text(normal_pair(diff_value(a, b)), false)
                } else if ws[0] == seq!['*'] {
                    number_text(normal_pair(mul_value(a, b)), false)
                } else if ws[0] == seq!['/'] {
                    if b.0 == 0 {
                        "ERROR: Division by zero or other operation error in line "@ + num
                    } else {
                        number_text(normal_pair(quotient_value(a, b)), false)
                    }
                } else {
                    "ERROR: Unknown operation "@ + ws[0] + " in line "@ + num
                }
            },
        }
    }
}

/// Whether the word is the single character `c`.
fn is_symbol(w: &Vec<char>, c: char) -> (r: bool)
    ensures
        r == (w@ == seq![c]),
{
    let r = w.len() == 1 && w[0] == c;
    proof {
        if w@.len() == 1 && w@[0] == c {
            assert(w@ =~= seq![c]);
        }
    }
    r
}

/// The batch printer's line for input line number `index` (see
/// `line_answer`). The line's length with room for the twenty digits of a
/// quotient is a `usize`, so that its two operands fit the machine together
/// (`fits_with`); every `str` in memory meets this, as it holds at most
/// `isize::MAX` bytes.
pub fn batch_line(line: &str, index: usize) -> (out: String)
    requires
        line@.len() + 32 <= usize::MAX,
    ensures
        out@ == line_answer(line@, index as nat),
{
    let all = chars_of(line);
    let t = trim_chars(&all);
    let ws = split_words(&t);
    let num = usize_to_text(index);
    proof {
        crate::text::lemma_words_shape(t@);
        lemma_trim_len(line@);
    }
    if ws.len() != 3 {
        let mut s = "ERROR: Invalid format in line ".to_owned();
        push_str(&mut s, num.as_str());
        push_str(&mut s, ": ");
        let text = string_of(&t);
        push_str(&mut s, text.as_str());
        return s;
    }
    let op = &ws[0];
    let w1 = string_of(&ws[1]);
    let w2 = string_of(&ws[2]);
    proof {
        assert(word_views(ws@)[1] == ws@[1]@);
        assert(word_views(ws@)[2] == ws@[2]@);
        assert(word_views(ws@)[0] == ws@[0]@);
    }
    let a = match BigDecimal::parse(w1.as_str()) {
        Ok(v) => v,
        Err(_) => {
            let mut s = "ERROR: Cannot parse ".to_owned();
            push_str(&mut s, w1.as_str());
            push_str(&mut s, " in line ");
            push_str(&mut s, num.as_str());
            return s;
        },
    };
    let b = match BigDecimal::parse(w2.as_str()) {
        Ok(v) => v,
        Err(_) => {
            let mut s = "ERROR: Cannot parse ".to_owned();
            push_str(&mut s, w2.as_str());
            push_str(&mut s, " in line ");
            push_str(&mut s, num.as_str());
            return s;
        },
    };
    proof {
        lemma_wf_valid(a);
        lemma_wf_valid(b);
        crate::text::lemma_two_words(t@, 1, 2);
        assert(a.fits_with(&b));
    }
    let result = if is_symbol(op, '+') {
        a.add(&b)
    } else if is_symbol(op, '-') {
        a.sub(&b)
    } else if is_symbol(op, '*') {
        a.mul(&b)
    } else if is_symbol(op, '/') {
        a.div(&b)
    } else {
        let mut s = "ERROR: Unknown operation ".to_owned();
        let text = string_of(op);
        push_str(&mut s, text.as_str());
        push_str(&mut s, " in line ");
        push_str(&mut s, num.as_str());
        return s;
    };
    match result {
        Ok(val) => val.to_formatted_string(),
        Err(_) => {
            let mut s = "ERROR: Division by zero or other operation error in line ".to_owned();
            push_str(&mut s, num.as_str());
            s
        },
    }
}

/// The sign of a difference is the order of the values.
proof fn lemma_diff_order(a: (int, int), b: (int, int), n: int)
    requires
        n >= a.1,
        n >= b.1,
    ensures
        (diff_value(a, b).0 < 0) == (units(a, n) < units(b, n)),
        (diff_value(a, b).0 == 0) == (units(a, n) == units(b, n)),
{
    let s = larger(a.1, b.1);
    lemma_sum_units(a, b, n);
    let d = diff_value(a, b);
    let p = pow10((n - s) as nat);
    crate::digits::lemma_pow10_pos((n - s) as nat);
    assert(units(d, n) == d.0 * p);
    assert((d.0 < 0) == (d.0 * p < 0) && (d.0 == 0) == (d.0 * p == 0)) by (nonlinear_arith)
        requires
            p >= 1,
    ;
}

/// Comparison is transitive: `a < b` and `b < c` give `a < c`.
pub proof fn law_compare_transitive(a: (int, int), b: (int, int), c: (int, int))
    requires
        diff_value(a, b).0 < 0,
        diff_value(b, c).0 < 0,
    ensures
        diff_value(a, c).0 < 0,
{
    let n = larger(larger(a.1, b.1), c.1);
    lemma_diff_order(a, b, n);
    lemma_diff_order(b, c, n);
    lemma_diff_order(a, c, n);
}

/// The normal form of a pair with a scale that is not negative has such a
/// scale too, and scale 0 when it is zero.
proof fn lemma_normal_shape(t: (int, int))
    requires
        t.1 >= 0,
    ensures
        normal_pair(t).1 >= 0,
        normal_pair(t).0 == 0 ==> normal_pair(t).1 == 0,
        (normal_pair(t).0 == 0) == (t.0 == 0),
{
    lemma_strip_nonneg(abs(t.0), t.1);
    lemma_strip_zero(abs(t.0), t.1);
    if t.0 == 0 {
        lemma_zero_normal(t.1);
    }
}

/// The batch printer answers a sum or a difference exactly: for a line
/// `+ x y` (or `- x y`) whose operands parse, the answer reads back
/// (`parse_value`) as a number equal to what `x` parses to plus (or minus)
/// what `y` parses to, the first operand first. Equality is stated in units
/// of the finer operand scale `n`.
pub proof fn law_batch_sum_line(line: Seq<char>, i: nat)
    requires
        words(trim(line)).len() == 3,
        words(trim(line))[0] == seq!['+'] || words(trim(line))[0] == seq!['-'],
        parse_value(words(trim(line))[1]) is Ok,
        parse_value(words(trim(line))[2]) is Ok,
    ensures
        ({
            let ws = words(trim(line));
            let x = parse_value(ws[1])->Ok_0;
            let y = parse_value(ws[2])->Ok_0;
            let n = larger(x.1, y.1);
            let out = line_answer(line, i);
            &&& parse_value(out) is Ok
            &&& parse_value(out)->Ok_0.1 <= n
            &&& units(parse_value(out)->Ok_0, n) == units(x, n) + (if ws[0] == seq!['+'] {
                units(y, n)
            } else {
                -units(y, n)
            })
        }),
{
    let ws = words(trim(line));
    let x = parse_value(ws[1])->Ok_0;
    let y = parse_value(ws[2])->Ok_0;
    lemma_parsed_pair_scale(ws[1]);
    lemma_parsed_pair_scale(ws[2]);
    let n = larger(x.1, y.1);
    let a = normal_pair(x);
    let b = normal_pair(y);
    lemma_normal_units(x, n);
    lemma_normal_units(y, n);
    lemma_normal_shape(x);
    lemma_normal_shape(y);
    lemma_sum_units(a, b, n);
    let t = if ws[0] == seq!['+'] {
        sum_value(a, b)
    } else {
        diff_value(a, b)
    };
    assert(t.1 >= 0 && t.1 <= n);
    lemma_normal_units(t, n);
    lemma_normal_shape(t);
    let v = normal_pair(t);
    assert(line_answer(line, i) == number_text(v, false));
    lemma_reads_back_pair(v, false);
}

/// The batch printer answers a product exactly: for a line `* x y` whose
/// operands parse, the answer reads back as a number equal to the product
/// of what `x` and `y` parse to, in units of the sum of their scales.
pub proof fn law_batch_product_line(line: Seq<char>, i: nat)
    requires
        words(trim(line)).len() == 3,
        words(trim(line))[0] == seq!['*'],
        parse_value(words(trim(line))[1]) is Ok,
        parse_value(words(trim(line))[2]) is Ok,
    ensures
        ({
            let ws = words(trim(line));
            let x = parse_value(ws[1])->Ok_0;
            let y = parse_value(ws[2])->Ok_0;
            let out = line_answer(line, i);
            &&& parse_value(out) is Ok
            &&& parse_value(out)->Ok_0.1 <= x.1 + y.1
            &&& units(parse_value(out)->Ok_0, x.1 + y.1) == x.0 * y.0
        }),
{
    let ws = words(trim(line));
    let x = parse_value(ws[1])->Ok_0;
    let y = parse_value(ws[2])->Ok_0;
    lemma_parsed_pair_scale(ws[1]);
    lemma_parsed_pair_scale(ws[2]);
    let a = normal_pair(x);
    let b = normal_pair(y);
    lemma_normal_units(x, x.1);
    lemma_normal_units(y, y.1);
    lemma_normal_shape(x);
    lemma_normal_shape(y);
    let t = mul_value(a, b);
    let n = x.1 + y.1;
    let ka = (x.1 - a.1) as nat;
    let kb = (y.1 - b.1) as nat;
    crate::digits::lemma_pow10_add(ka, kb);
    assert(pow10(0) == 1);
    assert((x.1 - x.1) as nat == 0 && (y.1 - y.1) as nat == 0);
    assert(units(x, x.1) == x.0 * 1 && units(y, y.1) == y.0 * 1);
    assert((n - t.1) as nat == ka + kb);
    assert(units(t, n) == x.0 * y.0) by (nonlinear_arith)
        requires
            units(t, n) == (a.0 * b.0) * pow10((n - t.1) as nat),
            pow10((n - t.1) as nat) == pow10(ka) * pow10(kb),
            a.0 * pow10(ka) == x.0,
            b.0 * pow10(kb) == y.0,
    ;
    lemma_normal_units(t, n);
    lemma_normal_shape(t);
    let v = normal_pair(t);
    assert(ws[0] != seq!['+'] && ws[0] != seq!['-']) by {
        assert(ws[0][0] == '*');
        assert(seq!['+'][0] == '+');
        assert(seq!['-'][0] == '-');
    }
    assert(line_answer(line, i) == number_text(v, false));
    lemma_reads_back_pair(v, false);
}

/// What a text parses to has a scale that is not negative.
proof fn lemma_parsed_pair_scale(w: Seq<char>)
    requires
        parse_value(w) is Ok,
    ensures
        parse_value(w)->Ok_0.1 >= 0,
{
}

/// The batch printer truncates a quotient to twenty fractional digits: for a
/// line `/ x y` whose operands parse and whose divisor is not zero, the
/// answer reads back as a number `P` whose magnitude `Q` in units of
/// `10^-20` is the whole part of `|x| / |y| · 10^20` (cross-multiplied with
/// the operands' scales), negative exactly when `Q` is not zero and the
/// operands' signs differ.
pub proof fn law_batch_quotient_line(line: Seq<char>, i: nat)
    requires
        words(trim(line)).len() == 3,
        words(trim(line))[0] == seq!['/'],
        parse_value(words(trim(line))[1]) is Ok,
        parse_value(words(trim(line))[2]) is Ok,
        parse_value(words(trim(line))[2])->Ok_0.0 != 0,
    ensures
        ({
            let ws = words(trim(line));
            let x = parse_value(ws[1])->Ok_0;
            let y = parse_value(ws[2])->Ok_0;
            let out = line_answer(line, i);
            let p = parse_value(out)->Ok_0;
            let big_q = abs(units(p, 20));
            let num = abs(x.0) * pow10((20 + y.1) as nat);
            let den = abs(y.0) * pow10(x.1 as nat);
            &&& parse_value(out) is Ok
            &&& p.1 <= 20
            &&& big_q * den <= num
            &&& num < (big_q + 1) * den
            &&& (units(p, 20) < 0) == (big_q != 0 && (x.0 < 0) != (y.0 < 0))
        }),
{
    let ws = words(trim(line));
    let x = parse_value(ws[1])->Ok_0;
    let y = parse_value(ws[2])->Ok_0;
    lemma_parsed_pair_scale(ws[1]);
    lemma_parsed_pair_scale(ws[2]);
    let a = normal_pair(x);
    let b = normal_pair(y);
    lemma_normal_units(x, x.1);
    lemma_normal_units(y, y.1);
    lemma_normal_shape(x);
    lemma_normal_shape(y);
    assert(ws[0] != seq!['+'] && ws[0] != seq!['-'] && ws[0] != seq!['*']) by {
        assert(ws[0][0] == '/');
        assert(seq!['+'][0] == '+');
        assert(seq!['-'][0] == '-');
        assert(seq!['*'][0] == '*');
    }
    let t = quotient_value(a, b);
    lemma_normal_units(t, 20);
    lemma_normal_shape(t);
    let v = normal_pair(t);
    assert(line_answer(line, i) == number_text(v, false));
    lemma_reads_back_pair(v, false);
    assert(pow10(0) == 1);
    assert(units(t, 20) == t.0 * pow10(0));
    assert(units(v, 20) == t.0);
    // The quotient in lowest terms.
    let ka = (x.1 - a.1) as nat;
    let kb = (y.1 - b.1) as nat;
    assert((x.1 - x.1) as nat == 0 && (y.1 - y.1) as nat == 0);
    assert(units(x, x.1) == x.0 * 1 && units(y, y.1) == y.0 * 1);
    assert(a.0 * pow10(ka) == x.0);
    assert(b.0 * pow10(kb) == y.0);
    crate::digits::lemma_pow10_pos(ka);
    crate::digits::lemma_pow10_pos(kb);
    crate::digits::lemma_pow10_pos(a.1 as nat);
    let pa = pow10(ka);
    let pb = pow10(kb);
    assert(abs(x.0) == abs(a.0) * pa) by (nonlinear_arith)
        requires
            a.0 * pa == x.0,
            pa >= 1,
    ;
    assert(abs(y.0) == abs(b.0) * pb) by (nonlinear_arith)
        requires
            b.0 * pb == y.0,
            pb >= 1,
    ;
    let na = abs(a.0) * pow10((20 + b.1) as nat);
    let da = abs(b.0) * pow10(a.1 as nat);
    assert(da > 0) by (nonlinear_arith)
        requires
            abs(b.0) > 0,
            pow10(a.1 as nat) >= 1,
            da == abs(b.0) * pow10(a.1 as nat),
    ;
    let q = na / da;
    vstd::arithmetic::div_mod::lemma_fundamental_div_mod(na as int, da as int);
    assert(q * da <= na && na < (q + 1) * da) by (nonlinear_arith)
        requires
            na == da * q + na % da,
            0 <= na % da < da,
    ;
    assert(abs(t.0) == q);
    crate::digits::lemma_pow10_add((20 + b.1) as nat, kb);
    crate::digits::lemma_pow10_add(a.1 as nat, ka);
    assert((20 + y.1) as nat == (20 + b.1) as nat + kb);
    assert(x.1 as nat == a.1 as nat + ka);
    let num = abs(x.0) * pow10((20 + y.1) as nat);
    let den = abs(y.0) * pow10(x.1 as nat);
    let k = pa * pb;
    assert(num == na * k) by (nonlinear_arith)
        requires
            num == abs(x.0) * pow10((20 + y.1) as nat),
            abs(x.0) == abs(a.0) * pa,
            pow10((20 + y.1) as nat) == pow10((20 + b.1) as nat) * pb,
            na == abs(a.0) * pow10((20 + b.1) as nat),
            k == pa * pb,
    ;
    assert(den == da * k) by (nonlinear_arith)
        requires
            den == abs(y.0) * pow10(x.1 as nat),
            abs(y.0) == abs(b.0) * pb,
            pow10(x.1 as nat) == pow10(a.1 as nat) * pa,
            da == abs(b.0) * pow10(a.1 as nat),
            k == pa * pb,
    ;
    assert(k >= 1) by (nonlinear_arith)
        requires
            pa >= 1,
            pb >= 1,
            k == pa * pb,
    ;
    assert(q * den <= num && num < (q + 1) * den) by (nonlinear_arith)
        requires
            q * da <= na,
            na < (q + 1) * da,
            num == na * k,
            den == da * k,
            k >= 1,
    ;
    assert((a.0 < 0) == (x.0 < 0) && (b.0 < 0) == (y.0 < 0)) by (nonlinear_arith)
        requires
            a.0 * pa == x.0,
            b.0 * pb == y.0,
            pa >= 1,
            pb >= 1,
    ;
}

} // verus!
