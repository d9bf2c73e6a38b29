//! A decimal number stored as little-endian digits with a signed scale, whose
//! division rounds the last of its twenty extra fractional digits half up.
//! The digit algorithms here (alignment, sum, difference, product and long
//! division of digit vectors) are shared with the `plain` flavour.
use vstd::prelude::*;
use std::cmp::Ordering;
use crate::digits::{
    all_digits, at, copy_digits, le_canonical, le_digits_of, le_val, lemma_carry_step,
    lemma_le_append, lemma_le_bound, lemma_le_canonical_is_digits_of, lemma_le_first,
    lemma_le_push, lemma_le_single, lemma_le_zeros, lemma_lz_full, lemma_lz_step, lz, pow10,
    lemma_le_update, lemma_pow10_add, reversed, rev, zeros,
};
use crate::legacy::{
    digits_and_commas, digits_of_text, lemma_digit_text, lemma_grouped_text, lemma_scan_layout,
    lemma_trim_plain, scan, scan_body, scan_error_message, scan_message,
};
use crate::text::{
    chars_of, count_of, digit_char, digit_text, digit_to_char, grouped, lemma_words_shape,
    parse_usize, push_char, push_str, records_until, session_until, split_words, string_of, trim,
    trim_chars, word_views, words,
};

verus! {

/// The sign of a decimal number.
#[derive(Clone, Copy, Debug, PartialEq, Eq, Structural)]
pub enum Sign {
    Positive,
    Negative,
}

/// The opposite sign.
pub open spec fn flip(s: Sign) -> Sign {
    match s {
        Sign::Positive => Sign::Negative,
        Sign::Negative => Sign::Positive,
    }
}

impl Sign {
    /// The opposite sign.
    pub fn negate(self) -> (r: Self)
        ensures
            r == flip(self),
    {
        match self {
            Sign::Positive => Sign::Negative,
            Sign::Negative => Sign::Positive,
        }
    }
}

/// A decimal number: `sign`, the digits `digits` (least significant first)
/// and `scale` digits after the decimal point, so that its value is
/// `±le_val(digits) / 10^scale`. The scale may be negative.
#[derive(Clone, Debug, PartialEq, Eq)]
pub struct BigDecimal {
    pub sign: Sign,
    pub digits: Vec<u8>,
    pub scale: i32,
}

/// Errors of parsing and division.
#[derive(Clone, Debug)]
pub enum BigIntError {
    ParseError(String),
    DivisionByZero,
    TooSmallDivisor,
}

/// Removes a factor ten from `v` and one from the scale `s` while the scale
/// is positive and `v` is a multiple of ten: the value `v / 10^s` is kept.
pub open spec fn strip(v: nat, s: int) -> (nat, int)
    decreases (if s > 0 {
        s
    } else {
        0
    }),
{
    if s > 0 && v % 10 == 0 {
        strip(v / 10, s - 1)
    } else {
        (v, s)
    }
}

/// `1` or `-1`.
pub open spec fn sign_int(s: Sign) -> int {
    match s {
        Sign::Positive => 1,
        Sign::Negative => -1,
    }
}

/// The sizes the operations accept: digit counts and scale magnitudes up to
/// half of `i32::MAX`, less the twenty digits of a quotient, so that the sum
/// or difference of two scales, and a quotient's scale, which the operations
/// form in `i32`, stay within that type.
pub open spec fn size_ok(len: nat, scale: int) -> bool {
    len <= 0x3fff_fff0 && -0x3fff_fff0 <= scale <= 0x3fff_fff0
}

impl BigDecimal {
    /// The signed digits value: the number times `10^scale`.
    pub open spec fn num(&self) -> int {
        sign_int(self.sign) * le_val(self.digits@)
    }

    /// The normal form of `±v / 10^s` with sign `sign`: trailing fractional
    /// zeros removed (while the scale is positive), canonical digits, and a
    /// zero made positive.
    pub open spec fn is_normal_of(&self, sign: Sign, v: nat, s: int) -> bool {
        let p = strip(v, s);
        &&& self.digits@ == le_digits_of(p.0)
        &&& self.scale as int == p.1
        &&& self.sign == (if p.0 == 0 {
            Sign::Positive
        } else {
            sign
        })
    }

    /// The normal form of the value `t.0 / 10^t.1`.
    pub open spec fn denotes(&self, t: (int, int)) -> bool {
        self.is_normal_of(sign_of(t.0), abs(t.0), t.1)
    }

    /// Canonical digits (no leading zero but in `0`) within the size bounds.
    pub open spec fn wf(&self) -> bool {
        le_canonical(self.digits@) && size_ok(self.digits@.len(), self.scale as int)
    }
}

proof fn lemma_low_digit(d: Seq<u8>)
    requires
        d.len() > 0,
        all_digits(d),
    ensures
        le_val(d) % 10 == d[0] as nat,
        le_val(d) / 10 == le_val(d.drop_first()),
        all_digits(d.drop_first()),
{
    lemma_le_first(d);
    assert(d[0] <= 9);
}

proof fn lemma_strip_fixed(v: nat, s: int)
    requires
        s <= 0 || v % 10 != 0,
    ensures
        strip(v, s) == (v, s),
{
}

proof fn lemma_normal_wf(v: nat, s: int)
    ensures
        le_canonical(le_digits_of(strip(v, s).0)),
        le_val(le_digits_of(strip(v, s).0)) == strip(v, s).0,
{
    crate::digits::lemma_le_digits_of(strip(v, s).0);
}

impl BigDecimal {
    /// Builds the normal form of `sign · digits / 10^scale`.
    pub fn new(sign: Sign, digits: Vec<u8>, scale: i32) -> (r: Self)
        requires
            all_digits(digits@),
        ensures
            r.is_normal_of(sign, le_val(digits@), scale as int),
    {
        let mut decimal = BigDecimal { sign, digits, scale };
        decimal.normalize();
        decimal
    }

    /// Zero: `+0` with scale 0.
    pub fn zero() -> (r: Self)
        ensures
            r.sign == Sign::Positive,
            r.digits@ == seq![0u8],
            r.scale == 0,
    {
        BigDecimal { sign: Sign::Positive, digits: vec![0u8], scale: 0 }
    }

    /// Removes trailing zeros of the fractional part (while the scale is
    /// positive) and leading zeros of the integer part; a zero becomes `+0`.
    pub fn normalize(&mut self)
        requires
            all_digits(old(self).digits@),
        ensures
            final(self).is_normal_of(
                old(self).sign,
                le_val(old(self).digits@),
                old(self).scale as int,
            ),
    {
        let ghost v0 = le_val(self.digits@);
        let ghost s0 = self.scale as int;
        let ghost sg = self.sign;
        while self.scale > 0
            invariant_except_break
                self.sign == sg,
                all_digits(self.digits@),
                strip(le_val(self.digits@), self.scale as int) == strip(v0, s0),
            ensures
                self.sign == sg,
                all_digits(self.digits@),
                strip(le_val(self.digits@), self.scale as int) == strip(v0, s0),
                strip(le_val(self.digits@), self.scale as int) == (
                    le_val(self.digits@),
                    self.scale as int,
                ),
            decreases self.scale,
        {
            if self.digits.len() > 0 && self.digits[0] == 0 {
                proof {
                    lemma_low_digit(self.digits@);
                }
                let ghost d = self.digits@;
                self.digits.remove(0);
                self.scale = self.scale - 1;
                assert(self.digits@ =~= d.drop_first());
            } else if self.digits.len() == 0 {
                self.scale = self.scale - 1;
            } else {
                proof {
                    lemma_low_digit(self.digits@);
                    lemma_strip_fixed(le_val(self.digits@), self.scale as int);
                }
                break;
            }
        }
        while self.digits.len() > 1 && self.digits[self.digits.len() - 1] == 0
            invariant
                self.sign == sg,
                all_digits(self.digits@),
                strip(le_val(self.digits@), self.scale as int) == strip(v0, s0),
                strip(le_val(self.digits@), self.scale as int) == (
                    le_val(self.digits@),
                    self.scale as int,
                ),
            decreases self.digits@.len(),
        {
            let ghost d = self.digits@;
            self.digits.pop();
            proof {
                assert(d.drop_last() =~= self.digits@);
                lemma_le_push(self.digits@, 0);
                assert(self.digits@.push(0) =~= d);
                assert(0 * pow10(self.digits@.len()) == 0);
                assert(le_val(self.digits@) == le_val(d));
            }
        }
        if self.digits.len() == 0 {
            self.digits.push(0);
            proof {
                lemma_le_single(0);
                assert(self.digits@ =~= seq![0u8]);
            }
        }
        proof {
            assert(le_canonical(self.digits@));
            lemma_le_canonical_is_digits_of(self.digits@);
        }
        if self.digits.len() == 1 && self.digits[0] == 0 {
            self.sign = Sign::Positive;
            proof {
                assert(self.digits@ =~= seq![0u8]);
                lemma_le_single(0);
            }
        } else {
            proof {
                if le_val(self.digits@) == 0 {
                    crate::digits::lemma_val_zero_all_zero(self.digits@);
                    assert(self.digits@.last() == 0);
                }
            }
        }
    }
}

// ---------------------------------------------------------------------------
// Digit vectors, least significant digit first
// ---------------------------------------------------------------------------

/// The two sequences agree on every index from `i` on.
pub open spec fn agree_from(a: Seq<u8>, b: Seq<u8>, i: usize) -> bool {
    forall|k: int| i <= k < a.len() ==> a[k] == b[k]
}

/// Lexicographic order from the most significant digit is numeric order.
proof fn lemma_le_lex(a: Seq<u8>, b: Seq<u8>, i: usize)
    requires
        a.len() == b.len(),
        i < a.len(),
        all_digits(a),
        all_digits(b),
        agree_from(a, b, (i + 1) as usize),
        a[i as int] < b[i as int],
    ensures
        le_val(a) < le_val(b),
{
    let n = a.len() as int;
    let j0 = n - 1 - i;
    let ra = rev(a);
    let rb = rev(b);
    assert(ra.subrange(0, j0) =~= rb.subrange(0, j0)) by {
        assert forall|j: int| 0 <= j < j0 implies ra[j] == rb[j] by {
            assert(ra[j] == a[n - 1 - j]);
            assert(rb[j] == b[n - 1 - j]);
        }
    }
    assert(all_digits(ra)) by {
        assert forall|j: int| 0 <= j < ra.len() implies #[trigger] ra[j] <= 9 by {
            assert(ra[j] == a[n - 1 - j]);
        }
    }
    assert(all_digits(rb)) by {
        assert forall|j: int| 0 <= j < rb.len() implies #[trigger] rb[j] <= 9 by {
            assert(rb[j] == b[n - 1 - j]);
        }
    }
    crate::digits::lemma_be_lex(ra, rb, j0);
    crate::digits::lemma_be_rev(ra);
    crate::digits::lemma_be_rev(rb);
    crate::digits::lemma_rev_rev(a);
    crate::digits::lemma_rev_rev(b);
}

/// Among canonical digit sequences the shorter one is the smaller.
proof fn lemma_le_len_order(a: Seq<u8>, b: Seq<u8>)
    requires
        le_canonical(a),
        le_canonical(b),
        a.len() < b.len(),
    ensures
        le_val(a) < le_val(b),
{
    crate::digits::lemma_rev_canonical(a);
    crate::digits::lemma_rev_canonical(b);
    crate::digits::lemma_be_canonical_len(rev(a), rev(b));
}

/// A canonical sequence whose value is at least another's is at least as long.
pub proof fn lemma_le_len_of_order(a: Seq<u8>, b: Seq<u8>)
    requires
        le_canonical(a),
        le_canonical(b),
        le_val(a) >= le_val(b),
    ensures
        a.len() >= b.len(),
{
    if a.len() < b.len() {
        lemma_le_len_order(a, b);
    }
}

/// Compares the values of two canonical digit vectors.
pub(crate) fn compare_digits(a: &Vec<u8>, b: &Vec<u8>) -> (r: Ordering)
    requires
        le_canonical(a@),
        le_canonical(b@),
    ensures
        (r == Ordering::Less) == (le_val(a@) < le_val(b@)),
        (r == Ordering::Equal) == (le_val(a@) == le_val(b@)),
        (r == Ordering::Greater) == (le_val(a@) > le_val(b@)),
{
    if a.len() != b.len() {
        proof {
            if a@.len() < b@.len() {
                lemma_le_len_order(a@, b@);
            } else {
                lemma_le_len_order(b@, a@);
            }
        }
        if a.len() < b.len() {
            return Ordering::Less;
        } else {
            return Ordering::Greater;
        }
    }
    let mut i = a.len();
    while i > 0
        invariant
            i <= a@.len(),
            a@.len() == b@.len(),
            le_canonical(a@),
            le_canonical(b@),
            agree_from(a@, b@, i),
        decreases i,
    {
        i = i - 1;
        if a[i] != b[i] {
            if a[i] < b[i] {
                proof {
                    lemma_le_lex(a@, b@, i);
                }
                return Ordering::Less;
            } else {
                proof {
                    lemma_le_lex(b@, a@, i);
                }
                return Ordering::Greater;
            }
        }
    }
    proof {
        assert(a@ =~= b@);
    }
    Ordering::Equal
}

/// `a < b` on the values of canonical digit vectors.
pub(crate) fn digits_less(a: &Vec<u8>, b: &Vec<u8>) -> (r: bool)
    requires
        le_canonical(a@),
        le_canonical(b@),
    ensures
        r == (le_val(a@) < le_val(b@)),
{
    match compare_digits(a, b) {
        Ordering::Less => true,
        _ => false,
    }
}

/// Drops zeros from the most significant end, keeping at least one digit.
pub(crate) fn trim_high_zeros(v: &mut Vec<u8>)
    requires
        all_digits(old(v)@),
    ensures
        le_val(final(v)@) == le_val(old(v)@),
        all_digits(final(v)@),
        final(v)@.len() <= old(v)@.len(),
        old(v)@.len() >= 1 ==> le_canonical(final(v)@),
        old(v)@.len() == 0 ==> final(v)@.len() == 0,
{
    let ghost v0 = v@;
    while v.len() > 1 && v[v.len() - 1] == 0
        invariant
            all_digits(v@),
            le_val(v@) == le_val(v0),
            v@.len() <= v0.len(),
            v0.len() >= 1 ==> v@.len() >= 1,
            v0.len() == 0 ==> v@.len() == 0,
        decreases v@.len(),
    {
        let ghost d = v@;
        v.pop();
        proof {
            assert(d.drop_last() =~= v@);
            lemma_le_push(v@, 0);
            assert(v@.push(0) =~= d);
        }
    }
}

/// `zeros(k) + d`: the digits of `le_val(d) · 10^k`.
pub proof fn lemma_shift_val(d: Seq<u8>, k: nat)
    ensures
        le_val(zeros(k) + d) == pow10(k) * le_val(d),
        (zeros(k) + d).len() == k + d.len(),
        all_digits(d) ==> all_digits(zeros(k) + d),
        le_canonical(d) && le_val(d) > 0 ==> le_canonical(zeros(k) + d),
{
    lemma_le_append(zeros(k), d);
    lemma_le_zeros(k);
    let s = zeros(k) + d;
    if all_digits(d) {
        assert forall|i: int| 0 <= i < s.len() implies #[trigger] s[i] <= 9 by {
            if i >= k {
                assert(s[i] == d[i - k]);
            }
        }
    }
    if le_canonical(d) && le_val(d) > 0 {
        assert(s.last() == d.last());
        if d.len() == 1 {
            lemma_le_single(d[0]);
            assert(d =~= seq![d[0]]);
        }
    }
}

/// Returns `zeros(k) + v`: the digits shifted up by `k` places.
pub(crate) fn shift_up(v: &Vec<u8>, k: usize) -> (r: Vec<u8>)
    requires
        v@.len() + k <= usize::MAX,
    ensures
        r@ == zeros(k as nat) + v@,
{
    let mut r: Vec<u8> = Vec::new();
    let mut i: usize = 0;
    while i < k
        invariant
            i <= k,
            r@ == zeros(i as nat),
        decreases k - i,
    {
        r.push(0);
        i = i + 1;
        assert(r@ =~= zeros(i as nat));
    }
    let mut j: usize = 0;
    while j < v.len()
        invariant
            j <= v@.len(),
            r@ == zeros(k as nat) + v@.subrange(0, j as int),
            v@.len() + k <= usize::MAX,
        decreases v@.len() - j,
    {
        r.push(v[j]);
        j = j + 1;
        assert(r@ =~= zeros(k as nat) + v@.subrange(0, j as int));
    }
    assert(v@.subrange(0, v@.len() as int) =~= v@);
    r
}

proof fn lemma_add_step(r: nat, carry: nat, la: nat, lb: nat, va: nat, vb: nat, p: nat, sum: nat)
    requires
        r + carry * p == la + lb,
        sum == va + vb + carry,
    ensures
        r + (sum % 10) * p + (sum / 10) * (10 * p) == (la + va * p) + (lb + vb * p),
{
    lemma_carry_step(sum, p);
    assert(sum * p == va * p + vb * p + carry * p) by (nonlinear_arith)
        requires
            sum == va + vb + carry,
    ;
}

/// The digits of `le_val(a) + le_val(b)`.
pub(crate) fn add_abs(a: &Vec<u8>, b: &Vec<u8>) -> (r: Vec<u8>)
    requires
        all_digits(a@),
        all_digits(b@),
        a@.len() < usize::MAX,
        b@.len() < usize::MAX,
    ensures
        le_val(r@) == le_val(a@) + le_val(b@),
        all_digits(r@),
        r@.len() >= a@.len(),
        r@.len() >= b@.len(),
        r@.len() <= a@.len() + 1 || r@.len() <= b@.len() + 1,
{
    let mut result: Vec<u8> = Vec::new();
    let mut carry: u16 = 0;
    let len = if a.len() >= b.len() {
        a.len()
    } else {
        b.len()
    };
    let mut i: usize = 0;
    proof {
        assert(lz(a@, 0) =~= Seq::<u8>::empty());
        assert(lz(b@, 0) =~= Seq::<u8>::empty());
        assert(pow10(0) == 1);
    }
    while i < len
        invariant
            all_digits(a@),
            all_digits(b@),
            len == (if a@.len() >= b@.len() {
                a@.len()
            } else {
                b@.len()
            }),
            i <= len,
            result@.len() == i,
            all_digits(result@),
            carry <= 1,
            le_val(result@) + carry * pow10(i as nat) == le_val(lz(a@, i as nat)) + le_val(
                lz(b@, i as nat),
            ),
        decreases len - i,
    {
        let val_a: u8 = if i < a.len() {
            a[i]
        } else {
            0
        };
        let val_b: u8 = if i < b.len() {
            b[i]
        } else {
            0
        };
        let sum: u16 = val_a as u16 + val_b as u16 + carry;
        let ghost before = result@;
        result.push((sum % 10) as u8);
        proof {
            assert(val_a == at(a@, i as int));
            assert(val_b == at(b@, i as int));
            lemma_lz_step(a@, i as nat);
            lemma_lz_step(b@, i as nat);
            lemma_le_push(before, (sum % 10) as u8);
            lemma_add_step(
                le_val(before),
                carry as nat,
                le_val(lz(a@, i as nat)),
                le_val(lz(b@, i as nat)),
                val_a as nat,
                val_b as nat,
                pow10(i as nat),
                sum as nat,
            );
            assert(pow10((i + 1) as nat) == 10 * pow10(i as nat));
            assert forall|k: int| 0 <= k < result@.len() implies #[trigger] result@[k] <= 9 by {
                if k < before.len() {
                    assert(result@[k] == before[k]);
                }
            }
        }
        carry = sum / 10;
        i = i + 1;
    }
    proof {
        lemma_lz_full(a@, len as nat);
        lemma_lz_full(b@, len as nat);
    }
    if carry > 0 {
        let ghost before = result@;
        result.push(carry as u8);
        proof {
            lemma_le_push(before, carry as u8);
            assert forall|k: int| 0 <= k < result@.len() implies #[trigger] result@[k] <= 9 by {
                if k < before.len() {
                    assert(result@[k] == before[k]);
                }
            }
        }
    }
    result
}

proof fn lemma_sub_step(
    r: nat,
    borrow: int,
    la: nat,
    lb: nat,
    va: int,
    vb: int,
    p: nat,
    d: int,
    borrow2: int,
)
    requires
        r + lb == la + borrow * p,
        d == va - vb - borrow + 10 * borrow2,
    ensures
        r + d * p + (lb + vb * p) == (la + va * p) + borrow2 * (10 * p),
{
    assert(d * p == va * p - vb * p - borrow * p + borrow2 * (10 * p)) by (nonlinear_arith)
        requires
            d == va - vb - borrow + 10 * borrow2,
    ;
}

/// The digits of `le_val(a) - le_val(b)`, as many as `a` has.
pub(crate) fn sub_abs(a: &Vec<u8>, b: &Vec<u8>) -> (r: Vec<u8>)
    requires
        all_digits(a@),
        all_digits(b@),
        b@.len() <= a@.len(),
        le_val(a@) >= le_val(b@),
    ensures
        le_val(r@) == le_val(a@) - le_val(b@),
        all_digits(r@),
        r@.len() == a@.len(),
{
    let mut result: Vec<u8> = Vec::new();
    let mut borrow: i16 = 0;
    let len = a.len();
    let mut i: usize = 0;
    proof {
        assert(lz(a@, 0) =~= Seq::<u8>::empty());
        assert(lz(b@, 0) =~= Seq::<u8>::empty());
    }
    while i < len
        invariant
            all_digits(a@),
            all_digits(b@),
            len == a@.len(),
            b@.len() <= a@.len(),
            i <= len,
            result@.len() == i,
            all_digits(result@),
            0 <= borrow <= 1,
            le_val(result@) + le_val(lz(b@, i as nat)) == le_val(lz(a@, i as nat)) + borrow
                * pow10(i as nat),
        decreases len - i,
    {
        let val_a = a[i] as i16;
        let val_b: i16 = if i < b.len() {
            b[i] as i16
        } else {
            0
        };
        let ghost old_borrow = borrow;
        let mut diff = val_a - val_b - borrow;
        if diff < 0 {
            diff = diff + 10;
            borrow = 1;
        } else {
            borrow = 0;
        }
        let ghost before = result@;
        result.push(diff as u8);
        proof {
            assert(val_a == at(a@, i as int));
            assert(val_b == at(b@, i as int));
            lemma_lz_step(a@, i as nat);
            lemma_lz_step(b@, i as nat);
            lemma_le_push(before, diff as u8);
            lemma_sub_step(
                le_val(before),
                old_borrow as int,
                le_val(lz(a@, i as nat)),
                le_val(lz(b@, i as nat)),
                val_a as int,
                val_b as int,
                pow10(i as nat),
                diff as int,
                borrow as int,
            );
            assert(pow10((i + 1) as nat) == 10 * pow10(i as nat));
            assert forall|k: int| 0 <= k < result@.len() implies #[trigger] result@[k] <= 9 by {
                if k < before.len() {
                    assert(result@[k] == before[k]);
                }
            }
        }
        i = i + 1;
    }
    proof {
        lemma_lz_full(a@, len as nat);
        lemma_lz_full(b@, len as nat);
        lemma_le_bound(result@);
        assert(result@.len() == a@.len());
        if borrow == 1 {
            assert(le_val(result@) + le_val(b@) == le_val(a@) + pow10(len as nat));
        }
    }
    result
}

/// One cell of the schoolbook product: the value plus the pending carry
/// grows by `x · y · 10^(i + j)`.
proof fn lemma_mul_step(
    r: nat,
    r2: nat,
    cell: nat,
    carry: nat,
    x: nat,
    y: nat,
    pi: nat,
    pj: nat,
    lo: nat,
    bj: nat,
    prod: nat,
    rhs: nat,
)
    requires
        r + carry * (pi * pj) == rhs,
        prod == cell + x * y + carry,
        r2 + cell * (pi * pj) == r + (prod % 10) * (pi * pj),
    ensures
        r2 + (prod / 10) * (10 * (pi * pj)) == rhs + x * y * (pi * pj),
{
    lemma_carry_step(prod, pi * pj);
    assert(prod * (pi * pj) == cell * (pi * pj) + x * y * (pi * pj) + carry * (pi * pj))
        by (nonlinear_arith)
        requires
            prod == cell + x * y + carry,
    ;
}

proof fn lemma_row_value(li: nat, x: nat, pi: nat, lo: nat, y: nat, pj: nat)
    ensures
        li + x * (lo + y * pj) * pi == li + x * lo * pi + x * y * (pi * pj),
{
    assert(x * (lo + y * pj) * pi == x * lo * pi + x * y * (pi * pj)) by (nonlinear_arith);
}

proof fn lemma_digit_product(x: u8, y: u8)
    requires
        x <= 9,
        y <= 9,
    ensures
        x as nat * y as nat <= 81,
{
    assert(x as nat * y as nat <= 81) by (nonlinear_arith)
        requires
            x <= 9,
            y <= 9,
    ;
}

/// The canonical digits of `le_val(a) · le_val(b)` (schoolbook product).
pub(crate) fn mul_abs(a: &Vec<u8>, b: &Vec<u8>) -> (r: Vec<u8>)
    requires
        all_digits(a@),
        all_digits(b@),
        a@.len() + b@.len() < usize::MAX,
    ensures
        le_val(r@) == le_val(a@) * le_val(b@),
        all_digits(r@),
        a@.len() + b@.len() >= 1 ==> le_canonical(r@),
        r@.len() <= a@.len() + b@.len(),
{
    let n = a.len();
    let m = b.len();
    let mut result: Vec<u8> = vec![0u8; n + m];
    let ghost bv = le_val(b@);
    proof {
        assert(result@ =~= zeros((n + m) as nat));
        lemma_le_zeros((n + m) as nat);
        assert(a@.subrange(0, 0) =~= Seq::<u8>::empty());
        assert(le_val(a@.subrange(0, 0)) == 0);
        assert(0 * bv == 0);
        assert(b@.subrange(0, m as int) =~= b@);
    }
    let mut i: usize = 0;
    while i < n
        invariant
            n == a@.len(),
            m == b@.len(),
            n + m < usize::MAX,
            bv == le_val(b@),
            all_digits(a@),
            all_digits(b@),
            i <= n,
            result@.len() == n + m,
            all_digits(result@),
            le_val(result@) == le_val(a@.subrange(0, i as int)) * bv,
            forall|k: int| i + m <= k < n + m ==> #[trigger] result@[k] == 0,
        decreases n - i,
    {
        let x = a[i];
        let ghost li = le_val(a@.subrange(0, i as int)) * bv;
        let ghost pi = pow10(i as nat);
        let mut carry: u16 = 0;
        let mut j: usize = 0;
        proof {
            assert(b@.subrange(0, 0) =~= Seq::<u8>::empty());
            assert(pow10(0) == 1);
            lemma_pow10_add(i as nat, 0);
            assert(x as nat * 0 * pi == 0) by (nonlinear_arith);
        }
        while j < m
            invariant
                n == a@.len(),
                m == b@.len(),
                n + m < usize::MAX,
                i < n,
                x == a@[i as int],
                x <= 9,
                all_digits(b@),
                j <= m,
                result@.len() == n + m,
                all_digits(result@),
                carry <= 9,
                pi == pow10(i as nat),
                le_val(result@) + carry * pow10((i + j) as nat) == li + x as nat * le_val(
                    b@.subrange(0, j as int),
                ) * pi,
                forall|k: int| i + m <= k < n + m ==> #[trigger] result@[k] == 0,
            decreases m - j,
        {
            let y = b[j];
            let cell = result[i + j];
            proof {
                lemma_digit_product(x, y);
            }
            let product: u16 = cell as u16 + (x as u16 * y as u16) + carry;
            let ghost before = result@;
            result.set(i + j, (product % 10) as u8);
            proof {
                let pj = pow10(j as nat);
                lemma_pow10_add(i as nat, j as nat);
                lemma_le_update(before, (i + j) as int, (product % 10) as u8);
                let lo = le_val(b@.subrange(0, j as int));
                assert(b@.subrange(0, j + 1) =~= b@.subrange(0, j as int).push(y));
                lemma_le_push(b@.subrange(0, j as int), y);
                lemma_mul_step(
                    le_val(before),
                    le_val(result@),
                    cell as nat,
                    carry as nat,
                    x as nat,
                    y as nat,
                    pi,
                    pj,
                    lo,
                    y as nat,
                    product as nat,
                    li + x as nat * lo * pi,
                );
                lemma_row_value(li, x as nat, pi, lo, y as nat, pj);
                lemma_pow10_add(i as nat, (j + 1) as nat);
                assert(pow10((j + 1) as nat) == 10 * pj);
                assert(pi * (10 * pj) == 10 * (pi * pj)) by (nonlinear_arith);
                assert forall|k: int| 0 <= k < result@.len() implies #[trigger] result@[k] <= 9 by {
                    if k != i + j {
                        assert(result@[k] == before[k]);
                    }
                }
            }
            carry = product / 10;
            j = j + 1;
        }
        proof {
            assert(b@.subrange(0, m as int) =~= b@);
            assert(result@[(i + m) as int] == 0);
        }
        if carry > 0 {
            let cur = result[i + m];
            let ghost before = result@;
            result.set(i + m, cur + carry as u8);
            proof {
                lemma_le_update(before, (i + m) as int, (cur + carry as u8) as u8);
                assert forall|k: int| 0 <= k < result@.len() implies #[trigger] result@[k] <= 9 by {
                    if k != i + m {
                        assert(result@[k] == before[k]);
                    }
                }
            }
        }
        proof {
            let ai = a@.subrange(0, i as int);
            assert(a@.subrange(0, i + 1) =~= ai.push(x));
            lemma_le_push(ai, x);
            assert((le_val(ai) + x as nat * pi) * bv == le_val(ai) * bv + x as nat * bv * pi)
                by (nonlinear_arith);
        }
        i = i + 1;
    }
    proof {
        assert(a@.subrange(0, n as int) =~= a@);
    }
    trim_high_zeros(&mut result);
    result
}

/// The value of the digits of `s` from index `i` on.
pub open spec fn high_val(s: Seq<u8>, i: int) -> nat {
    le_val(s.subrange(i, s.len() as int))
}

proof fn lemma_high_step(s: Seq<u8>, i: int)
    requires
        0 < i <= s.len(),
    ensures
        high_val(s, i - 1) == s[i - 1] as nat + 10 * high_val(s, i),
{
    let t = s.subrange(i - 1, s.len() as int);
    assert(t.drop_first() =~= s.subrange(i, s.len() as int));
    lemma_le_first(t);
}

proof fn lemma_long_step(hi: nat, q: nat, dv: nat, r: nat, d: nat, r2: nat, c: nat, rf: nat)
    requires
        hi == q * dv + r,
        r2 == d + 10 * r,
        c * dv + rf == r2,
    ensures
        d + 10 * hi == (q * 10 + c) * dv + rf,
{
    assert(d + 10 * hi == (q * 10 + c) * dv + rf) by (nonlinear_arith)
        requires
            hi == q * dv + r,
            r2 == d + 10 * r,
            c * dv + rf == r2,
    ;
}

proof fn lemma_count_bound(c: nat, dv: nat, rf: nat, r2: nat)
    requires
        c * dv + rf == r2,
        rf >= dv,
        r2 < 10 * dv,
    ensures
        c + 1 <= 9,
        (c + 1) * dv + (rf - dv) == r2,
{
    assert(c + 1 <= 9) by (nonlinear_arith)
        requires
            c * dv + rf == r2,
            rf >= dv,
            r2 < 10 * dv,
    ;
    assert((c + 1) * dv == c * dv + dv) by (nonlinear_arith);
}

/// Quotient and remainder of `le_val(numerator)` by a positive
/// `le_val(denominator)` (long division from the most significant digit).
/// The quotient is canonical; so is the remainder, but for an empty
/// numerator, whose quotient is `[0]` and whose remainder is empty.
pub(crate) fn div_rem_abs(numerator: &Vec<u8>, denominator: &Vec<u8>) -> (r: (Vec<u8>, Vec<u8>))
    requires
        all_digits(numerator@),
        le_canonical(denominator@),
        le_val(denominator@) > 0,
    ensures
        le_val(r.0@) == le_val(numerator@) / le_val(denominator@),
        le_val(r.1@) == le_val(numerator@) % le_val(denominator@),
        le_canonical(r.0@),
        all_digits(r.1@),
        numerator@.len() >= 1 ==> le_canonical(r.1@),
        numerator@.len() == 0 ==> r.0@ == seq![0u8] && r.1@.len() == 0,
        r.0@.len() <= numerator@.len() || r.0@.len() == 1,
        r.1@.len() <= denominator@.len(),
{
    let ghost dv = le_val(denominator@);
    let ghost nv = le_val(numerator@);
    if numerator.len() == 0 {
        let z = vec![0u8];
        let empty: Vec<u8> = Vec::new();
        proof {
            assert(z@ =~= seq![0u8]);
            lemma_le_single(0);
            assert(nv == 0);
            vstd::arithmetic::div_mod::lemma_fundamental_div_mod_converse(0, dv as int, 0, 0);
        }
        return (z, empty);
    }
    let mut num = copy_digits(numerator);
    trim_high_zeros(&mut num);
    if digits_less(&num, denominator) {
        proof {
            vstd::arithmetic::div_mod::lemma_fundamental_div_mod_converse(
                nv as int,
                dv as int,
                0,
                nv as int,
            );
        }
        let z = vec![0u8];
        proof {
            assert(z@ =~= seq![0u8]);
            lemma_le_single(0);
        }
        proof {
            lemma_le_len_of_order(denominator@, num@);
        }
        return (z, num);
    }
    if !digits_less(denominator, &num) {
        proof {
            vstd::arithmetic::div_mod::lemma_fundamental_div_mod_converse(
                nv as int,
                dv as int,
                1,
                0,
            );
        }
        let one = vec![1u8];
        let z = vec![0u8];
        proof {
            assert(one@ =~= seq![1u8]);
            assert(z@ =~= seq![0u8]);
            lemma_le_single(1);
            lemma_le_single(0);
        }
        return (one, z);
    }
    let n = num.len();
    let mut quotient: Vec<u8> = Vec::new();
    let mut remainder: Vec<u8> = Vec::new();
    let mut i: usize = n;
    proof {
        assert(num@.subrange(n as int, n as int) =~= Seq::<u8>::empty());
        assert(crate::digits::be_val(quotient@) == 0);
    }
    while i > 0
        invariant
            n == num@.len(),
            all_digits(num@),
            le_val(num@) == nv,
            le_canonical(denominator@),
            dv == le_val(denominator@),
            dv > 0,
            i <= n,
            n >= 1,
            quotient@.len() == n - i,
            all_digits(quotient@),
            all_digits(remainder@),
            i < n ==> le_canonical(remainder@),
            le_val(remainder@) < dv,
            high_val(num@, i as int) == crate::digits::be_val(quotient@) * dv + le_val(
                remainder@,
            ),
        decreases i,
    {
        i = i - 1;
        let d = num[i];
        let ghost r0 = le_val(remainder@);
        let ghost before = remainder@;
        remainder.insert(0, d);
        proof {
            assert(remainder@.drop_first() =~= before);
            lemma_le_first(remainder@);
            lemma_high_step(num@, (i + 1) as int);
            assert(all_digits(remainder@)) by {
                assert forall|k: int| 0 <= k < remainder@.len() implies #[trigger] remainder@[k]
                    <= 9 by {
                    if k > 0 {
                        assert(remainder@[k] == before[k - 1]);
                    }
                }
            }
        }
        trim_high_zeros(&mut remainder);
        let ghost r2 = le_val(remainder@);
        let mut count: u8 = 0;
        while !digits_less(&remainder, denominator)
            invariant
                le_canonical(denominator@),
                dv == le_val(denominator@),
                dv > 0,
                le_canonical(remainder@),
                count as nat * dv + le_val(remainder@) == r2,
                r2 < 10 * dv,
            decreases le_val(remainder@),
        {
            proof {
                lemma_le_len_of_order(remainder@, denominator@);
                lemma_count_bound(count as nat, dv, le_val(remainder@), r2);
            }
            remainder = sub_abs(&remainder, denominator);
            trim_high_zeros(&mut remainder);
            count = count + 1;
        }
        let ghost qb = quotient@;
        quotient.push(count);
        proof {
            crate::digits::lemma_be_push(qb, count);
            lemma_long_step(
                high_val(num@, (i + 1) as int),
                crate::digits::be_val(qb),
                dv,
                r0,
                d as nat,
                r2,
                count as nat,
                le_val(remainder@),
            );
            assert(count <= 9) by {
                if count > 9 {
                    assert(count as nat * dv >= 10 * dv) by (nonlinear_arith)
                        requires
                            count > 9,
                    ;
                }
            }
            assert forall|k: int| 0 <= k < quotient@.len() implies #[trigger] quotient@[k] <= 9 by {
                if k < qb.len() {
                    assert(quotient@[k] == qb[k]);
                }
            }
        }
    }
    let mut q = reversed(&quotient);
    proof {
        assert(num@.subrange(0, n as int) =~= num@);
        crate::digits::lemma_be_rev(quotient@);
        assert(all_digits(q@)) by {
            assert forall|k: int| 0 <= k < q@.len() implies #[trigger] q@[k] <= 9 by {
                assert(q@[k] == quotient@[quotient@.len() - 1 - k]);
            }
        }
        vstd::arithmetic::div_mod::lemma_fundamental_div_mod_converse(
            nv as int,
            dv as int,
            crate::digits::be_val(quotient@) as int,
            le_val(remainder@) as int,
        );
    }
    trim_high_zeros(&mut q);
    proof {
        lemma_le_len_of_order(denominator@, remainder@);
    }
    (q, remainder)
}

// ---------------------------------------------------------------------------
// Arithmetic
// ---------------------------------------------------------------------------

/// Fractional digits that division adds to the dividend's scale.
pub const DIVISION_DIGITS: usize = 20;

/// A divisor with at least this many zeros between the point and its first
/// significant digit is refused as too small.
pub const TOO_SMALL_ZEROS: i32 = 7;

/// The sign of an integer (zero counts as positive).
pub open spec fn sign_of(v: int) -> Sign {
    if v < 0 {
        Sign::Negative
    } else {
        Sign::Positive
    }
}

/// The absolute value.
pub open spec fn abs(v: int) -> nat {
    if v < 0 {
        (-v) as nat
    } else {
        v as nat
    }
}

/// The sign of a product or quotient.
pub open spec fn product_sign(a: Sign, b: Sign) -> Sign {
    if a == b {
        Sign::Positive
    } else {
        Sign::Negative
    }
}

/// The larger of the two scales: the scale of a sum.
pub open spec fn max_scale(a: BigDecimal, b: BigDecimal) -> int {
    if a.scale >= b.scale {
        a.scale as int
    } else {
        b.scale as int
    }
}

/// The magnitude of `x` in units of `10^-s`, for `s >= x.scale`.
pub open spec fn mag_at(x: BigDecimal, s: int) -> nat {
    le_val(x.digits@) * pow10((s - x.scale) as nat)
}

/// The exact sum in units of `10^-max_scale(a, b)`.
pub open spec fn sum_at(a: BigDecimal, b: BigDecimal) -> int {
    sign_int(a.sign) * mag_at(a, max_scale(a, b)) + sign_int(b.sign) * mag_at(b, max_scale(a, b))
}

/// The exact difference `a - b` in units of `10^-max_scale(a, b)`.
pub open spec fn diff_at(a: BigDecimal, b: BigDecimal) -> int {
    sign_int(a.sign) * mag_at(a, max_scale(a, b)) - sign_int(b.sign) * mag_at(b, max_scale(a, b))
}

/// The value of a number as a pair: the signed digits value and the scale,
/// so that the number is `pair.0 / 10^pair.1`.
pub open spec fn value_of(x: BigDecimal) -> (int, int) {
    (x.num(), x.scale as int)
}

/// The larger of two scales.
pub open spec fn larger(a: int, b: int) -> int {
    if a >= b {
        a
    } else {
        b
    }
}

/// The exact sum of two values, at the larger scale.
pub open spec fn sum_value(a: (int, int), b: (int, int)) -> (int, int) {
    let s = larger(a.1, b.1);
    (a.0 * pow10((s - a.1) as nat) + b.0 * pow10((s - b.1) as nat), s)
}

/// The exact difference of two values, at the larger scale.
pub open spec fn diff_value(a: (int, int), b: (int, int)) -> (int, int) {
    let s = larger(a.1, b.1);
    (a.0 * pow10((s - a.1) as nat) - b.0 * pow10((s - b.1) as nat), s)
}

/// The exact product of two values.
pub open spec fn mul_value(a: (int, int), b: (int, int)) -> (int, int) {
    (a.0 * b.0, a.1 + b.1)
}

/// The quotient with twenty more fractional digits than `a.1 - b.1`, the
/// last one rounded half up, signed by the signs of the operands.
pub open spec fn div_value(a: (int, int), b: (int, int)) -> (int, int) {
    let q = rounded_quotient(abs(a.0) * pow10(20), abs(b.0)) as int;
    (if (a.0 < 0) != (b.0 < 0) {
        -q
    } else {
        q
    }, 20 + a.1 - b.1)
}

/// `n / d` rounded half up.
pub open spec fn rounded_quotient(n: nat, d: nat) -> nat {
    n / d + (if 2 * (n % d) >= d {
        1nat
    } else {
        0nat
    })
}

/// The divisor has `TOO_SMALL_ZEROS` or more zeros after the point before
/// its first digit.
pub open spec fn too_small(b: BigDecimal) -> bool {
    b.scale - b.digits@.len() >= TOO_SMALL_ZEROS
}

/// Only zero strips to zero.
pub proof fn lemma_strip_zero(v: nat, s: int)
    ensures
        (strip(v, s).0 == 0) == (v == 0),
    decreases (if s > 0 {
        s
    } else {
        0
    }),
{
    if s > 0 && v % 10 == 0 {
        lemma_strip_zero(v / 10, s - 1);
    }
}

/// `sign_int(s) * m` is `m` or `-m`.
proof fn lemma_signed(s: Sign, m: nat)
    ensures
        s == Sign::Positive ==> sign_int(s) * m == m,
        s == Sign::Negative ==> sign_int(s) * m == -m,
{
    let i = sign_int(s);
    if s == Sign::Positive {
        assert(i == 1);
        assert(i * m == m) by (nonlinear_arith)
            requires
                i == 1,
        ;
    } else {
        assert(i == -1);
        assert(i * m == -m) by (nonlinear_arith)
            requires
                i == -1,
        ;
    }
}

proof fn lemma_signed_sum(sa: Sign, sb: Sign, ma: nat, mb: nat)
    ensures
        sa == sb ==> abs(sign_int(sa) * ma + sign_int(sb) * mb) == ma + mb,
        sa == sb && ma + mb != 0 ==> sign_of(sign_int(sa) * ma + sign_int(sb) * mb) == sa,
        sa != sb && ma >= mb ==> abs(sign_int(sa) * ma + sign_int(sb) * mb) == ma - mb,
        sa != sb && ma > mb ==> sign_of(sign_int(sa) * ma + sign_int(sb) * mb) == sa,
        sa != sb && ma < mb ==> abs(sign_int(sa) * ma + sign_int(sb) * mb) == mb - ma,
        sa != sb && ma < mb ==> sign_of(sign_int(sa) * ma + sign_int(sb) * mb) == sb,
{
    lemma_signed(sa, ma);
    lemma_signed(sb, mb);
}

proof fn lemma_sum_bridge(a: BigDecimal, b: BigDecimal)
    ensures
        sum_at(a, b) == sum_value(value_of(a), value_of(b)).0,
        diff_at(a, b) == diff_value(value_of(a), value_of(b)).0,
        max_scale(a, b) == sum_value(value_of(a), value_of(b)).1,
        max_scale(a, b) == diff_value(value_of(a), value_of(b)).1,
{
    let s = max_scale(a, b);
    let pa = pow10((s - a.scale) as nat);
    let pb = pow10((s - b.scale) as nat);
    let ia = sign_int(a.sign);
    let ib = sign_int(b.sign);
    let la = le_val(a.digits@);
    let lb = le_val(b.digits@);
    assert(ia * la * pa == ia * (la * pa)) by (nonlinear_arith);
    assert(ib * lb * pb == ib * (lb * pb)) by (nonlinear_arith);
}

/// The product of two signed magnitudes has the product sign and magnitude.
proof fn lemma_signed_product(sa: Sign, sb: Sign, ma: nat, mb: nat)
    ensures
        abs((sign_int(sa) * ma) * (sign_int(sb) * mb)) == ma * mb,
        ma * mb != 0 ==> sign_of((sign_int(sa) * ma) * (sign_int(sb) * mb)) == product_sign(sa, sb),
{
    lemma_signed(sa, ma);
    lemma_signed(sb, mb);
    let p = ma * mb;
    assert(p >= 0);
    assert(ma * (-mb) == -p && (-ma) * mb == -p && (-ma) * (-mb) == p) by (nonlinear_arith)
        requires
            p == ma * mb,
    ;
}

proof fn lemma_div_sign(a: BigDecimal, b: BigDecimal, q: nat)
    requires
        le_val(b.digits@) > 0,
        q == rounded_quotient(le_val(a.digits@) * pow10(20), le_val(b.digits@)),
    ensures
        abs(div_value(value_of(a), value_of(b)).0) == q,
        q != 0 ==> sign_of(div_value(value_of(a), value_of(b)).0) == product_sign(a.sign, b.sign),
{
    let ma = le_val(a.digits@);
    let mb = le_val(b.digits@);
    lemma_signed(a.sign, ma);
    lemma_signed(b.sign, mb);
    if ma == 0 {
        assert(ma * pow10(20) == 0);
        assert(0nat / mb == 0 && 0nat % mb == 0) by (nonlinear_arith)
            requires
                mb > 0,
        ;
        assert(q == 0);
    }
}

proof fn lemma_normal_sign(r: BigDecimal, s1: Sign, s2: Sign, v: nat, s: int)
    requires
        r.is_normal_of(s1, v, s),
        v != 0 ==> s1 == s2,
    ensures
        r.is_normal_of(s2, v, s),
{
    lemma_strip_zero(v, s);
}

impl BigDecimal {
    /// The two digit vectors brought to the larger scale (zeros put below the
    /// one with the smaller scale), and that scale.
    fn align_digits(a: &Self, b: &Self) -> (r: (Vec<u8>, Vec<u8>, i32))
        requires
            a.wf(),
            b.wf(),
        ensures
            r.2 as int == max_scale(*a, *b),
            r.0@ == zeros((r.2 - a.scale) as nat) + a.digits@,
            r.1@ == zeros((r.2 - b.scale) as nat) + b.digits@,
    {
        let max_scale = if a.scale >= b.scale {
            a.scale
        } else {
            b.scale
        };
        let a_digits = shift_up(&a.digits, (max_scale - a.scale) as usize);
        let b_digits = shift_up(&b.digits, (max_scale - b.scale) as usize);
        (a_digits, b_digits, max_scale)
    }

    /// The exact sum, at the larger of the two scales, in normal form.
    pub fn add(self, other: Self) -> (r: Self)
        requires
            self.wf(),
            other.wf(),
        ensures
            r.denotes(sum_value(value_of(self), value_of(other))),
    {
        proof {
            lemma_sum_bridge(self, other);
        }
        let (mut a_digits, mut b_digits, common_scale) = Self::align_digits(&self, &other);
        let ghost ma = mag_at(self, max_scale(self, other));
        let ghost mb = mag_at(other, max_scale(self, other));
        proof {
            lemma_shift_val(self.digits@, (common_scale - self.scale) as nat);
            lemma_shift_val(other.digits@, (common_scale - other.scale) as nat);
        }
        trim_high_zeros(&mut a_digits);
        trim_high_zeros(&mut b_digits);
        proof {
            let ka = pow10((common_scale - self.scale) as nat);
            let kb = pow10((common_scale - other.scale) as nat);
            assert(ka * le_val(self.digits@) == le_val(self.digits@) * ka) by (nonlinear_arith);
            assert(kb * le_val(other.digits@) == le_val(other.digits@) * kb) by (nonlinear_arith);
        }
        assert(le_val(a_digits@) == ma);
        assert(le_val(b_digits@) == mb);
        let ghost total = sum_at(self, other);
        proof {
            lemma_signed_sum(self.sign, other.sign, ma, mb);
        }
        if self.sign == other.sign {
            let digits = add_abs(&a_digits, &b_digits);
            let r = BigDecimal::new(self.sign, digits, common_scale);
            proof {
                assert(abs(total) == ma + mb);
                lemma_normal_sign(r, self.sign, sign_of(total), ma + mb, common_scale as int);
            }
            r
        } else {
            let a_is_larger = !digits_less(&a_digits, &b_digits);
            if a_is_larger {
                proof {
                    lemma_le_len_of_order(a_digits@, b_digits@);
                }
                let digits = sub_abs(&a_digits, &b_digits);
                let r = BigDecimal::new(self.sign, digits, common_scale);
                proof {
                    assert(abs(total) == ma - mb);
                    lemma_normal_sign(r, self.sign, sign_of(total), (ma - mb) as nat, common_scale as int);
                }
                r
            } else {
                proof {
                    lemma_le_len_of_order(b_digits@, a_digits@);
                }
                let digits = sub_abs(&b_digits, &a_digits);
                let r = BigDecimal::new(other.sign, digits, common_scale);
                proof {
                    assert(abs(total) == mb - ma);
                    lemma_normal_sign(r, other.sign, sign_of(total), (mb - ma) as nat, common_scale as int);
                }
                r
            }
        }
    }

    /// The same digits and scale with the opposite sign.
    pub fn neg(self) -> (r: Self)
        ensures
            r.sign == flip(self.sign),
            r.digits@ == self.digits@,
            r.scale == self.scale,
    {
        BigDecimal { sign: self.sign.negate(), digits: self.digits, scale: self.scale }
    }

    /// The exact difference `self - other`, at the larger scale, in normal form.
    pub fn sub(self, other: Self) -> (r: Self)
        requires
            self.wf(),
            other.wf(),
        ensures
            r.denotes(diff_value(value_of(self), value_of(other))),
    {
        proof {
            lemma_sum_bridge(self, other);
        }
        let ghost o = other;
        let negated = other.neg();
        proof {
            assert(max_scale(self, negated) == max_scale(self, o));
            assert(mag_at(negated, max_scale(self, o)) == mag_at(o, max_scale(self, o)));
            let m = mag_at(o, max_scale(self, o));
            lemma_signed(o.sign, m);
            lemma_signed(negated.sign, m);
            assert(sum_at(self, negated) == diff_at(self, o));
            lemma_sum_bridge(self, negated);
        }
        self.add(negated)
    }

    /// The exact product; its scale is the sum of the scales.
    pub fn mul(self, other: Self) -> (r: Self)
        requires
            self.wf(),
            other.wf(),
        ensures
            r.denotes(mul_value(value_of(self), value_of(other))),
    {
        let digits = mul_abs(&self.digits, &other.digits);
        let scale = self.scale + other.scale;
        let sign = if self.sign == other.sign {
            Sign::Positive
        } else {
            Sign::Negative
        };
        let r = BigDecimal::new(sign, digits, scale);
        proof {
            let ma = le_val(self.digits@);
            let mb = le_val(other.digits@);
            lemma_signed_product(self.sign, other.sign, ma, mb);
            lemma_normal_sign(
                r,
                sign,
                sign_of(mul_value(value_of(self), value_of(other)).0),
                ma * mb,
                scale as int,
            );
        }
        r
    }

    /// The quotient with `DIVISION_DIGITS` more fractional digits than the
    /// dividend's scale minus the divisor's, the last one rounded half up. A
    /// zero divisor, or one with `TOO_SMALL_ZEROS` zeros after the point
    /// before its first digit, is refused.
    pub fn checked_div(self, other: Self) -> (r: Result<Self, BigIntError>)
        requires
            self.wf(),
            other.wf(),
        ensures
            le_val(other.digits@) == 0 ==> r matches Err(BigIntError::DivisionByZero),
            le_val(other.digits@) != 0 && too_small(other) ==> r matches Err(
                BigIntError::TooSmallDivisor,
            ),
            le_val(other.digits@) != 0 && !too_small(other) ==> (r matches Ok(q) && q.denotes(
                div_value(value_of(self), value_of(other)),
            )),
    {
        if other.digits.len() == 1 && other.digits[0] == 0 {
            proof {
                assert(other.digits@ =~= seq![0u8]);
                lemma_le_single(0);
            }
            return Err(BigIntError::DivisionByZero);
        }
        proof {
            if le_val(other.digits@) == 0 {
                crate::digits::lemma_val_zero_all_zero(other.digits@);
                assert(other.digits@.last() == 0);
            }
        }
        if other.scale - (other.digits.len() as i32) >= TOO_SMALL_ZEROS {
            return Err(BigIntError::TooSmallDivisor);
        }
        let scale_diff = self.scale - other.scale;
        let num_digits = shift_up(&self.digits, DIVISION_DIGITS);
        proof {
            lemma_shift_val(self.digits@, 20);
            assert(pow10(20) * le_val(self.digits@) == le_val(self.digits@) * pow10(20))
                by (nonlinear_arith);
        }
        let (quotient, remainder) = div_rem_abs(&num_digits, &other.digits);
        let mut twice = add_abs(&remainder, &remainder);
        trim_high_zeros(&mut twice);
        let ghost nv = le_val(num_digits@);
        let ghost dv = le_val(other.digits@);
        let rounded = if !digits_less(&twice, &other.digits) {
            let one = vec![1u8];
            proof {
                assert(one@ =~= seq![1u8]);
                lemma_le_single(1);
                assert(all_digits(one@));
            }
            add_abs(&quotient, &one)
        } else {
            quotient
        };
        proof {
            assert(le_val(rounded@) == rounded_quotient(le_val(self.digits@) * pow10(20), dv));
        }
        let result_scale = DIVISION_DIGITS as i32 + scale_diff;
        let sign = if self.sign == other.sign {
            Sign::Positive
        } else {
            Sign::Negative
        };
        let r = BigDecimal::new(sign, rounded, result_scale);
        proof {
            lemma_div_sign(self, other, le_val(rounded@));
            lemma_normal_sign(
                r,
                sign,
                sign_of(div_value(value_of(self), value_of(other)).0),
                le_val(rounded@),
                result_scale as int,
            );
        }
        Ok(r)
    }
}

// ---------------------------------------------------------------------------
// Parsing
// ---------------------------------------------------------------------------

/// What a text denotes: surrounding white space ignored, an optional `+` or
/// `-`, then digits, commas (ignored) and at most one point. The result is
/// the sign, the digits least significant first and the count of digits
/// after the point (before normalization), or the message of the error.
pub open spec fn parse_parts(input: Seq<char>) -> Result<(Sign, Seq<u8>, int), Seq<char>> {
    let t = trim(input);
    if t.len() == 0 {
        Err("Empty string"@)
    } else {
        let start: int = if t[0] == '-' || t[0] == '+' {
            1
        } else {
            0
        };
        let body = t.subrange(start, t.len() as int);
        match scan(body, body.len()) {
            Err(e) => Err(scan_message(e)),
            Ok(st) => if !st.2 {
                Err("No digits found"@)
            } else {
                Ok(
                    (
                        if t[0] == '-' {
                            Sign::Negative
                        } else {
                            Sign::Positive
                        },
                        rev(st.0),
                        st.1 as int,
                    ),
                )
            },
        }
    }
}

proof fn lemma_trim_len(s: Seq<char>)
    ensures
        trim(s).len() <= s.len(),
{
    lemma_trim_start_len(s);
    lemma_trim_end_len(crate::text::trim_start(s));
}

proof fn lemma_trim_start_len(s: Seq<char>)
    ensures
        crate::text::trim_start(s).len() <= s.len(),
    decreases s.len(),
{
    if s.len() > 0 && crate::text::is_white_space(s[0]) {
        lemma_trim_start_len(s.drop_first());
    }
}

proof fn lemma_trim_end_len(s: Seq<char>)
    ensures
        crate::text::trim_end(s).len() <= s.len(),
    decreases s.len(),
{
    if s.len() > 0 && crate::text::is_white_space(s.last()) {
        lemma_trim_end_len(s.drop_last());
    }
}

impl BigDecimal {
    /// Parses a decimal number (see `parse_parts`) into its normal form.
    /// The text may hold up to `i32::MAX` characters, so that any count of
    /// fractional digits fits the `i32` scale.
    pub fn parse(input: &str) -> (r: Result<Self, BigIntError>)
        requires
            input@.len() <= 0x7fff_ffff,
        ensures
            match (r, parse_parts(input@)) {
                (Ok(v), Ok(p)) => v.is_normal_of(p.0, le_val(p.1), p.2),
                (Err(BigIntError::ParseError(m)), Err(msg)) => m@ == msg,
                _ => false,
            },
            r matches Ok(v) ==> le_canonical(v.digits@) && v.digits@.len() <= input@.len() && 0
                <= v.scale <= input@.len(),
    {
        let all = chars_of(input);
        let chars = trim_chars(&all);
        if chars.len() == 0 {
            return Err(BigIntError::ParseError("Empty string".to_owned()));
        }
        proof {
            lemma_trim_len(input@);
        }
        let mut sign = Sign::Positive;
        let start_idx: usize = if chars[0] == '-' {
            sign = Sign::Negative;
            1
        } else if chars[0] == '+' {
            1
        } else {
            0
        };
        let (filtered, scale, has_digit, _has_point) = match scan_body(&chars, start_idx) {
            Ok(st) => st,
            Err(e) => {
                return Err(BigIntError::ParseError(scan_error_message(&e)));
            },
        };
        if !has_digit {
            return Err(BigIntError::ParseError("No digits found".to_owned()));
        }
        let digits = reversed(&filtered);
        proof {
            assert(all_digits(digits@)) by {
                assert forall|k: int| 0 <= k < digits@.len() implies #[trigger] digits@[k] <= 9 by {
                    assert(digits@[k] == filtered@[filtered@.len() - 1 - k]);
                }
            }
        }
        let r = BigDecimal::new(sign, digits, scale as i32);
        proof {
            lemma_normal_wf(le_val(digits@), scale as int);
            lemma_strip_bounds(le_val(digits@), scale as int);
            crate::digits::lemma_le_bound(digits@);
            lemma_digits_len(strip(le_val(digits@), scale as int).0, digits@.len());
        }
        Ok(r)
    }
}

/// Removing factors of ten a second time removes nothing.
pub proof fn lemma_strip_idem(v: nat, s: int)
    ensures
        strip(strip(v, s).0, strip(v, s).1) == strip(v, s),
    decreases (if s > 0 {
        s
    } else {
        0
    }),
{
    if s > 0 && v % 10 == 0 {
        lemma_strip_idem(v / 10, s - 1);
    }
}

proof fn lemma_strip_bounds(v: nat, s: int)
    ensures
        strip(v, s).0 <= v,
        s >= 0 ==> 0 <= strip(v, s).1 <= s,
    decreases (if s > 0 {
        s
    } else {
        0
    }),
{
    if s > 0 && v % 10 == 0 {
        lemma_strip_bounds(v / 10, s - 1);
    }
}

/// A value below `10^n` has at most `n` canonical digits (and at least one).
proof fn lemma_digits_len(v: nat, n: nat)
    requires
        v <= pow10(n) - 1 || v == 0,
    ensures
        le_digits_of(v).len() <= if n == 0 {
            1
        } else {
            n
        },
    decreases n,
{
    crate::digits::lemma_le_digits_of(v);
    if v >= 10 {
        assert(n >= 2) by {
            if n <= 1 {
                reveal_with_fuel(pow10, 2);
            }
        }
        assert(le_digits_of(v) == seq![(v % 10) as u8] + le_digits_of(v / 10));
        assert(pow10(n) == 10 * pow10((n - 1) as nat));
        lemma_digits_len(v / 10, (n - 1) as nat);
    }
}

// ---------------------------------------------------------------------------
// Formatting
// ---------------------------------------------------------------------------

/// The number of integer digits of `d` at scale `sc`.
pub open spec fn int_len(d: Seq<u8>, sc: nat) -> nat {
    if d.len() > sc {
        (d.len() - sc) as nat
    } else {
        0
    }
}

/// The integer digits, most significant first.
pub open spec fn int_digits(d: Seq<u8>, sc: nat) -> Seq<u8> {
    rev(d).subrange(0, int_len(d, sc) as int)
}

/// The `sc` fractional digits, most significant first (zeros where `d` is
/// shorter than the scale).
pub open spec fn frac_digits(d: Seq<u8>, sc: nat) -> Seq<u8> {
    Seq::new(sc, |k: int| at(d, sc - 1 - k))
}

/// Digit `x` shown rounded by the digit `next` that follows it: `x` itself
/// below five, else `x + 1` (which is `10` for a nine).
pub open spec fn rounded_digit(x: u8, next: u8) -> Seq<char> {
    if next < 5 {
        seq![digit_char(x)]
    } else if x == 9 {
        seq!['1', '0']
    } else {
        seq![digit_char((x + 1) as u8)]
    }
}

/// At most `lim` fractional digits; when that many are shown, the last one
/// is rounded by the digit after it.
pub open spec fn limited_frac(f: Seq<u8>, lim: nat) -> Seq<char> {
    if f.len() < lim {
        digit_text(f)
    } else {
        digit_text(f.subrange(0, lim - 1)) + rounded_digit(
            f[lim - 1],
            if lim < f.len() {
                f[lim as int]
            } else {
                0u8
            },
        )
    }
}

/// The calculator's text for `x`: an optional minus sign, the integer part
/// (`0` when there is none, grouped by commas on request), then the point and
/// the fractional digits when the scale is positive. With `limit` (the
/// printer for products and quotients) at most `limit` fractional digits are
/// shown, the last rounded, and a number below one in magnitude shows no
/// minus sign.
pub open spec fn grouped_text(x: BigDecimal, grouping: bool, limit: Option<usize>) -> Seq<char> {
    grouped_parts(x.sign == Sign::Negative, x.digits@, x.scale as nat, grouping, limit)
}

/// `grouped_text` for a number given by its sign, digits and scale.
pub open spec fn grouped_parts(
    negative: bool,
    d: Seq<u8>,
    sc: nat,
    grouping: bool,
    limit: Option<usize>,
) -> Seq<char> {
    let il = int_len(d, sc);
    let skip_sign = limit is Some && il == 0;
    (if negative && !skip_sign {
        seq!['-']
    } else {
        Seq::empty()
    }) + (if il == 0 {
        seq!['0']
    } else {
        grouped(int_digits(d, sc), il, grouping, il)
    }) + (if sc > 0 {
        seq!['.'] + match limit {
            None => digit_text(frac_digits(d, sc)),
            Some(lim) => limited_frac(frac_digits(d, sc), lim as nat),
        }
    } else {
        Seq::empty()
    })
}

/// The plain text of a number: a minus sign for `negative`, the integer part
/// (`0` when there is none, grouped by commas on request), and the point and
/// `sc` fractional digits when the scale is positive.
pub open spec fn plain_text(negative: bool, d: Seq<u8>, sc: nat, grouping: bool) -> Seq<char> {
    let il = int_len(d, sc);
    (if negative {
        seq!['-']
    } else {
        Seq::empty()
    }) + (if il == 0 {
        seq!['0']
    } else {
        grouped(int_digits(d, sc), il, grouping, il)
    }) + (if sc > 0 {
        seq!['.'] + digit_text(frac_digits(d, sc))
    } else {
        Seq::empty()
    })
}

/// The digit `pos` places below the point (`pos >= 1`), zero past the digits.
fn digit_below_point(d: &Vec<u8>, sc: usize, pos: usize) -> (r: u8)
    requires
        all_digits(d@),
        pos < sc,
    ensures
        r == frac_digits(d@, sc as nat)[pos as int],
        r <= 9,
{
    let i = sc - 1 - pos;
    if i < d.len() {
        d[i]
    } else {
        0
    }
}

/// Appends the integer digits, with a comma before each group of three when
/// `grouping` is on.
pub(crate) fn push_integer_digits(out: &mut String, d: &Vec<u8>, sc: usize, grouping: bool)
    requires
        all_digits(d@),
    ensures
        final(out)@ == old(out)@ + grouped(
            int_digits(d@, sc as nat),
            int_len(d@, sc as nat),
            grouping,
            int_len(d@, sc as nat),
        ),
{
    let il: usize = if d.len() > sc {
        d.len() - sc
    } else {
        0
    };
    let ghost id = int_digits(d@, sc as nat);
    let ghost head = out@;
    let mut p: usize = 0;
    proof {
        assert(head + grouped(id, il as nat, grouping, 0) =~= head);
    }
    while p < il
        invariant
            il == int_len(d@, sc as nat),
            id == int_digits(d@, sc as nat),
            all_digits(d@),
            p <= il,
            out@ == head + grouped(id, il as nat, grouping, p as nat),
        decreases il - p,
    {
        if grouping && p > 0 && (il - p) % 3 == 0 {
            push_char(out, ',');
        }
        let digit = d[d.len() - 1 - p];
        proof {
            assert(id[p as int] == digit);
        }
        push_char(out, digit_to_char(digit));
        p = p + 1;
        proof {
            assert(out@ =~= head + grouped(id, il as nat, grouping, p as nat));
        }
    }
}

/// Appends the first `count` fractional digits.
pub(crate) fn push_fraction_digits(out: &mut String, d: &Vec<u8>, sc: usize, count: usize)
    requires
        all_digits(d@),
        count <= sc,
    ensures
        final(out)@ == old(out)@ + digit_text(frac_digits(d@, sc as nat).subrange(0, count as int)),
{
    let ghost f = frac_digits(d@, sc as nat);
    let ghost head = out@;
    let mut k: usize = 0;
    proof {
        assert(head + digit_text(f.subrange(0, 0)) =~= head);
    }
    while k < count
        invariant
            f == frac_digits(d@, sc as nat),
            all_digits(d@),
            k <= count <= sc,
            out@ == head + digit_text(f.subrange(0, k as int)),
        decreases count - k,
    {
        let digit = digit_below_point(d, sc, k);
        push_char(out, digit_to_char(digit));
        k = k + 1;
        proof {
            assert(out@ =~= head + digit_text(f.subrange(0, k as int)));
        }
    }
}

/// The text `plain_text(negative, d, sc, grouping)`.
pub(crate) fn plain_string(negative: bool, d: &Vec<u8>, sc: usize, grouping: bool) -> (s: String)
    requires
        all_digits(d@),
    ensures
        s@ == plain_text(negative, d@, sc as nat, grouping),
{
    let mut s = String::new();
    if negative {
        push_char(&mut s, '-');
    }
    if d.len() > sc {
        push_integer_digits(&mut s, d, sc, grouping);
    } else {
        push_char(&mut s, '0');
    }
    if sc > 0 {
        push_char(&mut s, '.');
        push_fraction_digits(&mut s, d, sc, sc);
        proof {
            assert(frac_digits(d@, sc as nat).subrange(0, sc as int) =~= frac_digits(
                d@,
                sc as nat,
            ));
        }
    }
    proof {
        assert(s@ =~= plain_text(negative, d@, sc as nat, grouping));
    }
    s
}

impl BigDecimal {
    /// The calculator's text for the number (see `grouped_text`).
    pub fn to_string_with_grouping(&self, use_grouping: bool, max_decimal_places: Option<usize>) -> (s: String)
        requires
            all_digits(self.digits@),
            self.scale >= 0,
            max_decimal_places matches Some(l) ==> l >= 1,
        ensures
            s@ == grouped_text(*self, use_grouping, max_decimal_places),
    {
        let mut s = String::new();
        let sc = self.scale as usize;
        let int_len: usize = if self.digits.len() > sc {
            self.digits.len() - sc
        } else {
            0
        };
        let skip_sign = max_decimal_places.is_some() && int_len == 0;
        if self.sign == Sign::Negative && !skip_sign {
            push_char(&mut s, '-');
        }
        if int_len == 0 {
            push_char(&mut s, '0');
        } else {
            push_integer_digits(&mut s, &self.digits, sc, use_grouping);
        }
        if sc > 0 {
            push_char(&mut s, '.');
            let ghost before_frac = s@;
            let ghost f = frac_digits(self.digits@, sc as nat);
            match max_decimal_places {
                Some(limit) => {
                    let mut printed: usize = 0;
                    proof {
                        assert(s@ =~= before_frac + digit_text(f.subrange(0, 0)));
                    }
                    while printed < sc
                        invariant_except_break
                            f == frac_digits(self.digits@, sc as nat),
                            all_digits(self.digits@),
                            limit >= 1,
                            printed <= sc,
                            printed < limit,
                            s@ == before_frac + digit_text(f.subrange(0, printed as int)),
                        ensures
                            s@ == before_frac + limited_frac(f, limit as nat),
                        decreases sc - printed,
                    {
                        if printed == limit - 1 {
                            let digit = digit_below_point(&self.digits, sc, printed);
                            let next: u8 = if printed + 1 < sc {
                                digit_below_point(&self.digits, sc, printed + 1)
                            } else {
                                0
                            };
                            if next < 5 {
                                push_char(&mut s, digit_to_char(digit));
                            } else if digit == 9 {
                                push_char(&mut s, '1');
                                push_char(&mut s, '0');
                            } else {
                                push_char(&mut s, digit_to_char(digit + 1));
                            }
                            proof {
                                assert(s@ =~= before_frac + limited_frac(f, limit as nat));
                            }
                            break;
                        }
                        let digit = digit_below_point(&self.digits, sc, printed);
                        push_char(&mut s, digit_to_char(digit));
                        printed = printed + 1;
                        proof {
                            assert(s@ =~= before_frac + digit_text(f.subrange(0, printed as int)));
                        }
                        if printed >= limit {
                            break;
                        }
                    }
                    proof {
                        if printed == sc && sc < limit {
                            assert(f.subrange(0, sc as int) =~= f);
                        }
                    }
                },
                None => {
                    push_fraction_digits(&mut s, &self.digits, sc, sc);
                    proof {
                        assert(f.subrange(0, sc as int) =~= f);
                    }
                },
            }
        }
        proof {
            assert(s@ =~= grouped_text(*self, use_grouping, max_decimal_places));
        }
        s
    }

    /// The plain text of the number: `to_string_with_grouping` without
    /// separators and without a limit, that is sign, integer part (`0` when
    /// there is none), and the point with all `scale` fractional digits.
    pub fn to_string(&self) -> (s: String)
        requires
            all_digits(self.digits@),
            self.scale >= 0,
        ensures
            s@ == grouped_text(*self, false, None),
            s@ == plain_text(self.sign == Sign::Negative, self.digits@, self.scale as nat, false),
    {
        self.to_string_with_grouping(false, None)
    }
}

// ---------------------------------------------------------------------------
// The calculator's operation and error texts
// ---------------------------------------------------------------------------

/// The value that parsed parts denote once normalized.
pub open spec fn parsed_value(p: (Sign, Seq<u8>, int)) -> (int, int) {
    let q = strip(le_val(p.1), p.2);
    (sign_int(p.0) * q.0, q.1)
}

/// The "too small" divisor rule on a normal value.
pub open spec fn too_small_value(b: (int, int)) -> bool {
    b.1 - le_digits_of(abs(b.0)).len() >= TOO_SMALL_ZEROS
}

/// `r` is a parse error with message `m`.
pub open spec fn is_parse_error(r: Result<BigDecimal, BigIntError>, m: Seq<char>) -> bool {
    match r {
        Err(BigIntError::ParseError(x)) => x@ == m,
        _ => false,
    }
}

/// What operator `op` gives on the values `a` and `b`.
pub open spec fn outcome(op: char, r: Result<BigDecimal, BigIntError>, a: (int, int), b: (int, int)) -> bool {
    if op == '+' {
        r matches Ok(v) && v.denotes(sum_value(a, b))
    } else if op == '-' {
        r matches Ok(v) && v.denotes(diff_value(a, b))
    } else if op == '*' {
        r matches Ok(v) && v.denotes(mul_value(a, b))
    } else if op == '/' {
        if b.0 == 0 {
            r matches Err(BigIntError::DivisionByZero)
        } else if too_small_value(b) {
            r matches Err(BigIntError::TooSmallDivisor)
        } else {
            r matches Ok(v) && v.denotes(div_value(a, b))
        }
    } else {
        is_parse_error(r, "Unknown operator: "@.push(op))
    }
}

proof fn lemma_value_of_normal(x: BigDecimal, sign: Sign, v: nat, s: int)
    requires
        x.is_normal_of(sign, v, s),
    ensures
        value_of(x) == (sign_int(sign) * strip(v, s).0, strip(v, s).1),
        le_val(x.digits@) == strip(v, s).0,
{
    lemma_normal_wf(v, s);
    let q = strip(v, s).0;
    lemma_signed(x.sign, q);
    lemma_signed(sign, q);
}

impl BigDecimal {
    /// The quotient of `checked_div`, for a divisor that it accepts.
    pub fn div(self, other: Self) -> (r: Self)
        requires
            self.wf(),
            other.wf(),
            le_val(other.digits@) != 0,
            !too_small(other),
        ensures
            r.denotes(div_value(value_of(self), value_of(other))),
    {
        match self.checked_div(other) {
            Ok(q) => q,
            Err(_) => vstd::pervasive::unreached(),
        }
    }
}

/// Parses both operands and applies `op` (`+`, `-`, `*` or `/`). Each
/// operand text holds at most the sizes the operations accept (`size_ok`),
/// the limit the `i32` scale sets.
pub fn perform_operation(op: char, s1: &str, s2: &str) -> (r: Result<BigDecimal, BigIntError>)
    requires
        s1@.len() <= 0x3fff_fff0,
        s2@.len() <= 0x3fff_fff0,
    ensures
        match (parse_parts(s1@), parse_parts(s2@)) {
            (Err(m), _) => is_parse_error(r, m),
            (Ok(_), Err(m)) => is_parse_error(r, m),
            (Ok(p1), Ok(p2)) => outcome(op, r, parsed_value(p1), parsed_value(p2)),
        },
{
    let num1 = match BigDecimal::parse(s1) {
        Ok(v) => v,
        Err(e) => {
            return Err(e);
        },
    };
    let num2 = match BigDecimal::parse(s2) {
        Ok(v) => v,
        Err(e) => {
            return Err(e);
        },
    };
    let ghost p1 = parse_parts(s1@)->Ok_0;
    let ghost p2 = parse_parts(s2@)->Ok_0;
    proof {
        lemma_value_of_normal(num1, p1.0, le_val(p1.1), p1.2);
        lemma_value_of_normal(num2, p2.0, le_val(p2.1), p2.2);
        assert(value_of(num1) == parsed_value(p1));
        assert(value_of(num2) == parsed_value(p2));
    }
    if op == '+' {
        Ok(num1.add(num2))
    } else if op == '-' {
        Ok(num1.sub(num2))
    } else if op == '*' {
        Ok(num1.mul(num2))
    } else if op == '/' {
        proof {
            let b = value_of(num2);
            lemma_signed(num2.sign, le_val(num2.digits@));
            lemma_normal_wf(le_val(p2.1), p2.2);
            assert(abs(b.0) == le_val(num2.digits@));
            crate::digits::lemma_le_canonical_is_digits_of(num2.digits@);
        }
        num1.checked_div(num2)
    } else {
        let mut msg = "Unknown operator: ".to_owned();
        push_char(&mut msg, op);
        Err(BigIntError::ParseError(msg))
    }
}

/// The text of an error: a parse error with its message, "Division by Zero",
/// or "ERROR" for a divisor that is too small.
pub open spec fn error_text(e: BigIntError) -> Seq<char> {
    match e {
        BigIntError::ParseError(m) => "Parse Error: "@ + m@,
        BigIntError::DivisionByZero => "Division by Zero"@,
        BigIntError::TooSmallDivisor => "ERROR"@,
    }
}

impl BigIntError {
    /// The text of the error (see `error_text`).
    pub fn message(&self) -> (s: String)
        ensures
            s@ == error_text(*self),
    {
        match self {
            BigIntError::ParseError(m) => {
                let mut s = "Parse Error: ".to_owned();
                push_str(&mut s, m.as_str());
                s
            },
            BigIntError::DivisionByZero => "Division by Zero".to_owned(),
            BigIntError::TooSmallDivisor => "ERROR".to_owned(),
        }
    }
}

// ---------------------------------------------------------------------------
// Reading back the plain text
// ---------------------------------------------------------------------------

proof fn lemma_no_white(cs: Seq<char>)
    requires
        digits_and_commas(cs),
    ensures
        forall|i: int| 0 <= i < cs.len() ==> !crate::text::is_white_space(#[trigger] cs[i]),
        forall|i: int| 0 <= i < cs.len() ==> cs[i] != '-' && cs[i] != '+' && cs[i] != '.',
{
    assert forall|i: int| 0 <= i < cs.len() implies !crate::text::is_white_space(#[trigger] cs[i])
        by {
        assert(crate::text::is_digit_char(cs[i]) || cs[i] == ',');
    }
    assert forall|i: int| 0 <= i < cs.len() implies cs[i] != '-' && cs[i] != '+' && cs[i] != '.'
        by {
        assert(crate::text::is_digit_char(cs[i]) || cs[i] == ',');
    }
}

/// What `scan` reads from the plain text of the digits `d` at scale `sc`:
/// digits whose value is `le_val(d)` and the scale, the text carrying a
/// leading minus exactly for `negative`.
pub proof fn lemma_read_plain(negative: bool, d: Seq<u8>, sc: nat, g: bool)
    requires
        all_digits(d),
    ensures
        ({
            let t = plain_text(negative, d, sc, g);
            let body = if negative {
                t.drop_first()
            } else {
                t
            };
            &&& trim(t) == t
            &&& t.len() > 0
            &&& (t[0] == '-') == negative
            &&& t[0] != '+'
            &&& scan(body, body.len()) is Ok
            &&& crate::digits::be_val(scan(body, body.len())->Ok_0.0) == le_val(d)
            &&& scan(body, body.len())->Ok_0.1 == sc
            &&& scan(body, body.len())->Ok_0.2
        }),
{
    let t = plain_text(negative, d, sc, g);
    let il = int_len(d, sc);
    let id = int_digits(d, sc);
    let f = frac_digits(d, sc);
    let head: Seq<char> = if negative {
        seq!['-']
    } else {
        Seq::empty()
    };
    let ip: Seq<char> = if il == 0 {
        seq!['0']
    } else {
        grouped(id, il, g, il)
    };
    let ft = digit_text(f);
    let rest: Seq<char> = if sc > 0 {
        seq!['.'] + ft
    } else {
        Seq::empty()
    };
    assert(t == head + ip + rest);
    assert(all_digits(f)) by {
        assert forall|k: int| 0 <= k < f.len() implies #[trigger] f[k] <= 9 by {
            assert(f[k] == at(d, sc - 1 - k));
        }
    }
    lemma_digit_text(f);
    let idv: Seq<u8> = if il == 0 {
        seq![0u8]
    } else {
        id
    };
    if il == 0 {
        assert(ip.drop_last() =~= Seq::<char>::empty());
        assert(digits_of_text(ip.drop_last()) =~= Seq::<u8>::empty());
        assert(ip.last() == '0');
        assert(crate::text::char_digit('0') == 0);
        assert(digits_of_text(ip) =~= seq![0u8]);
        assert(digits_and_commas(ip)) by {
            assert forall|i: int| 0 <= i < ip.len() implies crate::text::is_digit_char(
                #[trigger] ip[i],
            ) || ip[i] == ',' by {
                assert(ip[i] == '0');
            }
        }
    } else {
        assert(all_digits(id)) by {
            assert forall|k: int| 0 <= k < id.len() implies #[trigger] id[k] <= 9 by {
                assert(id[k] == d[d.len() - 1 - k]);
            }
        }
        lemma_grouped_text(id, il, g, il);
        assert(id.subrange(0, il as int) =~= id);
    }
    assert(digits_of_text(ip) == idv);
    lemma_no_white(ip);
    lemma_no_white(ft);
    assert forall|i: int| 0 <= i < t.len() implies !crate::text::is_white_space(#[trigger] t[i])
        by {
        if i < head.len() {
            assert(t[i] == '-');
        } else if i < head.len() + ip.len() {
            assert(t[i] == ip[i - head.len()]);
        } else {
            let j = i - head.len() - ip.len();
            assert(t[i] == rest[j]);
            if j > 0 {
                assert(rest[j] == ft[j - 1]);
            }
        }
    }
    lemma_trim_plain(t);
    let body = ip + rest;
    if negative {
        assert(t.drop_first() =~= body);
    } else {
        assert(t =~= body);
        assert(t[0] == ip[0]);
    }
    lemma_scan_layout(ip, ft, sc > 0);
    let digits = if sc > 0 {
        idv + f
    } else {
        idv
    };
    if sc > 0 {
        assert(body =~= ip + seq!['.'] + ft);
    }
    // the value of the digits read
    if il == 0 {
        let r = rev(f);
        assert(r =~= lz(d, sc)) by {
            assert forall|i: int| 0 <= i < r.len() implies r[i] == lz(d, sc)[i] by {
                assert(r[i] == f[f.len() - 1 - i]);
            }
        }
        crate::digits::lemma_be_rev(f);
        lemma_lz_full(d, sc);
        crate::digits::lemma_be_append(seq![0u8], f);
        crate::digits::lemma_be_single(0);
        if sc == 0 {
            assert(d.len() == 0);
            assert(le_val(d) == 0);
        }
    } else {
        assert(idv + f =~= rev(d)) by {
            assert forall|i: int| 0 <= i < rev(d).len() implies (idv + f)[i] == rev(d)[i] by {
                if i < il {
                    assert(idv[i] == rev(d)[i]);
                } else {
                    assert(f[i - il] == at(d, sc - 1 - (i - il)));
                }
            }
        }
        crate::digits::lemma_be_rev(rev(d));
        crate::digits::lemma_rev_rev(d);
        if sc == 0 {
            assert(idv =~= rev(d));
        }
    }
}

impl BigDecimal {
    /// The number is its own normal form.
    pub open spec fn is_normal(&self) -> bool {
        self.is_normal_of(self.sign, le_val(self.digits@), self.scale as int)
    }
}

/// Reading back the plain text gives the number: `parse` of `to_string` is
/// the identity on numbers in normal form with a non-negative scale.
pub proof fn law_parse_reads_back_text(x: BigDecimal)
    requires
        x.is_normal(),
        x.scale >= 0,
    ensures
        parse_parts(plain_text(x.sign == Sign::Negative, x.digits@, x.scale as nat, false)) is Ok,
        x.is_normal_of(
            parse_parts(plain_text(x.sign == Sign::Negative, x.digits@, x.scale as nat, false))->Ok_0.0,
            le_val(
                parse_parts(
                    plain_text(x.sign == Sign::Negative, x.digits@, x.scale as nat, false),
                )->Ok_0.1,
            ),
            parse_parts(plain_text(x.sign == Sign::Negative, x.digits@, x.scale as nat, false))->Ok_0.2,
        ),
{
    let d = x.digits@;
    let sc = x.scale as nat;
    let neg = x.sign == Sign::Negative;
    lemma_normal_wf(le_val(d), sc as int);
    lemma_read_plain(neg, d, sc, false);
    let t = plain_text(neg, d, sc, false);
    let body = if neg {
        t.drop_first()
    } else {
        t
    };
    let st = scan(body, body.len())->Ok_0;
    crate::digits::lemma_be_rev(st.0);
    let p = parse_parts(t)->Ok_0;
    assert(t.subrange(if neg { 1int } else { 0int }, t.len() as int) =~= body);
    assert(le_val(p.1) == le_val(d));
    assert(p.2 == sc as int);
    lemma_strip_zero(le_val(d), sc as int);
}

// ---------------------------------------------------------------------------
// Laws
// ---------------------------------------------------------------------------

/// Addition is commutative (for this type and for `plain`, whose sums are
/// specified by the same `sum_value`).
pub proof fn law_add_commutative(a: (int, int), b: (int, int))
    ensures
        sum_value(a, b) == sum_value(b, a),
{
}

/// Multiplication is commutative (here and in `plain`).
pub proof fn law_mul_commutative(a: (int, int), b: (int, int))
    ensures
        mul_value(a, b) == mul_value(b, a),
{
    assert(a.0 * b.0 == b.0 * a.0) by (nonlinear_arith);
}

/// Subtracting is adding the negation.
pub proof fn law_sub_adds_negation(a: (int, int), b: (int, int))
    ensures
        diff_value(a, b) == sum_value(a, (-b.0, b.1)),
{
    let s = larger(a.1, b.1);
    let pb = pow10((s - b.1) as nat);
    assert((-b.0) * pb == -(b.0 * pb)) by (nonlinear_arith);
}

/// Negating twice gives the number back.
pub proof fn law_neg_involutive(x: BigDecimal, y: BigDecimal, z: BigDecimal)
    requires
        y.sign == flip(x.sign) && y.digits@ == x.digits@ && y.scale == x.scale,
        z.sign == flip(y.sign) && z.digits@ == y.digits@ && z.scale == y.scale,
    ensures
        z.sign == x.sign && z.digits@ == x.digits@ && z.scale == x.scale,
{
}

/// Division rounds to the nearest: the quotient `q` of `n / d` satisfies
/// `(2q - 1) d <= 2n < (2q + 1) d`, halves going up.
pub proof fn law_division_rounds_to_nearest(n: nat, d: nat)
    requires
        d > 0,
    ensures
        (2 * rounded_quotient(n, d) - 1) * d <= 2 * n,
        2 * n < (2 * rounded_quotient(n, d) + 1) * d,
{
    let q = n / d;
    let r = n % d;
    vstd::arithmetic::div_mod::lemma_fundamental_div_mod(n as int, d as int);
    assert(n == q * d + r);
    assert(0 <= r < d);
    if 2 * r >= d {
        assert((2 * (q + 1) - 1) * d <= 2 * n && 2 * n < (2 * (q + 1) + 1) * d) by (nonlinear_arith)
            requires
                n == q * d + r,
                2 * r >= d,
                r < d,
        ;
    } else {
        assert((2 * q - 1) * d <= 2 * n && 2 * n < (2 * q + 1) * d) by (nonlinear_arith)
            requires
                n == q * d + r,
                2 * r < d,
                r >= 0,
                d > 0,
        ;
    }
}

/// Commas are ignored: inserting one anywhere after the sign of a trimmed
/// text does not change what it parses to.
pub proof fn law_parse_ignores_commas(s: Seq<char>, k: int)
    requires
        trim(s) == s,
        s.len() > 0,
        0 <= k <= s.len(),
        s[0] == '-' || s[0] == '+' ==> k >= 1,
    ensures
        parse_parts(s.insert(k, ',')) == parse_parts(s),
{
    crate::legacy::lemma_comma_body(s, k);
    let st: int = if s[0] == '-' || s[0] == '+' {
        1
    } else {
        0
    };
    crate::legacy::law_scan_ignores_commas(s.subrange(st, s.len() as int), k - st);
}

// ---------------------------------------------------------------------------
// The calculator's line for one request
// ---------------------------------------------------------------------------

/// The calculator's text for a value: its normal form printed with
/// separators and, with `limit`, at most that many fractional digits.
pub open spec fn value_text(t: (int, int), limit: Option<usize>) -> Seq<char> {
    let q = strip(abs(t.0), t.1);
    grouped_parts(t.0 < 0 && q.0 != 0, le_digits_of(q.0), q.1 as nat, true, limit)
}

/// The calculator's line for `op` on the number texts `l` and `r`: the text
/// of the result, or "ERROR" when a text does not parse, the operator is
/// unknown or the divisor is refused.
pub open spec fn record_answer(op: char, l: Seq<char>, r: Seq<char>) -> Seq<char> {
    match (parse_parts(l), parse_parts(r)) {
        (Ok(p1), Ok(p2)) => {
            let a = parsed_value(p1);
            let b = parsed_value(p2);
            if op == '+' {
                value_text(sum_value(a, b), None)
            } else if op == '-' {
                value_text(diff_value(a, b), None)
            } else if op == '*' {
                value_text(mul_value(a, b), Some(10usize))
            } else if op == '/' && b.0 != 0 && !too_small_value(b) {
                value_text(div_value(a, b), Some(10usize))
            } else {
                "ERROR"@
            }
        },
        _ => "ERROR"@,
    }
}

/// The scale of a division result is not negative (the printer cannot show
/// a negative scale).
pub open spec fn printable_request(op: char, l: Seq<char>, r: Seq<char>) -> bool {
    match (parse_parts(l), parse_parts(r)) {
        (Ok(p1), Ok(p2)) => op == '/' ==> 20 + parsed_value(p1).1 - parsed_value(p2).1 >= 0,
        _ => true,
    }
}

proof fn lemma_value_text(v: BigDecimal, t: (int, int), limit: Option<usize>)
    requires
        v.denotes(t),
        t.1 >= 0,
    ensures
        all_digits(v.digits@),
        v.scale >= 0,
        grouped_text(v, true, limit) == value_text(t, limit),
{
    lemma_normal_wf(abs(t.0), t.1);
    lemma_strip_bounds(abs(t.0), t.1);
}

proof fn lemma_parsed_scale(p: (Sign, Seq<u8>, int))
    requires
        p.2 >= 0,
    ensures
        parsed_value(p).1 >= 0,
{
    lemma_strip_bounds(le_val(p.1), p.2);
}

/// The calculator's line for one request (see `record_answer`), on operand
/// texts of the size that `perform_operation` accepts.
pub fn calculator_line(op: char, s1: &str, s2: &str) -> (out: String)
    requires
        s1@.len() <= 0x3fff_fff0,
        s2@.len() <= 0x3fff_fff0,
        printable_request(op, s1@, s2@),
    ensures
        out@ == record_answer(op, s1@, s2@),
{
    let r = perform_operation(op, s1, s2);
    match r {
        Ok(result) => {
            let ghost p1 = parse_parts(s1@)->Ok_0;
            let ghost p2 = parse_parts(s2@)->Ok_0;
            proof {
                assert(parse_parts(s1@) is Ok && parse_parts(s2@) is Ok);
                assert(p1.2 >= 0 && p2.2 >= 0);
                lemma_parsed_scale(p1);
                lemma_parsed_scale(p2);
                let a = parsed_value(p1);
                let b = parsed_value(p2);
                if op == '+' {
                    lemma_value_text(result, sum_value(a, b), None);
                } else if op == '-' {
                    lemma_value_text(result, diff_value(a, b), None);
                } else if op == '*' {
                    lemma_value_text(result, mul_value(a, b), Some(10usize));
                } else {
                    lemma_value_text(result, div_value(a, b), Some(10usize));
                }
            }
            let limit = if op == '*' || op == '/' {
                Some(10usize)
            } else {
                None
            };
            result.to_string_with_grouping(true, limit)
        },
        Err(_) => "ERROR".to_owned(),
    }
}

/// Whether the answer to the request can be printed (see
/// `printable_request`), on operand texts of the size that
/// `perform_operation` accepts.
pub fn request_printable(op: char, s1: &str, s2: &str) -> (r: bool)
    requires
        s1@.len() <= 0x3fff_fff0,
        s2@.len() <= 0x3fff_fff0,
    ensures
        r == printable_request(op, s1@, s2@),
{
    if op != '/' {
        return true;
    }
    let a = match BigDecimal::parse(s1) {
        Ok(v) => v,
        Err(_) => {
            return true;
        },
    };
    let b = match BigDecimal::parse(s2) {
        Ok(v) => v,
        Err(_) => {
            return true;
        },
    };
    proof {
        let p1 = parse_parts(s1@)->Ok_0;
        let p2 = parse_parts(s2@)->Ok_0;
        lemma_value_of_normal(a, p1.0, le_val(p1.1), p1.2);
        lemma_value_of_normal(b, p2.0, le_val(p2.1), p2.2);
    }
    20 + a.scale - b.scale >= 0
}

/// The answers of this calculator, as a function.
pub open spec fn rounding_answers() -> spec_fn(char, Seq<char>, Seq<char>) -> Seq<char> {
    |op: char, l: Seq<char>, r: Seq<char>| record_answer(op, l, r)
}

/// The requests whose answers can be printed, as a function.
pub open spec fn printable_requests() -> spec_fn(char, Seq<char>, Seq<char>) -> bool {
    |op: char, l: Seq<char>, r: Seq<char>| printable_request(op, l, r)
}

/// The transcript of a batch session on `input` (see `session_until`): the
/// count, then operator and operand words, each answer on its own line. The
/// flag tells that the session stopped at a quotient that cannot be printed.
/// Every word is of the operand size that `perform_operation` accepts.
#[verifier::rlimit(50)]
pub fn session_output(input: &str) -> (out: (String, bool))
    requires
        forall|i: int|
            0 <= i < words(input@).len() ==> #[trigger] words(input@)[i].len() <= 0x3fff_fff0,
    ensures
        (out.0@, out.1) == session_until(input@, rounding_answers(), printable_requests()),
{
    let chars = chars_of(input);
    let ws = split_words(&chars);
    let ghost wv = word_views(ws@);
    proof {
        lemma_words_shape(input@);
    }
    let mut out = "请输入数据数目：".to_owned();
    if ws.len() == 0 {
        return (out, false);
    }
    let n: usize = match parse_usize(&ws[0]) {
        Some(v) => v,
        None => 0,
    };
    let mut idx: usize = 1;
    let mut k: usize = 0;
    proof {
        assert(wv[0] == ws@[0]@);
        assert(n as nat == count_of(wv[0]));
        assert(wv.subrange(1, wv.len() as int) =~= wv.drop_first());
    }
    while k < n
        invariant
            wv == words(input@),
            wv == word_views(ws@),
            forall|i: int| 0 <= i < wv.len() ==> 1 <= #[trigger] wv[i].len() <= 0x3fff_fff0,
            1 <= idx <= ws@.len(),
            k <= n,
            ({
                let r = records_until(
                    wv.subrange(idx as int, wv.len() as int),
                    (n - k) as nat,
                    rounding_answers(),
                    printable_requests(),
                );
                session_until(input@, rounding_answers(), printable_requests()) == (
                    out@ + r.0,
                    r.1,
                )
            }),
        decreases n - k,
    {
        let ghost rest = wv.subrange(idx as int, wv.len() as int);
        push_str(&mut out, "请输入操作符：");
        if idx >= ws.len() {
            proof {
                assert(rest.len() == 0);
            }
            return (out, false);
        }
        push_str(&mut out, "左操作数：");
        if idx + 1 >= ws.len() {
            proof {
                assert(rest.len() == 1);
            }
            return (out, false);
        }
        push_str(&mut out, "右操作数：");
        if idx + 2 >= ws.len() {
            proof {
                assert(rest.len() == 2);
            }
            return (out, false);
        }
        proof {
            assert(wv[idx as int] == ws@[idx as int]@);
            assert(wv[idx as int].len() >= 1);
        }
        let op = ws[idx][0];
        let left = string_of(&ws[idx + 1]);
        let right = string_of(&ws[idx + 2]);
        proof {
            assert(left@ == wv[idx + 1]);
            assert(right@ == wv[idx + 2]);
            assert(rest[0][0] == op);
            assert(rest[1] == left@);
            assert(rest[2] == right@);
            assert(rest.len() >= 3);
        }
        if !request_printable(op, left.as_str(), right.as_str()) {
            proof {
                assert(!(printable_requests())(op, left@, right@));
            }
            return (out, true);
        }
        let answer = calculator_line(op, left.as_str(), right.as_str());
        let ghost before = out@;
        push_str(&mut out, answer.as_str());
        push_char(&mut out, '\n');
        proof {
            assert(rest.subrange(3, rest.len() as int) =~= wv.subrange(idx + 3, wv.len() as int));
            assert((rounding_answers())(op, left@, right@) == answer@);
            assert((printable_requests())(op, left@, right@));
            assert(out@ == before + answer@ + seq!['\n']);
        }
        idx = idx + 3;
        k = k + 1;
    }
    proof {
        assert(out@ + Seq::<char>::empty() =~= out@);
    }
    (out, false)
}

/// Normalizing is idempotent: a normal form is its own normal form.
pub proof fn law_normalize_idempotent(x: BigDecimal, sign: Sign, v: nat, s: int)
    requires
        x.is_normal_of(sign, v, s),
    ensures
        x.is_normal(),
{
    lemma_normal_wf(v, s);
    lemma_strip_idem(v, s);
    lemma_strip_zero(v, s);
}

/// The calculator's text of a value with a scale that is not negative reads
/// back as that value, when it is written whole: always without a limit,
/// and with one when the value in lowest terms has fewer fractional digits
/// than the limit and no minus sign is lost (it is not negative, or at least
/// one in magnitude).
proof fn lemma_text_reads_back(t: (int, int), limit: Option<usize>)
    requires
        t.1 >= 0,
        limit matches Some(lim) ==> strip(abs(t.0), t.1).1 < lim && (t.0 >= 0 || strip(
            abs(t.0),
            t.1,
        ).0 >= pow10(strip(abs(t.0), t.1).1 as nat)),
    ensures
        parse_parts(value_text(t, limit)) is Ok,
        parsed_value(parse_parts(value_text(t, limit))->Ok_0).1 <= t.1,
        parsed_value(parse_parts(value_text(t, limit))->Ok_0).0 * pow10(
            (t.1 - parsed_value(parse_parts(value_text(t, limit))->Ok_0).1) as nat,
        ) == t.0,
{
    let n = t.1;
    let q = strip(abs(t.0), t.1);
    lemma_strip_bounds(abs(t.0), t.1);
    lemma_strip_zero(abs(t.0), t.1);
    lemma_strip_idem(abs(t.0), t.1);
    crate::plain::lemma_strip_units(abs(t.0), t.1, n);
    lemma_normal_wf(abs(t.0), t.1);
    let neg = t.0 < 0 && q.0 != 0;
    let d = le_digits_of(q.0);
    let text = plain_text(neg, d, q.1 as nat, true);
    if limit is Some && neg {
        lemma_le_bound(d);
        if d.len() <= q.1 {
            crate::digits::lemma_pow10_mono(d.len(), q.1 as nat);
        }
        assert(int_len(d, q.1 as nat) > 0);
    }
    assert(frac_digits(d, q.1 as nat).len() == q.1);
    assert(value_text(t, limit) =~= text);
    lemma_read_plain(neg, d, q.1 as nat, true);
    let body = if neg {
        text.drop_first()
    } else {
        text
    };
    let st = scan(body, body.len())->Ok_0;
    crate::digits::lemma_be_rev(st.0);
    let p = parse_parts(text)->Ok_0;
    assert(text.subrange(if neg { 1int } else { 0int }, text.len() as int) =~= body);
    assert(le_val(p.1) == q.0);
    assert(p.2 == q.1);
    assert(p.0 == Sign::Negative <==> neg);
    assert(strip(le_val(p.1), p.2) == q);
    let pv = parsed_value(p);
    assert(pv.1 == q.1);
    let pq = pow10((n - q.1) as nat);
    assert(abs(t.0) * pow10((n - t.1) as nat) == abs(t.0) * 1);
    assert(q.0 * pq == abs(t.0));
    if neg {
        assert(sign_int(p.0) == -1);
        assert(pv.0 == -1 * (q.0 as int));
        assert((-1 * (q.0 as int)) * pq == -(q.0 * pq)) by (nonlinear_arith);
    } else {
        assert(sign_int(p.0) == 1);
        assert(pv.0 == 1 * (q.0 as int));
        assert((1 * (q.0 as int)) * pq == q.0 * pq) by (nonlinear_arith);
    }
}

/// The calculator writes a sum or a difference whole: its line for `+` (or
/// `-`) reads back, with `parse`, as a number equal to the sum (or the
/// difference) of what the two operands parse to, sign and every fractional
/// digit included. Equality is stated in units of the finer operand scale.
pub proof fn law_sum_line_reads_back(op: char, l: Seq<char>, r: Seq<char>)
    requires
        op == '+' || op == '-',
        parse_parts(l) is Ok,
        parse_parts(r) is Ok,
    ensures
        ({
            let a = parsed_value(parse_parts(l)->Ok_0);
            let b = parsed_value(parse_parts(r)->Ok_0);
            let n = larger(a.1, b.1);
            let out = record_answer(op, l, r);
            &&& parse_parts(out) is Ok
            &&& parsed_value(parse_parts(out)->Ok_0).1 <= n
            &&& parsed_value(parse_parts(out)->Ok_0).0 * pow10(
                (n - parsed_value(parse_parts(out)->Ok_0).1) as nat,
            ) == a.0 * pow10((n - a.1) as nat) + (if op == '+' {
                b.0
            } else {
                -b.0
            }) * pow10((n - b.1) as nat)
        }),
{
    let p1 = parse_parts(l)->Ok_0;
    let p2 = parse_parts(r)->Ok_0;
    lemma_parsed_scale(p1);
    lemma_parsed_scale(p2);
    let a = parsed_value(p1);
    let b = parsed_value(p2);
    let n = larger(a.1, b.1);
    let t = if op == '+' {
        sum_value(a, b)
    } else {
        diff_value(a, b)
    };
    assert(t.1 == n);
    assert(record_answer(op, l, r) == value_text(t, None));
    lemma_text_reads_back(t, None);
    assert(t.0 == a.0 * pow10((n - a.1) as nat) + (if op == '+' {
        b.0
    } else {
        -b.0
    }) * pow10((n - b.1) as nat)) by {
        if op == '-' {
            let pb = pow10((n - b.1) as nat);
            assert((-b.0) * pb == -(b.0 * pb)) by (nonlinear_arith);
        }
    }
}

/// The calculator writes a short product whole: when the product of what
/// the operands parse to has fewer than ten fractional digits in lowest
/// terms and is not negative or at least one in magnitude, the line for `*`
/// reads back as that product (in units of the sum of the operand scales).
pub proof fn law_short_product_line_reads_back(l: Seq<char>, r: Seq<char>)
    requires
        parse_parts(l) is Ok,
        parse_parts(r) is Ok,
        ({
            let a = parsed_value(parse_parts(l)->Ok_0);
            let b = parsed_value(parse_parts(r)->Ok_0);
            let q = strip(abs(a.0 * b.0), a.1 + b.1);
            &&& q.1 < 10
            &&& a.0 * b.0 >= 0 || q.0 >= pow10(q.1 as nat)
        }),
    ensures
        ({
            let a = parsed_value(parse_parts(l)->Ok_0);
            let b = parsed_value(parse_parts(r)->Ok_0);
            let out = record_answer('*', l, r);
            &&& parse_parts(out) is Ok
            &&& parsed_value(parse_parts(out)->Ok_0).1 <= a.1 + b.1
            &&& parsed_value(parse_parts(out)->Ok_0).0 * pow10(
                (a.1 + b.1 - parsed_value(parse_parts(out)->Ok_0).1) as nat,
            ) == a.0 * b.0
        }),
{
    let p1 = parse_parts(l)->Ok_0;
    let p2 = parse_parts(r)->Ok_0;
    lemma_parsed_scale(p1);
    lemma_parsed_scale(p2);
    let a = parsed_value(p1);
    let b = parsed_value(p2);
    let t = mul_value(a, b);
    assert(record_answer('*', l, r) == value_text(t, Some(10usize)));
    lemma_text_reads_back(t, Some(10usize));
}

/// A session stops at a request exactly when its result would have a
/// negative scale, which the printer cannot write: `printable_request`
/// holds of a request whose operation succeeds exactly when the result's
/// scale is not negative (so sums, differences and products always print,
/// and a quotient stops the session only when `20 + scale(a) - scale(b)` is
/// negative).
pub proof fn law_printable_iff_scale_not_negative(
    op: char,
    l: Seq<char>,
    r: Seq<char>,
    v: BigDecimal,
)
    requires
        parse_parts(l) is Ok,
        parse_parts(r) is Ok,
        outcome(
            op,
            Ok::<BigDecimal, BigIntError>(v),
            parsed_value(parse_parts(l)->Ok_0),
            parsed_value(parse_parts(r)->Ok_0),
        ),
    ensures
        printable_request(op, l, r) <==> v.scale >= 0,
{
    let p1 = parse_parts(l)->Ok_0;
    let p2 = parse_parts(r)->Ok_0;
    lemma_parsed_scale(p1);
    lemma_parsed_scale(p2);
    let a = parsed_value(p1);
    let b = parsed_value(p2);
    let t = if op == '+' {
        sum_value(a, b)
    } else if op == '-' {
        diff_value(a, b)
    } else if op == '*' {
        mul_value(a, b)
    } else {
        div_value(a, b)
    };
    assert(v.denotes(t));
    assert(v.scale as int == strip(abs(t.0), t.1).1);
    lemma_strip_bounds(abs(t.0), t.1);
    if t.1 < 0 {
        assert(strip(abs(t.0), t.1) == (abs(t.0), t.1));
    }
}

/// Division rounds half up: the normal form `v` of a quotient `a / b`, read
/// in units of `10^-(20 + scale(a) - scale(b))`, has a magnitude `Q` with
/// `|a| · 10^20 / |b|` within half a unit of `Q` (ties going up), and is
/// negative exactly when `Q` is not zero and the operands' signs differ.
pub proof fn law_quotient_rounds_half_up(a: (int, int), b: (int, int), v: BigDecimal)
    requires
        b.0 != 0,
        v.denotes(div_value(a, b)),
    ensures
        ({
            let s = 20 + a.1 - b.1;
            let big_q = le_val(v.digits@) * pow10((s - v.scale) as nat);
            &&& v.scale <= s
            &&& (2 * big_q - 1) * abs(b.0) <= 2 * (abs(a.0) * pow10(20))
            &&& 2 * (abs(a.0) * pow10(20)) < (2 * big_q + 1) * abs(b.0)
            &&& (v.sign == Sign::Negative) == (big_q != 0 && (a.0 < 0) != (b.0 < 0))
        }),
{
    let t = div_value(a, b);
    let s = t.1;
    let q = rounded_quotient(abs(a.0) * pow10(20), abs(b.0));
    assert(abs(t.0) == q);
    crate::plain::lemma_strip_units(abs(t.0), s, s);
    crate::digits::lemma_le_digits_of(strip(abs(t.0), s).0);
    lemma_strip_zero(abs(t.0), s);
    assert(pow10(0) == 1);
    assert(abs(t.0) * pow10((s - s) as nat) == abs(t.0) * 1);
    law_division_rounds_to_nearest(abs(a.0) * pow10(20), abs(b.0));
}

/// Division refuses exactly the non-zero divisors of magnitude below
/// `10^-7` (seven or more zeros after the point before the first digit):
/// any divisor of magnitude at least `10^-7`, such as `0.5`, is divided by.
pub proof fn law_too_small_divisor(b: (int, int))
    requires
        b.0 != 0,
        b.1 >= 0,
    ensures
        too_small_value(b) <==> abs(b.0) * pow10(7) < pow10(b.1 as nat),
{
    let v = abs(b.0);
    let d = le_digits_of(v);
    crate::digits::lemma_le_digits_of(v);
    let len = d.len();
    lemma_le_bound(d);
    crate::digits::lemma_pow10_pos(7);
    assert(len >= 1);
    assert(d[len - 1] != 0) by {
        if d[len - 1] == 0 {
            if len == 1 {
                assert(d =~= seq![0u8]);
                lemma_le_single(0);
            }
        }
    }
    // v >= 10^(len - 1): the top digit is not zero.
    let low = d.subrange(0, len - 1);
    assert(d =~= low.push(d[len - 1]));
    crate::digits::lemma_le_push(low, d[len - 1]);
    assert(v >= pow10((len - 1) as nat)) by (nonlinear_arith)
        requires
            v == le_val(low) + d[len - 1] as nat * pow10((len - 1) as nat),
            d[len - 1] >= 1,
    ;
    crate::digits::lemma_pow10_add((len - 1) as nat, 7);
    crate::digits::lemma_pow10_add(len as nat, 7);
    if b.1 - len >= 7 {
        crate::digits::lemma_pow10_mono((len + 7) as nat, b.1 as nat);
        assert(v * pow10(7) < pow10(len as nat) * pow10(7)) by (nonlinear_arith)
            requires
                v < pow10(len as nat),
                pow10(7) >= 1,
        ;
    } else {
        crate::digits::lemma_pow10_mono(b.1 as nat, (len - 1 + 7) as nat);
        assert(v * pow10(7) >= pow10((len - 1) as nat) * pow10(7)) by (nonlinear_arith)
            requires
                v >= pow10((len - 1) as nat),
                pow10(7) >= 1,
        ;
    }
}

} // verus!
