//! A decimal number stored as big-endian digits, with the arithmetic and the
//! output rules of the legacy calculator: truncating division to twenty
//! fractional digits, the "divisor too small" error, and the legacy printers
//! (`to_string_legacy`) with their grouping and rounding quirks.
use vstd::prelude::*;
use std::cmp::Ordering;
use crate::digits::{
    all_digits, all_zero, at, be_canonical, be_val, be_wide, copy_digits, le_val, lemma_be_bound,
    lemma_be_canonical_len, lemma_be_lex, lemma_be_push, lemma_be_rev, lemma_be_single,
    lemma_carry_step, lemma_le_bound, lemma_le_push, lemma_lz_full, lemma_lz_step,
    lemma_pow10_add, lemma_pow10_pos, lemma_rev_rev, lemma_trim_lz, lemma_wide_as_digits,
    lemma_wide_first, lemma_wide_update, lemma_wide_zeros, lz, pow10, rev, reversed, trim_lz,
    zeros,
};
use crate::text::{
    char_digit, char_to_digit, chars_of, count_of, digit_char, digit_text, digit_to_char, grouped,
    is_digit_char, lemma_words_shape, parse_usize, push_char, push_str, records_text,
    session_text, split_words, string_of, trim, trim_chars, word_views, words,
};

verus! {

/// Fractional digits that division appends to the dividend.
pub const DIV_FRACTIONAL_DIGITS: usize = 20;

/// Fractional digits that the multiplication/division printer shows.
pub const LEGACY_ROUND_DIGITS: usize = 10;

/// Leading digits that the "divisor too small" test inspects.
pub const TOO_SMALL_PREFIX_DIGITS: usize = 7;

/// The sign of a decimal number.
#[derive(Clone, Copy, Debug, PartialEq, Eq, Structural)]
pub enum Sign {
    Positive,
    Negative,
}

impl Sign {
    pub(crate) fn from_is_negative(is_negative: bool) -> (s: Self)
        ensures
            s == (if is_negative {
                Sign::Negative
            } else {
                Sign::Positive
            }),
    {
        if is_negative {
            Sign::Negative
        } else {
            Sign::Positive
        }
    }

    pub(crate) fn is_negative(self) -> (r: bool)
        ensures
            r == (self == Sign::Negative),
    {
        match self {
            Sign::Negative => true,
            Sign::Positive => false,
        }
    }
}

/// Errors of parsing and division.
#[derive(Clone, Debug, PartialEq, Eq, Structural)]
pub enum Error {
    Empty,
    InvalidChar(char),
    MultipleDecimalPoints,
    NoDigits,
    /// The divisor is zero or has too many leading zeros.
    DivisionByZeroOrTooSmall,
}

/// Which legacy printer to use: the one for sums and differences, or the one
/// for products and quotients.
#[derive(Clone, Copy, Debug, PartialEq, Eq, Structural)]
pub enum LegacyFormat {
    AddSub,
    MulDiv,
}

/// A decimal number: `sign`, the digits `digits` (most significant first) and
/// `scale` digits after the decimal point. The value is
/// `±be_val(digits) / 10^scale`; `scale` may be negative after a division.
#[derive(Clone, Debug, PartialEq, Eq)]
pub struct BigDecimal {
    pub sign: Sign,
    pub digits: Vec<u8>,
    pub scale: i32,
}

// ---------------------------------------------------------------------------
// Digit-sequence helpers (big-endian)
// ---------------------------------------------------------------------------

/// `s` with zeros in front until it has at least `n` digits.
pub open spec fn pad_front(s: Seq<u8>, n: nat) -> Seq<u8> {
    if s.len() < n {
        zeros((n - s.len()) as nat) + s
    } else {
        s
    }
}

/// `s` with at most `budget` leading zeros removed, keeping at least one digit.
pub open spec fn trim_lz_budget(s: Seq<u8>, budget: nat) -> Seq<u8>
    decreases s.len(),
{
    if budget > 0 && s.len() > 1 && s[0] == 0 {
        trim_lz_budget(s.drop_first(), (budget - 1) as nat)
    } else {
        s
    }
}

/// The digits and scale left after dropping trailing fractional zeros; an
/// emptied sequence becomes `0` with scale 0.
pub open spec fn trim_frac(s: Seq<u8>, scale: nat) -> (Seq<u8>, nat)
    decreases s.len(),
{
    if scale > 0 && s.len() > 0 && s.last() == 0 {
        trim_frac(s.drop_last(), (scale - 1) as nat)
    } else if s.len() == 0 {
        (seq![0u8], 0)
    } else {
        (s, scale)
    }
}

fn trim_leading_zeros(digits: &mut Vec<u8>)
    ensures
        final(digits)@ == trim_lz(old(digits)@),
{
    let n = digits.len();
    let mut idx: usize = 0;
    assert(digits@.subrange(0, n as int) =~= digits@);
    while idx + 1 < n && digits[idx] == 0
        invariant
            n == digits@.len(),
            idx <= n,
            idx < n || n == 0,
            trim_lz(digits@) == trim_lz(digits@.subrange(idx as int, n as int)),
        decreases n - idx,
    {
        let ghost t = digits@.subrange(idx as int, n as int);
        assert(t.drop_first() =~= digits@.subrange(idx + 1, n as int));
        idx = idx + 1;
    }
    if idx > 0 {
        let mut r: Vec<u8> = Vec::new();
        let mut k = idx;
        while k < n
            invariant
                n == digits@.len(),
                idx <= k <= n,
                r@ == digits@.subrange(idx as int, k as int),
            decreases n - k,
        {
            r.push(digits[k]);
            k = k + 1;
            assert(r@ =~= digits@.subrange(idx as int, k as int));
        }
        let ghost t = digits@.subrange(idx as int, n as int);
        assert(!(t.len() > 1 && t[0] == 0));
        *digits = r;
    } else {
        assert(digits@.subrange(0, n as int) =~= digits@);
    }
}

fn trim_fractional_zeros(digits: &mut Vec<u8>, scale: &mut usize)
    ensures
        (final(digits)@, *final(scale) as nat) == trim_frac(old(digits)@, *old(scale) as nat),
{
    while *scale > 0 && digits.len() > 0 && digits[digits.len() - 1] == 0
        invariant
            trim_frac(digits@, *scale as nat) == trim_frac(old(digits)@, *old(scale) as nat),
        decreases digits@.len(),
    {
        digits.pop();
        *scale = *scale - 1;
    }
    if digits.len() == 0 {
        digits.push(0);
        *scale = 0;
    }
}

fn pad_leading_zeros(digits: &mut Vec<u8>, scale: usize)
    requires
        scale < usize::MAX,
    ensures
        final(digits)@ == pad_front(old(digits)@, scale as nat + 1),
{
    let min_len = scale + 1;
    let n = digits.len();
    if n < min_len {
        let mut padded: Vec<u8> = Vec::new();
        let mut i: usize = 0;
        while i < min_len - n
            invariant
                n == digits@.len(),
                n < min_len,
                i <= min_len - n,
                padded@ == zeros(i as nat),
            decreases min_len - n - i,
        {
            padded.push(0);
            i = i + 1;
            assert(padded@ =~= zeros(i as nat));
        }
        let mut k: usize = 0;
        while k < n
            invariant
                n == digits@.len(),
                n < min_len,
                k <= n,
                padded@ == zeros((min_len - n) as nat) + digits@.subrange(0, k as int),
            decreases n - k,
        {
            padded.push(digits[k]);
            k = k + 1;
            assert(padded@ =~= zeros((min_len - n) as nat) + digits@.subrange(0, k as int));
        }
        assert(digits@.subrange(0, n as int) =~= digits@);
        *digits = padded;
    }
}

fn trim_leading_zeros_with_budget(digits: &mut Vec<u8>, budget: usize)
    ensures
        final(digits)@ == trim_lz_budget(old(digits)@, budget as nat),
{
    let n = digits.len();
    let mut remaining = budget;
    let mut idx: usize = 0;
    assert(digits@.subrange(0, n as int) =~= digits@);
    while remaining > 0 && idx + 1 < n && digits[idx] == 0
        invariant
            n == digits@.len(),
            idx <= n,
            idx < n || n == 0,
            remaining + idx == budget,
            trim_lz_budget(digits@, budget as nat) == trim_lz_budget(
                digits@.subrange(idx as int, n as int),
                remaining as nat,
            ),
        decreases n - idx,
    {
        let ghost t = digits@.subrange(idx as int, n as int);
        assert(t.drop_first() =~= digits@.subrange(idx + 1, n as int));
        idx = idx + 1;
        remaining = remaining - 1;
    }
    if idx > 0 {
        let mut r: Vec<u8> = Vec::new();
        let mut k = idx;
        while k < n
            invariant
                n == digits@.len(),
                idx <= k <= n,
                r@ == digits@.subrange(idx as int, k as int),
            decreases n - k,
        {
            r.push(digits[k]);
            k = k + 1;
            assert(r@ =~= digits@.subrange(idx as int, k as int));
        }
        *digits = r;
    } else {
        assert(digits@.subrange(0, n as int) =~= digits@);
    }
}

/// `a` and `b` agree on their first `i` digits.
pub open spec fn same_prefix(a: Seq<u8>, b: Seq<u8>, i: usize) -> bool {
    a.subrange(0, i as int) == b.subrange(0, i as int)
}

proof fn lemma_order_by_len(a: Seq<u8>, b: Seq<u8>)
    requires
        be_canonical(a),
        be_canonical(b),
        a.len() != b.len(),
    ensures
        a.len() < b.len() ==> be_val(a) < be_val(b),
        a.len() > b.len() ==> be_val(a) > be_val(b),
{
    if a.len() < b.len() {
        lemma_be_canonical_len(a, b);
    } else {
        lemma_be_canonical_len(b, a);
    }
}

proof fn lemma_order_at(a: Seq<u8>, b: Seq<u8>, i: usize)
    requires
        a.len() == b.len(),
        i < a.len(),
        all_digits(a),
        all_digits(b),
        same_prefix(a, b, i),
        a[i as int] != b[i as int],
    ensures
        a[i as int] < b[i as int] ==> be_val(a) < be_val(b),
        a[i as int] > b[i as int] ==> be_val(a) > be_val(b),
{
    if a[i as int] < b[i as int] {
        lemma_be_lex(a, b, i as int);
    } else {
        lemma_be_lex(b, a, i as int);
    }
}

proof fn lemma_same_prefix_step(a: Seq<u8>, b: Seq<u8>, i: usize)
    requires
        i < a.len(),
        i < b.len(),
        same_prefix(a, b, i),
        a[i as int] == b[i as int],
    ensures
        forall|j: usize| j == i + 1 ==> #[trigger] same_prefix(a, b, j),
{
    assert(a.subrange(0, i + 1) =~= a.subrange(0, i as int).push(a[i as int]));
    assert(b.subrange(0, i + 1) =~= b.subrange(0, i as int).push(b[i as int]));
}

proof fn lemma_same_prefix_all(a: Seq<u8>, b: Seq<u8>, n: usize)
    requires
        a.len() == n,
        b.len() == n,
        same_prefix(a, b, n),
    ensures
        a == b,
{
    assert(a =~= a.subrange(0, n as int));
    assert(b =~= b.subrange(0, n as int));
}

/// Compares digit sequences by length first, then digit by digit; for
/// sequences of equal length this is the order of their values.
fn cmp_digits(a: &Vec<u8>, b: &Vec<u8>) -> (r: Ordering)
    requires
        all_digits(a@),
        all_digits(b@),
    ensures
        a@.len() < b@.len() ==> r == Ordering::Less,
        a@.len() > b@.len() ==> r == Ordering::Greater,
        a@.len() == b@.len() ==> (r == Ordering::Less <==> be_val(a@) < be_val(b@)),
        a@.len() == b@.len() ==> (r == Ordering::Equal <==> be_val(a@) == be_val(b@)),
        a@.len() == b@.len() ==> (r == Ordering::Greater <==> be_val(a@) > be_val(b@)),
        be_canonical(a@) && be_canonical(b@) ==> (r == Ordering::Less <==> be_val(a@) < be_val(
            b@,
        )),
        be_canonical(a@) && be_canonical(b@) ==> (r == Ordering::Equal <==> be_val(a@) == be_val(
            b@,
        )),
        be_canonical(a@) && be_canonical(b@) ==> (r == Ordering::Greater <==> be_val(a@)
            > be_val(b@)),
{
    if a.len() != b.len() {
        proof {
            if be_canonical(a@) && be_canonical(b@) {
                lemma_order_by_len(a@, b@);
            }
        }
        if a.len() < b.len() {
            return Ordering::Less;
        } else {
            return Ordering::Greater;
        }
    }
    let n = a.len();
    let mut i: usize = 0;
    proof {
        assert(a@.subrange(0, 0) =~= b@.subrange(0, 0));
    }
    while i < n
        invariant
            n == a@.len(),
            n == b@.len(),
            i <= n,
            all_digits(a@),
            all_digits(b@),
            same_prefix(a@, b@, i),
        decreases n - i,
    {
        if a[i] != b[i] {
            proof {
                lemma_order_at(a@, b@, i);
            }
            if a[i] < b[i] {
                return Ordering::Less;
            } else {
                return Ordering::Greater;
            }
        }
        proof {
            lemma_same_prefix_step(a@, b@, i);
        }
        i = i + 1;
    }
    proof {
        lemma_same_prefix_all(a@, b@, n);
    }
    Ordering::Equal
}

proof fn lemma_rev_digits(s: Seq<u8>)
    requires
        all_digits(s),
    ensures
        all_digits(rev(s)),
{
    assert forall|i: int| 0 <= i < rev(s).len() implies #[trigger] rev(s)[i] <= 9 by {
        assert(rev(s)[i] == s[s.len() - 1 - i]);
    }
}

/// From the little-endian result of a digit loop to the big-endian answer.
proof fn lemma_finish_le(r: Seq<u8>)
    ensures
        be_val(rev(r)) == le_val(r),
        rev(r).len() == r.len(),
        all_digits(r) ==> all_digits(rev(r)),
{
    lemma_be_rev(rev(r));
    lemma_rev_rev(r);
    if all_digits(r) {
        lemma_rev_digits(r);
    }
}

fn add_digits(a: &Vec<u8>, b: &Vec<u8>) -> (r: Vec<u8>)
    requires
        all_digits(a@),
        all_digits(b@),
        a@.len() < usize::MAX - 1,
        b@.len() < usize::MAX - 1,
    ensures
        be_val(r@) == be_val(a@) + be_val(b@),
        a@.len() >= 1 || b@.len() >= 1 ==> be_canonical(r@),
        a@.len() == 0 && b@.len() == 0 ==> r@.len() == 0,
{
    let la = a.len();
    let lb = b.len();
    let n = if la > lb {
        la
    } else {
        lb
    };
    let mut res: Vec<u8> = Vec::new();
    let mut carry: u8 = 0;
    let mut k: usize = 0;
    proof {
        assert(lz(rev(a@), 0) =~= Seq::<u8>::empty());
        assert(lz(rev(b@), 0) =~= Seq::<u8>::empty());
    }
    while k < n || carry != 0
        invariant
            la == a@.len(),
            lb == b@.len(),
            n == (if la > lb { la } else { lb }),
            n < usize::MAX - 1,
            k <= n + 1,
            k > n ==> carry == 0,
            n == 0 ==> k == 0,
            carry <= 1,
            res@.len() == k,
            all_digits(res@),
            all_digits(a@),
            all_digits(b@),
            le_val(res@) + carry as nat * pow10(k as nat) == le_val(lz(rev(a@), k as nat)) + le_val(
                lz(rev(b@), k as nat),
            ),
        decreases n + 1 - k,
    {
        let da: u8 = if k < la {
            a[la - 1 - k]
        } else {
            0
        };
        let db: u8 = if k < lb {
            b[lb - 1 - k]
        } else {
            0
        };
        proof {
            lemma_rev_digits(a@);
            lemma_rev_digits(b@);
            assert(da == at(rev(a@), k as int));
            assert(db == at(rev(b@), k as int));
            lemma_lz_step(rev(a@), k as nat);
            lemma_lz_step(rev(b@), k as nat);
        }
        let sum: u8 = da + db + carry;
        let ghost old_res = res@;
        let ghost old_carry = carry;
        res.push(sum % 10);
        carry = sum / 10;
        proof {
            lemma_le_push(old_res, (sum % 10) as u8);
            lemma_carry_step(sum as nat, pow10(k as nat));
            assert(pow10((k + 1) as nat) == 10 * pow10(k as nat));
            assert((da as nat + db as nat) * pow10(k as nat) == da as nat * pow10(k as nat)
                + db as nat * pow10(k as nat)) by (nonlinear_arith);
            assert((da as nat + db as nat + old_carry as nat) * pow10(k as nat) == (da as nat
                + db as nat) * pow10(k as nat) + old_carry as nat * pow10(k as nat))
                by (nonlinear_arith);
            assert(all_digits(res@)) by {
                assert forall|i: int| 0 <= i < res@.len() implies #[trigger] res@[i] <= 9 by {
                    if i < old_res.len() {
                        assert(res@[i] == old_res[i]);
                    }
                }
            }
        }
        k = k + 1;
    }
    proof {
        lemma_lz_full(rev(a@), k as nat);
        lemma_lz_full(rev(b@), k as nat);
        lemma_be_rev(a@);
        lemma_be_rev(b@);
        lemma_finish_le(res@);
    }
    let mut out = reversed(&res);
    proof {
        lemma_trim_lz(out@);
    }
    trim_leading_zeros(&mut out);
    out
}

fn sub_digits(a: &Vec<u8>, b: &Vec<u8>) -> (r: Vec<u8>)
    requires
        all_digits(a@),
        all_digits(b@),
        b@.len() <= a@.len(),
        be_val(b@) <= be_val(a@),
    ensures
        be_val(r@) == be_val(a@) - be_val(b@),
        a@.len() >= 1 ==> be_canonical(r@),
        a@.len() == 0 ==> r@.len() == 0,
{
    let la = a.len();
    let lb = b.len();
    let mut res: Vec<u8> = Vec::new();
    let mut borrow: u8 = 0;
    let mut k: usize = 0;
    proof {
        assert(lz(rev(a@), 0) =~= Seq::<u8>::empty());
        assert(lz(rev(b@), 0) =~= Seq::<u8>::empty());
    }
    while k < la
        invariant
            la == a@.len(),
            lb == b@.len(),
            lb <= la,
            k <= la,
            borrow <= 1,
            res@.len() == k,
            all_digits(res@),
            all_digits(a@),
            all_digits(b@),
            le_val(res@) + le_val(lz(rev(b@), k as nat)) == le_val(lz(rev(a@), k as nat))
                + borrow as nat * pow10(k as nat),
        decreases la - k,
    {
        let da: u8 = a[la - 1 - k];
        let db: u8 = if k < lb {
            b[lb - 1 - k]
        } else {
            0
        };
        proof {
            lemma_rev_digits(a@);
            lemma_rev_digits(b@);
            assert(da == at(rev(a@), k as int));
            assert(db == at(rev(b@), k as int));
            lemma_lz_step(rev(a@), k as nat);
            lemma_lz_step(rev(b@), k as nat);
            lemma_le_push(res@, 0);
        }
        let ghost old_res = res@;
        let ghost old_borrow = borrow;
        let diff: u8;
        if da < db + borrow {
            diff = da + 10 - db - borrow;
            borrow = 1;
        } else {
            diff = da - db - borrow;
            borrow = 0;
        }
        res.push(diff);
        proof {
            lemma_le_push(old_res, diff);
            let p = pow10(k as nat);
            assert(pow10((k + 1) as nat) == 10 * p);
            assert(diff as nat + db as nat + old_borrow as nat == da as nat + 10 * borrow as nat);
            assert((diff as nat + db as nat + old_borrow as nat) * p == (da as nat + 10
                * borrow as nat) * p);
            assert((diff as nat + db as nat + old_borrow as nat) * p == diff as nat * p + db as nat
                * p + old_borrow as nat * p) by (nonlinear_arith);
            assert((da as nat + 10 * borrow as nat) * p == da as nat * p + borrow as nat * (10
                * p)) by (nonlinear_arith);
            assert(all_digits(res@)) by {
                assert forall|i: int| 0 <= i < res@.len() implies #[trigger] res@[i] <= 9 by {
                    if i < old_res.len() {
                        assert(res@[i] == old_res[i]);
                    }
                }
            }
        }
        k = k + 1;
    }
    proof {
        lemma_lz_full(rev(a@), k as nat);
        lemma_lz_full(rev(b@), k as nat);
        lemma_be_rev(a@);
        lemma_be_rev(b@);
        lemma_le_bound(res@);
        if borrow == 1 {
            assert(le_val(res@) + be_val(b@) == be_val(a@) + pow10(la as nat));
            assert(false);
        }
        lemma_finish_le(res@);
    }
    let mut out = reversed(&res);
    proof {
        lemma_trim_lz(out@);
    }
    trim_leading_zeros(&mut out);
    out
}

fn mul_by_digit(a: &Vec<u8>, digit: u8) -> (r: Vec<u8>)
    requires
        all_digits(a@),
        digit <= 9,
        a@.len() < usize::MAX - 1,
    ensures
        be_val(r@) == be_val(a@) * digit,
        a@.len() >= 1 || digit == 0 ==> be_canonical(r@),
        a@.len() == 0 && digit != 0 ==> r@.len() == 0,
{
    if digit == 0 {
        let r = vec![0u8];
        proof {
            lemma_be_single(0);
            assert(r@ =~= seq![0u8]);
            assert(be_val(a@) * 0 == 0) by (nonlinear_arith);
        }
        return r;
    }
    let la = a.len();
    let mut res: Vec<u8> = Vec::new();
    let mut carry: u8 = 0;
    let mut k: usize = 0;
    proof {
        assert(lz(rev(a@), 0) =~= Seq::<u8>::empty());
        assert(le_val(lz(rev(a@), 0)) * digit as nat == 0) by (nonlinear_arith)
            requires
                le_val(lz(rev(a@), 0)) == 0,
        ;
    }
    while k < la
        invariant
            la == a@.len(),
            k <= la,
            carry <= 8,
            digit <= 9,
            res@.len() == k,
            all_digits(res@),
            all_digits(a@),
            le_val(res@) + carry as nat * pow10(k as nat) == le_val(lz(rev(a@), k as nat))
                * digit as nat,
        decreases la - k,
    {
        let da: u8 = a[la - 1 - k];
        proof {
            lemma_rev_digits(a@);
            assert(da == at(rev(a@), k as int));
            lemma_lz_step(rev(a@), k as nat);
            assert(da as nat * digit as nat <= 81) by (nonlinear_arith)
                requires
                    da <= 9,
                    digit <= 9,
            ;
        }
        let prod: u8 = da * digit + carry;
        let ghost old_res = res@;
        let ghost old_carry = carry;
        res.push(prod % 10);
        carry = prod / 10;
        proof {
            lemma_le_push(old_res, (prod % 10) as u8);
            let p = pow10(k as nat);
            lemma_carry_step(prod as nat, p);
            assert(pow10((k + 1) as nat) == 10 * p);
            let v = le_val(lz(rev(a@), k as nat));
            assert((v + da as nat * p) * digit as nat == v * digit as nat + (da as nat
                * digit as nat) * p) by (nonlinear_arith);
            assert(prod as nat * p == (da as nat * digit as nat) * p + old_carry as nat * p)
                by (nonlinear_arith)
                requires
                    prod as nat == da as nat * digit as nat + old_carry as nat,
            ;
            assert(all_digits(res@)) by {
                assert forall|i: int| 0 <= i < res@.len() implies #[trigger] res@[i] <= 9 by {
                    if i < old_res.len() {
                        assert(res@[i] == old_res[i]);
                    }
                }
            }
        }
        k = k + 1;
    }
    if carry != 0 {
        let ghost old_res = res@;
        res.push(carry);
        proof {
            lemma_le_push(old_res, carry);
            assert(all_digits(res@)) by {
                assert forall|i: int| 0 <= i < res@.len() implies #[trigger] res@[i] <= 9 by {
                    if i < old_res.len() {
                        assert(res@[i] == old_res[i]);
                    }
                }
            }
        }
    }
    proof {
        lemma_lz_full(rev(a@), la as nat);
        lemma_be_rev(a@);
        lemma_finish_le(res@);
    }
    let mut out = reversed(&res);
    proof {
        lemma_trim_lz(out@);
    }
    trim_leading_zeros(&mut out);
    out
}

/// Bound on the length of the first factor of `mul_digits`: its `u32`
/// accumulators, each the sum of at most `n` products of two digits plus a
/// carry, then cannot overflow (the original's accumulators have this type
/// and this bound, for the shorter factor).
pub open spec fn mul_len_ok(n: nat) -> bool {
    90 * n + 1 <= 0xffff_ffff
}

proof fn lemma_mul_cell_step(
    acc_before: nat,
    a_pref: nat,
    wa: nat,
    bval: nat,
    da: nat,
    wi: nat,
    bj: nat,
    pj1: nat,
    db: nat,
    cell_w: nat,
)
    requires
        acc_before == a_pref * wa * bval + da * wi * bj * (10 * pj1),
        cell_w == wi * pj1,
    ensures
        acc_before + (da * db) * cell_w == a_pref * wa * bval + da * wi * (bj * 10 + db) * pj1,
{
    assert(da * wi * bj * (10 * pj1) + (da * db) * (wi * pj1) == da * wi * (bj * 10 + db) * pj1)
        by (nonlinear_arith);
}

proof fn lemma_mul_row_end(a_pref: nat, wa1: nat, bval: nat, da: nat)
    ensures
        a_pref * (10 * wa1) * bval + da * wa1 * bval * 1 == (a_pref * 10 + da) * wa1 * bval,
{
    assert(a_pref * (10 * wa1) * bval + da * wa1 * bval * 1 == (a_pref * 10 + da) * wa1 * bval)
        by (nonlinear_arith);
}

fn mul_digits(a: &Vec<u8>, b: &Vec<u8>) -> (r: Vec<u8>)
    requires
        all_digits(a@),
        all_digits(b@),
        mul_len_ok(a@.len()),
        b@.len() <= usize::MAX / 2,
    ensures
        be_val(r@) == be_val(a@) * be_val(b@),
        a@.len() + b@.len() >= 1 ==> be_canonical(r@),
        a@.len() + b@.len() == 0 ==> r@.len() == 0,
{
    if (a.len() == 1 && a[0] == 0) || (b.len() == 1 && b[0] == 0) {
        let r = vec![0u8];
        proof {
            lemma_be_single(0);
            assert(r@ =~= seq![0u8]);
            if a@.len() == 1 && a@[0] == 0 {
                assert(a@ =~= seq![0u8]);
            } else {
                assert(b@ =~= seq![0u8]);
            }
            assert(be_val(a@) * be_val(b@) == 0) by (nonlinear_arith)
                requires
                    be_val(a@) == 0 || be_val(b@) == 0,
            ;
        }
        return r;
    }
    let la = a.len();
    let lb = b.len();
    let n = la + lb;
    let mut acc: Vec<u32> = vec![0u32; n];
    proof {
        assert(acc@ =~= Seq::new(n as nat, |i: int| 0u32));
        lemma_wide_zeros(n as nat);
        assert(a@.subrange(0, 0) =~= Seq::<u8>::empty());
        assert(be_val(a@.subrange(0, 0)) == 0);
        assert(0 * pow10(la as nat) * be_val(b@) == 0) by (nonlinear_arith);
    }
    let ghost bval = be_val(b@);
    let mut i: usize = 0;
    while i < la
        invariant
            la == a@.len(),
            lb == b@.len(),
            n == la + lb,
            mul_len_ok(la as nat),
            all_digits(a@),
            all_digits(b@),
            bval == be_val(b@),
            i <= la,
            acc@.len() == n,
            be_wide(acc@) == be_val(a@.subrange(0, i as int)) * pow10((la - i) as nat) * bval,
            forall|q: int| 0 <= q < n ==> #[trigger] acc@[q] <= 81 * i,
        decreases la - i,
    {
        let da = a[i] as u32;
        let ghost a_pref = be_val(a@.subrange(0, i as int));
        let ghost wi = pow10((la - 1 - i) as nat);
        proof {
            assert(pow10((la - i) as nat) == 10 * wi);
            assert(b@.subrange(0, 0) =~= Seq::<u8>::empty());
            assert(da * wi * 0 * (10 * pow10(lb as nat)) == 0) by (nonlinear_arith);
        }
        let mut j: usize = 0;
        while j < lb
            invariant
                la == a@.len(),
                lb == b@.len(),
                n == la + lb,
                mul_len_ok(la as nat),
                all_digits(a@),
                all_digits(b@),
                bval == be_val(b@),
                i < la,
                j <= lb,
                da == a@[i as int],
                da <= 9,
                a_pref == be_val(a@.subrange(0, i as int)),
                wi == pow10((la - 1 - i) as nat),
                acc@.len() == n,
                be_wide(acc@) == a_pref * (10 * wi) * bval + da * wi * be_val(
                    b@.subrange(0, j as int),
                ) * pow10((lb - j) as nat),
                forall|q: int| 0 <= q < n ==> #[trigger] acc@[q] <= 81 * (i + 1),
                forall|q: int| i + j + 1 <= q < n ==> #[trigger] acc@[q] <= 81 * i,
            decreases lb - j,
        {
            let db = b[j] as u32;
            let p = i + j + 1;
            let cur = acc[p];
            proof {
                assert(db <= 9);
                assert(cur <= 81 * i);
                assert(da * db <= 81) by (nonlinear_arith)
                    requires
                        da <= 9,
                        db <= 9,
                ;
                assert(81 * (i + 1) <= 81 * la);
            }
            let ghost old_acc = acc@;
            acc.set(p, cur + da * db);
            proof {
                lemma_wide_update(old_acc, p as int, (cur + da * db) as u32);
                let pj1 = pow10((lb - j - 1) as nat);
                assert(pow10((lb - j) as nat) == 10 * pj1);
                assert((n - 1 - p) as nat == (la - 1 - i) as nat + (lb - j - 1) as nat);
                lemma_pow10_add((la - 1 - i) as nat, (lb - j - 1) as nat);
                let bj = be_val(b@.subrange(0, j as int));
                assert(b@.subrange(0, j + 1) =~= b@.subrange(0, j as int).push(b@[j as int]));
                lemma_be_push(b@.subrange(0, j as int), b@[j as int]);
                lemma_mul_cell_step(
                    be_wide(old_acc),
                    a_pref,
                    10 * wi,
                    bval,
                    da as nat,
                    wi,
                    bj,
                    pj1,
                    db as nat,
                    pow10((n - 1 - p) as nat),
                );
                let cw = pow10((n - 1 - p) as nat);
                assert(old_acc[p as int] == cur);
                assert((cur + da * db) as nat * cw == cur as nat * cw + (da * db) as nat * cw)
                    by (nonlinear_arith);
                assert(be_wide(acc@) == be_wide(old_acc) + (da * db) as nat * cw);
                assert forall|q: int| 0 <= q < n implies #[trigger] acc@[q] <= 81 * (i + 1) by {
                    if q != p {
                        assert(acc@[q] == old_acc[q]);
                    }
                }
                assert forall|q: int| i + j + 2 <= q < n implies #[trigger] acc@[q] <= 81 * i by {
                    assert(acc@[q] == old_acc[q]);
                }
            }
            j = j + 1;
        }
        proof {
            assert(b@.subrange(0, lb as int) =~= b@);
            assert(pow10(0) == 1);
            lemma_mul_row_end(a_pref, wi, bval, da as nat);
            assert(a@.subrange(0, i + 1) =~= a@.subrange(0, i as int).push(a@[i as int]));
            lemma_be_push(a@.subrange(0, i as int), a@[i as int]);
        }
        i = i + 1;
    }
    // Carry propagation from the least significant cell.
    proof {
        assert(a@.subrange(0, la as int) =~= a@);
        assert(pow10(0) == 1);
        assert(be_val(a@) * 1 * bval == be_val(a@) * bval) by (nonlinear_arith);
    }
    let ghost prod = be_val(a@) * bval;
    let mut k: usize = n;
    while k > 1
        invariant
            la == a@.len(),
            lb == b@.len(),
            n == la + lb,
            mul_len_ok(la as nat),
            k <= n,
            n >= 1 ==> k >= 1,
            acc@.len() == n,
            be_wide(acc@) == prod,
            forall|q: int| k <= q < n ==> #[trigger] acc@[q] <= 9,
            forall|q: int| 0 <= q < k - 1 ==> #[trigger] acc@[q] <= 81 * la,
            k >= 1 ==> acc@[k - 1] <= 90 * la + 1,
        decreases k,
    {
        k = k - 1;
        let v = acc[k];
        let c = v / 10;
        let ghost a0 = acc@;
        acc.set(k, v % 10);
        let w = acc[k - 1];
        proof {
            assert(w <= 81 * la);
            assert(c <= 9 * la);
        }
        let ghost a1 = acc@;
        acc.set(k - 1, w + c);
        proof {
            lemma_wide_update(a0, k as int, (v % 10) as u32);
            lemma_wide_update(a1, (k - 1) as int, (w + c) as u32);
            let wt = pow10((n - 1 - k) as nat);
            assert(pow10((n - 1 - (k - 1)) as nat) == 10 * wt);
            lemma_carry_step(v as nat, wt);
            assert(a1[k - 1] == w);
            assert(a0[k as int] == v);
            assert((w + c) as nat * (10 * wt) == w as nat * (10 * wt) + c as nat * (10 * wt))
                by (nonlinear_arith);
            assert forall|q: int| k <= q < n implies #[trigger] acc@[q] <= 9 by {
                if q != k {
                    assert(acc@[q] == a0[q]);
                }
            }
            assert forall|q: int| 0 <= q < k - 1 implies #[trigger] acc@[q] <= 81 * la by {
                assert(acc@[q] == a0[q]);
            }
        }
    }
    // The top cell is a digit too: the product is below 10^n.
    proof {
        if n >= 1 {
        lemma_be_bound(a@);
        lemma_be_bound(b@);
        lemma_pow10_add(la as nat, lb as nat);
        assert(prod < pow10(n as nat)) by (nonlinear_arith)
            requires
                prod == be_val(a@) * bval,
                be_val(a@) < pow10(la as nat),
                bval < pow10(lb as nat),
                pow10(n as nat) == pow10(la as nat) * pow10(lb as nat),
        ;
        lemma_wide_first(acc@);
        assert(pow10(n as nat) == 10 * pow10((n - 1) as nat));
        lemma_pow10_pos((n - 1) as nat);
        assert(acc@[0] <= 9) by (nonlinear_arith)
            requires
                acc@[0] as nat * pow10((n - 1) as nat) <= prod,
                prod < 10 * pow10((n - 1) as nat),
                pow10((n - 1) as nat) >= 1,
        ;
        }
    }
    let mut out: Vec<u8> = Vec::new();
    let mut t: usize = 0;
    while t < n
        invariant
            n == acc@.len(),
            t <= n,
            out@.len() == t,
            forall|q: int| 0 <= q < n ==> #[trigger] acc@[q] <= 9,
            forall|q: int| 0 <= q < t ==> #[trigger] out@[q] as nat == acc@[q] as nat,
        decreases n - t,
    {
        out.push(acc[t] as u8);
        t = t + 1;
    }
    proof {
        lemma_wide_as_digits(acc@, out@);
        assert(all_digits(out@)) by {
            assert forall|q: int| 0 <= q < out@.len() implies #[trigger] out@[q] <= 9 by {
                assert(out@[q] as nat == acc@[q] as nat);
            }
        }
        lemma_trim_lz(out@);
    }
    trim_leading_zeros(&mut out);
    out
}

/// The value of the first `k` digits of `s`.
pub open spec fn prefix_val(s: Seq<u8>, k: usize) -> nat {
    be_val(s.subrange(0, k as int))
}

proof fn lemma_prefix_step(s: Seq<u8>, k: usize, d: u8)
    requires
        k < s.len(),
        d == s[k as int],
    ensures
        forall|j: usize| j == k + 1 ==> #[trigger] prefix_val(s, j) == prefix_val(s, k) * 10 + d,
{
    assert(s.subrange(0, k + 1) =~= s.subrange(0, k as int).push(d));
    lemma_be_push(s.subrange(0, k as int), d);
}

proof fn lemma_prefix_ends(s: Seq<u8>)
    ensures
        prefix_val(s, 0) == 0,
        s.len() <= usize::MAX ==> prefix_val(s, s.len() as usize) == be_val(s),
{
    assert(s.subrange(0, 0) =~= Seq::<u8>::empty());
    assert(s.subrange(0, s.len() as int) =~= s);
}

/// One step of long division: bringing down digit `d` and taking `q` times
/// the divisor keeps `prefix = quotient * divisor + remainder`.
proof fn lemma_long_division_step(
    pref: nat,
    quot: nat,
    dv: nat,
    rem: nat,
    d: u8,
    rem2: nat,
    q: u8,
)
    requires
        pref == quot * dv + rem,
        rem2 == rem * 10 + d,
        q * dv <= rem2,
        rem2 < (q + 1) * dv,
    ensures
        pref * 10 + d == (quot * 10 + q) * dv + (rem2 - q * dv),
        rem2 - q * dv < dv,
{
    assert(pref * 10 + d == (quot * 10 + q) * dv + (rem2 - q * dv)) by (nonlinear_arith)
        requires
            pref == quot * dv + rem,
            rem2 == rem * 10 + d,
            q * dv <= rem2,
    ;
    assert(rem2 - q * dv < dv) by (nonlinear_arith)
        requires
            rem2 < (q + 1) * dv,
    ;
}

proof fn lemma_bring_down(rem: nat, dv: nat, d: u8)
    requires
        rem < dv,
        d <= 9,
    ensures
        rem * 10 + d < 10 * dv,
{
}

/// `c` times the divisor exceeds `r`.
pub open spec fn exceeds(c: u8, dv: nat, r: nat) -> bool {
    c * dv > r
}

proof fn lemma_next_candidate(cand: u8, dv: nat, r: nat)
    requires
        cand < 9,
        forall|c: u8| cand < c <= 9 ==> #[trigger] exceeds(c, dv, r),
    ensures
        (cand + 1) * dv > r,
{
    assert(exceeds((cand + 1) as u8, dv, r));
}

proof fn lemma_extend_exceeds(cand: u8, dv: nat, r: nat)
    requires
        1 <= cand <= 9,
        forall|c: u8| cand < c <= 9 ==> #[trigger] exceeds(c, dv, r),
        cand * dv > r,
    ensures
        forall|c: u8| (cand - 1) < c <= 9 ==> #[trigger] exceeds(c, dv, r),
{
    assert forall|c: u8| (cand - 1) < c <= 9 implies #[trigger] exceeds(c, dv, r) by {
        if c == cand {
        }
    }
}

proof fn lemma_quotient_exact(num: nat, quot: nat, dv: nat, rem: nat)
    requires
        num == quot * dv + rem,
        rem < dv,
    ensures
        quot == num / dv,
{
    vstd::arithmetic::div_mod::lemma_fundamental_div_mod_converse(
        num as int,
        dv as int,
        quot as int,
        rem as int,
    );
}

/// A canonical value that is not larger than another canonical value has no
/// more digits.
proof fn lemma_canonical_le_len(x: Seq<u8>, y: Seq<u8>)
    requires
        be_canonical(x),
        be_canonical(y),
        be_val(x) <= be_val(y),
    ensures
        x.len() <= y.len(),
{
    if x.len() > y.len() {
        lemma_be_canonical_len(y, x);
    }
}

proof fn lemma_canonical_zero(x: Seq<u8>)
    requires
        be_canonical(x),
    ensures
        be_val(x) == 0 <==> x == seq![0u8],
{
    if be_val(x) == 0 {
        if x.len() > 1 {
            lemma_be_lower_bound_pub(x);
        }
        assert(x.len() == 1);
        assert(be_val(x) == be_val(x.drop_last()) * 10 + x[0] as nat);
        assert(x.drop_last().len() == 0);
        assert(x =~= seq![0u8]);
    } else if x == seq![0u8] {
        lemma_be_single(0);
    }
}

proof fn lemma_be_lower_bound_pub(x: Seq<u8>)
    requires
        x.len() >= 2,
        x[0] >= 1,
    ensures
        be_val(x) >= 1,
{
    crate::digits::lemma_be_lower_bound(x);
    lemma_pow10_pos((x.len() - 1) as nat);
}

fn div_digits(numerator: &Vec<u8>, denominator: &Vec<u8>) -> (r: Vec<u8>)
    requires
        all_digits(numerator@),
        be_canonical(denominator@),
        denominator@.len() < usize::MAX - 1,
    ensures
        denominator@ == seq![0u8] ==> r@ == seq![0u8],
        be_val(denominator@) > 0 ==> be_val(r@) == be_val(numerator@) / be_val(denominator@),
        be_val(denominator@) > 0 && numerator@.len() >= 1 ==> be_canonical(r@),
        be_val(denominator@) > 0 && numerator@.len() == 0 ==> r@.len() == 0,
{
    if denominator.len() == 1 && denominator[0] == 0 {
        let r = vec![0u8];
        proof {
            assert(r@ =~= seq![0u8]);
            assert(denominator@ =~= seq![0u8]);
            lemma_be_single(0);
        }
        return r;
    }
    let ghost dv = be_val(denominator@);
    proof {
        lemma_canonical_zero(denominator@);
        lemma_prefix_ends(numerator@);
        assert(be_val(Seq::<u8>::empty()) == 0);
    }
    let n = numerator.len();
    let mut quotient: Vec<u8> = Vec::new();
    let mut remainder: Vec<u8> = Vec::new();
    let mut k: usize = 0;
    while k < n
        invariant
            n == numerator@.len(),
            all_digits(numerator@),
            be_canonical(denominator@),
            denominator@.len() < usize::MAX - 1,
            dv == be_val(denominator@),
            dv > 0,
            k <= n,
            quotient@.len() == k,
            all_digits(quotient@),
            k == 0 ==> remainder@.len() == 0,
            k > 0 ==> be_canonical(remainder@),
            be_val(remainder@) < dv,
            prefix_val(numerator@, k) == be_val(quotient@) * dv + be_val(remainder@),
        decreases n - k,
    {
        let digit = numerator[k];
        let ghost rem0 = be_val(remainder@);
        proof {
            lemma_prefix_step(numerator@, k, digit);
            assert(digit <= 9);
        }
        if remainder.len() == 1 && remainder[0] == 0 {
            proof {
                assert(remainder@ =~= seq![0u8]);
                lemma_be_single(0);
            }
            remainder = Vec::new();
            assert(be_val(remainder@) == 0);
        }
        let ghost before_push = remainder@;
        remainder.push(digit);
        proof {
            lemma_be_push(before_push, digit);
            assert(all_digits(remainder@)) by {
                assert forall|i: int| 0 <= i < remainder@.len() implies #[trigger] remainder@[i]
                    <= 9 by {
                    if i < before_push.len() {
                        assert(remainder@[i] == before_push[i]);
                    }
                }
            }
            lemma_trim_lz(remainder@);
        }
        trim_leading_zeros(&mut remainder);
        let ghost rem2 = be_val(remainder@);
        proof {
            assert(rem2 == rem0 * 10 + digit);
            lemma_bring_down(rem0, dv, digit);
        }
        let mut q: u8 = 0;
        let at_least_one = match cmp_digits(&remainder, denominator) {
            Ordering::Less => false,
            _ => true,
        };
        if at_least_one {
            let mut cand: u8 = 9;
            loop
                invariant_except_break
                    1 <= cand <= 9,
                    forall|c: u8| cand < c <= 9 ==> #[trigger] exceeds(c, dv, rem2),
                    be_val(remainder@) == rem2,
                    be_canonical(remainder@),
                invariant
                    be_canonical(denominator@),
                    denominator@.len() < usize::MAX - 1,
                    dv == be_val(denominator@),
                    dv > 0,
                    rem2 >= dv,
                    rem2 < 10 * dv,
                ensures
                    1 <= q <= 9,
                    q * dv <= rem2,
                    rem2 < (q + 1) * dv,
                    be_val(remainder@) == rem2 - q * dv,
                    be_canonical(remainder@),
                decreases cand,
            {
                let prod = mul_by_digit(denominator, cand);
                let fits = match cmp_digits(&prod, &remainder) {
                    Ordering::Greater => false,
                    _ => true,
                };
                if fits {
                    proof {
                        lemma_canonical_le_len(prod@, remainder@);
                        if cand < 9 {
                            lemma_next_candidate(cand, dv, rem2);
                        }
                    }
                    q = cand;
                    remainder = sub_digits(&remainder, &prod);
                    break ;
                }
                proof {
                    if cand == 1 {
                        assert(1 * dv <= rem2);
                    }
                    lemma_extend_exceeds(cand, dv, rem2);
                }
                cand = cand - 1;
            }
        } else {
            proof {
                assert(0 * dv == 0);
                assert(1 * dv == dv);
            }
        }
        proof {
            lemma_long_division_step(
                prefix_val(numerator@, k),
                be_val(quotient@),
                dv,
                rem0,
                digit,
                rem2,
                q,
            );
            lemma_be_push(quotient@, q);
        }
        let ghost before_q = quotient@;
        quotient.push(q);
        proof {
            assert(all_digits(quotient@)) by {
                assert forall|i: int| 0 <= i < quotient@.len() implies #[trigger] quotient@[i]
                    <= 9 by {
                    if i < before_q.len() {
                        assert(quotient@[i] == before_q[i]);
                    }
                }
            }
        }
        k = k + 1;
    }
    proof {
        lemma_quotient_exact(be_val(numerator@), be_val(quotient@), dv, be_val(remainder@));
        lemma_trim_lz(quotient@);
    }
    trim_leading_zeros(&mut quotient);
    quotient
}

// ---------------------------------------------------------------------------
// The model of a value
// ---------------------------------------------------------------------------

/// `1` or `-1`.
pub open spec fn sign_int(s: Sign) -> int {
    match s {
        Sign::Positive => 1,
        Sign::Negative => -1,
    }
}

/// The sign of a non-zero integer.
pub open spec fn sign_of(v: int) -> Sign {
    if v < 0 {
        Sign::Negative
    } else {
        Sign::Positive
    }
}

/// The absolute value.
pub open spec fn abs_int(v: int) -> nat {
    if v < 0 {
        (-v) as nat
    } else {
        v as nat
    }
}

/// The largest length and scale magnitude the operations accept, 2^29: the
/// aligned digits of two operands (at most three times as many) and the
/// scale of a product or quotient (at most twice as large) then stay within
/// `i32`, the type of the scale and of the digit positions counted by the
/// operations.
pub open spec fn size_ok(len: nat, scale: int) -> bool {
    len <= 0x2000_0000 && -0x2000_0000 <= scale <= 0x2000_0000
}

/// `digits` written with `k` zeros appended.
pub open spec fn shifted(d: Seq<u8>, k: nat) -> Seq<u8> {
    d + zeros(k)
}

impl BigDecimal {
    /// The documented invariant: decimal digits, most significant first, with
    /// no leading zero except in `0` itself; sizes within `size_ok`.
    pub open spec fn wf(&self) -> bool {
        be_canonical(self.digits@) && size_ok(self.digits@.len(), self.scale as int)
    }

    /// The magnitude of the digits as an integer.
    pub open spec fn mag(&self) -> nat {
        be_val(self.digits@)
    }

    /// The scale once a negative scale has been multiplied out.
    pub open spec fn ops_scale(&self) -> nat {
        if self.scale < 0 {
            0
        } else {
            self.scale as nat
        }
    }

    /// The magnitude at `ops_scale`.
    pub open spec fn ops_mag(&self) -> nat {
        if self.scale < 0 {
            self.mag() * pow10((-self.scale) as nat)
        } else {
            self.mag()
        }
    }

    /// The digits at `ops_scale`.
    pub open spec fn ops_digits(&self) -> Seq<u8> {
        if self.scale < 0 {
            trim_lz(shifted(self.digits@, (-self.scale) as nat))
        } else {
            self.digits@
        }
    }

    /// The sign at `ops_scale` (a zero from a negative scale turns positive).
    pub open spec fn ops_sign(&self) -> Sign {
        if self.scale < 0 && self.ops_digits() == seq![0u8] {
            Sign::Positive
        } else {
            self.sign
        }
    }

    /// The signed value times `10^s`, for `s >= ops_scale`.
    pub open spec fn at_scale(&self, s: nat) -> int {
        sign_int(self.sign) * self.ops_mag() * pow10((s - self.ops_scale()) as nat)
    }

    /// The value in units of `10^-ops_scale`.
    pub open spec fn signed_ops(&self) -> int {
        sign_int(self.sign) * self.ops_mag()
    }

    /// `self` is the normal form of `v / 10^s`: canonical digits holding
    /// `|v|`; zero is `+0` with scale 0; otherwise scale `s` and the sign of `v`.
    pub open spec fn is_result(&self, v: int, s: int) -> bool {
        &&& be_canonical(self.digits@)
        &&& self.mag() == abs_int(v)
        &&& v == 0 ==> self.sign == Sign::Positive && self.scale == 0
        &&& v != 0 ==> self.scale == s && self.sign == sign_of(v)
    }
}

/// The common scale of two operands of a sum.
pub open spec fn common_scale(a: BigDecimal, b: BigDecimal) -> nat {
    if a.ops_scale() >= b.ops_scale() {
        a.ops_scale()
    } else {
        b.ops_scale()
    }
}

/// The "divisor too small" rule on digits `d` and a non-negative scale `sc`:
/// the number is zero, or the first (up to seven) digits of its written form
/// padded to at least `sc + 1` digits are all zero.
pub open spec fn too_small(d: Seq<u8>, sc: nat) -> bool {
    let p = pad_front(d, sc + 1);
    let m = if p.len() < 7 {
        p.len()
    } else {
        7
    };
    d == seq![0u8] || all_zero(p.subrange(0, m as int))
}

proof fn lemma_shifted_val(d: Seq<u8>, k: nat)
    ensures
        be_val(shifted(d, k)) == be_val(d) * pow10(k),
        shifted(d, k).len() == d.len() + k,
        all_digits(d) ==> all_digits(shifted(d, k)),
{
    crate::digits::lemma_be_append(d, zeros(k));
    crate::digits::lemma_be_zeros(k);
    if all_digits(d) {
        assert forall|i: int| 0 <= i < shifted(d, k).len() implies #[trigger] shifted(d, k)[i]
            <= 9 by {
            if i < d.len() {
                assert(shifted(d, k)[i] == d[i]);
            }
        }
    }
}

fn make_result(sign: Sign, digits: Vec<u8>, scale: usize) -> (r: BigDecimal)
    requires
        be_canonical(digits@),
        scale <= 0x7fff_ffff,
    ensures
        r.is_result(sign_int(sign) * be_val(digits@), scale as int),
{
    let mut r = BigDecimal { sign, digits, scale: scale as i32 };
    proof {
        lemma_trim_lz(r.digits@);
        lemma_canonical_zero(r.digits@);
    }
    r.normalize();
    r
}

impl BigDecimal {
    /// Removes leading zeros of the digits; a zero becomes `+0` with scale 0.
    pub fn normalize(&mut self)
        ensures
            final(self).digits@ == trim_lz(old(self).digits@),
            final(self).digits@ == seq![0u8] ==> final(self).sign == Sign::Positive
                && final(self).scale == 0,
            final(self).digits@ != seq![0u8] ==> final(self).sign == old(self).sign
                && final(self).scale == old(self).scale,
    {
        trim_leading_zeros(&mut self.digits);
        if self.is_zero() {
            self.sign = Sign::Positive;
            self.scale = 0;
        }
    }

    /// Whether the digits are exactly `0`.
    pub fn is_zero(&self) -> (r: bool)
        ensures
            r == (self.digits@ == seq![0u8]),
    {
        let r = self.digits.len() == 1 && self.digits[0] == 0;
        proof {
            if self.digits@.len() == 1 && self.digits@[0] == 0 {
                assert(self.digits@ =~= seq![0u8]);
            }
        }
        r
    }

    /// The legacy "divisor too small" test (see `too_small`).
    pub fn is_too_small_divisor(&self) -> (r: bool)
        ensures
            r == too_small(self.digits@, self.ops_scale()),
    {
        if self.is_zero() {
            return true;
        }
        let mut digits = copy_digits(&self.digits);
        let scale: usize = if self.scale < 0 {
            0
        } else {
            self.scale as usize
        };
        pad_leading_zeros(&mut digits, scale);
        assert(digits@ == pad_front(self.digits@, self.ops_scale() + 1));
        let check_len = if TOO_SMALL_PREFIX_DIGITS < digits.len() {
            TOO_SMALL_PREFIX_DIGITS
        } else {
            digits.len()
        };
        let mut i: usize = 0;
        while i < check_len
            invariant
                check_len <= digits@.len(),
                check_len == (if digits@.len() < 7 {
                    digits@.len()
                } else {
                    7
                }),
                digits@ == pad_front(self.digits@, self.ops_scale() + 1),
                i <= check_len,
                forall|k: int| 0 <= k < i ==> #[trigger] digits@[k] == 0,
            decreases check_len - i,
        {
            if digits[i] != 0 {
                proof {
                    let p = pad_front(self.digits@, self.ops_scale() + 1);
                    let m = if p.len() < 7 {
                        p.len()
                    } else {
                        7
                    };
                    assert(m == check_len);
                    assert(p.subrange(0, m as int)[i as int] != 0);
                    assert(!all_zero(p.subrange(0, m as int)));
                }
                return false;
            }
            i = i + 1;
        }
        proof {
            assert(all_zero(digits@.subrange(0, check_len as int))) by {
                assert forall|k: int| 0 <= k < check_len implies #[trigger] digits@.subrange(
                    0,
                    check_len as int,
                )[k] == 0 by {
                    assert(digits@.subrange(0, check_len as int)[k] == digits@[k]);
                }
            }
        }
        true
    }

    /// `self` with a negative scale multiplied out into the digits.
    fn normalized_for_ops(&self) -> (r: BigDecimal)
        requires
            self.wf(),
        ensures
            r.digits@ == self.ops_digits(),
            r.scale as int == self.ops_scale() as int,
            r.sign == self.ops_sign(),
            be_canonical(r.digits@),
            be_val(r.digits@) == self.ops_mag(),
            r.digits@.len() <= 0x4000_0000,
            r.scale <= 0x2000_0000,
    {
        if self.scale >= 0 {
            return BigDecimal { sign: self.sign, digits: copy_digits(&self.digits), scale: self.scale };
        }
        let mut digits = copy_digits(&self.digits);
        let extra = (0 - self.scale) as usize;
        let ghost d0 = digits@;
        let mut i: usize = 0;
        while i < extra
            invariant
                d0 == self.digits@,
                i <= extra,
                extra <= 0x2000_0000,
                digits@ == d0 + zeros(i as nat),
            decreases extra - i,
        {
            digits.push(0);
            i = i + 1;
            assert(digits@ =~= d0 + zeros(i as nat));
        }
        proof {
            assert(extra as nat == (-self.scale) as nat);
            lemma_shifted_val(d0, extra as nat);
            lemma_trim_lz(digits@);
        }
        let mut normalized = BigDecimal { sign: self.sign, digits, scale: 0 };
        normalized.normalize();
        normalized
    }
}

/// The exact sum of `a` and `b` in units of `10^-common_scale(a, b)`.
pub open spec fn sum_value(a: BigDecimal, b: BigDecimal) -> int {
    a.at_scale(common_scale(a, b)) + b.at_scale(common_scale(a, b))
}

/// The exact difference `a - b` in units of `10^-common_scale(a, b)`.
pub open spec fn diff_value(a: BigDecimal, b: BigDecimal) -> int {
    a.at_scale(common_scale(a, b)) - b.at_scale(common_scale(a, b))
}

/// The scale of a sum or difference.
pub open spec fn sum_scale(a: BigDecimal, b: BigDecimal) -> int {
    common_scale(a, b) as int
}

/// The exact product in units of `10^-(ops_scale(a) + ops_scale(b))`.
pub open spec fn mul_value(a: BigDecimal, b: BigDecimal) -> int {
    a.signed_ops() * b.signed_ops()
}

/// The scale of a product.
pub open spec fn mul_scale(a: BigDecimal, b: BigDecimal) -> int {
    (a.ops_scale() + b.ops_scale()) as int
}

/// The quotient truncated to `DIV_FRACTIONAL_DIGITS` more fractional digits
/// than the dividend, signed, in units of `10^-div_scale(a, b)`.
pub open spec fn div_value(a: BigDecimal, b: BigDecimal) -> int {
    let q = (a.ops_mag() * pow10(20) / b.ops_mag()) as int;
    if a.sign != b.sign {
        -q
    } else {
        q
    }
}

/// The scale of a quotient.
pub open spec fn div_scale(a: BigDecimal, b: BigDecimal) -> int {
    20 + a.ops_scale() - b.ops_scale()
}

/// `b` divides `a` without the "too small" error.
pub open spec fn divisor_ok(b: BigDecimal) -> bool {
    !too_small(b.ops_digits(), b.ops_scale())
}

fn append_zeros(v: &mut Vec<u8>, k: usize)
    requires
        old(v)@.len() + k <= usize::MAX,
    ensures
        final(v)@ == shifted(old(v)@, k as nat),
{
    let ghost d0 = v@;
    let mut i: usize = 0;
    while i < k
        invariant
            i <= k,
            v@ == d0 + zeros(i as nat),
            d0.len() + k <= usize::MAX,
        decreases k - i,
    {
        v.push(0);
        i = i + 1;
        assert(v@ =~= d0 + zeros(i as nat));
    }
}

fn align_scales(a: &BigDecimal, b: &BigDecimal) -> (r: (Vec<u8>, Vec<u8>, usize))
    requires
        a.digits@.len() <= 0x4000_0000,
        b.digits@.len() <= 0x4000_0000,
    ensures
        r.2 == common_scale(*a, *b),
        r.0@ == shifted(a.digits@, (common_scale(*a, *b) - a.ops_scale()) as nat),
        r.1@ == shifted(b.digits@, (common_scale(*a, *b) - b.ops_scale()) as nat),
{
    let a_scale: usize = if a.scale < 0 {
        0
    } else {
        a.scale as usize
    };
    let b_scale: usize = if b.scale < 0 {
        0
    } else {
        b.scale as usize
    };
    let scale = if a_scale >= b_scale {
        a_scale
    } else {
        b_scale
    };
    let mut left = copy_digits(&a.digits);
    let mut right = copy_digits(&b.digits);
    append_zeros(&mut left, scale - a_scale);
    append_zeros(&mut right, scale - b_scale);
    (left, right, scale)
}

/// The aligned digits of an operand carry its signed value at the common scale.
proof fn lemma_aligned(x: BigDecimal, l: BigDecimal, s: usize, a: Seq<u8>)
    requires
        x.wf(),
        l.digits@ == x.ops_digits(),
        l.scale as int == x.ops_scale() as int,
        l.sign == x.ops_sign(),
        be_val(l.digits@) == x.ops_mag(),
        be_canonical(l.digits@),
        s as nat >= x.ops_scale(),
        s <= 0x2000_0000,
        l.digits@.len() <= 0x4000_0000,
        a == shifted(l.digits@, (s as nat - x.ops_scale()) as nat),
    ensures
        sign_int(l.sign) * be_val(a) == x.at_scale(s as nat),
        be_val(a) == x.ops_mag() * pow10((s as nat - x.ops_scale()) as nat),
        all_digits(a),
        a.len() >= 1,
        a.len() <= 0x6000_0000,
{
    lemma_shifted_val(l.digits@, (s as nat - x.ops_scale()) as nat);
    let w = pow10((s as nat - x.ops_scale()) as nat);
    if l.sign != x.sign {
        lemma_canonical_zero(l.digits@);
        assert(x.ops_mag() == 0);
        assert(0 * w == 0);
    }
    assert(sign_int(x.sign) * x.ops_mag() * w == sign_int(x.sign) * (x.ops_mag() * w))
        by (nonlinear_arith);
}

impl BigDecimal {
    /// The exact sum, at the larger of the two scales.
    pub fn add(&self, other: &Self) -> (r: Self)
        requires
            self.wf(),
            other.wf(),
        ensures
            r.is_result(sum_value(*self, *other), sum_scale(*self, *other)),
    {
        let left = self.normalized_for_ops();
        let right = other.normalized_for_ops();
        let (mut a, mut b, scale) = align_scales(&left, &right);
        proof {
            lemma_aligned(*self, left, scale, a@);
            lemma_aligned(*other, right, scale, b@);
            lemma_trim_lz(a@);
            lemma_trim_lz(b@);
        }
        trim_leading_zeros(&mut a);
        trim_leading_zeros(&mut b);
        let ghost va = self.at_scale(common_scale(*self, *other));
        let ghost vb = other.at_scale(common_scale(*self, *other));
        let ghost ma = be_val(a@);
        let ghost mb = be_val(b@);
        proof {
            assert(sign_int(left.sign) * ma == va);
            assert(sign_int(right.sign) * mb == vb);
        }
        let (sign, digits) = match (left.sign, right.sign) {
            (Sign::Positive, Sign::Positive) => {
                let d = add_digits(&a, &b);
                assert(sign_int(Sign::Positive) * be_val(d@) == va + vb);
                (Sign::Positive, d)
            },
            (Sign::Negative, Sign::Negative) => {
                let d = add_digits(&a, &b);
                assert(sign_int(Sign::Negative) * be_val(d@) == va + vb);
                (Sign::Negative, d)
            },
            _ => match cmp_digits(&a, &b) {
                Ordering::Equal => {
                    let z = vec![0u8];
                    proof {
                        assert(z@ =~= seq![0u8]);
                        lemma_be_single(0);
                        assert(sign_int(Sign::Positive) * be_val(z@) == va + vb);
                    }
                    (Sign::Positive, z)
                },
                Ordering::Greater => {
                    let d = sub_digits(&a, &b);
                    assert(sign_int(left.sign) * be_val(d@) == va + vb);
                    (left.sign, d)
                },
                Ordering::Less => {
                    proof {
                        lemma_canonical_le_len(a@, b@);
                    }
                    let d = sub_digits(&b, &a);
                    assert(sign_int(right.sign) * be_val(d@) == va + vb);
                    (right.sign, d)
                },
            },
        };
        make_result(sign, digits, scale)
    }

    /// The exact difference `self - other`, at the larger of the two scales.
    pub fn sub(&self, other: &Self) -> (r: Self)
        requires
            self.wf(),
            other.wf(),
        ensures
            r.is_result(diff_value(*self, *other), sum_scale(*self, *other)),
    {
        let rhs = BigDecimal {
            sign: Sign::from_is_negative(!other.sign.is_negative()),
            digits: copy_digits(&other.digits),
            scale: other.scale,
        };
        proof {
            assert(rhs.ops_scale() == other.ops_scale());
            assert(rhs.ops_mag() == other.ops_mag());
            assert(sign_int(rhs.sign) == -sign_int(other.sign));
            let s = common_scale(*self, *other);
            assert(common_scale(*self, rhs) == s);
            let w = pow10((s - other.ops_scale()) as nat);
            assert(sign_int(rhs.sign) * other.ops_mag() * w == -(sign_int(other.sign)
                * other.ops_mag() * w)) by (nonlinear_arith)
                requires
                    sign_int(rhs.sign) == -sign_int(other.sign),
            ;
        }
        self.add(&rhs)
    }
}

proof fn lemma_sign_product(sa: Sign, sb: Sign, ma: nat, mb: nat)
    requires
        ma * mb > 0,
    ensures
        sign_of(sign_int(sa) * ma * (sign_int(sb) * mb)) == (if sa != sb {
            Sign::Negative
        } else {
            Sign::Positive
        }),
        abs_int(sign_int(sa) * ma * (sign_int(sb) * mb)) == ma * mb,
{
    let p = ma * mb;
    if sa == Sign::Positive && sb == Sign::Positive {
        assert(1 * ma * (1 * mb) == ma * mb) by (nonlinear_arith);
    } else if sa == Sign::Positive {
        assert(1 * ma * (-1 * mb) == -(ma * mb)) by (nonlinear_arith);
    } else if sb == Sign::Positive {
        assert(-1 * ma * (1 * mb) == -(ma * mb)) by (nonlinear_arith);
    } else {
        assert(-1 * ma * (-1 * mb) == ma * mb) by (nonlinear_arith);
    }
}

impl BigDecimal {
    /// The exact product; its scale is the sum of the operands' scales.
    pub fn mul(&self, other: &Self) -> (r: Self)
        requires
            self.wf(),
            other.wf(),
            mul_len_ok(self.ops_digits().len()) || mul_len_ok(other.ops_digits().len()),
        ensures
            r.is_result(mul_value(*self, *other), mul_scale(*self, *other)),
    {
        let left = self.normalized_for_ops();
        let right = other.normalized_for_ops();
        let digits = if left.digits.len() <= right.digits.len() {
            mul_digits(&left.digits, &right.digits)
        } else {
            let d = mul_digits(&right.digits, &left.digits);
            proof {
                let x = be_val(left.digits@);
                let y = be_val(right.digits@);
                assert(y * x == x * y) by (nonlinear_arith);
            }
            d
        };
        let scale = left.scale + right.scale;
        let zero = digits.len() == 1 && digits[0] == 0;
        let sign = if zero {
            Sign::Positive
        } else {
            Sign::from_is_negative(left.sign != right.sign)
        };
        let ghost ma = self.ops_mag();
        let ghost mb = other.ops_mag();
        proof {
            lemma_canonical_zero(digits@);
            lemma_trim_lz(digits@);
            if zero {
                assert(digits@ =~= seq![0u8]);
                assert(ma * mb == 0);
                assert(ma == 0 || mb == 0) by (nonlinear_arith)
                    requires
                        ma * mb == 0,
                ;
                assert(self.signed_ops() * other.signed_ops() == 0) by (nonlinear_arith)
                    requires
                        ma == 0 || mb == 0,
                        self.signed_ops() == sign_int(self.sign) * ma,
                        other.signed_ops() == sign_int(other.sign) * mb,
                ;
            } else {
                assert(digits@ != seq![0u8]);
                assert(ma * mb > 0);
                assert(ma > 0 && mb > 0) by (nonlinear_arith)
                    requires
                        ma * mb > 0,
                ;
                if self.scale < 0 {
                    lemma_canonical_zero(left.digits@);
                }
                if other.scale < 0 {
                    lemma_canonical_zero(right.digits@);
                }
                assert(left.sign == self.sign);
                assert(right.sign == other.sign);
                lemma_sign_product(self.sign, other.sign, ma, mb);
            }
        }
        let mut result = BigDecimal { sign, digits, scale };
        result.normalize();
        result
    }

    /// The quotient truncated to `DIV_FRACTIONAL_DIGITS` fractional digits
    /// beyond the dividend's scale; a zero or "too small" divisor is an error.
    pub fn div(&self, other: &Self) -> (r: Result<Self, Error>)
        requires
            self.wf(),
            other.wf(),
        ensures
            r is Err <==> !divisor_ok(*other),
            r is Err <==> other.ops_mag() * pow10(6) < pow10(other.ops_scale()),
            r is Err ==> r == Err::<Self, Error>(Error::DivisionByZeroOrTooSmall),
            r matches Ok(q) ==> q.is_result(div_value(*self, *other), div_scale(*self, *other)),
    {
        proof {
            law_divisor_refused_below_millionth(*other);
        }
        let left = self.normalized_for_ops();
        let right = other.normalized_for_ops();
        if right.is_too_small_divisor() {
            return Err(Error::DivisionByZeroOrTooSmall);
        }
        let ghost ma = self.ops_mag();
        let ghost mb = other.ops_mag();
        proof {
            lemma_canonical_zero(right.digits@);
            lemma_canonical_zero(left.digits@);
            assert(mb > 0);
        }
        if left.is_zero() {
            proof {
                assert(ma == 0);
                assert(ma * pow10(20) == 0) by (nonlinear_arith)
                    requires
                        ma == 0,
                ;
                assert(0nat / mb == 0) by (nonlinear_arith)
                    requires
                        mb > 0,
                ;
            }
            let z = vec![0u8];
            proof {
                assert(z@ =~= seq![0u8]);
                lemma_be_single(0);
            }
            return Ok(BigDecimal { sign: Sign::Positive, digits: z, scale: 0 });
        }
        let mut numerator = copy_digits(&left.digits);
        append_zeros(&mut numerator, DIV_FRACTIONAL_DIGITS);
        proof {
            lemma_shifted_val(left.digits@, 20);
        }
        let quotient = div_digits(&numerator, &right.digits);
        let scale = DIV_FRACTIONAL_DIGITS as i32 + left.scale - right.scale;
        let sign = Sign::from_is_negative(left.sign != right.sign);
        proof {
            lemma_canonical_zero(quotient@);
            lemma_trim_lz(quotient@);
            assert(ma > 0);
            if self.scale < 0 {
                lemma_canonical_zero(left.digits@);
            }
            if other.scale < 0 {
                lemma_canonical_zero(right.digits@);
            }
            assert(left.sign == self.sign);
            assert(right.sign == other.sign);
        }
        let mut result = BigDecimal { sign, digits: quotient, scale };
        result.normalize();
        Ok(result)
    }
}

// ---------------------------------------------------------------------------
// Canonical formatting
// ---------------------------------------------------------------------------

/// The digits of `v` with a negative scale multiplied out.
pub open spec fn canonical_digits(v: BigDecimal) -> Seq<u8> {
    let d0 = if v.scale < 0 {
        shifted(v.digits@, (-v.scale) as nat)
    } else {
        v.digits@
    };
    pad_front(d0, v.ops_scale() + 1)
}

/// The plain decimal text of `v`: a minus sign unless the number is zero, the
/// integer part (grouped by commas on request) and, for a positive scale, a
/// point and exactly `scale` fractional digits.
pub open spec fn canonical_text(v: BigDecimal, grouping: bool) -> Seq<char> {
    let d = canonical_digits(v);
    let il = (d.len() - v.ops_scale()) as nat;
    (if v.sign == Sign::Negative && v.digits@ != seq![0u8] {
        seq!['-']
    } else {
        Seq::empty()
    }) + grouped(d, il, grouping, il) + (if v.ops_scale() > 0 {
        seq!['.'] + digit_text(d.subrange(il as int, d.len() as int))
    } else {
        Seq::empty()
    })
}

/// The digits and scale fit the formatting loops.
pub open spec fn printable(v: BigDecimal) -> bool {
    all_digits(v.digits@) && v.digits@.len() <= 0x2800_0000 && -0x2800_0000 <= v.scale
        <= 0x2800_0000
}

proof fn lemma_pad_digits(d: Seq<u8>, n: nat)
    requires
        all_digits(d),
    ensures
        all_digits(pad_front(d, n)),
        pad_front(d, n).len() >= n,
        pad_front(d, n).len() >= d.len(),
{
    if d.len() < n {
        assert forall|i: int| 0 <= i < pad_front(d, n).len() implies #[trigger] pad_front(d, n)[i]
            <= 9 by {
            if i >= n - d.len() {
                assert(pad_front(d, n)[i] == d[i - (n - d.len())]);
            } else {
                assert(pad_front(d, n)[i] == 0);
            }
        }
    }
}

fn format_canonical(value: &BigDecimal, grouping: bool) -> (out: String)
    requires
        printable(*value),
    ensures
        out@ == canonical_text(*value, grouping),
{
    let mut digits = copy_digits(&value.digits);
    let mut scale = value.scale;
    if scale < 0 {
        append_zeros(&mut digits, (0 - scale) as usize);
        scale = 0;
        proof {
            lemma_shifted_val(value.digits@, (-value.scale) as nat);
        }
    }
    let scale = scale as usize;
    proof {
        lemma_pad_digits(digits@, scale as nat + 1);
    }
    pad_leading_zeros(&mut digits, scale);
    assert(digits@ == canonical_digits(*value));
    let int_len = digits.len() - scale;
    let mut out = String::new();
    let neg = match value.sign {
        Sign::Negative => true,
        Sign::Positive => false,
    };
    if neg && !value.is_zero() {
        push_char(&mut out, '-');
    }
    let ghost head = out@;
    let mut i: usize = 0;
    proof {
        assert(head + grouped(digits@, int_len as nat, grouping, 0) =~= head);
    }
    while i < int_len
        invariant
            int_len <= digits@.len(),
            all_digits(digits@),
            i <= int_len,
            out@ == head + grouped(digits@, int_len as nat, grouping, i as nat),
        decreases int_len - i,
    {
        if grouping && i > 0 && (int_len - i) % 3 == 0 {
            push_char(&mut out, ',');
        }
        let c = digit_to_char(digits[i]);
        push_char(&mut out, c);
        i = i + 1;
        proof {
            let p = (i - 1) as nat;
            assert(out@ =~= head + grouped(digits@, int_len as nat, grouping, i as nat));
        }
    }
    let ghost mid = out@;
    if scale > 0 {
        push_char(&mut out, '.');
        let n = digits.len();
        let mut k: usize = int_len;
        while k < n
            invariant
                n == digits@.len(),
                int_len <= k <= n,
                all_digits(digits@),
                out@ == mid + seq!['.'] + digit_text(digits@.subrange(int_len as int, k as int)),
            decreases n - k,
        {
            let c = digit_to_char(digits[k]);
            push_char(&mut out, c);
            k = k + 1;
            assert(out@ =~= mid + seq!['.'] + digit_text(
                digits@.subrange(int_len as int, k as int),
            ));
        }
    }
    proof {
        if scale == 0 {
            assert(out@ =~= canonical_text(*value, grouping));
        } else {
            assert(out@ =~= canonical_text(*value, grouping));
        }
    }
    out
}

impl BigDecimal {
    /// The plain decimal text (see `canonical_text`), with thousands
    /// separators when `grouping` is on.
    pub fn to_string_with_grouping(&self, grouping: bool) -> (s: String)
        requires
            printable(*self),
        ensures
            s@ == canonical_text(*self, grouping),
    {
        format_canonical(self, grouping)
    }
}

// ---------------------------------------------------------------------------
// Legacy formatting
// ---------------------------------------------------------------------------

/// The magnitude of a signed digit.
pub open spec fn abs_digit(v: i8) -> u8 {
    if v < 0 {
        (-v) as u8
    } else {
        v as u8
    }
}

/// The magnitudes of signed digits.
pub open spec fn abs_digits(ds: Seq<i8>) -> Seq<u8> {
    ds.map_values(|v: i8| abs_digit(v))
}

/// The digits of `d`, each negated when `neg` holds (the legacy way of
/// storing a negative number).
pub open spec fn signed_digits(d: Seq<u8>, neg: bool) -> Seq<i8> {
    d.map_values(
        |x: u8|
            if neg {
                (-(x as int)) as i8
            } else {
                x as i8
            },
    )
}

/// Signed digits between -9 and 9.
pub open spec fn small_signed(ds: Seq<i8>) -> bool {
    forall|i: int| 0 <= i < ds.len() ==> -9 <= #[trigger] ds[i] <= 9
}

/// The first `k` digits of the legacy printers: a comma before digit `p`
/// when grouping, the integer part has more than three digits, `p` lies in
/// it past the first digit and a group of three starts there; a point after
/// the last integer digit when the scale `x` is not zero.
pub open spec fn legacy_body(d: Seq<u8>, il: int, x: int, grouping: bool, k: nat) -> Seq<char>
    decreases k,
{
    if k == 0 {
        Seq::empty()
    } else {
        let p = k - 1;
        legacy_body(d, il, x, grouping, (k - 1) as nat) + (if grouping && p >= 1 && il > 3 && p
            < il && p % 3 == il % 3 {
            seq![',']
        } else {
            Seq::empty()
        }) + seq![digit_char(d[p])] + (if p + 1 == il && x != 0 {
            seq!['.']
        } else {
            Seq::empty()
        })
    }
}

/// A minus sign when the first stored digit is negative.
pub open spec fn sign_text(ds: Seq<i8>) -> Seq<char> {
    if ds[0] < 0 {
        seq!['-']
    } else {
        Seq::empty()
    }
}

/// The sum/difference printer: all digits, grouped, with a point after the
/// `len - x` integer digits when there are any.
pub open spec fn add_sub_text(ds: Seq<i8>, x: nat, grouping: bool) -> Seq<char> {
    if ds.len() == 0 {
        seq!['0']
    } else {
        sign_text(ds) + legacy_body(abs_digits(ds), ds.len() - x, x as int, grouping, ds.len())
    }
}

/// `v` written in decimal, for `v <= 10`.
pub open spec fn small_number_text(v: nat) -> Seq<char> {
    if v < 10 {
        seq![digit_char(v as u8)]
    } else {
        seq!['1', '0']
    }
}

/// The last printed fractional digit of the product/quotient printer: digit
/// `k`, plus one (without carrying) when the next digit is 5 or more.
pub open spec fn round_text(d: Seq<u8>, k: int) -> Seq<char> {
    if k + 1 < d.len() && d[k + 1] >= 5 {
        small_number_text(d[k] as nat + 1)
    } else {
        seq![digit_char(d[k])]
    }
}

/// The product/quotient printer: as the sum printer, but with at most ten
/// fractional digits, the tenth rounded by `round_text`.
pub open spec fn mul_div_text(ds: Seq<i8>, x: nat, grouping: bool) -> Seq<char> {
    if ds.len() == 0 {
        seq!['0']
    } else {
        let d = abs_digits(ds);
        let il = ds.len() - x;
        if x != 0 && il >= 1 && ds.len() >= il + 10 {
            sign_text(ds) + legacy_body(d, il, x as int, grouping, (il + 9) as nat) + round_text(
                d,
                il + 9,
            )
        } else {
            sign_text(ds) + legacy_body(d, il, x as int, grouping, ds.len())
        }
    }
}

proof fn lemma_group_counter(il: int, i: int, j: int, comma: bool, grouping: bool)
    requires
        1 <= i,
        grouping && i <= il ==> j >= (il - i) / 3,
        comma == (grouping && il > 3 && i < il && i % 3 == il % 3),
    ensures
        comma ==> j > 0,
        grouping && i + 1 <= il ==> (if comma {
            j - 1
        } else {
            j
        }) >= (il - i - 1) / 3,
{
    if grouping && i + 1 <= il {
        if comma {
            assert((il - i) % 3 == 0);
            assert((il - i) / 3 >= 1);
            assert(j - 1 >= (il - i - 1) / 3);
        } else if i % 3 != il % 3 {
            assert((il - i) % 3 != 0);
            assert((il - i - 1) / 3 == (il - i) / 3);
        } else {
            assert(il <= 3);
            assert((il - i) / 3 >= 0);
            assert((il - i - 1) / 3 <= 0);
        }
    }
}

proof fn lemma_body_step(d: Seq<u8>, il: int, x: int, g: bool, k: nat)
    ensures
        legacy_body(d, il, x, g, k + 1) == legacy_body(d, il, x, g, k) + (if g && k >= 1 && il
            > 3 && k < il && k % 3 == il % 3 {
            seq![',']
        } else {
            Seq::empty()
        }) + seq![digit_char(d[k as int])] + (if k + 1 == il && x != 0 {
            seq!['.']
        } else {
            Seq::empty()
        }),
{
}

proof fn lemma_abs_digits(ds: Seq<i8>, k: int)
    requires
        small_signed(ds),
        0 <= k < ds.len(),
    ensures
        abs_digits(ds)[k] <= 9,
        abs_digits(ds).len() == ds.len(),
{
}

fn abs_u8(v: i8) -> (r: u8)
    requires
        -9 <= v <= 9,
    ensures
        r == abs_digit(v),
        r <= 9,
{
    if v < 0 {
        (0 - v) as u8
    } else {
        v as u8
    }
}

/// The sum/difference printer (see `add_sub_text`), for digit counts and
/// scales within `i32`, the range in which the printer counts positions.
fn format_legacy_add_sub(digits: &Vec<i8>, scale: usize, grouping: bool) -> (out: String)
    requires
        small_signed(digits@),
        digits@.len() <= 0x7fff_ffff,
        scale <= 0x7fff_ffff,
    ensures
        out@ == add_sub_text(digits@, scale as nat, grouping),
{
    let mut out = String::new();
    if digits.len() == 0 {
        push_char(&mut out, '0');
        return out;
    }
    let n = digits.len() as i32;
    let x = scale as i32;
    let integer_len = n - x;
    let ghost d = abs_digits(digits@);
    let first = digits[0];
    if first < 0 {
        push_char(&mut out, '-');
    }
    let ghost head = out@;
    proof {
        assert(head == sign_text(digits@));
        lemma_body_step(d, integer_len as int, x as int, grouping, 0);
        lemma_abs_digits(digits@, 0);
    }
    let c0 = digit_to_char(abs_u8(first));
    push_char(&mut out, c0);
    let mut i: i32 = 1;
    let mut j: i32 = integer_len / 3;
    if i == integer_len && x != 0 {
        push_char(&mut out, '.');
    }
    proof {
        assert(legacy_body(d, integer_len as int, x as int, grouping, 0) =~= Seq::<char>::empty());
        assert(out@ =~= head + legacy_body(d, integer_len as int, x as int, grouping, 1));
    }
    let len = digits.len();
    let mut idx: usize = 1;
    while idx < len
        invariant
            len == digits@.len(),
            len <= 0x7fff_ffff,
            small_signed(digits@),
            d == abs_digits(digits@),
            n as int == len as int,
            x as int == scale as int,
            scale <= 0x7fff_ffff,
            integer_len == n - x,
            1 <= idx <= len,
            i as int == idx as int,
            grouping && i <= integer_len ==> j >= (integer_len - i) / 3,
            out@ == head + legacy_body(d, integer_len as int, x as int, grouping, idx as nat),
        decreases len - idx,
    {
        proof {
            lemma_abs_digits(digits@, idx as int);
            lemma_body_step(d, integer_len as int, x as int, grouping, idx as nat);
            lemma_group_counter(
                integer_len as int,
                i as int,
                j as int,
                grouping && integer_len > 3 && i < integer_len && i % 3 == integer_len % 3,
                grouping,
            );
        }
        let dv = abs_u8(digits[idx]);
        let ch = digit_to_char(dv);
        if grouping {
            if j <= 0 || i % 3 != integer_len % 3 || integer_len <= 3 {
                push_char(&mut out, ch);
            } else if i < integer_len {
                push_char(&mut out, ',');
                push_char(&mut out, ch);
                j = j - 1;
            } else {
                push_char(&mut out, ch);
            }
        } else {
            push_char(&mut out, ch);
        }
        i = i + 1;
        if i == integer_len && x != 0 {
            push_char(&mut out, '.');
        }
        idx = idx + 1;
        proof {
            assert(out@ =~= head + legacy_body(d, integer_len as int, x as int, grouping, idx as nat));
        }
    }
    out
}

proof fn lemma_round_text(d: Seq<u8>, k: int)
    requires
        all_digits(d),
        0 <= k < d.len(),
    ensures
        round_text(d, k) == (if k + 1 < d.len() && d[k + 1] >= 5 {
            if d[k] < 9 {
                seq![digit_char((d[k] + 1) as u8)]
            } else {
                seq!['1', '0']
            }
        } else {
            seq![digit_char(d[k])]
        }),
{
}

/// The product/quotient printer (see `mul_div_text`), for digit counts and
/// scales within `i32`, the range in which the printer counts positions.
fn format_legacy_mul_div(digits: &Vec<i8>, scale: usize, grouping: bool) -> (out: String)
    requires
        small_signed(digits@),
        digits@.len() <= 0x7fff_ffff,
        scale <= 0x7fff_ffff,
    ensures
        out@ == mul_div_text(digits@, scale as nat, grouping),
{
    let mut out = String::new();
    if digits.len() == 0 {
        push_char(&mut out, '0');
        return out;
    }
    let n = digits.len() as i32;
    let x = scale as i32;
    let integer_len = n - x;
    let ghost d = abs_digits(digits@);
    let first = digits[0];
    if first < 0 {
        push_char(&mut out, '-');
    }
    let ghost head = out@;
    proof {
        assert(head == sign_text(digits@));
        lemma_body_step(d, integer_len as int, x as int, grouping, 0);
        lemma_abs_digits(digits@, 0);
    }
    let c0 = digit_to_char(abs_u8(first));
    push_char(&mut out, c0);
    let mut i: i32 = 1;
    let mut j: i32 = integer_len / 3;
    let mut c: i32 = i32::MAX;
    if i == integer_len && x != 0 {
        c = (LEGACY_ROUND_DIGITS - 1) as i32;
        push_char(&mut out, '.');
    }
    proof {
        assert(legacy_body(d, integer_len as int, x as int, grouping, 0) =~= Seq::<char>::empty());
        assert(out@ =~= head + legacy_body(d, integer_len as int, x as int, grouping, 1));
    }
    let len = digits.len();
    let mut idx: usize = 1;
    while idx < len && c > 0
        invariant
            len == digits@.len(),
            len <= 0x7fff_ffff,
            small_signed(digits@),
            d == abs_digits(digits@),
            n as int == len as int,
            x as int == scale as int,
            scale <= 0x7fff_ffff,
            integer_len == n - x,
            1 <= idx <= len,
            i as int == idx as int,
            grouping && i <= integer_len ==> j >= (integer_len - i) / 3,
            (x != 0 && 1 <= integer_len <= i) ==> c == 9 - (i - integer_len),
            !(x != 0 && 1 <= integer_len <= i) ==> c == i32::MAX - (i - 1),
            c >= 0,
            out@ == head + legacy_body(d, integer_len as int, x as int, grouping, idx as nat),
        decreases len - idx,
    {
        proof {
            lemma_abs_digits(digits@, idx as int);
            lemma_body_step(d, integer_len as int, x as int, grouping, idx as nat);
            lemma_group_counter(
                integer_len as int,
                i as int,
                j as int,
                grouping && integer_len > 3 && i < integer_len && i % 3 == integer_len % 3,
                grouping,
            );
        }
        c = c - 1;
        let dv = abs_u8(digits[idx]);
        let ch = digit_to_char(dv);
        if grouping {
            if j <= 0 || i % 3 != integer_len % 3 || integer_len <= 3 {
                push_char(&mut out, ch);
            } else if i < integer_len {
                push_char(&mut out, ',');
                push_char(&mut out, ch);
                j = j - 1;
            } else {
                push_char(&mut out, ch);
            }
        } else {
            push_char(&mut out, ch);
        }
        i = i + 1;
        idx = idx + 1;
        if i == integer_len && x != 0 {
            push_char(&mut out, '.');
            c = (LEGACY_ROUND_DIGITS - 1) as i32;
        }
        proof {
            assert(out@ =~= head + legacy_body(d, integer_len as int, x as int, grouping, idx as nat));
        }
    }
    if c == 0 {
        if idx >= len {
            proof {
                assert(out@ =~= mul_div_text(digits@, scale as nat, grouping));
            }
            return out;
        }
        proof {
            lemma_abs_digits(digits@, idx as int);
            assert(all_digits(d));
            lemma_round_text(d, idx as int);
        }
        let cur = abs_u8(digits[idx]);
        if idx + 1 >= len {
            push_char(&mut out, digit_to_char(cur));
        } else {
            proof {
                lemma_abs_digits(digits@, idx + 1);
            }
            let next = abs_u8(digits[idx + 1]);
            if next < 5 {
                push_char(&mut out, digit_to_char(cur));
            } else if cur < 9 {
                push_char(&mut out, digit_to_char(cur + 1));
            } else {
                push_char(&mut out, '1');
                push_char(&mut out, '0');
            }
        }
        proof {
            assert(out@ =~= mul_div_text(digits@, scale as nat, grouping));
        }
        return out;
    }
    proof {
        assert(idx == len);
        assert(out@ =~= mul_div_text(digits@, scale as nat, grouping));
    }
    out
}

/// The digits and scale that the legacy printers receive: trailing
/// fractional zeros dropped, padded to at least one integer digit, then
/// leading zeros removed within a budget (all integer digits for sums, all but
/// one for products).
pub open spec fn legacy_layout(v: BigDecimal, mode: LegacyFormat) -> (Seq<u8>, nat) {
    let t = trim_frac(v.digits@, v.ops_scale());
    let p = pad_front(t.0, t.1 + 1);
    let il = p.len() - t.1;
    let budget = match mode {
        LegacyFormat::AddSub => il,
        LegacyFormat::MulDiv => il - 1,
    };
    let q = if budget > 0 {
        trim_lz_budget(p, budget as nat)
    } else {
        p
    };
    if q.len() == 0 {
        (seq![0u8], 0)
    } else {
        (q, t.1)
    }
}

/// The text of the legacy printers for `v` (see `add_sub_text`,
/// `mul_div_text`); a non-zero negative number stores every digit negated.
pub open spec fn legacy_text(v: BigDecimal, mode: LegacyFormat) -> Seq<char> {
    let l = legacy_layout(v, mode);
    let neg = !all_zero(l.0) && v.sign == Sign::Negative;
    match mode {
        LegacyFormat::AddSub => add_sub_text(signed_digits(l.0, neg), l.1, true),
        LegacyFormat::MulDiv => mul_div_text(signed_digits(l.0, neg), l.1, true),
    }
}

proof fn lemma_trim_frac(s: Seq<u8>, sc: nat)
    requires
        all_digits(s),
    ensures
        all_digits(trim_frac(s, sc).0),
        trim_frac(s, sc).0.len() >= 1,
        trim_frac(s, sc).0.len() <= s.len() || trim_frac(s, sc).0.len() == 1,
        trim_frac(s, sc).1 <= sc,
    decreases s.len(),
{
    if sc > 0 && s.len() > 0 && s.last() == 0 {
        assert(all_digits(s.drop_last()));
        lemma_trim_frac(s.drop_last(), (sc - 1) as nat);
    }
}

proof fn lemma_trim_budget(s: Seq<u8>, b: nat)
    requires
        all_digits(s),
    ensures
        all_digits(trim_lz_budget(s, b)),
        s.len() >= 1 ==> trim_lz_budget(s, b).len() >= 1,
        trim_lz_budget(s, b).len() <= s.len(),
    decreases s.len(),
{
    if b > 0 && s.len() > 1 && s[0] == 0 {
        assert(all_digits(s.drop_first()));
        lemma_trim_budget(s.drop_first(), (b - 1) as nat);
    }
}

fn is_all_zero(digits: &Vec<u8>) -> (r: bool)
    ensures
        r == all_zero(digits@),
{
    let n = digits.len();
    let mut k: usize = 0;
    while k < n
        invariant
            n == digits@.len(),
            k <= n,
            forall|t: int| 0 <= t < k ==> #[trigger] digits@[t] == 0,
        decreases n - k,
    {
        if digits[k] != 0 {
            return false;
        }
        k = k + 1;
    }
    true
}

fn to_signed(digits: &Vec<u8>, neg: bool) -> (r: Vec<i8>)
    requires
        all_digits(digits@),
    ensures
        r@ == signed_digits(digits@, neg),
        small_signed(r@),
{
    let n = digits.len();
    let mut signed: Vec<i8> = Vec::new();
    let mut t: usize = 0;
    while t < n
        invariant
            n == digits@.len(),
            all_digits(digits@),
            t <= n,
            signed@ == signed_digits(digits@.subrange(0, t as int), neg),
        decreases n - t,
    {
        let dv = digits[t] as i8;
        if neg {
            signed.push(0 - dv);
        } else {
            signed.push(dv);
        }
        t = t + 1;
        assert(signed@ =~= signed_digits(digits@.subrange(0, t as int), neg));
    }
    assert(digits@.subrange(0, n as int) =~= digits@);
    signed
}

fn legacy_digits(value: &BigDecimal, mode: LegacyFormat) -> (r: (Vec<u8>, usize))
    requires
        printable(*value),
    ensures
        r.0@ == legacy_layout(*value, mode).0,
        r.1 as nat == legacy_layout(*value, mode).1,
        all_digits(r.0@),
        r.0@.len() <= 0x5a00_0000,
        r.1 <= 0x2800_0000,
{
    let mut digits = copy_digits(&value.digits);
    let mut scale: usize = if value.scale < 0 {
        0
    } else {
        value.scale as usize
    };
    proof {
        lemma_trim_frac(digits@, scale as nat);
    }
    trim_fractional_zeros(&mut digits, &mut scale);
    proof {
        lemma_pad_digits(digits@, scale as nat + 1);
    }
    pad_leading_zeros(&mut digits, scale);
    let integer_len = digits.len() as i32 - scale as i32;
    let budget = match mode {
        LegacyFormat::AddSub => integer_len,
        LegacyFormat::MulDiv => integer_len - 1,
    };
    proof {
        lemma_trim_budget(digits@, budget as nat);
    }
    if budget > 0 {
        trim_leading_zeros_with_budget(&mut digits, budget as usize);
    }
    if digits.len() == 0 {
        digits.push(0);
        scale = 0;
    }
    (digits, scale)
}

fn format_legacy(value: &BigDecimal, mode: LegacyFormat) -> (out: String)
    requires
        printable(*value),
    ensures
        out@ == legacy_text(*value, mode),
{
    let (digits, scale) = legacy_digits(value, mode);
    let all_zero_digits = is_all_zero(&digits);
    let neg = !all_zero_digits && match value.sign {
        Sign::Negative => true,
        Sign::Positive => false,
    };
    let signed = to_signed(&digits, neg);
    match mode {
        LegacyFormat::AddSub => format_legacy_add_sub(&signed, scale, true),
        LegacyFormat::MulDiv => format_legacy_mul_div(&signed, scale, true),
    }
}

impl BigDecimal {
    /// The legacy calculator's text for `self` (see `legacy_text`).
    pub fn to_string_legacy(&self, mode: LegacyFormat) -> (s: String)
        requires
            printable(*self),
        ensures
            s@ == legacy_text(*self, mode),
    {
        format_legacy(self, mode)
    }
}

// ---------------------------------------------------------------------------
// Parsing
// ---------------------------------------------------------------------------

/// The state after scanning the first `k` characters of a number's body (the
/// text after an optional sign): the digits, the fractional digit count,
/// whether a digit and whether a point was seen; or the first error. Commas
/// are skipped wherever they stand.
pub open spec fn scan(body: Seq<char>, k: nat) -> Result<(Seq<u8>, nat, bool, bool), Error>
    decreases k,
{
    if k == 0 {
        Ok((Seq::empty(), 0, false, false))
    } else {
        match scan(body, (k - 1) as nat) {
            Err(e) => Err(e),
            Ok(st) => {
                let c = body[k - 1];
                if c == ',' {
                    Ok(st)
                } else if c == '.' {
                    if st.3 {
                        Err(Error::MultipleDecimalPoints)
                    } else {
                        Ok((st.0, st.1, st.2, true))
                    }
                } else if is_digit_char(c) {
                    Ok(
                        (
                            st.0.push(char_digit(c)),
                            if st.3 {
                                st.1 + 1
                            } else {
                                st.1
                            },
                            true,
                            st.3,
                        ),
                    )
                } else {
                    Err(Error::InvalidChar(c))
                }
            },
        }
    }
}

/// The meaning of a text: surrounding white space is ignored; an optional
/// leading `+` or `-`; then digits, commas (ignored) and at most one point.
/// The result is sign, canonical digits and scale, zero being `+0` with
/// scale 0.
pub open spec fn parse_spec(input: Seq<char>) -> Result<(Sign, Seq<u8>, nat), Error> {
    let t = trim(input);
    if t.len() == 0 {
        Err(Error::Empty)
    } else {
        let has_sign = t[0] == '-' || t[0] == '+';
        let body = if has_sign {
            t.drop_first()
        } else {
            t
        };
        match scan(body, body.len()) {
            Err(e) => Err(e),
            Ok(st) => if !st.2 {
                Err(Error::NoDigits)
            } else if trim_lz(st.0) == seq![0u8] {
                Ok((Sign::Positive, seq![0u8], 0))
            } else {
                Ok(
                    (
                        if t[0] == '-' {
                            Sign::Negative
                        } else {
                            Sign::Positive
                        },
                        trim_lz(st.0),
                        st.1,
                    ),
                )
            },
        }
    }
}

proof fn lemma_scan_err(body: Seq<char>, k: nat, n: nat)
    requires
        k <= n,
        scan(body, k) is Err,
    ensures
        scan(body, n) == scan(body, k),
    decreases n - k,
{
    if k < n {
        lemma_scan_err(body, k, (n - 1) as nat);
    }
}

proof fn lemma_scan_bounds(body: Seq<char>, k: nat)
    requires
        scan(body, k) is Ok,
    ensures
        all_digits(scan(body, k)->Ok_0.0),
        scan(body, k)->Ok_0.0.len() <= k,
        scan(body, k)->Ok_0.1 <= scan(body, k)->Ok_0.0.len(),
        scan(body, k)->Ok_0.2 <==> scan(body, k)->Ok_0.0.len() > 0,
    decreases k,
{
    if k > 0 {
        lemma_scan_bounds(body, (k - 1) as nat);
        let st = scan(body, (k - 1) as nat)->Ok_0;
        let c = body[k - 1];
        if is_digit_char(c) && c != ',' && c != '.' {
            assert(char_digit(c) <= 9) by {
                assert(c == '0' || c == '1' || c == '2' || c == '3' || c == '4' || c == '5' || c
                    == '6' || c == '7' || c == '8' || c == '9');
            }
            let d2 = st.0.push(char_digit(c));
            assert forall|i: int| 0 <= i < d2.len() implies #[trigger] d2[i] <= 9 by {
                if i < st.0.len() {
                    assert(d2[i] == st.0[i]);
                }
            }
        }
    }
}

/// The message for an error that `scan` reports (it reports only a second
/// point or a character that is not a digit, a comma or a point).
pub open spec fn scan_message(e: Error) -> Seq<char> {
    match e {
        Error::MultipleDecimalPoints => "Multiple decimal points"@,
        Error::InvalidChar(c) => "Invalid character: "@.push(c),
        _ => Seq::empty(),
    }
}

/// The text of `scan_message(*e)`.
pub(crate) fn scan_error_message(e: &Error) -> (m: String)
    ensures
        m@ == scan_message(*e),
{
    match e {
        Error::MultipleDecimalPoints => "Multiple decimal points".to_owned(),
        Error::InvalidChar(c) => {
            let mut m = "Invalid character: ".to_owned();
            push_char(&mut m, *c);
            m
        },
        _ => String::new(),
    }
}

/// Scans the characters of `s` from `start` on, as `scan` describes: the
/// digits, the count of digits after the point, whether a digit and whether a
/// point was seen, or the first error.
pub(crate) fn scan_body(s: &Vec<char>, start: usize) -> (r: Result<
    (Vec<u8>, usize, bool, bool),
    Error,
>)
    requires
        start <= s@.len(),
    ensures
        match (r, scan(s@.subrange(start as int, s@.len() as int), (s@.len() - start) as nat)) {
            (Ok(st), Ok(p)) => st.0@ == p.0 && st.1 as nat == p.1 && st.2 == p.2 && st.3 == p.3,
            (Err(e), Err(f)) => e == f,
            _ => false,
        },
        r matches Ok(st) ==> all_digits(st.0@) && st.0@.len() <= s@.len() && st.1 <= st.0@.len()
            && (st.2 <==> st.0@.len() > 0),
{
    let ghost body = s@.subrange(start as int, s@.len() as int);
    let mut digits: Vec<u8> = Vec::new();
    let mut scale: usize = 0;
    let mut seen_digit = false;
    let mut seen_dot = false;
    let n = s.len();
    let mut idx: usize = start;
    while idx < n
        invariant
            n == s@.len(),
            start <= idx <= n,
            body == s@.subrange(start as int, n as int),
            scan(body, (idx - start) as nat) == Ok::<(Seq<u8>, nat, bool, bool), Error>(
                (digits@, scale as nat, seen_digit, seen_dot),
            ),
            scale <= idx,
        decreases n - idx,
    {
        let ch = s[idx];
        proof {
            assert(body[(idx - start) as int] == ch);
            assert(((idx - start + 1) as nat - 1) as nat == (idx - start) as nat);
        }
        if ch == ',' {
        } else if ch == '.' {
            if seen_dot {
                proof {
                    lemma_scan_err(body, (idx - start + 1) as nat, body.len());
                }
                return Err(Error::MultipleDecimalPoints);
            }
            seen_dot = true;
        } else if '0' <= ch && ch <= '9' {
            seen_digit = true;
            digits.push(char_to_digit(ch));
            if seen_dot {
                scale = scale + 1;
            }
        } else {
            proof {
                assert(!is_digit_char(ch));
                lemma_scan_err(body, (idx - start + 1) as nat, body.len());
            }
            return Err(Error::InvalidChar(ch));
        }
        idx = idx + 1;
    }
    proof {
        lemma_scan_bounds(body, body.len());
    }
    Ok((digits, scale, seen_digit, seen_dot))
}

impl BigDecimal {
    /// Parses a decimal number (see `parse_spec`).
    /// The text may hold up to `i32::MAX` characters, so that any count of
    /// fractional digits fits the `i32` scale.
    pub fn parse(input: &str) -> (r: Result<Self, Error>)
        requires
            input@.len() <= 0x7fff_ffff,
        ensures
            match (r, parse_spec(input@)) {
                (Ok(v), Ok(p)) => v.sign == p.0 && v.digits@ == p.1 && v.scale as int == p.2 as int,
                (Err(e), Err(f)) => e == f,
                _ => false,
            },
            r matches Ok(v) ==> be_canonical(v.digits@) && v.scale >= 0 && v.digits@.len()
                <= input@.len() && v.scale <= input@.len(),
    {
        let all = chars_of(input);
        let s = trim_chars(&all);
        if s.len() == 0 {
            return Err(Error::Empty);
        }
        proof {
            assert(trim(input@).len() <= input@.len()) by {
                lemma_trim_len(input@);
            }
        }
        let negative = s[0] == '-';
        let start: usize = if s[0] == '-' || s[0] == '+' {
            1
        } else {
            0
        };
        proof {
            if start == 1 {
                assert(s@.subrange(1, s@.len() as int) =~= s@.drop_first());
            } else {
                assert(s@.subrange(0, s@.len() as int) =~= s@);
            }
        }
        let (digits, scale, seen_digit, _seen_dot) = match scan_body(&s, start) {
            Ok(st) => st,
            Err(e) => {
                return Err(e);
            },
        };
        if !seen_digit {
            return Err(Error::NoDigits);
        }
        let mut result = BigDecimal {
            sign: Sign::from_is_negative(negative),
            digits,
            scale: scale as i32,
        };
        proof {
            lemma_trim_lz(result.digits@);
        }
        result.normalize();
        Ok(result)
    }
}

proof fn lemma_trim_len(s: Seq<char>)
    ensures
        trim(s).len() <= s.len(),
{
    lemma_trim_start_len(s);
    lemma_trim_end_len(crate::text::trim_start(s));
}

proof fn lemma_trim_start_len(s: Seq<char>)
    ensures
        crate::text::trim_start(s).len() <= s.len(),
    decreases s.len(),
{
    if s.len() > 0 && crate::text::is_white_space(s[0]) {
        lemma_trim_start_len(s.drop_first());
    }
}

proof fn lemma_trim_end_len(s: Seq<char>)
    ensures
        crate::text::trim_end(s).len() <= s.len(),
    decreases s.len(),
{
    if s.len() > 0 && crate::text::is_white_space(s.last()) {
        lemma_trim_end_len(s.drop_last());
    }
}

// ---------------------------------------------------------------------------
// The calculator's answer to one request
// ---------------------------------------------------------------------------

/// `a` is the number that the text `input` parses to.
pub open spec fn parses_to(input: Seq<char>, a: BigDecimal) -> bool {
    match parse_spec(input) {
        Ok(p) => a.sign == p.0 && a.digits@ == p.1 && a.scale as int == p.2 as int,
        Err(_) => false,
    }
}

/// The printer that the operator `op` uses.
pub open spec fn format_of(op: char) -> LegacyFormat {
    if op == '+' || op == '-' {
        LegacyFormat::AddSub
    } else {
        LegacyFormat::MulDiv
    }
}

/// `v` is the result of `op` on `a` and `b`.
pub open spec fn op_result(op: char, a: BigDecimal, b: BigDecimal, v: BigDecimal) -> bool {
    if op == '+' {
        v.is_result(sum_value(a, b), sum_scale(a, b))
    } else if op == '-' {
        v.is_result(diff_value(a, b), sum_scale(a, b))
    } else if op == '*' {
        v.is_result(mul_value(a, b), mul_scale(a, b))
    } else {
        v.is_result(div_value(a, b), div_scale(a, b))
    }
}

/// The answer text for `op` on `a` and `b`, `v` being the result of the
/// operation: "ERROR" for a refused divisor, else the legacy text of `v`.
pub open spec fn answer(op: char, a: BigDecimal, b: BigDecimal, v: BigDecimal, out: Seq<char>) -> bool {
    if op == '/' && !divisor_ok(b) {
        out == "ERROR"@
    } else {
        op_result(op, a, b, v) && out == legacy_text(v, format_of(op))
    }
}

/// An operator the calculator knows.
pub open spec fn known_op(op: char) -> bool {
    op == '+' || op == '-' || op == '*' || op == '/'
}

/// A canonical digit sequence whose value is below `10^n` has at most `n`
/// digits (for `n >= 1`).
proof fn lemma_canonical_len_bound(d: Seq<u8>, n: nat)
    requires
        be_canonical(d),
        be_val(d) < pow10(n),
        n >= 1,
    ensures
        d.len() <= n,
{
    if d.len() > n {
        crate::digits::lemma_be_lower_bound(d);
        crate::digits::lemma_pow10_mono(n, (d.len() - 1) as nat);
    }
}

proof fn lemma_result_printable(v: BigDecimal, val: int, s: int, n: nat)
    requires
        v.is_result(val, s),
        abs_int(val) < pow10(n),
        1 <= n <= 0x2800_0000,
        -0x2800_0000 <= s <= 0x2800_0000,
    ensures
        printable(v),
{
    lemma_canonical_len_bound(v.digits@, n);
}

/// `x · 10^k < 10^(n + k)` when `x < 10^n`.
proof fn lemma_scaled_bound(x: nat, n: nat, k: nat)
    requires
        x < pow10(n),
    ensures
        x * pow10(k) < pow10(n + k),
{
    lemma_pow10_add(n, k);
    lemma_pow10_pos(k);
    assert(x * pow10(k) < pow10(n) * pow10(k)) by (nonlinear_arith)
        requires
            x < pow10(n),
            pow10(k) >= 1,
    ;
}

/// The operand read from at most `len` characters is below `10^len` with a
/// scale of at most `len`.
proof fn lemma_operand_bound(a: BigDecimal, len: nat)
    requires
        be_canonical(a.digits@),
        a.digits@.len() <= len,
        0 <= a.scale <= len,
    ensures
        a.ops_mag() < pow10(len),
        a.ops_scale() <= len,
{
    crate::digits::lemma_be_bound(a.digits@);
    crate::digits::lemma_pow10_mono(a.digits@.len(), len);
}

proof fn lemma_results_printable(op: char, a: BigDecimal, b: BigDecimal, v: BigDecimal, l: nat)
    requires
        a.wf(),
        b.wf(),
        a.digits@.len() <= l,
        b.digits@.len() <= l,
        0 <= a.scale <= l,
        0 <= b.scale <= l,
        1 <= l <= 0x1000_0000,
        op_result(op, a, b, v),
        known_op(op),
        op == '/' ==> divisor_ok(b),
    ensures
        printable(v),
{
    lemma_operand_bound(a, l);
    lemma_operand_bound(b, l);
    let ma = a.ops_mag();
    let mb = b.ops_mag();
    if op == '+' || op == '-' {
        let s = common_scale(a, b);
        let ka = (s - a.ops_scale()) as nat;
        let kb = (s - b.ops_scale()) as nat;
        lemma_scaled_bound(ma, l, ka);
        lemma_scaled_bound(mb, l, kb);
        crate::digits::lemma_pow10_mono(l + ka, l + l);
        crate::digits::lemma_pow10_mono(l + kb, l + l);
        let x = a.at_scale(s);
        let y = b.at_scale(s);
        let p = pow10(l + l);
        assert(abs_int(x) < p) by {
            lemma_signed_abs(a.sign, ma, pow10(ka));
        }
        assert(abs_int(y) < p) by {
            lemma_signed_abs(b.sign, mb, pow10(kb));
        }
        assert(pow10(l + l + 1) == 10 * p);
        lemma_result_printable(v, if op == '+' {
            x + y
        } else {
            x - y
        }, s as int, l + l + 1);
    } else if op == '*' {
        lemma_pow10_add(l, l);
        assert(ma * mb < pow10(l) * pow10(l)) by (nonlinear_arith)
            requires
                ma < pow10(l),
                mb < pow10(l),
        ;
        assert(abs_int(mul_value(a, b)) == ma * mb) by {
            lemma_signed_abs(a.sign, ma, 1);
            lemma_signed_abs(b.sign, mb, 1);
            lemma_abs_mul(a.signed_ops(), b.signed_ops());
        }
        lemma_result_printable(v, mul_value(a, b), mul_scale(a, b), l + l);
    } else {
        lemma_scaled_bound(ma, l, 20);
        let q = ma * pow10(20) / mb;
        lemma_canonical_zero(b.ops_digits());
        assert(mb > 0) by {
            if mb == 0 {
                assert(b.ops_digits() == seq![0u8]);
            }
        }
        assert(q <= ma * pow10(20)) by (nonlinear_arith)
            requires
                mb > 0,
                q == ma * pow10(20) / mb,
        ;
        lemma_result_printable(v, div_value(a, b), div_scale(a, b), l + 20);
    }
}

proof fn lemma_signed_abs(s: Sign, m: nat, p: nat)
    ensures
        abs_int(sign_int(s) * m * p) == m * p,
{
    if s == Sign::Positive {
        assert(sign_int(s) * m * p == m * p) by (nonlinear_arith)
            requires
                sign_int(s) == 1,
        ;
    } else {
        assert(sign_int(s) * m * p == -(m * p)) by (nonlinear_arith)
            requires
                sign_int(s) == -1,
        ;
    }
}

proof fn lemma_abs_mul(x: int, y: int)
    ensures
        abs_int(x * y) == abs_int(x) * abs_int(y),
{
    if x < 0 && y < 0 {
        assert(x * y == (-x) * (-y)) by (nonlinear_arith);
    } else if x < 0 {
        assert(x * y == -((-x) * y)) by (nonlinear_arith);
        assert((-x) * y >= 0) by (nonlinear_arith)
            requires
                x < 0,
                y >= 0,
        ;
    } else if y < 0 {
        assert(x * y == -(x * (-y))) by (nonlinear_arith);
        assert(x * (-y) >= 0) by (nonlinear_arith)
            requires
                x >= 0,
                y < 0,
        ;
    } else {
        assert(x * y >= 0) by (nonlinear_arith)
            requires
                x >= 0,
                y >= 0,
        ;
    }
}

/// The answer text for `op` on the number texts `l` and `r`: "ERROR" when
/// the operator is unknown or a text does not parse, else the one text that
/// `answer` allows.
pub open spec fn answer_text(op: char, l: Seq<char>, r: Seq<char>) -> Seq<char> {
    if !known_op(op) || parse_spec(l) is Err || parse_spec(r) is Err {
        "ERROR"@
    } else {
        choose|out: Seq<char>| #[trigger] answers(op, l, r, out)
    }
}

/// `out` is the answer to `op` on what `l` and `r` parse to.
pub open spec fn answers(op: char, l: Seq<char>, r: Seq<char>, out: Seq<char>) -> bool {
    exists|a: BigDecimal, b: BigDecimal, v: BigDecimal|
        #![trigger parses_to(l, a), parses_to(r, b), answer(op, a, b, v, out)]
        parses_to(l, a) && parses_to(r, b) && answer(op, a, b, v, out)
}

/// `answer` allows one text only.
proof fn lemma_answer_unique(
    op: char,
    l: Seq<char>,
    r: Seq<char>,
    a1: BigDecimal,
    b1: BigDecimal,
    v1: BigDecimal,
    o1: Seq<char>,
    a2: BigDecimal,
    b2: BigDecimal,
    v2: BigDecimal,
    o2: Seq<char>,
)
    requires
        known_op(op),
        parses_to(l, a1),
        parses_to(r, b1),
        answer(op, a1, b1, v1, o1),
        parses_to(l, a2),
        parses_to(r, b2),
        answer(op, a2, b2, v2, o2),
    ensures
        o1 == o2,
{
    assert(a1.digits@ == a2.digits@ && a1.sign == a2.sign && a1.scale == a2.scale);
    assert(b1.digits@ == b2.digits@ && b1.sign == b2.sign && b1.scale == b2.scale);
    if !(op == '/' && !divisor_ok(b1)) {
        if op == '+' {
            assert(sum_value(a1, b1) == sum_value(a2, b2));
            law_result_unique(v1, v2, sum_value(a1, b1), sum_scale(a1, b1));
        } else if op == '-' {
            assert(diff_value(a1, b1) == diff_value(a2, b2));
            law_result_unique(v1, v2, diff_value(a1, b1), sum_scale(a1, b1));
        } else if op == '*' {
            assert(mul_value(a1, b1) == mul_value(a2, b2));
            law_result_unique(v1, v2, mul_value(a1, b1), mul_scale(a1, b1));
        } else {
            assert(div_value(a1, b1) == div_value(a2, b2));
            law_result_unique(v1, v2, div_value(a1, b1), div_scale(a1, b1));
        }
        assert(legacy_text(v1, format_of(op)) == legacy_text(v2, format_of(op)));
    }
}

proof fn lemma_answer_is_text(
    op: char,
    l: Seq<char>,
    r: Seq<char>,
    a: BigDecimal,
    b: BigDecimal,
    v: BigDecimal,
    out: Seq<char>,
)
    requires
        known_op(op),
        parses_to(l, a),
        parses_to(r, b),
        answer(op, a, b, v, out),
    ensures
        out == answer_text(op, l, r),
{
    let o = answer_text(op, l, r);
    assert(answers(op, l, r, out));
    let (a2, b2, v2) = choose|a2: BigDecimal, b2: BigDecimal, v2: BigDecimal|
        #![trigger parses_to(l, a2), parses_to(r, b2), answer(op, a2, b2, v2, o)]
        parses_to(l, a2) && parses_to(r, b2) && answer(op, a2, b2, v2, o);
    lemma_answer_unique(op, l, r, a, b, v, out, a2, b2, v2, o);
}

/// What a line typed at the interactive calculator's operator prompt asks
/// for.
#[derive(Clone, Copy, Debug, PartialEq, Eq, Structural)]
pub enum OperatorRequest {
    /// End the session.
    Quit,
    /// Not an operator: the prompt is shown again.
    Invalid,
    /// Read two operands and apply this operator.
    Operation(char),
}

/// The request of an operator line: surrounding white space ignored, `quit`
/// in any mix of ASCII cases ends the session, one of `+`, `-`, `*` or `/`
/// alone names an operation, and anything else is refused.
pub open spec fn operator_request(line: Seq<char>) -> OperatorRequest {
    let t = trim(line);
    if t.len() == 4 && (t[0] == 'q' || t[0] == 'Q') && (t[1] == 'u' || t[1] == 'U') && (t[2]
        == 'i' || t[2] == 'I') && (t[3] == 't' || t[3] == 'T') {
        OperatorRequest::Quit
    } else if t.len() == 1 && known_op(t[0]) {
        OperatorRequest::Operation(t[0])
    } else {
        OperatorRequest::Invalid
    }
}

/// Reads a line typed at the operator prompt (see `operator_request`).
pub fn read_operator(line: &str) -> (r: OperatorRequest)
    ensures
        r == operator_request(line@),
{
    let all = chars_of(line);
    let t = trim_chars(&all);
    if t.len() == 4 && (t[0] == 'q' || t[0] == 'Q') && (t[1] == 'u' || t[1] == 'U') && (t[2]
        == 'i' || t[2] == 'I') && (t[3] == 't' || t[3] == 'T') {
        OperatorRequest::Quit
    } else if t.len() == 1 && (t[0] == '+' || t[0] == '-' || t[0] == '*' || t[0] == '/') {
        OperatorRequest::Operation(t[0])
    } else {
        OperatorRequest::Invalid
    }
}

/// The calculator's answer to `op` on two number texts: the legacy text of
/// the result, or "ERROR" for an unknown operator, a text that does not
/// parse, or a refused divisor. Each operand text holds at most 2^28
/// characters: the aligned digits of a sum, the digits and scale of a
/// product and those of a quotient then stay within `i32`, the type in which
/// the calculator counts digit positions and scales. For a product, one of
/// the two texts is short enough for the `u32` digit accumulators
/// (`mul_len_ok`).
pub fn compute_output(op: char, left_raw: &str, right_raw: &str) -> (out: String)
    requires
        left_raw@.len() <= 0x1000_0000,
        right_raw@.len() <= 0x1000_0000,
        op == '*' ==> mul_len_ok(left_raw@.len()) || mul_len_ok(right_raw@.len()),
    ensures
        !known_op(op) || parse_spec(left_raw@) is Err || parse_spec(right_raw@) is Err ==> out@
            == "ERROR"@,
        known_op(op) && parse_spec(left_raw@) is Ok && parse_spec(right_raw@) is Ok ==> exists|
            a: BigDecimal,
            b: BigDecimal,
            v: BigDecimal,
        |
            #![trigger parses_to(left_raw@, a), parses_to(right_raw@, b), answer(op, a, b, v, out@)]
            parses_to(left_raw@, a) && parses_to(right_raw@, b) && answer(op, a, b, v, out@),
        out@ == answer_text(op, left_raw@, right_raw@),
{
    let left = BigDecimal::parse(left_raw);
    let right = BigDecimal::parse(right_raw);
    let (a, b) = match (left, right) {
        (Ok(a), Ok(b)) => (a, b),
        _ => {
            return "ERROR".to_owned();
        },
    };
    if !(op == '+' || op == '-' || op == '*' || op == '/') {
        return "ERROR".to_owned();
    }
    let ghost len: nat = if left_raw@.len() >= right_raw@.len() {
        left_raw@.len()
    } else {
        right_raw@.len()
    };
    let ghost l: nat = if len == 0 {
        1
    } else {
        len
    };
    proof {
        assert(parses_to(left_raw@, a));
        assert(parses_to(right_raw@, b));
    }
    if op == '/' {
        match a.div(&b) {
            Ok(value) => {
                proof {
                    lemma_results_printable(op, a, b, value, l);
                }
                let out = value.to_string_legacy(LegacyFormat::MulDiv);
                proof {
                    assert(answer(op, a, b, value, out@));
                    lemma_answer_is_text(op, left_raw@, right_raw@, a, b, value, out@);
                }
                out
            },
            Err(_) => {
                let out = "ERROR".to_owned();
                proof {
                    assert(answer(op, a, b, a, out@));
                    lemma_answer_is_text(op, left_raw@, right_raw@, a, b, a, out@);
                }
                out
            },
        }
    } else {
        let value = if op == '+' {
            a.add(&b)
        } else if op == '-' {
            a.sub(&b)
        } else {
            a.mul(&b)
        };
        proof {
            lemma_results_printable(op, a, b, value, l);
        }
        let mode = if op == '*' {
            LegacyFormat::MulDiv
        } else {
            LegacyFormat::AddSub
        };
        let out = value.to_string_legacy(mode);
        proof {
            assert(answer(op, a, b, value, out@));
            lemma_answer_is_text(op, left_raw@, right_raw@, a, b, value, out@);
        }
        out
    }
}

// ---------------------------------------------------------------------------
// Reading back what the printers write
// ---------------------------------------------------------------------------

/// The digits that the digit characters of `cs` write, commas skipped.
pub open spec fn digits_of_text(cs: Seq<char>) -> Seq<u8>
    decreases cs.len(),
{
    if cs.len() == 0 {
        Seq::empty()
    } else if cs.last() == ',' {
        digits_of_text(cs.drop_last())
    } else {
        digits_of_text(cs.drop_last()).push(char_digit(cs.last()))
    }
}

/// Every character is a decimal digit or a comma.
pub open spec fn digits_and_commas(cs: Seq<char>) -> bool {
    forall|i: int| 0 <= i < cs.len() ==> is_digit_char(#[trigger] cs[i]) || cs[i] == ','
}

proof fn lemma_digit_char(d: u8)
    requires
        d <= 9,
    ensures
        is_digit_char(digit_char(d)),
        char_digit(digit_char(d)) == d,
        digit_char(d) != ',',
        digit_char(d) != '.',
{
}

/// Scanning a run of digits and commas appends the digits.
proof fn lemma_scan_run(body: Seq<char>, p: nat, j: nat, st: (Seq<u8>, nat, bool, bool))
    requires
        p + j <= body.len(),
        scan(body, p) == Ok::<(Seq<u8>, nat, bool, bool), Error>(st),
        digits_and_commas(body.subrange(p as int, (p + j) as int)),
    ensures
        scan(body, p + j) == Ok::<(Seq<u8>, nat, bool, bool), Error>(
            (
                st.0 + digits_of_text(body.subrange(p as int, (p + j) as int)),
                if st.3 {
                    st.1 + digits_of_text(body.subrange(p as int, (p + j) as int)).len()
                } else {
                    st.1
                },
                st.2 || digits_of_text(body.subrange(p as int, (p + j) as int)).len() > 0,
                st.3,
            ),
        ),
    decreases j,
{
    let seg = body.subrange(p as int, (p + j) as int);
    if j == 0 {
        assert(seg =~= Seq::<char>::empty());
        assert(st.0 + Seq::<u8>::empty() =~= st.0);
    } else {
        let seg1 = body.subrange(p as int, (p + j - 1) as int);
        assert(seg.drop_last() =~= seg1);
        assert(digits_and_commas(seg1)) by {
            assert forall|i: int| 0 <= i < seg1.len() implies is_digit_char(#[trigger] seg1[i])
                || seg1[i] == ',' by {
                assert(seg1[i] == seg[i]);
            }
        }
        lemma_scan_run(body, p, (j - 1) as nat, st);
        let c = body[(p + j - 1) as int];
        assert(seg.last() == c);
        assert(seg[seg.len() - 1] == c);
        assert(is_digit_char(c) || c == ',');
        assert(((p + j) as nat - 1) as nat == (p + j - 1) as nat);
        if c != ',' {
            assert(c != '.');
            let d1 = digits_of_text(seg1);
            assert(st.0 + d1.push(char_digit(c)) =~= (st.0 + d1).push(char_digit(c)));
        }
    }
}

/// Scanning a point before any other point records it.
proof fn lemma_scan_point(body: Seq<char>, p: nat, st: (Seq<u8>, nat, bool, bool))
    requires
        p < body.len(),
        body[p as int] == '.',
        scan(body, p) == Ok::<(Seq<u8>, nat, bool, bool), Error>(st),
        !st.3,
    ensures
        scan(body, p + 1) == Ok::<(Seq<u8>, nat, bool, bool), Error>((st.0, st.1, st.2, true)),
{
    assert(((p + 1) as nat - 1) as nat == p);
}

/// The scan of digits and commas, optionally followed by a point and more
/// digits.
pub proof fn lemma_scan_layout(ip: Seq<char>, fp: Seq<char>, point: bool)
    requires
        digits_and_commas(ip),
        digits_and_commas(fp),
        digits_of_text(ip).len() > 0,
    ensures
        ({
            let body = if point {
                ip + seq!['.'] + fp
            } else {
                ip
            };
            scan(body, body.len()) == Ok::<(Seq<u8>, nat, bool, bool), Error>(
                (
                    if point {
                        digits_of_text(ip) + digits_of_text(fp)
                    } else {
                        digits_of_text(ip)
                    },
                    if point {
                        digits_of_text(fp).len()
                    } else {
                        0
                    },
                    true,
                    point,
                ),
            )
        }),
{
    let body = if point {
        ip + seq!['.'] + fp
    } else {
        ip
    };
    let st0 = (Seq::<u8>::empty(), 0nat, false, false);
    assert(scan(body, 0) == Ok::<(Seq<u8>, nat, bool, bool), Error>(st0));
    assert(body.subrange(0, ip.len() as int) =~= ip);
    lemma_scan_run(body, 0, ip.len(), st0);
    assert(Seq::<u8>::empty() + digits_of_text(ip) =~= digits_of_text(ip));
    if point {
        let st1 = (digits_of_text(ip), 0nat, true, false);
        assert(body[ip.len() as int] == '.');
        lemma_scan_point(body, ip.len(), st1);
        let st2 = (digits_of_text(ip), 0nat, true, true);
        assert(body.subrange((ip.len() + 1) as int, (ip.len() + 1 + fp.len()) as int) =~= fp);
        lemma_scan_run(body, ip.len() + 1, fp.len(), st2);
        assert(body.len() == ip.len() + 1 + fp.len());
    }
}

/// The digit characters of `F` write `F`.
pub proof fn lemma_digit_text(f: Seq<u8>)
    requires
        all_digits(f),
    ensures
        digits_and_commas(digit_text(f)),
        digits_of_text(digit_text(f)) == f,
        digit_text(f).len() == f.len(),
    decreases f.len(),
{
    let t = digit_text(f);
    if f.len() > 0 {
        let f1 = f.drop_last();
        assert(t.drop_last() =~= digit_text(f1));
        assert(all_digits(f1));
        lemma_digit_text(f1);
        lemma_digit_char(f.last());
        assert(t.last() == digit_char(f.last()));
        assert(f1.push(f.last()) =~= f);
        assert forall|i: int| 0 <= i < t.len() implies is_digit_char(#[trigger] t[i]) || t[i]
            == ',' by {
            lemma_digit_char(f[i]);
        }
    } else {
        assert(t =~= Seq::<char>::empty());
    }
}

/// The grouped digit characters write the first `k` digits.
pub proof fn lemma_grouped_text(d: Seq<u8>, il: nat, g: bool, k: nat)
    requires
        all_digits(d),
        k <= d.len(),
    ensures
        digits_and_commas(grouped(d, il, g, k)),
        digits_of_text(grouped(d, il, g, k)) == d.subrange(0, k as int),
    decreases k,
{
    if k == 0 {
        assert(d.subrange(0, 0) =~= Seq::<u8>::empty());
    } else {
        let p = (k - 1) as nat;
        lemma_grouped_text(d, il, g, p);
        let prev = grouped(d, il, g, p);
        let comma: Seq<char> = if g && p > 0 && (il - p) % 3 == 0 {
            seq![',']
        } else {
            Seq::empty()
        };
        let mid = prev + comma;
        let whole = grouped(d, il, g, k);
        lemma_digit_char(d[p as int]);
        assert(whole == mid + seq![digit_char(d[p as int])]);
        assert(whole.drop_last() =~= mid);
        assert(digits_of_text(mid) == digits_of_text(prev)) by {
            if comma.len() == 1 {
                assert(mid.drop_last() =~= prev);
            } else {
                assert(mid =~= prev);
            }
        }
        assert(d.subrange(0, k as int) =~= d.subrange(0, p as int).push(d[p as int]));
        assert forall|i: int| 0 <= i < whole.len() implies is_digit_char(#[trigger] whole[i])
            || whole[i] == ',' by {
            if i < prev.len() {
                assert(whole[i] == prev[i]);
            } else if i < mid.len() {
                assert(whole[i] == ',');
            }
        }
    }
}

/// A text without white space is its own trim.
pub proof fn lemma_trim_plain(s: Seq<char>)
    requires
        forall|i: int| 0 <= i < s.len() ==> !crate::text::is_white_space(#[trigger] s[i]),
    ensures
        trim(s) == s,
{
    if s.len() > 0 {
        assert(!crate::text::is_white_space(s[0]));
        assert(crate::text::trim_start(s) == s);
        assert(!crate::text::is_white_space(s.last()));
    }
}

proof fn lemma_trim_zeros_prefix(d: Seq<u8>, k: nat)
    requires
        be_canonical(d),
    ensures
        trim_lz(zeros(k) + d) == d,
    decreases k,
{
    if k == 0 {
        assert(zeros(0) + d =~= d);
        lemma_trim_lz(d);
    } else {
        let s = zeros(k) + d;
        assert(s.drop_first() =~= zeros((k - 1) as nat) + d);
        lemma_trim_zeros_prefix(d, (k - 1) as nat);
    }
}

proof fn lemma_trim_pad(d: Seq<u8>, n: nat)
    requires
        be_canonical(d),
    ensures
        trim_lz(pad_front(d, n)) == d,
{
    if d.len() < n {
        lemma_trim_zeros_prefix(d, (n - d.len()) as nat);
    } else {
        lemma_trim_lz(d);
    }
}

/// Reading back the plain text of a number gives the number: `parse` of
/// `to_string_with_grouping` (with or without separators) is the identity on
/// numbers with canonical digits and a non-negative scale, zero being `+0`
/// with scale 0.
pub proof fn law_parse_reads_back_text(v: BigDecimal, grouping: bool)
    requires
        v.wf(),
        v.scale >= 0,
        v.digits@ == seq![0u8] ==> v.sign == Sign::Positive && v.scale == 0,
    ensures
        parse_spec(canonical_text(v, grouping)) == Ok::<(Sign, Seq<u8>, nat), Error>(
            (v.sign, v.digits@, v.scale as nat),
        ),
{
    let sc = v.scale as nat;
    let d = canonical_digits(v);
    lemma_pad_digits(v.digits@, sc + 1);
    assert(d == pad_front(v.digits@, sc + 1));
    let il = (d.len() - sc) as nat;
    let g = grouped(d, il, grouping, il);
    let f = d.subrange(il as int, d.len() as int);
    lemma_grouped_text(d, il, grouping, il);
    assert(all_digits(f));
    lemma_digit_text(f);
    let ft = digit_text(f);
    let neg = v.sign == Sign::Negative && v.digits@ != seq![0u8];
    let head: Seq<char> = if neg {
        seq!['-']
    } else {
        Seq::empty()
    };
    let rest: Seq<char> = if sc > 0 {
        seq!['.'] + ft
    } else {
        Seq::empty()
    };
    let text = canonical_text(v, grouping);
    assert(text == head + g + rest);
    assert(d.subrange(0, il as int).len() == il);
    assert(g.len() >= 1) by {
        if g.len() == 0 {
            assert(digits_of_text(g) =~= Seq::<u8>::empty());
        }
    }
    assert forall|i: int| 0 <= i < text.len() implies !crate::text::is_white_space(
        #[trigger] text[i],
    ) by {
        if i < head.len() {
            assert(text[i] == '-');
        } else if i < head.len() + g.len() {
            assert(text[i] == g[i - head.len()]);
            assert(is_digit_char(g[i - head.len()]) || g[i - head.len()] == ',');
        } else {
            let j = i - head.len() - g.len();
            assert(text[i] == rest[j]);
            if j > 0 {
                assert(rest[j] == ft[j - 1]);
                assert(is_digit_char(ft[j - 1]) || ft[j - 1] == ',');
            }
        }
    }
    lemma_trim_plain(text);
    let body = g + rest;
    if neg {
        assert(text[0] == '-');
        assert(text.drop_first() =~= body);
    } else {
        assert(text =~= body);
        assert(text[0] == g[0]);
        assert(is_digit_char(g[0]) || g[0] == ',');
    }
    lemma_scan_layout(g, ft, sc > 0);
    if sc > 0 {
        assert(body =~= g + seq!['.'] + ft);
        assert(d.subrange(0, il as int) + f =~= d);
    } else {
        assert(d.subrange(0, il as int) =~= d);
    }
    lemma_trim_pad(v.digits@, sc + 1);
}

// ---------------------------------------------------------------------------
// Laws
// ---------------------------------------------------------------------------

/// Addition is commutative: `a + b` and `b + a` have the same value and
/// scale, so (by `is_result`) the same normal form.
pub proof fn law_add_commutative(a: BigDecimal, b: BigDecimal)
    ensures
        sum_value(a, b) == sum_value(b, a),
        sum_scale(a, b) == sum_scale(b, a),
{
}

/// Multiplication is commutative.
pub proof fn law_mul_commutative(a: BigDecimal, b: BigDecimal)
    ensures
        mul_value(a, b) == mul_value(b, a),
        mul_scale(a, b) == mul_scale(b, a),
{
    assert(a.signed_ops() * b.signed_ops() == b.signed_ops() * a.signed_ops()) by (nonlinear_arith);
}

/// A number minus itself is `+0` with scale 0.
pub proof fn law_sub_self_is_zero(a: BigDecimal, r: BigDecimal)
    requires
        r.is_result(diff_value(a, a), sum_scale(a, a)),
    ensures
        r.sign == Sign::Positive,
        r.digits@ == seq![0u8],
        r.scale == 0,
{
    lemma_canonical_zero(r.digits@);
}

/// Two results of the same value and scale are the same number.
pub proof fn law_result_unique(r1: BigDecimal, r2: BigDecimal, v: int, s: int)
    requires
        r1.is_result(v, s),
        r2.is_result(v, s),
    ensures
        r1.sign == r2.sign,
        r1.digits@ == r2.digits@,
        r1.scale == r2.scale,
{
    crate::digits::lemma_be_canonical_unique(r1.digits@, r2.digits@);
}

/// Dropping trailing fractional zeros from digits whose integer part is not
/// empty and starts with a non-zero digit keeps that first digit and a
/// non-empty integer part.
proof fn lemma_trim_frac_lead(d: Seq<u8>, sc: nat)
    requires
        d.len() > sc,
        d[0] != 0,
    ensures
        trim_frac(d, sc).0.len() > trim_frac(d, sc).1,
        trim_frac(d, sc).0[0] == d[0],
        trim_frac(d, sc).0.len() - trim_frac(d, sc).1 == d.len() - sc,
    decreases d.len(),
{
    if sc > 0 && d.len() > 0 && d.last() == 0 {
        lemma_trim_frac_lead(d.drop_last(), (sc - 1) as nat);
    }
}

/// Taking the magnitudes of signed digits gives the digits back.
proof fn lemma_abs_signed_digits(d: Seq<u8>, neg: bool)
    requires
        all_digits(d),
    ensures
        abs_digits(signed_digits(d, neg)) == d,
{
    assert forall|i: int| 0 <= i < d.len() implies #[trigger] abs_digits(signed_digits(d, neg))[i]
        == d[i] by {
        assert(d[i] <= 9);
    }
    assert(abs_digits(signed_digits(d, neg)) =~= d);
}

/// Up to the end of the integer part the legacy printer writes the grouped
/// integer digits, and the point after the last of them when the scale is
/// not zero.
proof fn lemma_body_grouped(d: Seq<u8>, il: nat, x: int, g: bool, k: nat)
    requires
        1 <= il,
        k <= il,
    ensures
        legacy_body(d, il as int, x, g, k) == grouped(d, il, g, k) + (if k == il && x != 0 {
            seq!['.']
        } else {
            Seq::<char>::empty()
        }),
    decreases k,
{
    if k == 0 {
        assert(grouped(d, il, g, 0) + Seq::<char>::empty() =~= Seq::<char>::empty());
    } else {
        let p = (k - 1) as nat;
        lemma_body_grouped(d, il, x, g, p);
        let c1 = g && p >= 1 && il > 3 && p < il && p % 3 == il % 3;
        let c2 = g && p > 0 && (il - p) % 3 == 0;
        assert(c1 == c2) by {
            if g && p >= 1 && p < il {
                if il <= 3 {
                    assert(1 <= il - p <= 2);
                }
            }
        }
        let comma: Seq<char> = if c1 {
            seq![',']
        } else {
            Seq::empty()
        };
        let dot: Seq<char> = if k == il && x != 0 {
            seq!['.']
        } else {
            Seq::empty()
        };
        assert(legacy_body(d, il as int, x, g, p) =~= grouped(d, il, g, p));
        assert(legacy_body(d, il as int, x, g, k) =~= grouped(d, il, g, p) + comma + seq![
            digit_char(d[p as int]),
        ] + dot);
        assert(grouped(d, il, g, k) =~= grouped(d, il, g, p) + comma + seq![digit_char(d[p as int])]);
    }
}

/// Past the integer part the legacy printer writes the fractional digits one
/// by one after the grouped integer digits and the point.
proof fn lemma_body_fraction(d: Seq<u8>, il: nat, x: int, g: bool, k: nat)
    requires
        1 <= il <= k <= d.len(),
    ensures
        legacy_body(d, il as int, x, g, k) == grouped(d, il, g, il) + (if x != 0 {
            seq!['.']
        } else {
            Seq::<char>::empty()
        }) + digit_text(d.subrange(il as int, k as int)),
    decreases k,
{
    let dot: Seq<char> = if x != 0 {
        seq!['.']
    } else {
        Seq::empty()
    };
    if k == il {
        lemma_body_grouped(d, il, x, g, il);
        assert(digit_text(d.subrange(il as int, il as int)) =~= Seq::<char>::empty());
        assert(legacy_body(d, il as int, x, g, k) =~= grouped(d, il, g, il) + dot + digit_text(
            d.subrange(il as int, k as int),
        ));
    } else {
        let p = (k - 1) as nat;
        lemma_body_fraction(d, il, x, g, p);
        assert(digit_text(d.subrange(il as int, k as int)) =~= digit_text(
            d.subrange(il as int, p as int),
        ).push(digit_char(d[p as int])));
        assert(legacy_body(d, il as int, x, g, k) =~= legacy_body(d, il as int, x, g, p) + seq![
            digit_char(d[p as int]),
        ]);
        assert(legacy_body(d, il as int, x, g, k) =~= grouped(d, il, g, il) + dot + digit_text(
            d.subrange(il as int, k as int),
        ));
    }
}

/// The sum printer writes a number of magnitude at least one as the plain
/// grouped text of the same number with its trailing fractional zeros
/// dropped: `to_string_legacy(AddSub)` of `x` is `to_string_with_grouping(true)`
/// of `y`, where `y` has the sign of `x` and the digits and scale that
/// `trim_frac` leaves of those of `x`.
pub proof fn law_sum_text_is_trimmed_plain_text(x: BigDecimal, y: BigDecimal)
    requires
        be_canonical(x.digits@),
        x.scale >= 0,
        x.mag() >= pow10(x.scale as nat),
        y.sign == x.sign,
        y.digits@ == trim_frac(x.digits@, x.scale as nat).0,
        y.scale as int == trim_frac(x.digits@, x.scale as nat).1 as int,
    ensures
        legacy_text(x, LegacyFormat::AddSub) == canonical_text(y, true),
{
    let d = x.digits@;
    let sc = x.scale as nat;
    crate::digits::lemma_pow10_pos(sc);
    lemma_be_bound(d);
    if d.len() <= sc {
        crate::digits::lemma_pow10_mono(d.len(), sc);
    }
    assert(d.len() > sc);
    if d[0] == 0 {
        assert(d.len() == 1);
        assert(d =~= seq![0u8]);
        lemma_be_single(0);
    }
    lemma_trim_frac_lead(d, sc);
    lemma_trim_frac(d, sc);
    let t = trim_frac(d, sc);
    let n = t.0.len();
    let il = (n - t.1) as nat;
    assert(pad_front(t.0, t.1 + 1) == t.0);
    assert(trim_lz_budget(t.0, il) == t.0);
    assert(legacy_layout(x, LegacyFormat::AddSub) == t);
    assert(!all_zero(t.0));
    let neg = x.sign == Sign::Negative;
    let ds = signed_digits(t.0, neg);
    lemma_abs_signed_digits(t.0, neg);
    assert(sign_text(ds) == (if neg {
        seq!['-']
    } else {
        Seq::<char>::empty()
    }));
    lemma_body_fraction(t.0, il, t.1 as int, true, n);
    assert(y.ops_scale() == t.1);
    assert(canonical_digits(y) == t.0);
    assert(y.digits@ != seq![0u8]);
    if t.1 == 0 {
        assert(t.0.subrange(il as int, n as int) =~= Seq::<u8>::empty());
        assert(digit_text(t.0.subrange(il as int, n as int)) =~= Seq::<char>::empty());
    }
    assert(legacy_text(x, LegacyFormat::AddSub) =~= canonical_text(y, true));
}

/// The legacy printers' digits start with the first digit.
proof fn lemma_body_first(d: Seq<u8>, il: int, x: int, g: bool, k: nat)
    requires
        k >= 1,
    ensures
        legacy_body(d, il, x, g, k).len() >= 1,
        legacy_body(d, il, x, g, k)[0] == digit_char(d[0]),
    decreases k,
{
    if k > 1 {
        lemma_body_first(d, il, x, g, (k - 1) as nat);
    } else {
        assert(legacy_body(d, il, x, g, 0) =~= Seq::<char>::empty());
    }
}

/// The sign of a legacy text: a non-zero number whose scale is negative or
/// whose magnitude is at least one is written with a leading minus sign
/// exactly when it is negative, by either printer.
#[verifier::spinoff_prover]
#[verifier::rlimit(40)]
proof fn lemma_legacy_sign(v: BigDecimal, mode: LegacyFormat)
    requires
        be_canonical(v.digits@),
        v.mag() > 0,
        v.scale < 0 || v.mag() >= pow10(v.scale as nat),
    ensures
        legacy_text(v, mode).len() >= 1,
        (legacy_text(v, mode)[0] == '-') == (v.sign == Sign::Negative),
{
    lemma_layout_lead(v, mode);
    let t = legacy_layout(v, mode);
    let n = t.0.len();
    let il = (n - t.1) as nat;
    let neg = v.sign == Sign::Negative;
    assert(!all_zero(t.0));
    let ds = signed_digits(t.0, neg);
    lemma_abs_signed_digits(t.0, neg);
    assert(t.0[0] <= 9);
    let k: nat = if mode == LegacyFormat::MulDiv && t.1 != 0 && il >= 1 && n >= il + 10 {
        (il + 9) as nat
    } else {
        n
    };
    let body = legacy_body(abs_digits(ds), il as int, t.1 as int, true, k);
    lemma_body_first(abs_digits(ds), il as int, t.1 as int, true, k);
    if neg {
        assert(ds[0] < 0);
        assert(sign_text(ds) == seq!['-']);
    } else {
        assert(ds[0] >= 0);
        assert(sign_text(ds) =~= Seq::<char>::empty());
    }
    let tail: Seq<char> = if k == n {
        Seq::empty()
    } else {
        round_text(abs_digits(ds), (il + 9) as int)
    };
    assert(legacy_text(v, mode) =~= sign_text(ds) + body + tail);
}

/// The layout of a non-zero number whose scale is negative or whose
/// magnitude is at least one starts with its first digit, which is not zero,
/// and keeps an integer digit.
proof fn lemma_layout_lead(v: BigDecimal, mode: LegacyFormat)
    requires
        be_canonical(v.digits@),
        v.mag() > 0,
        v.scale < 0 || v.mag() >= pow10(v.scale as nat),
    ensures
        legacy_layout(v, mode) == trim_frac(v.digits@, v.ops_scale()),
        legacy_layout(v, mode).0.len() > legacy_layout(v, mode).1,
        legacy_layout(v, mode).0[0] == v.digits@[0],
        v.digits@[0] != 0,
        all_digits(legacy_layout(v, mode).0),
{
    let d = v.digits@;
    let sc = v.ops_scale();
    lemma_be_bound(d);
    if v.scale >= 0 && d.len() <= sc {
        crate::digits::lemma_pow10_mono(d.len(), sc);
    }
    assert(d.len() > sc);
    if d[0] == 0 {
        assert(d.len() == 1);
        assert(d =~= seq![0u8]);
        lemma_be_single(0);
    }
    lemma_trim_frac_lead(d, sc);
    lemma_trim_frac(d, sc);
    let t = trim_frac(d, sc);
    let il = (t.0.len() - t.1) as nat;
    assert(pad_front(t.0, t.1 + 1) == t.0);
    assert(trim_lz_budget(t.0, il) == t.0);
    assert(il >= 1 ==> trim_lz_budget(t.0, (il - 1) as nat) == t.0);
}

/// The legacy calculator writes the sign of a product: when `a * b` is not
/// zero and has a magnitude of at least one, its answer text starts with a
/// minus sign exactly when `a * b` is negative.
pub proof fn law_product_text_sign(a: BigDecimal, b: BigDecimal, v: BigDecimal, out: Seq<char>)
    requires
        answer('*', a, b, v, out),
        mul_value(a, b) != 0,
        abs_int(mul_value(a, b)) >= pow10(mul_scale(a, b) as nat),
    ensures
        out.len() >= 1,
        (out[0] == '-') == (mul_value(a, b) < 0),
{
    lemma_legacy_sign(v, LegacyFormat::MulDiv);
}

/// The legacy calculator writes the sign of a quotient: when the truncated
/// quotient of `a / b` is not zero and either its scale is negative or its
/// magnitude is at least one, its answer text starts with a minus sign
/// exactly when the quotient is negative.
pub proof fn law_quotient_text_sign(a: BigDecimal, b: BigDecimal, v: BigDecimal, out: Seq<char>)
    requires
        divisor_ok(b),
        answer('/', a, b, v, out),
        div_value(a, b) != 0,
        div_scale(a, b) < 0 || abs_int(div_value(a, b)) >= pow10(div_scale(a, b) as nat),
    ensures
        out.len() >= 1,
        (out[0] == '-') == (div_value(a, b) < 0),
{
    lemma_legacy_sign(v, LegacyFormat::MulDiv);
}

/// The legacy calculator writes the sign of a sum or difference: when the
/// result is not zero and has a magnitude of at least one, its answer text
/// starts with a minus sign exactly when the result is negative.
pub proof fn law_sum_text_sign(op: char, a: BigDecimal, b: BigDecimal, v: BigDecimal, out: Seq<char>)
    requires
        op == '+' || op == '-',
        answer(op, a, b, v, out),
        (if op == '+' {
            sum_value(a, b)
        } else {
            diff_value(a, b)
        }) != 0,
        abs_int(
            if op == '+' {
                sum_value(a, b)
            } else {
                diff_value(a, b)
            },
        ) >= pow10(sum_scale(a, b) as nat),
    ensures
        out.len() >= 1,
        (out[0] == '-') == ((if op == '+' {
            sum_value(a, b)
        } else {
            diff_value(a, b)
        }) < 0),
{
    lemma_legacy_sign(v, LegacyFormat::AddSub);
}

/// Dropping trailing fractional zeros from a non-zero number below one keeps
/// it below one and non-zero.
proof fn lemma_trim_frac_short(d: Seq<u8>, sc: nat)
    requires
        d.len() <= sc,
        be_val(d) > 0,
    ensures
        trim_frac(d, sc).0.len() <= trim_frac(d, sc).1,
        be_val(trim_frac(d, sc).0) > 0,
    decreases d.len(),
{
    if sc > 0 && d.len() > 0 && d.last() == 0 {
        lemma_be_push(d.drop_last(), 0);
        assert(d.drop_last().push(0) =~= d);
        lemma_trim_frac_short(d.drop_last(), (sc - 1) as nat);
    } else if d.len() == 0 {
        assert(be_val(d) == 0);
    }
}

/// The product/quotient printer writes a non-zero number below one in
/// magnitude with a leading `0` and no minus sign, whatever its sign (as the
/// old calculator did).
pub proof fn law_mul_div_text_below_one(v: BigDecimal)
    requires
        be_canonical(v.digits@),
        v.scale >= 0,
        0 < v.mag() < pow10(v.scale as nat),
    ensures
        legacy_text(v, LegacyFormat::MulDiv).len() >= 1,
        legacy_text(v, LegacyFormat::MulDiv)[0] == '0',
{
    let d = v.digits@;
    let sc = v.scale as nat;
    if d.len() > sc {
        if d[0] == 0 {
            assert(d.len() == 1);
        }
        crate::digits::lemma_be_lower_bound(d);
        crate::digits::lemma_pow10_mono(sc, (d.len() - 1) as nat);
    }
    lemma_trim_frac_short(d, sc);
    lemma_trim_frac(d, sc);
    let t = trim_frac(d, sc);
    let k = (t.1 + 1 - t.0.len()) as nat;
    let p = pad_front(t.0, t.1 + 1);
    assert(p == zeros(k) + t.0);
    assert(p[0] == 0);
    assert(p.len() == t.1 + 1);
    crate::digits::lemma_be_append(zeros(k), t.0);
    crate::digits::lemma_be_zeros(k);
    if all_zero(p) {
        crate::digits::lemma_all_zero_val(p);
    }
    assert(legacy_layout(v, LegacyFormat::MulDiv) == (p, t.1));
    lemma_pad_digits(t.0, t.1 + 1);
    let neg = v.sign == Sign::Negative;
    let ds = signed_digits(p, neg);
    lemma_abs_signed_digits(p, neg);
    assert(ds[0] == 0);
    assert(sign_text(ds) =~= Seq::<char>::empty());
    let n = p.len();
    let kk: nat = if t.1 != 0 && n >= 1 + 10 {
        10
    } else {
        n
    };
    let body = legacy_body(abs_digits(ds), 1, t.1 as int, true, kk);
    lemma_body_first(abs_digits(ds), 1, t.1 as int, true, kk);
    let tail: Seq<char> = if kk == n {
        Seq::empty()
    } else {
        round_text(abs_digits(ds), 10)
    };
    assert(legacy_text(v, LegacyFormat::MulDiv) =~= sign_text(ds) + body + tail);
}

/// Both legacy printers write a number of magnitude at least one whose
/// fraction, without trailing zeros, has at most nine digits the same way:
/// the product/quotient printer only differs in rounding longer fractions.
pub proof fn law_short_fraction_printers_agree(v: BigDecimal)
    requires
        be_canonical(v.digits@),
        v.scale >= 0,
        v.mag() >= pow10(v.scale as nat),
        trim_frac(v.digits@, v.scale as nat).1 <= 9,
    ensures
        legacy_text(v, LegacyFormat::MulDiv) == legacy_text(v, LegacyFormat::AddSub),
{
    lemma_pow10_pos(v.scale as nat);
    lemma_layout_lead(v, LegacyFormat::MulDiv);
    lemma_layout_lead(v, LegacyFormat::AddSub);
}

/// Division truncates: the magnitude `Q` of the quotient of `a` by `b`
/// (in units of `10^-div_scale(a, b)`) is the whole part of
/// `|a| · 10^20 / |b|` taken at the operands' scales, and the quotient is
/// negative exactly when `Q` is not zero and the signs differ.
pub proof fn law_quotient_truncates(a: BigDecimal, b: BigDecimal, v: BigDecimal)
    requires
        b.ops_mag() > 0,
        v.is_result(div_value(a, b), div_scale(a, b)),
    ensures
        v.mag() * b.ops_mag() <= a.ops_mag() * pow10(20),
        a.ops_mag() * pow10(20) < (v.mag() + 1) * b.ops_mag(),
        (v.sign == Sign::Negative) == (v.mag() != 0 && a.sign != b.sign),
{
    let n = a.ops_mag() * pow10(20);
    let d = b.ops_mag();
    vstd::arithmetic::div_mod::lemma_fundamental_div_mod(n as int, d as int);
    assert((n / d) * d <= n && n < (n / d + 1) * d) by (nonlinear_arith)
        requires
            n == d * (n / d) + n % d,
            0 <= n % d < d,
    ;
    assert(v.mag() == n / d);
}

/// The first `m` digits of `p` are all zero exactly when the value of `p` is
/// below `10^(len - m)`.
proof fn lemma_zero_prefix(p: Seq<u8>, m: nat)
    requires
        all_digits(p),
        m <= p.len(),
    ensures
        all_zero(p.subrange(0, m as int)) <==> be_val(p) < pow10((p.len() - m) as nat),
{
    let a = p.subrange(0, m as int);
    let b = p.subrange(m as int, p.len() as int);
    assert(p =~= a + b);
    crate::digits::lemma_be_append(a, b);
    assert(all_digits(b)) by {
        assert forall|i: int| 0 <= i < b.len() implies #[trigger] b[i] <= 9 by {
            assert(b[i] == p[i + m]);
        }
    }
    lemma_be_bound(b);
    lemma_pow10_pos(b.len());
    crate::digits::lemma_val_zero_all_zero(a);
    if all_zero(a) {
        crate::digits::lemma_all_zero_val(a);
        assert(be_val(a) * pow10(b.len()) == 0);
    } else {
        assert(be_val(a) * pow10(b.len()) >= pow10(b.len())) by (nonlinear_arith)
            requires
                be_val(a) >= 1,
        ;
    }
}

/// The "too small" rule on canonical digits at scale `sc` refuses exactly
/// the values below `10^-6`.
proof fn lemma_too_small_value(d: Seq<u8>, sc: nat)
    requires
        be_canonical(d),
    ensures
        too_small(d, sc) <==> be_val(d) * pow10(6) < pow10(sc),
{
    let p = pad_front(d, sc + 1);
    lemma_pad_digits(d, sc + 1);
    if d.len() < sc + 1 {
        let k = (sc + 1 - d.len()) as nat;
        crate::digits::lemma_be_append(zeros(k), d);
        crate::digits::lemma_be_zeros(k);
    }
    assert(be_val(p) == be_val(d));
    let m: nat = if p.len() < 7 {
        p.len()
    } else {
        7
    };
    lemma_zero_prefix(p, m);
    lemma_pow10_pos(sc);
    if d == seq![0u8] {
        lemma_be_single(0);
        assert(0 * pow10(6) == 0);
    } else {
        if d[0] == 0 {
            assert(d.len() == 1);
            assert(d =~= seq![0u8]);
        }
        crate::digits::lemma_be_lower_bound(d);
        lemma_pow10_pos((d.len() - 1) as nat);
        let v = be_val(d);
        if p.len() > sc + 1 {
            assert(p == d);
            assert(p.subrange(0, m as int)[0] != 0);
            assert(!all_zero(p.subrange(0, m as int)));
            lemma_pow10_add((d.len() - 1) as nat, 6);
            crate::digits::lemma_pow10_mono(sc, (d.len() - 1 + 6) as nat);
            assert(v * pow10(6) >= pow10((d.len() - 1) as nat) * pow10(6)) by (nonlinear_arith)
                requires
                    v >= pow10((d.len() - 1) as nat),
            ;
        } else if sc + 1 >= 7 {
            let e = (sc - 6) as nat;
            assert((p.len() - m) as nat == e);
            lemma_pow10_add(e, 6);
            lemma_pow10_pos(6);
            assert(v < pow10(e) <==> v * pow10(6) < pow10(e) * pow10(6)) by (nonlinear_arith)
                requires
                    pow10(6) >= 1,
            ;
        } else {
            assert(pow10(0) == 1);
            assert((p.len() - m) as nat == 0);
            crate::digits::lemma_pow10_mono(sc, 5);
            assert(pow10(6) == 10 * pow10(5));
            assert(v * pow10(6) >= pow10(6)) by (nonlinear_arith)
                requires
                    v >= 1,
                    pow10(6) >= 1,
            ;
        }
    }
}

/// Division refuses a divisor exactly when it is zero or its magnitude is
/// below `10^-6` (seven zero digits before its first significant one); any
/// divisor of magnitude at least `10^-6`, such as `0.5`, is accepted.
pub proof fn law_divisor_refused_below_millionth(b: BigDecimal)
    requires
        b.wf(),
    ensures
        divisor_ok(b) <==> b.ops_mag() * pow10(6) >= pow10(b.ops_scale()),
{
    if b.scale < 0 {
        let k = (-b.scale) as nat;
        lemma_shifted_val(b.digits@, k);
        lemma_trim_lz(shifted(b.digits@, k));
    }
    lemma_too_small_value(b.ops_digits(), b.ops_scale());
}

/// `scan` reads only the first `k` characters.
proof fn lemma_scan_prefix(x: Seq<char>, y: Seq<char>, k: nat)
    requires
        k <= x.len(),
        k <= y.len(),
        x.subrange(0, k as int) == y.subrange(0, k as int),
    ensures
        scan(x, k) == scan(y, k),
    decreases k,
{
    if k > 0 {
        assert(x.subrange(0, k - 1) =~= x.subrange(0, k as int).subrange(0, k - 1));
        assert(y.subrange(0, k - 1) =~= y.subrange(0, k as int).subrange(0, k - 1));
        lemma_scan_prefix(x, y, (k - 1) as nat);
        assert(x[k - 1] == x.subrange(0, k as int)[k - 1]);
        assert(y[k - 1] == y.subrange(0, k as int)[k - 1]);
    }
}

proof fn lemma_scan_after_comma(body: Seq<char>, k: int, m: nat)
    requires
        0 <= k,
        k + m <= body.len(),
        scan(body.insert(k, ','), (k + 1) as nat) == scan(body, k as nat),
    ensures
        scan(body.insert(k, ','), (k + 1 + m) as nat) == scan(body, (k + m) as nat),
    decreases m,
{
    if m > 0 {
        lemma_scan_after_comma(body, k, (m - 1) as nat);
        let b2 = body.insert(k, ',');
        assert(b2[k + m] == body[k + m - 1]);
        assert(((k + 1 + m) as nat - 1) as nat == (k + 1 + m - 1) as nat);
        assert(((k + m) as nat - 1) as nat == (k + m - 1) as nat);
    }
}

/// Commas are ignored wherever they stand in a number's body: inserting one
/// leaves the scan unchanged.
pub proof fn law_scan_ignores_commas(body: Seq<char>, k: int)
    requires
        0 <= k <= body.len(),
    ensures
        scan(body.insert(k, ','), body.len() + 1) == scan(body, body.len()),
{
    let b2 = body.insert(k, ',');
    assert(b2.subrange(0, k) =~= body.subrange(0, k));
    lemma_scan_prefix(b2, body, k as nat);
    assert(b2[k] == ',');
    assert(((k + 1) as nat - 1) as nat == k as nat);
    lemma_scan_after_comma(body, k, (body.len() - k) as nat);
}

/// A text that trims to itself starts and ends with characters that are not
/// white space.
pub proof fn lemma_trimmed_ends(s: Seq<char>)
    requires
        s.len() > 0,
        trim(s) == s,
    ensures
        !crate::text::is_white_space(s[0]),
        !crate::text::is_white_space(s.last()),
{
    lemma_trim_start_len(s);
    if crate::text::is_white_space(s[0]) {
        lemma_trim_start_len(s.drop_first());
        lemma_trim_end_len(crate::text::trim_start(s));
        assert(false);
    }
    assert(crate::text::trim_start(s) == s);
    if crate::text::is_white_space(s.last()) {
        lemma_trim_end_len(s.drop_last());
        assert(false);
    }
}

/// A text whose first and last characters are not white space trims to
/// itself.
pub proof fn lemma_trim_ends(s: Seq<char>)
    requires
        s.len() > 0,
        !crate::text::is_white_space(s[0]),
        !crate::text::is_white_space(s.last()),
    ensures
        trim(s) == s,
{
    assert(crate::text::trim_start(s) == s);
}

/// Inserting a comma into a trimmed number text (after its sign) keeps the
/// text trimmed, keeps its sign, and inserts the comma into the body.
pub proof fn lemma_comma_body(s: Seq<char>, k: int)
    requires
        trim(s) == s,
        s.len() > 0,
        0 <= k <= s.len(),
        s[0] == '-' || s[0] == '+' ==> k >= 1,
    ensures
        ({
            let t = s.insert(k, ',');
            let st: int = if s[0] == '-' || s[0] == '+' {
                1
            } else {
                0
            };
            &&& trim(t) == t
            &&& (t[0] == '-') == (s[0] == '-')
            &&& (t[0] == '-' || t[0] == '+') == (s[0] == '-' || s[0] == '+')
            &&& t.subrange(st, t.len() as int) == s.subrange(st, s.len() as int).insert(k - st, ',')
        }),
{
    let t = s.insert(k, ',');
    lemma_trimmed_ends(s);
    if k == 0 {
        assert(t[0] == ',');
    } else {
        assert(t[0] == s[0]);
    }
    if k == s.len() {
        assert(t.last() == ',');
    } else {
        assert(t.last() == s.last());
    }
    lemma_trim_ends(t);
    let st: int = if s[0] == '-' || s[0] == '+' {
        1
    } else {
        0
    };
    assert(t.subrange(st, t.len() as int) =~= s.subrange(st, s.len() as int).insert(k - st, ','));
}

/// Commas are ignored: inserting one anywhere after the sign of a trimmed
/// text does not change what it parses to.
pub proof fn law_parse_ignores_commas(s: Seq<char>, k: int)
    requires
        trim(s) == s,
        s.len() > 0,
        0 <= k <= s.len(),
        s[0] == '-' || s[0] == '+' ==> k >= 1,
    ensures
        parse_spec(s.insert(k, ',')) == parse_spec(s),
{
    lemma_comma_body(s, k);
    let st: int = if s[0] == '-' || s[0] == '+' {
        1
    } else {
        0
    };
    let body = s.subrange(st, s.len() as int);
    law_scan_ignores_commas(body, k - st);
    if st == 1 {
        assert(s.drop_first() =~= body);
        assert(s.insert(k, ',').drop_first() =~= body.insert(k - st, ','));
    } else {
        assert(s =~= body);
        assert(s.insert(k, ',') =~= body.insert(k - st, ','));
    }
}

/// The answers of this calculator, as a function.
pub open spec fn legacy_answers() -> spec_fn(char, Seq<char>, Seq<char>) -> Seq<char> {
    |op: char, l: Seq<char>, r: Seq<char>| answer_text(op, l, r)
}

/// The transcript of a batch session on `input` (see `session_text`): the
/// count, then operator and operand words, each answer on its own line.
/// Every word holds at most the 2^28 characters that `compute_output`
/// accepts, and of the two operands of a product one is short enough for the
/// `u32` digit accumulators (`mul_len_ok`).
#[verifier::rlimit(50)]
pub fn session_output(input: &str) -> (out: String)
    requires
        forall|i: int|
            0 <= i < words(input@).len() ==> #[trigger] words(input@)[i].len() <= 0x1000_0000,
        forall|i: int|
            1 <= i && i + 2 < words(input@).len() && (i - 1) % 3 == 0 && #[trigger] words(
                input@,
            )[i][0] == '*' ==> mul_len_ok(words(input@)[i + 1].len()) || mul_len_ok(
                words(input@)[i + 2].len(),
            ),
    ensures
        out@ == session_text(input@, legacy_answers()),
{
    let chars = chars_of(input);
    let ws = split_words(&chars);
    let ghost wv = word_views(ws@);
    proof {
        lemma_words_shape(input@);
    }
    let mut out = "请输入数据数目：".to_owned();
    if ws.len() == 0 {
        proof {
            assert(out@ =~= session_text(input@, legacy_answers()));
        }
        return out;
    }
    let n: usize = match parse_usize(&ws[0]) {
        Some(v) => v,
        None => 0,
    };
    let mut idx: usize = 1;
    let mut k: usize = 0;
    proof {
        assert(wv[0] == ws@[0]@);
        assert(n as nat == count_of(wv[0]));
        assert(wv.subrange(1, wv.len() as int) =~= wv.drop_first());
    }
    while k < n
        invariant
            wv == words(input@),
            wv == word_views(ws@),
            forall|i: int| 0 <= i < wv.len() ==> 1 <= #[trigger] wv[i].len() <= 0x1000_0000,
            forall|i: int|
                1 <= i && i + 2 < wv.len() && (i - 1) % 3 == 0 && #[trigger] wv[i][0] == '*'
                    ==> mul_len_ok(wv[i + 1].len()) || mul_len_ok(wv[i + 2].len()),
            idx == 1 + 3 * k,
            1 <= idx <= ws@.len(),
            k <= n,
            session_text(input@, legacy_answers()) == out@ + records_text(
                wv.subrange(idx as int, wv.len() as int),
                (n - k) as nat,
                legacy_answers(),
            ),
        decreases n - k,
    {
        let ghost rest = wv.subrange(idx as int, wv.len() as int);
        push_str(&mut out, "请输入操作符：");
        if idx >= ws.len() {
            proof {
                assert(rest.len() == 0);
            }
            return out;
        }
        push_str(&mut out, "左操作数：");
        if idx + 1 >= ws.len() {
            proof {
                assert(rest.len() == 1);
            }
            return out;
        }
        push_str(&mut out, "右操作数：");
        if idx + 2 >= ws.len() {
            proof {
                assert(rest.len() == 2);
            }
            return out;
        }
        proof {
            assert(wv[idx as int] == ws@[idx as int]@);
            assert(wv[idx as int].len() >= 1);
        }
        let op = ws[idx][0];
        let left = string_of(&ws[idx + 1]);
        let right = string_of(&ws[idx + 2]);
        proof {
            assert(left@ == wv[idx + 1]);
            assert(right@ == wv[idx + 2]);
        }
        let answer = compute_output(op, left.as_str(), right.as_str());
        let ghost before = out@;
        push_str(&mut out, answer.as_str());
        push_char(&mut out, '\n');
        proof {
            assert(rest[0][0] == op);
            assert(rest[1] == left@);
            assert(rest[2] == right@);
            assert(rest.subrange(3, rest.len() as int) =~= wv.subrange(idx + 3, wv.len() as int));
            assert((legacy_answers())(op, left@, right@) == answer@);
            crate::text::lemma_records_step(rest, (n - k) as nat, legacy_answers());
            assert(out@ == before + answer@ + seq!['\n']);
        }
        idx = idx + 3;
        k = k + 1;
    }
    proof {
        assert(out@ + Seq::<char>::empty() =~= out@);
    }
    out
}

/// The text of an error.
pub open spec fn error_text(e: Error) -> Seq<char> {
    match e {
        Error::Empty => "input is empty"@,
        Error::InvalidChar(c) => "invalid character: "@.push(c),
        Error::MultipleDecimalPoints => "multiple decimal points"@,
        Error::NoDigits => "input contains no digits"@,
        Error::DivisionByZeroOrTooSmall => "division by zero or too small"@,
    }
}

impl Error {
    /// The text of the error (see `error_text`).
    pub fn message(&self) -> (s: String)
        ensures
            s@ == error_text(*self),
    {
        match self {
            Error::Empty => "input is empty".to_owned(),
            Error::InvalidChar(c) => {
                let mut s = "invalid character: ".to_owned();
                push_char(&mut s, *c);
                s
            },
            Error::MultipleDecimalPoints => "multiple decimal points".to_owned(),
            Error::NoDigits => "input contains no digits".to_owned(),
            Error::DivisionByZeroOrTooSmall => "division by zero or too small".to_owned(),
        }
    }
}

} // verus!
