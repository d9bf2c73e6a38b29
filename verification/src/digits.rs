//! The mathematical model shared by the three decimal types: powers of ten,
//! the value of a sequence of decimal digits read big-endian or little-endian,
//! and the facts about those values that the digit algorithms rest on.
use vstd::prelude::*;

verus! {

/// `10^n`.
pub open spec fn pow10(n: nat) -> nat
    decreases n,
{
    if n == 0 {
        1
    } else {
        10 * pow10((n - 1) as nat)
    }
}

/// Every entry is a decimal digit.
pub open spec fn all_digits(s: Seq<u8>) -> bool {
    forall|i: int| 0 <= i < s.len() ==> #[trigger] s[i] <= 9
}

/// Every entry is zero.
pub open spec fn all_zero(s: Seq<u8>) -> bool {
    forall|i: int| 0 <= i < s.len() ==> #[trigger] s[i] == 0
}

/// `n` zero digits.
pub open spec fn zeros(n: nat) -> Seq<u8> {
    Seq::new(n, |i: int| 0u8)
}

/// The value of a digit sequence written most significant digit first.
pub open spec fn be_val(s: Seq<u8>) -> nat
    decreases s.len(),
{
    if s.len() == 0 {
        0
    } else {
        be_val(s.drop_last()) * 10 + s.last() as nat
    }
}

/// The value of a digit sequence written least significant digit first.
pub open spec fn le_val(s: Seq<u8>) -> nat
    decreases s.len(),
{
    if s.len() == 0 {
        0
    } else {
        le_val(s.drop_last()) + s.last() as nat * pow10((s.len() - 1) as nat)
    }
}

/// The sequence in the opposite order.
pub open spec fn rev(s: Seq<u8>) -> Seq<u8> {
    Seq::new(s.len(), |i: int| s[s.len() - 1 - i])
}

/// The first `n` entries of `s`, padded with zeros where `s` is shorter.
pub open spec fn lz(s: Seq<u8>, n: nat) -> Seq<u8> {
    Seq::new(n, |i: int| if i < s.len() { s[i] } else { 0u8 })
}

/// Entry `i` of `s`, or zero past its end.
pub open spec fn at(s: Seq<u8>, i: int) -> u8 {
    if 0 <= i < s.len() {
        s[i]
    } else {
        0
    }
}

/// A big-endian digit sequence with no leading zero, except the single `0`.
pub open spec fn be_canonical(s: Seq<u8>) -> bool {
    &&& s.len() >= 1
    &&& all_digits(s)
    &&& (s.len() > 1 ==> s[0] != 0)
}

/// A little-endian digit sequence with no leading zero, except the single `0`.
pub open spec fn le_canonical(s: Seq<u8>) -> bool {
    &&& s.len() >= 1
    &&& all_digits(s)
    &&& (s.len() > 1 ==> s.last() != 0)
}

pub proof fn lemma_pow10_pos(n: nat)
    ensures
        pow10(n) >= 1,
    decreases n,
{
    if n > 0 {
        lemma_pow10_pos((n - 1) as nat);
    }
}

pub proof fn lemma_pow10_add(a: nat, b: nat)
    ensures
        pow10(a + b) == pow10(a) * pow10(b),
    decreases a,
{
    if a > 0 {
        lemma_pow10_add((a - 1) as nat, b);
        assert((a + b - 1) as nat == (a - 1 + b) as nat);
        assert(pow10(a + b) == 10 * pow10((a + b - 1) as nat));
        assert(pow10(a) == 10 * pow10((a - 1) as nat));
        assert(10 * (pow10((a - 1) as nat) * pow10(b)) == (10 * pow10((a - 1) as nat)) * pow10(b))
            by (nonlinear_arith);
    } else {
        assert(pow10(0) == 1);
        assert(a + b == b);
    }
}

pub proof fn lemma_pow10_mono(a: nat, b: nat)
    requires
        a <= b,
    ensures
        pow10(a) <= pow10(b),
    decreases b,
{
    if a < b {
        lemma_pow10_mono(a, (b - 1) as nat);
        lemma_pow10_pos((b - 1) as nat);
    }
}

pub proof fn lemma_be_push(s: Seq<u8>, d: u8)
    ensures
        be_val(s.push(d)) == be_val(s) * 10 + d as nat,
{
    assert(s.push(d).drop_last() =~= s);
}

pub proof fn lemma_le_push(s: Seq<u8>, d: u8)
    ensures
        le_val(s.push(d)) == le_val(s) + d as nat * pow10(s.len()),
{
    assert(s.push(d).drop_last() =~= s);
}

pub proof fn lemma_be_bound(s: Seq<u8>)
    requires
        all_digits(s),
    ensures
        be_val(s) < pow10(s.len()),
    decreases s.len(),
{
    if s.len() > 0 {
        let t = s.drop_last();
        assert(all_digits(t));
        lemma_be_bound(t);
        assert(s.last() <= 9);
    }
}

pub proof fn lemma_le_bound(s: Seq<u8>)
    requires
        all_digits(s),
    ensures
        le_val(s) < pow10(s.len()),
    decreases s.len(),
{
    if s.len() > 0 {
        let t = s.drop_last();
        assert(all_digits(t));
        lemma_le_bound(t);
        let p = pow10(t.len());
        let d = s.last() as nat;
        assert(d <= 9);
        assert(le_val(t) + d * p < 10 * p) by (nonlinear_arith)
            requires
                le_val(t) < p,
                d <= 9,
        ;
    }
}

pub proof fn lemma_be_append(a: Seq<u8>, b: Seq<u8>)
    ensures
        be_val(a + b) == be_val(a) * pow10(b.len()) + be_val(b),
    decreases b.len(),
{
    if b.len() == 0 {
        assert(a + b =~= a);
        assert(pow10(0) == 1);
    } else {
        let b1 = b.drop_last();
        lemma_be_append(a, b1);
        assert((a + b).drop_last() =~= a + b1);
        assert((a + b).last() == b.last());
        assert(be_val(a + b) == be_val(a + b1) * 10 + b.last() as nat);
        assert(pow10(b.len()) == 10 * pow10(b1.len()));
        let x = be_val(a);
        let p = pow10(b1.len());
        assert((x * p + be_val(b1)) * 10 + b.last() as nat == x * (10 * p) + (be_val(b1) * 10
            + b.last() as nat)) by (nonlinear_arith);
    }
}

pub proof fn lemma_le_append(a: Seq<u8>, b: Seq<u8>)
    ensures
        le_val(a + b) == le_val(a) + pow10(a.len()) * le_val(b),
    decreases b.len(),
{
    if b.len() == 0 {
        assert(a + b =~= a);
        assert(le_val(b) == 0);
        assert(pow10(a.len()) * 0 == 0);
    } else {
        let b1 = b.drop_last();
        let ab = a + b;
        lemma_le_append(a, b1);
        assert(ab.drop_last() =~= a + b1);
        let d = b.last() as nat;
        assert(ab.last() as nat == d);
        let n1 = (ab.len() - 1) as nat;
        assert(n1 == a.len() + b1.len());
        assert(le_val(ab) == le_val(a + b1) + d * pow10(n1));
        assert(le_val(b) == le_val(b1) + d * pow10(b1.len()));
        lemma_pow10_add(a.len(), b1.len());
        let pa = pow10(a.len());
        let pb = pow10(b1.len());
        assert(pow10(n1) == pa * pb);
        assert(pa * le_val(b1) + d * (pa * pb) == pa * (le_val(b1) + d * pb)) by (nonlinear_arith);
    }
}

pub proof fn lemma_be_zeros(n: nat)
    ensures
        be_val(zeros(n)) == 0,
    decreases n,
{
    if n > 0 {
        assert(zeros(n).drop_last() =~= zeros((n - 1) as nat));
        lemma_be_zeros((n - 1) as nat);
    }
}

pub proof fn lemma_le_zeros(n: nat)
    ensures
        le_val(zeros(n)) == 0,
    decreases n,
{
    if n > 0 {
        assert(zeros(n).drop_last() =~= zeros((n - 1) as nat));
        lemma_le_zeros((n - 1) as nat);
    }
}

/// A sequence of zeros has value zero, whatever its order.
pub proof fn lemma_all_zero_val(s: Seq<u8>)
    requires
        all_zero(s),
    ensures
        be_val(s) == 0,
        le_val(s) == 0,
{
    assert(s =~= zeros(s.len()));
    lemma_be_zeros(s.len());
    lemma_le_zeros(s.len());
}

/// Zero values only come from all-zero sequences.
pub proof fn lemma_val_zero_all_zero(s: Seq<u8>)
    ensures
        be_val(s) == 0 ==> all_zero(s),
        le_val(s) == 0 ==> all_zero(s),
    decreases s.len(),
{
    if s.len() > 0 {
        let t = s.drop_last();
        lemma_val_zero_all_zero(t);
        lemma_pow10_pos((s.len() - 1) as nat);
        if le_val(s) == 0 {
            assert(s.last() as nat * pow10((s.len() - 1) as nat) == 0);
            assert(s.last() == 0) by (nonlinear_arith)
                requires
                    s.last() as nat * pow10((s.len() - 1) as nat) == 0,
                    pow10((s.len() - 1) as nat) >= 1,
            ;
            assert forall|i: int| 0 <= i < s.len() implies #[trigger] s[i] == 0 by {
                if i < s.len() - 1 {
                    assert(t[i] == s[i]);
                }
            }
        }
        if be_val(s) == 0 {
            assert forall|i: int| 0 <= i < s.len() implies #[trigger] s[i] == 0 by {
                if i < s.len() - 1 {
                    assert(t[i] == s[i]);
                }
            }
        }
    }
}

/// Leading zeros do not change a big-endian value.
pub proof fn lemma_be_leading_zeros(s: Seq<u8>, k: int)
    requires
        0 <= k <= s.len(),
        all_zero(s.subrange(0, k)),
    ensures
        be_val(s) == be_val(s.subrange(k, s.len() as int)),
{
    let a = s.subrange(0, k);
    let b = s.subrange(k, s.len() as int);
    assert(s =~= a + b);
    lemma_be_append(a, b);
    lemma_all_zero_val(a);
}

/// Trailing (high) zeros do not change a little-endian value.
pub proof fn lemma_le_high_zeros(s: Seq<u8>, k: int)
    requires
        0 <= k <= s.len(),
        all_zero(s.subrange(k, s.len() as int)),
    ensures
        le_val(s) == le_val(s.subrange(0, k)),
{
    let a = s.subrange(0, k);
    let b = s.subrange(k, s.len() as int);
    assert(s =~= a + b);
    lemma_le_append(a, b);
    lemma_all_zero_val(b);
}

pub proof fn lemma_le_single(d: u8)
    ensures
        le_val(seq![d]) == d as nat,
{
    let t = seq![d];
    assert(t.drop_last() =~= Seq::<u8>::empty());
    assert(le_val(t.drop_last()) == 0);
    assert(t.last() == d);
    assert(pow10(0) == 1);
    assert(le_val(t) == le_val(t.drop_last()) + t.last() as nat * pow10(0));
}

pub proof fn lemma_be_single(d: u8)
    ensures
        be_val(seq![d]) == d as nat,
{
    let t = seq![d];
    assert(t.drop_last() =~= Seq::<u8>::empty());
    assert(be_val(t.drop_last()) == 0);
    assert(t.last() == d);
}

/// The little-endian value split at its lowest digit.
pub proof fn lemma_le_first(s: Seq<u8>)
    requires
        s.len() > 0,
    ensures
        le_val(s) == s[0] as nat + 10 * le_val(s.drop_first()),
{
    let a = s.subrange(0, 1);
    assert(s =~= a + s.drop_first());
    lemma_le_append(a, s.drop_first());
    assert(a =~= seq![s[0]]);
    lemma_le_single(s[0]);
    assert(pow10(1) == 10) by {
        reveal_with_fuel(pow10, 2);
    }
}

/// A big-endian value is the little-endian value of the reversed sequence.
pub proof fn lemma_be_rev(s: Seq<u8>)
    ensures
        be_val(s) == le_val(rev(s)),
    decreases s.len(),
{
    if s.len() > 0 {
        let t = s.drop_last();
        lemma_be_rev(t);
        let r = rev(s);
        assert(r.drop_first() =~= rev(t));
        lemma_le_first(r);
    }
}

pub proof fn lemma_rev_rev(s: Seq<u8>)
    ensures
        rev(rev(s)) == s,
{
    assert(rev(rev(s)) =~= s);
}

/// Changing entry `p` of a little-endian sequence changes its value by the
/// difference at weight `10^p`.
pub proof fn lemma_le_update(s: Seq<u8>, p: int, v: u8)
    requires
        0 <= p < s.len(),
    ensures
        le_val(s.update(p, v)) + s[p] as nat * pow10(p as nat) == le_val(s) + v as nat * pow10(
            p as nat,
        ),
{
    let a = s.subrange(0, p);
    let b = s.subrange(p + 1, s.len() as int);
    let sv = seq![s[p]];
    let nv = seq![v];
    assert(s =~= a + sv + b);
    assert(s.update(p, v) =~= a + nv + b);
    lemma_le_append(a + sv, b);
    lemma_le_append(a + nv, b);
    lemma_le_append(a, sv);
    lemma_le_append(a, nv);
    assert(sv.drop_last() =~= Seq::<u8>::empty());
    assert(nv.drop_last() =~= Seq::<u8>::empty());
    lemma_le_single(s[p]);
    lemma_le_single(v);
    assert((a + sv).len() == p + 1);
    assert((a + nv).len() == p + 1);
    assert(a.len() == p);
    let w = pow10(p as nat);
    let hi = pow10((p + 1) as nat) * le_val(b);
    assert(le_val(s) == le_val(a) + w * s[p] as nat + hi);
    assert(le_val(s.update(p, v)) == le_val(a) + w * v as nat + hi);
    assert(w * s[p] as nat == s[p] as nat * w) by (nonlinear_arith);
    assert(w * v as nat == v as nat * w) by (nonlinear_arith);
    assert(le_val(sv) == s[p] as nat);
    assert(le_val(nv) == v as nat);
}

/// Padding or cutting a little-endian sequence one step further.
pub proof fn lemma_lz_step(s: Seq<u8>, n: nat)
    ensures
        lz(s, n + 1) == lz(s, n).push(at(s, n as int)),
        le_val(lz(s, n + 1)) == le_val(lz(s, n)) + at(s, n as int) as nat * pow10(n),
{
    assert(lz(s, n + 1) =~= lz(s, n).push(at(s, n as int)));
    lemma_le_push(lz(s, n), at(s, n as int));
}

/// Padding with zeros keeps the little-endian value.
pub proof fn lemma_lz_full(s: Seq<u8>, n: nat)
    requires
        n >= s.len(),
    ensures
        le_val(lz(s, n)) == le_val(s),
{
    let p = lz(s, n);
    assert(p.subrange(0, s.len() as int) =~= s);
    lemma_le_high_zeros(p, s.len() as int);
}

/// Two canonical big-endian sequences with the same value are equal.
pub proof fn lemma_be_canonical_unique(a: Seq<u8>, b: Seq<u8>)
    requires
        be_canonical(a),
        be_canonical(b),
        be_val(a) == be_val(b),
    ensures
        a == b,
    decreases a.len(),
{
    lemma_be_rev(a);
    lemma_be_rev(b);
    lemma_le_canonical_unique_aux(rev(a), rev(b));
    lemma_rev_rev(a);
    lemma_rev_rev(b);
}

proof fn lemma_le_canonical_unique_aux(a: Seq<u8>, b: Seq<u8>)
    requires
        a.len() >= 1,
        b.len() >= 1,
        all_digits(a),
        all_digits(b),
        a.len() > 1 ==> a.last() != 0,
        b.len() > 1 ==> b.last() != 0,
        le_val(a) == le_val(b),
    ensures
        a == b,
    decreases a.len(),
{
    lemma_le_first(a);
    lemma_le_first(b);
    let ta = a.drop_first();
    let tb = b.drop_first();
    lemma_le_bound(ta);
    lemma_le_bound(tb);
    assert(all_digits(ta));
    assert(all_digits(tb));
    assert(a[0] == b[0] && le_val(ta) == le_val(tb)) by (nonlinear_arith)
        requires
            a[0] as nat + 10 * le_val(ta) == b[0] as nat + 10 * le_val(tb),
            a[0] <= 9,
            b[0] <= 9,
    ;
    if a.len() == 1 && b.len() == 1 {
        assert(a =~= b);
    } else if a.len() == 1 {
        lemma_val_zero_all_zero(tb);
        assert(tb[tb.len() - 1] == b.last());
    } else if b.len() == 1 {
        lemma_val_zero_all_zero(ta);
        assert(ta[ta.len() - 1] == a.last());
    } else {
        lemma_le_canonical_unique_aux(ta, tb);
        assert(a.len() == b.len());
        assert forall|i: int| 0 <= i < a.len() implies a[i] == b[i] by {
            if i > 0 {
                assert(a[i] == ta[i - 1]);
                assert(b[i] == tb[i - 1]);
            }
        }
        assert(a =~= b);
    }
}

/// Two canonical little-endian sequences with the same value are equal.
pub proof fn lemma_le_canonical_unique(a: Seq<u8>, b: Seq<u8>)
    requires
        le_canonical(a),
        le_canonical(b),
        le_val(a) == le_val(b),
    ensures
        a == b,
{
    lemma_le_canonical_unique_aux(a, b);
}

/// One step of a carried digit sum: the digit kept and the carry together
/// weigh what the sum weighs.
pub proof fn lemma_carry_step(s: nat, p: nat)
    ensures
        (s % 10) * p + (s / 10) * (10 * p) == s * p,
{
    assert((s % 10) * p + (s / 10) * (10 * p) == ((s % 10) + 10 * (s / 10)) * p)
        by (nonlinear_arith);
}

/// `s` with its leading zeros removed, keeping at least one digit.
pub open spec fn trim_lz(s: Seq<u8>) -> Seq<u8>
    decreases s.len(),
{
    if s.len() > 1 && s[0] == 0 {
        trim_lz(s.drop_first())
    } else {
        s
    }
}

pub proof fn lemma_trim_lz(s: Seq<u8>)
    ensures
        be_val(trim_lz(s)) == be_val(s),
        trim_lz(s).len() <= s.len(),
        s.len() >= 1 ==> trim_lz(s).len() >= 1,
        all_digits(s) && s.len() >= 1 ==> be_canonical(trim_lz(s)),
        s.len() == 0 ==> trim_lz(s).len() == 0,
        be_canonical(s) ==> trim_lz(s) == s,
    decreases s.len(),
{
    if s.len() > 1 && s[0] == 0 {
        let t = s.drop_first();
        lemma_trim_lz(t);
        assert(s.subrange(1, s.len() as int) =~= t);
        assert(all_zero(s.subrange(0, 1)));
        lemma_be_leading_zeros(s, 1);
        if all_digits(s) {
            assert(all_digits(t));
        }
    }
}

/// A canonical sequence that starts with a non-zero digit weighs at least
/// `10^(len-1)`.
pub proof fn lemma_be_lower_bound(s: Seq<u8>)
    requires
        s.len() >= 1,
        s[0] >= 1,
    ensures
        be_val(s) >= pow10((s.len() - 1) as nat),
{
    let a = s.subrange(0, 1);
    let b = s.subrange(1, s.len() as int);
    assert(s =~= a + b);
    lemma_be_append(a, b);
    assert(a =~= seq![s[0]]);
    lemma_be_single(s[0]);
    lemma_pow10_pos(b.len());
    assert(be_val(a) * pow10(b.len()) >= pow10(b.len())) by (nonlinear_arith)
        requires
            be_val(a) >= 1,
    ;
}

/// Among canonical sequences the shorter one has the smaller value.
pub proof fn lemma_be_canonical_len(a: Seq<u8>, b: Seq<u8>)
    requires
        be_canonical(a),
        be_canonical(b),
        a.len() < b.len(),
    ensures
        be_val(a) < be_val(b),
{
    lemma_be_bound(a);
    lemma_be_lower_bound(b);
    lemma_pow10_mono(a.len(), (b.len() - 1) as nat);
}

/// Same-length sequences that agree up to `i` and differ there are ordered by
/// that digit.
pub proof fn lemma_be_lex(a: Seq<u8>, b: Seq<u8>, i: int)
    requires
        a.len() == b.len(),
        0 <= i < a.len(),
        all_digits(a),
        all_digits(b),
        a.subrange(0, i) == b.subrange(0, i),
        a[i] < b[i],
    ensures
        be_val(a) < be_val(b),
{
    let n = a.len() as int;
    let ha = a.subrange(0, i + 1);
    let hb = b.subrange(0, i + 1);
    let ta = a.subrange(i + 1, n);
    let tb = b.subrange(i + 1, n);
    assert(a =~= ha + ta);
    assert(b =~= hb + tb);
    lemma_be_append(ha, ta);
    lemma_be_append(hb, tb);
    assert(ha.drop_last() =~= a.subrange(0, i));
    assert(hb.drop_last() =~= b.subrange(0, i));
    assert(all_digits(ta));
    lemma_be_bound(ta);
    let p = pow10(ta.len());
    let v = be_val(a.subrange(0, i));
    assert(be_val(ha) == v * 10 + a[i] as nat);
    assert(be_val(hb) == v * 10 + b[i] as nat);
    assert((v * 10 + a[i] as nat) * p + be_val(ta) < (v * 10 + b[i] as nat) * p + be_val(tb))
        by (nonlinear_arith)
        requires
            be_val(ta) < p,
            a[i] < b[i],
    ;
}

/// A copy of `v`.
pub fn copy_digits(v: &Vec<u8>) -> (r: Vec<u8>)
    ensures
        r@ == v@,
{
    let mut r: Vec<u8> = Vec::new();
    let mut i: usize = 0;
    while i < v.len()
        invariant
            i <= v@.len(),
            r@ == v@.subrange(0, i as int),
        decreases v@.len() - i,
    {
        r.push(v[i]);
        i = i + 1;
        assert(r@ =~= v@.subrange(0, i as int));
    }
    assert(r@ =~= v@);
    r
}

/// The digits of `v` in the opposite order.
pub fn reversed(v: &Vec<u8>) -> (r: Vec<u8>)
    ensures
        r@ == rev(v@),
{
    let n = v.len();
    let mut r: Vec<u8> = Vec::new();
    let mut i: usize = 0;
    while i < n
        invariant
            n == v@.len(),
            i <= n,
            r@ == rev(v@).subrange(0, i as int),
        decreases n - i,
    {
        r.push(v[n - 1 - i]);
        i = i + 1;
        assert(r@ =~= rev(v@).subrange(0, i as int));
    }
    assert(r@ =~= rev(v@));
    r
}

/// The big-endian value of a sequence of wide cells, each weighing ten
/// times its right neighbour whatever its size.
pub open spec fn be_wide(s: Seq<u32>) -> nat
    decreases s.len(),
{
    if s.len() == 0 {
        0
    } else {
        be_wide(s.drop_last()) * 10 + s.last() as nat
    }
}

pub proof fn lemma_wide_append(a: Seq<u32>, b: Seq<u32>)
    ensures
        be_wide(a + b) == be_wide(a) * pow10(b.len()) + be_wide(b),
    decreases b.len(),
{
    if b.len() == 0 {
        assert(a + b =~= a);
        assert(pow10(0) == 1);
    } else {
        let b1 = b.drop_last();
        lemma_wide_append(a, b1);
        assert((a + b).drop_last() =~= a + b1);
        assert((a + b).last() == b.last());
        assert(be_wide(a + b) == be_wide(a + b1) * 10 + b.last() as nat);
        assert(pow10(b.len()) == 10 * pow10(b1.len()));
        let x = be_wide(a);
        let p = pow10(b1.len());
        assert((x * p + be_wide(b1)) * 10 + b.last() as nat == x * (10 * p) + (be_wide(b1) * 10
            + b.last() as nat)) by (nonlinear_arith);
    }
}

pub proof fn lemma_wide_single(v: u32)
    ensures
        be_wide(seq![v]) == v as nat,
{
    let t = seq![v];
    assert(t.drop_last() =~= Seq::<u32>::empty());
    assert(be_wide(t.drop_last()) == 0);
    assert(t.last() == v);
}

/// Changing cell `p` changes the value by the difference at the cell's weight.
pub proof fn lemma_wide_update(s: Seq<u32>, p: int, v: u32)
    requires
        0 <= p < s.len(),
    ensures
        be_wide(s.update(p, v)) + s[p] as nat * pow10((s.len() - 1 - p) as nat) == be_wide(s)
            + v as nat * pow10((s.len() - 1 - p) as nat),
{
    let a = s.subrange(0, p);
    let b = s.subrange(p + 1, s.len() as int);
    let sv = seq![s[p]];
    let nv = seq![v];
    assert(s =~= a + sv + b);
    assert(s.update(p, v) =~= a + nv + b);
    lemma_wide_append(a + sv, b);
    lemma_wide_append(a + nv, b);
    lemma_wide_append(a, sv);
    lemma_wide_append(a, nv);
    lemma_wide_single(s[p]);
    lemma_wide_single(v);
    assert(pow10(1) == 10) by {
        reveal_with_fuel(pow10, 2);
    }
    let w = pow10(b.len());
    assert(b.len() == (s.len() - 1 - p) as nat);
    let x = be_wide(a);
    assert(be_wide(s) == (x * 10 + s[p] as nat) * w + be_wide(b));
    assert(be_wide(s.update(p, v)) == (x * 10 + v as nat) * w + be_wide(b));
    assert((x * 10 + s[p] as nat) * w == x * 10 * w + s[p] as nat * w) by (nonlinear_arith);
    assert((x * 10 + v as nat) * w == x * 10 * w + v as nat * w) by (nonlinear_arith);
}

pub proof fn lemma_wide_zeros(n: nat)
    ensures
        be_wide(Seq::new(n, |i: int| 0u32)) == 0,
    decreases n,
{
    if n > 0 {
        assert(Seq::new(n, |i: int| 0u32).drop_last() =~= Seq::new((n - 1) as nat, |i: int| 0u32));
        lemma_wide_zeros((n - 1) as nat);
    }
}

/// The first cell weighs `10^(len-1)`.
pub proof fn lemma_wide_first(s: Seq<u32>)
    requires
        s.len() >= 1,
    ensures
        be_wide(s) >= s[0] as nat * pow10((s.len() - 1) as nat),
{
    let a = s.subrange(0, 1);
    let b = s.subrange(1, s.len() as int);
    assert(s =~= a + b);
    lemma_wide_append(a, b);
    assert(a =~= seq![s[0]]);
    lemma_wide_single(s[0]);
}

/// Cells that are all digits carry the same value as the digit sequence.
pub proof fn lemma_wide_as_digits(w: Seq<u32>, d: Seq<u8>)
    requires
        w.len() == d.len(),
        forall|i: int| 0 <= i < w.len() ==> #[trigger] w[i] as nat == d[i] as nat,
    ensures
        be_wide(w) == be_val(d),
    decreases w.len(),
{
    if w.len() > 0 {
        let w1 = w.drop_last();
        let d1 = d.drop_last();
        assert forall|i: int| 0 <= i < w1.len() implies #[trigger] w1[i] as nat == d1[i] as nat by {
            assert(w1[i] == w[i]);
            assert(d1[i] == d[i]);
        }
        lemma_wide_as_digits(w1, d1);
        assert(w[w.len() - 1] as nat == d[d.len() - 1] as nat);
    }
}

/// The canonical little-endian digits of `n`.
pub open spec fn le_digits_of(n: nat) -> Seq<u8>
    decreases n,
{
    if n < 10 {
        seq![n as u8]
    } else {
        seq![(n % 10) as u8] + le_digits_of(n / 10)
    }
}

/// The canonical big-endian digits of `n`.
pub open spec fn be_digits_of(n: nat) -> Seq<u8> {
    rev(le_digits_of(n))
}

pub proof fn lemma_le_digits_of(n: nat)
    ensures
        le_canonical(le_digits_of(n)),
        le_val(le_digits_of(n)) == n,
    decreases n,
{
    if n < 10 {
        lemma_le_single(n as u8);
        assert(all_digits(le_digits_of(n)));
    } else {
        lemma_le_digits_of(n / 10);
        let t = le_digits_of(n / 10);
        let s = seq![(n % 10) as u8] + t;
        assert(s.drop_first() =~= t);
        lemma_le_first(s);
        assert(s[0] as nat == n % 10);
        assert(all_digits(s)) by {
            assert forall|i: int| 0 <= i < s.len() implies #[trigger] s[i] <= 9 by {
                if i > 0 {
                    assert(s[i] == t[i - 1]);
                }
            }
        }
        assert(s.last() == t.last());
        if n / 10 < 10 {
            assert(t == seq![(n / 10) as u8]);
            assert(n / 10 >= 1);
            assert(t.last() != 0);
        } else {
            let m: nat = n / 10;
            assert(t == seq![(m % 10) as u8] + le_digits_of(m / 10));
            assert(le_digits_of(m / 10).len() >= 1) by {
                lemma_le_digits_of(m / 10);
            }
            assert(t.len() >= 2);
        }
    }
}

/// Canonical little-endian digits are the digits of their value.
pub proof fn lemma_le_canonical_is_digits_of(d: Seq<u8>)
    requires
        le_canonical(d),
    ensures
        d == le_digits_of(le_val(d)),
{
    lemma_le_digits_of(le_val(d));
    lemma_le_canonical_unique(d, le_digits_of(le_val(d)));
}

pub proof fn lemma_rev_canonical(d: Seq<u8>)
    requires
        le_canonical(d),
    ensures
        be_canonical(rev(d)),
        be_val(rev(d)) == le_val(d),
{
    lemma_be_rev(rev(d));
    lemma_rev_rev(d);
    assert forall|i: int| 0 <= i < rev(d).len() implies #[trigger] rev(d)[i] <= 9 by {
        assert(rev(d)[i] == d[d.len() - 1 - i]);
    }
    assert(rev(d)[0] == d.last());
}

pub proof fn lemma_be_digits_of(n: nat)
    ensures
        be_canonical(be_digits_of(n)),
        be_val(be_digits_of(n)) == n,
{
    lemma_le_digits_of(n);
    lemma_rev_canonical(le_digits_of(n));
}


} // verus!
