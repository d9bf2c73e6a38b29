//! Characters and strings: decimal digit characters, Unicode white space,
//! trimming, and building a `String` one character at a time.
use vstd::prelude::*;
use vstd::std_specs::iter::IteratorSpec;

verus! {

/// The character that writes the decimal digit `d`.
pub open spec fn digit_char(d: u8) -> char {
    if d == 0 {
        '0'
    } else if d == 1 {
        '1'
    } else if d == 2 {
        '2'
    } else if d == 3 {
        '3'
    } else if d == 4 {
        '4'
    } else if d == 5 {
        '5'
    } else if d == 6 {
        '6'
    } else if d == 7 {
        '7'
    } else if d == 8 {
        '8'
    } else {
        '9'
    }
}

/// `c` is one of `'0'..='9'`.
pub open spec fn is_digit_char(c: char) -> bool {
    '0' <= c && c <= '9'
}

/// The digit that the character `c` writes.
pub open spec fn char_digit(c: char) -> u8 {
    (c as u32 - '0' as u32) as u8
}

/// The characters with the Unicode `White_Space` property.
pub open spec fn is_white_space(c: char) -> bool {
    ||| ('\u{9}' <= c && c <= '\u{d}')
    ||| c == ' '
    ||| c == '\u{85}'
    ||| c == '\u{a0}'
    ||| c == '\u{1680}'
    ||| ('\u{2000}' <= c && c <= '\u{200a}')
    ||| c == '\u{2028}'
    ||| c == '\u{2029}'
    ||| c == '\u{202f}'
    ||| c == '\u{205f}'
    ||| c == '\u{3000}'
}

/// `s` without its leading white space.
pub open spec fn trim_start(s: Seq<char>) -> Seq<char>
    decreases s.len(),
{
    if s.len() > 0 && is_white_space(s[0]) {
        trim_start(s.drop_first())
    } else {
        s
    }
}

/// `s` without its trailing white space.
pub open spec fn trim_end(s: Seq<char>) -> Seq<char>
    decreases s.len(),
{
    if s.len() > 0 && is_white_space(s.last()) {
        trim_end(s.drop_last())
    } else {
        s
    }
}

/// `s` without leading and trailing white space, as `str::trim` gives it.
pub open spec fn trim(s: Seq<char>) -> Seq<char> {
    trim_end(trim_start(s))
}

/// The decimal digit character of `d`.
pub fn digit_to_char(d: u8) -> (c: char)
    requires
        d <= 9,
    ensures
        c == digit_char(d),
        is_digit_char(c),
        char_digit(c) == d,
{
    match d {
        0 => '0',
        1 => '1',
        2 => '2',
        3 => '3',
        4 => '4',
        5 => '5',
        6 => '6',
        7 => '7',
        8 => '8',
        _ => '9',
    }
}

/// The digit that a digit character writes.
pub fn char_to_digit(c: char) -> (d: u8)
    requires
        is_digit_char(c),
    ensures
        d == char_digit(c),
        d <= 9,
        digit_char(d) == c,
{
    let d = (c as u32 - '0' as u32) as u8;
    assert(c == '0' || c == '1' || c == '2' || c == '3' || c == '4' || c == '5' || c == '6' || c
        == '7' || c == '8' || c == '9');
    d
}

/// Whether `c` is Unicode white space, as `char::is_whitespace` tells it.
pub fn is_whitespace(c: char) -> (r: bool)
    ensures
        r == is_white_space(c),
{
    ('\u{9}' <= c && c <= '\u{d}') || c == ' ' || c == '\u{85}' || c == '\u{a0}' || c == '\u{1680}'
        || ('\u{2000}' <= c && c <= '\u{200a}') || c == '\u{2028}' || c == '\u{2029}' || c
        == '\u{202f}' || c == '\u{205f}' || c == '\u{3000}'
}

/// The characters of `s`.
pub fn chars_of(s: &str) -> (v: Vec<char>)
    ensures
        v@ == s@,
{
    broadcast use vstd::string::axiom_spec_iter, vstd::string::next_postcondition;

    let mut v: Vec<char> = Vec::new();
    let mut it = s.chars();
    loop
        invariant_except_break
            v@ + it.remaining() == s@,
            it.decrease() is Some,
        ensures
            v@ == s@,
        decreases it.decrease()->0,
    {
        let ghost before = it.remaining();
        match it.next() {
            Some(c) => {
                let ghost vb = v@;
                v.push(c);
                assert(v@ + it.remaining() =~= vb + before);
            },
            None => {
                assert(v@ =~= v@ + it.remaining());
                break;
            },
        }
    }
    v
}

proof fn lemma_trim_start_skip(s: Seq<char>, i: int)
    requires
        0 <= i <= s.len(),
        forall|k: int| 0 <= k < i ==> is_white_space(#[trigger] s[k]),
    ensures
        trim_start(s) == trim_start(s.subrange(i, s.len() as int)),
    decreases i,
{
    if i > 0 {
        assert(s.drop_first().subrange(i - 1, s.drop_first().len() as int) =~= s.subrange(
            i,
            s.len() as int,
        ));
        assert(is_white_space(s[0]));
        lemma_trim_start_skip(s.drop_first(), i - 1);
    } else {
        assert(s.subrange(0, s.len() as int) =~= s);
    }
}

proof fn lemma_trim_end_cut(s: Seq<char>, j: int)
    requires
        0 <= j <= s.len(),
        forall|k: int| j <= k < s.len() ==> is_white_space(#[trigger] s[k]),
    ensures
        trim_end(s) == trim_end(s.subrange(0, j)),
    decreases s.len() - j,
{
    if j < s.len() {
        assert(is_white_space(s[s.len() - 1]));
        assert(s.drop_last().subrange(0, j) =~= s.subrange(0, j));
        lemma_trim_end_cut(s.drop_last(), j);
    } else {
        assert(s.subrange(0, j) =~= s);
    }
}

/// `s` without leading and trailing white space.
pub fn trim_chars(s: &Vec<char>) -> (r: Vec<char>)
    ensures
        r@ == trim(s@),
{
    let n = s.len();
    let mut i: usize = 0;
    while i < n && is_whitespace(s[i])
        invariant
            n == s@.len(),
            i <= n,
            forall|k: int| 0 <= k < i ==> is_white_space(#[trigger] s@[k]),
        decreases n - i,
    {
        i = i + 1;
    }
    proof {
        lemma_trim_start_skip(s@, i as int);
    }
    let ghost t = s@.subrange(i as int, n as int);
    assert(trim_start(t) == t) by {
        if t.len() > 0 {
            assert(t[0] == s@[i as int]);
        }
    }
    let mut j: usize = n;
    while j > i && is_whitespace(s[j - 1])
        invariant
            n == s@.len(),
            i <= j <= n,
            t == s@.subrange(i as int, n as int),
            forall|k: int| j - i <= k < t.len() ==> is_white_space(#[trigger] t[k]),
        decreases j,
    {
        assert(t[j - 1 - i] == s@[j - 1]);
        j = j - 1;
    }
    proof {
        lemma_trim_end_cut(t, j - i);
        let u = t.subrange(0, j - i);
        if u.len() > 0 {
            assert(u.last() == s@[j - 1]);
        }
    }
    let mut r: Vec<char> = Vec::new();
    let mut k: usize = i;
    while k < j
        invariant
            n == s@.len(),
            i <= k <= j <= n,
            r@ == s@.subrange(i as int, k as int),
        decreases j - k,
    {
        r.push(s[k]);
        k = k + 1;
        assert(r@ =~= s@.subrange(i as int, k as int));
    }
    assert(r@ =~= t.subrange(0, j - i));
    r
}

/// Appends `c` to `s`, as `String::push` does.
#[verifier::external_body]
pub(crate) fn push_char(s: &mut String, c: char)
    ensures
        final(s)@ == old(s)@.push(c),
{
    s.push(c);
}

/// Appends the characters of `s` to `out`.
pub fn push_str(out: &mut String, s: &str)
    ensures
        final(out)@ == old(out)@ + s@,
{
    let ghost head = out@;
    let cs = chars_of(s);
    let mut i: usize = 0;
    while i < cs.len()
        invariant
            i <= cs@.len(),
            cs@ == s@,
            out@ == head + cs@.subrange(0, i as int),
        decreases cs@.len() - i,
    {
        push_char(out, cs[i]);
        i = i + 1;
        assert(out@ =~= head + cs@.subrange(0, i as int));
    }
    assert(cs@.subrange(0, cs@.len() as int) =~= cs@);
}

/// A `String` holding the characters of `v`.
pub fn string_of(v: &Vec<char>) -> (s: String)
    ensures
        s@ == v@,
{
    let mut s = String::new();
    let mut i: usize = 0;
    while i < v.len()
        invariant
            i <= v@.len(),
            s@ == v@.subrange(0, i as int),
        decreases v@.len() - i,
    {
        push_char(&mut s, v[i]);
        i = i + 1;
        assert(s@ =~= v@.subrange(0, i as int));
    }
    assert(v@.subrange(0, v@.len() as int) =~= v@);
    s
}

/// The characters that write the digits of `s`.
pub open spec fn digit_text(s: Seq<u8>) -> Seq<char> {
    s.map_values(|d: u8| digit_char(d))
}

/// The first `k` digits of `d`, whose first `il` digits form the integer
/// part, with a comma before each digit that starts a group of three when
/// `grouping` is on.
pub open spec fn grouped(d: Seq<u8>, il: nat, grouping: bool, k: nat) -> Seq<char>
    decreases k,
{
    if k == 0 {
        Seq::empty()
    } else {
        let p = (k - 1) as nat;
        grouped(d, il, grouping, p) + (if grouping && p > 0 && (il - p) % 3 == 0 {
            seq![',']
        } else {
            Seq::empty()
        }) + seq![digit_char(d[p as int])]
    }
}

// ---------------------------------------------------------------------------
// Words and counts
// ---------------------------------------------------------------------------

/// The length of the word at the start of `s`: the characters before the
/// first white space.
pub open spec fn word_len(s: Seq<char>) -> nat
    decreases s.len(),
{
    if s.len() == 0 || is_white_space(s[0]) {
        0
    } else {
        1 + word_len(s.drop_first())
    }
}

/// A word is no longer than the text and not empty when the text starts
/// with a character that is not white space.
pub proof fn lemma_word_len(s: Seq<char>)
    ensures
        word_len(s) <= s.len(),
        s.len() > 0 && !is_white_space(s[0]) ==> word_len(s) >= 1,
    decreases s.len(),
{
    if s.len() > 0 && !is_white_space(s[0]) {
        lemma_word_len(s.drop_first());
    }
}

/// The words of `s`: its maximal runs of characters that are not white
/// space, in order (what `str::split_whitespace` yields).
pub open spec fn words(s: Seq<char>) -> Seq<Seq<char>>
    decreases s.len(),
{
    if s.len() == 0 {
        Seq::empty()
    } else if is_white_space(s[0]) {
        words(s.drop_first())
    } else {
        proof {
            lemma_word_len(s);
        }
        seq![s.subrange(0, word_len(s) as int)] + words(s.subrange(word_len(s) as int, s.len() as int))
    }
}

proof fn lemma_word_run(s: Seq<char>, i: int, j: int)
    requires
        0 <= i <= j <= s.len(),
        forall|k: int| i <= k < j ==> !is_white_space(#[trigger] s[k]),
        j == s.len() || is_white_space(s[j]),
    ensures
        word_len(s.subrange(i, s.len() as int)) == j - i,
    decreases j - i,
{
    let t = s.subrange(i, s.len() as int);
    if i < j {
        assert(t.drop_first() =~= s.subrange(i + 1, s.len() as int));
        lemma_word_run(s, i + 1, j);
    } else if j < s.len() {
        assert(t[0] == s[j]);
    }
}

/// The characters of a `String`-free view of the words: `r[k]@` is word `k`.
pub open spec fn word_views(r: Seq<Vec<char>>) -> Seq<Seq<char>> {
    Seq::new(r.len(), |k: int| r[k]@)
}

/// Splits `s` into its words.
pub fn split_words(s: &Vec<char>) -> (r: Vec<Vec<char>>)
    ensures
        word_views(r@) == words(s@),
{
    let n = s.len();
    let mut r: Vec<Vec<char>> = Vec::new();
    let mut i: usize = 0;
    proof {
        assert(s@.subrange(0, n as int) =~= s@);
        assert(word_views(r@) + words(s@.subrange(0, n as int)) =~= words(s@));
    }
    while i < n
        invariant
            n == s@.len(),
            i <= n,
            words(s@) == word_views(r@) + words(s@.subrange(i as int, n as int)),
        decreases n - i,
    {
        let ghost t = s@.subrange(i as int, n as int);
        if is_whitespace(s[i]) {
            proof {
                assert(t.drop_first() =~= s@.subrange(i + 1, n as int));
            }
            i = i + 1;
        } else {
            let mut w: Vec<char> = Vec::new();
            let mut j = i;
            while j < n && !is_whitespace(s[j])
                invariant
                    n == s@.len(),
                    i <= j <= n,
                    w@ == s@.subrange(i as int, j as int),
                    forall|k: int| i <= k < j ==> !is_white_space(#[trigger] s@[k]),
                decreases n - j,
            {
                w.push(s[j]);
                j = j + 1;
                assert(w@ =~= s@.subrange(i as int, j as int));
            }
            proof {
                lemma_word_run(s@, i as int, j as int);
                assert(!is_white_space(t[0]));
                assert(t.subrange(0, (j - i) as int) =~= w@);
                assert(t.subrange((j - i) as int, t.len() as int) =~= s@.subrange(j as int, n as int));
            }
            let ghost before = r@;
            r.push(w);
            proof {
                assert(word_views(r@) =~= word_views(before).push(w@));
                assert(word_views(r@) + words(s@.subrange(j as int, n as int)) =~= word_views(before)
                    + words(t));
            }
            i = j;
        }
    }
    proof {
        assert(s@.subrange(n as int, n as int) =~= Seq::<char>::empty());
        assert(word_views(r@) + Seq::<Seq<char>>::empty() =~= word_views(r@));
    }
    r
}

/// The decimal text of `n`.
pub fn usize_to_text(n: usize) -> (s: String)
    ensures
        s@ == digit_text(crate::digits::be_digits_of(n as nat)),
{
    let mut le: Vec<u8> = Vec::new();
    let mut m = n;
    loop
        invariant_except_break
            le@ + crate::digits::le_digits_of(m as nat) == crate::digits::le_digits_of(n as nat),
        ensures
            le@ == crate::digits::le_digits_of(n as nat),
        decreases m,
    {
        let ghost before = le@;
        le.push((m % 10) as u8);
        if m < 10 {
            proof {
                assert(crate::digits::le_digits_of(m as nat) == seq![(m as nat) as u8]);
                assert(le@ =~= before + crate::digits::le_digits_of(m as nat));
            }
            break;
        }
        proof {
            assert(crate::digits::le_digits_of(m as nat) == seq![((m as nat) % 10) as u8]
                + crate::digits::le_digits_of((m as nat) / 10));
            assert(le@ + crate::digits::le_digits_of((m / 10) as nat) =~= before
                + crate::digits::le_digits_of(m as nat));
        }
        m = m / 10;
    }
    let be = crate::digits::reversed(&le);
    proof {
        crate::digits::lemma_le_digits_of(n as nat);
    }
    let mut s = String::new();
    let mut i: usize = 0;
    while i < be.len()
        invariant
            i <= be@.len(),
            be@ == crate::digits::be_digits_of(n as nat),
            crate::digits::all_digits(be@),
            s@ == digit_text(be@.subrange(0, i as int)),
        decreases be@.len() - i,
    {
        push_char(&mut s, digit_to_char(be[i]));
        i = i + 1;
        assert(s@ =~= digit_text(be@.subrange(0, i as int)));
    }
    assert(be@.subrange(0, be@.len() as int) =~= be@);
    s
}

/// The value of a run of decimal digit characters.
pub open spec fn digits_value(cs: Seq<char>) -> nat {
    crate::digits::be_val(cs.map_values(|c: char| char_digit(c)))
}

/// `s` without a leading `+`.
pub open spec fn without_plus(s: Seq<char>) -> Seq<char> {
    if s.len() > 0 && s[0] == '+' {
        s.drop_first()
    } else {
        s
    }
}

/// Every character is a decimal digit.
pub open spec fn all_digit_chars(cs: Seq<char>) -> bool {
    forall|i: int| 0 <= i < cs.len() ==> is_digit_char(#[trigger] cs[i])
}

/// What `str::parse::<usize>` gives for `s`: an optional `+`, then at least
/// one decimal digit and nothing else, with a value that fits in `usize`.
pub open spec fn usize_value(s: Seq<char>) -> Option<nat> {
    let body = without_plus(s);
    if body.len() > 0 && all_digit_chars(body) && digits_value(body) <= usize::MAX {
        Some(digits_value(body))
    } else {
        None
    }
}

proof fn lemma_digits_value_push(cs: Seq<char>, c: char)
    ensures
        digits_value(cs.push(c)) == digits_value(cs) * 10 + char_digit(c),
{
    assert(cs.push(c).map_values(|x: char| char_digit(x)) =~= cs.map_values(|x: char| char_digit(x)).push(
        char_digit(c),
    ));
    crate::digits::lemma_be_push(cs.map_values(|x: char| char_digit(x)), char_digit(c));
}

proof fn lemma_digits_value_prefix(cs: Seq<char>, k: int)
    requires
        0 <= k <= cs.len(),
    ensures
        digits_value(cs) >= digits_value(cs.subrange(0, k)),
{
    let m = cs.map_values(|x: char| char_digit(x));
    assert(m.subrange(0, k) + m.subrange(k, m.len() as int) =~= m);
    assert(cs.subrange(0, k).map_values(|x: char| char_digit(x)) =~= m.subrange(0, k));
    crate::digits::lemma_be_append(m.subrange(0, k), m.subrange(k, m.len() as int));
    crate::digits::lemma_pow10_pos((m.len() - k) as nat);
    let a = crate::digits::be_val(m.subrange(0, k));
    let p = crate::digits::pow10((m.len() - k) as nat);
    assert(a * p >= a) by (nonlinear_arith)
        requires
            p >= 1,
    ;
}

/// Parses a count as `str::parse::<usize>` does (see `usize_value`).
pub fn parse_usize(s: &Vec<char>) -> (r: Option<usize>)
    ensures
        match (r, usize_value(s@)) {
            (Some(v), Some(w)) => v as nat == w,
            (None, None) => true,
            _ => false,
        },
{
    let n = s.len();
    let start: usize = if n > 0 && s[0] == '+' {
        1
    } else {
        0
    };
    let ghost body = if n > 0 && s@[0] == '+' {
        s@.drop_first()
    } else {
        s@
    };
    proof {
        if start == 1 {
            assert(body =~= s@.subrange(1, n as int));
        } else {
            assert(body =~= s@.subrange(0, n as int));
        }
    }
    if start == n {
        return None;
    }
    let mut acc: usize = 0;
    let mut i: usize = start;
    proof {
        assert(body.subrange(0, 0) =~= Seq::<char>::empty());
        assert(Seq::<char>::empty().map_values(|c: char| char_digit(c)) =~= Seq::<u8>::empty());
    }
    while i < n
        invariant
            n == s@.len(),
            start <= i <= n,
            start <= 1,
            body == s@.subrange(start as int, n as int),
            body == without_plus(s@),
            acc as nat == digits_value(body.subrange(0, i - start)),
            forall|k: int| 0 <= k < i - start ==> is_digit_char(#[trigger] body[k]),
        decreases n - i,
    {
        let c = s[i];
        let ghost pre = body.subrange(0, i - start);
        proof {
            assert(body[i - start] == c);
            assert(body.subrange(0, i - start + 1) =~= pre.push(c));
            lemma_digits_value_push(pre, c);
        }
        if !('0' <= c && c <= '9') {
            proof {
                assert(!is_digit_char(body[i - start]));
                assert(!all_digit_chars(body));
            }
            return None;
        }
        let d = char_to_digit(c) as usize;
        let x = match acc.checked_mul(10) {
            Some(x) => x,
            None => {
                proof {
                    lemma_digits_value_prefix(body, i - start + 1);
                    assert(acc * 10 > usize::MAX);
                    assert(digits_value(body.subrange(0, i - start + 1)) >= acc * 10);
                    assert(digits_value(body) > usize::MAX);
                }
                return None;
            },
        };
        let y = match x.checked_add(d) {
            Some(y) => y,
            None => {
                proof {
                    lemma_digits_value_prefix(body, i - start + 1);
                }
                return None;
            },
        };
        acc = y;
        i = i + 1;
    }
    proof {
        assert(body.subrange(0, n - start) =~= body);
    }
    Some(acc)
}

proof fn lemma_words_shape_aux(s: Seq<char>)
    ensures
        forall|i: int| 0 <= i < words(s).len() ==> 1 <= #[trigger] words(s)[i].len() <= s.len(),
    decreases s.len(),
{
    if s.len() > 0 {
        if is_white_space(s[0]) {
            lemma_words_shape_aux(s.drop_first());
            assert(words(s) == words(s.drop_first()));
        } else {
            lemma_word_len(s);
            let k = word_len(s);
            let rest = s.subrange(k as int, s.len() as int);
            lemma_words_shape_aux(rest);
            let w = seq![s.subrange(0, k as int)] + words(rest);
            assert(words(s) == w);
            assert forall|i: int| 0 <= i < words(s).len() implies 1 <= #[trigger] words(s)[i].len()
                <= s.len() by {
                if i > 0 {
                    assert(words(s)[i] == words(rest)[i - 1]);
                } else {
                    assert(words(s)[0] == s.subrange(0, k as int));
                }
            }
        }
    }
}

/// Words are non-empty and no longer than the text.
pub proof fn lemma_words_shape(s: Seq<char>)
    ensures
        forall|i: int| 0 <= i < words(s).len() ==> 1 <= #[trigger] words(s)[i].len() <= s.len(),
{
    lemma_words_shape_aux(s);
}

/// Two different words of a text together are no longer than the text.
pub proof fn lemma_two_words(s: Seq<char>, i: int, j: int)
    requires
        0 <= i < j < words(s).len(),
    ensures
        words(s)[i].len() + words(s)[j].len() <= s.len(),
    decreases s.len(),
{
    if s.len() > 0 {
        if is_white_space(s[0]) {
            assert(words(s) == words(s.drop_first()));
            lemma_two_words(s.drop_first(), i, j);
        } else {
            lemma_word_len(s);
            let k = word_len(s);
            let rest = s.subrange(k as int, s.len() as int);
            assert(words(s) == seq![s.subrange(0, k as int)] + words(rest));
            assert(words(s)[j] == words(rest)[j - 1]);
            if i == 0 {
                lemma_words_shape_aux(rest);
                assert(words(s)[0] == s.subrange(0, k as int));
            } else {
                assert(words(s)[i] == words(rest)[i - 1]);
                lemma_two_words(rest, i - 1, j - 1);
            }
        }
    }
}

/// The count a word gives: its value as `usize`, or 0 when it is not one.
pub open spec fn count_of(w: Seq<char>) -> nat {
    match usize_value(w) {
        Some(n) => n,
        None => 0,
    }
}

/// The transcript of the batch protocol over the words `ws`: for each of up
/// to `n` records (an operator word and two number words) the three prompts
/// and the answer line; it stops after the prompt whose word is missing.
pub open spec fn records_text(
    ws: Seq<Seq<char>>,
    n: nat,
    answer: spec_fn(char, Seq<char>, Seq<char>) -> Seq<char>,
) -> Seq<char>
    decreases ws.len(),
{
    if n == 0 {
        Seq::empty()
    } else if ws.len() == 0 {
        "请输入操作符："@
    } else if ws.len() == 1 {
        "请输入操作符："@ + "左操作数："@
    } else if ws.len() == 2 {
        "请输入操作符："@ + "左操作数："@ + "右操作数："@
    } else {
        "请输入操作符："@ + "左操作数："@ + "右操作数："@ + answer(ws[0][0], ws[1], ws[2]) + seq![
            '\n',
        ] + records_text(ws.subrange(3, ws.len() as int), (n - 1) as nat, answer)
    }
}

/// The whole transcript for an input: the count prompt, then the records
/// (the first word is the count).
pub open spec fn session_text(
    input: Seq<char>,
    answer: spec_fn(char, Seq<char>, Seq<char>) -> Seq<char>,
) -> Seq<char> {
    let ws = words(input);
    "请输入数据数目："@ + if ws.len() == 0 {
        Seq::empty()
    } else {
        records_text(ws.drop_first(), count_of(ws[0]), answer)
    }
}

/// One full record of the transcript.
pub proof fn lemma_records_step(
    ws: Seq<Seq<char>>,
    n: nat,
    answer: spec_fn(char, Seq<char>, Seq<char>) -> Seq<char>,
)
    requires
        n >= 1,
        ws.len() >= 3,
    ensures
        records_text(ws, n, answer) == "请输入操作符："@ + "左操作数："@ + "右操作数："@ + answer(
            ws[0][0],
            ws[1],
            ws[2],
        ) + seq!['\n'] + records_text(ws.subrange(3, ws.len() as int), (n - 1) as nat, answer),
{
}

/// The transcript of the batch protocol when some requests cannot be
/// answered: as `records_text`, but at the first full record that `ok`
/// refuses it stops after that record's prompts; the flag tells whether it
/// stopped there.
pub open spec fn records_until(
    ws: Seq<Seq<char>>,
    n: nat,
    answer: spec_fn(char, Seq<char>, Seq<char>) -> Seq<char>,
    ok: spec_fn(char, Seq<char>, Seq<char>) -> bool,
) -> (Seq<char>, bool)
    decreases ws.len(),
{
    if n == 0 {
        (Seq::empty(), false)
    } else if ws.len() == 0 {
        ("请输入操作符："@, false)
    } else if ws.len() == 1 {
        ("请输入操作符："@ + "左操作数："@, false)
    } else if ws.len() == 2 {
        ("请输入操作符："@ + "左操作数："@ + "右操作数："@, false)
    } else if !ok(ws[0][0], ws[1], ws[2]) {
        ("请输入操作符："@ + "左操作数："@ + "右操作数："@, true)
    } else {
        let rest = records_until(ws.subrange(3, ws.len() as int), (n - 1) as nat, answer, ok);
        (
            "请输入操作符："@ + "左操作数："@ + "右操作数："@ + answer(ws[0][0], ws[1], ws[2])
                + seq!['\n'] + rest.0,
            rest.1,
        )
    }
}

/// `session_text` with the stop of `records_until`.
pub open spec fn session_until(
    input: Seq<char>,
    answer: spec_fn(char, Seq<char>, Seq<char>) -> Seq<char>,
    ok: spec_fn(char, Seq<char>, Seq<char>) -> bool,
) -> (Seq<char>, bool) {
    let ws = words(input);
    if ws.len() == 0 {
        ("请输入数据数目："@, false)
    } else {
        let r = records_until(ws.drop_first(), count_of(ws[0]), answer, ok);
        ("请输入数据数目："@ + r.0, r.1)
    }
}

} // verus!
