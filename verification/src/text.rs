//! Character-level helpers shared by the parser, the validators and the
//! renderer: ASCII case folding, Unicode whitespace trimming, and decimal
//! integer syntax.

use vstd::prelude::*;
use vstd::std_specs::iter::IteratorSpec;

verus! {

/// ASCII case folding of one character: `A`..`Z` map to `a`..`z`, every
/// other character maps to itself (as its code point).
pub open spec fn fold(c: char) -> u32 {
    if 'A' <= c && c <= 'Z' {
        (c as u32 + 32) as u32
    } else {
        c as u32
    }
}

/// `a` and `b` are equal when ASCII letters are compared case-insensitively
/// (the meaning of `str::eq_ignore_ascii_case`).
pub open spec fn names_match(a: Seq<char>, b: Seq<char>) -> bool {
    &&& a.len() == b.len()
    &&& forall|i: int| 0 <= i < a.len() ==> #[trigger] fold(a[i]) == fold(b[i])
}

/// The characters of `s`, in order.
pub fn chars_of(s: &str) -> (v: Vec<char>)
    ensures
        v@ == s@,
{
    let mut v: Vec<char> = Vec::new();
    let it = s.chars();
    for c in iter: it
        invariant
            iter.seq() == s@,
            v@ == iter.seq().take(iter.index() as int),
    {
        v.push(c);
    }
    v
}

/// Append one character to a `String`.
#[verifier::external_body]
pub(crate) fn push_char(s: &mut String, c: char)
    ensures
        final(s)@ == old(s)@.push(c),
{
    s.push(c);
}

/// `String::push_str`: append `t` to `s`.
#[verifier::external_body]
pub(crate) fn push_str(s: &mut String, t: &str)
    ensures
        final(s)@ == old(s)@ + t@,
{
    s.push_str(t);
}

/// A `String` holding exactly the characters `v[from..to]`.
pub fn string_from_chars(v: &[char], from: usize, to: usize) -> (s: String)
    requires
        from <= to <= v@.len(),
    ensures
        s@ == v@.subrange(from as int, to as int),
{
    let mut s = String::new();
    let mut i: usize = from;
    while i < to
        invariant
            from <= i <= to <= v@.len(),
            s@ == v@.subrange(from as int, i as int),
        decreases to - i,
    {
        push_char(&mut s, v[i]);
        i += 1;
        assert(s@ =~= v@.subrange(from as int, i as int));
    }
    s
}

/// ASCII case-insensitive equality of two character sequences.
pub fn eq_ignore_ascii_case(a: &[char], b: &[char]) -> (r: bool)
    ensures
        r == names_match(a@, b@),
{
    if a.len() != b.len() {
        return false;
    }
    let mut i: usize = 0;
    while i < a.len()
        invariant
            a@.len() == b@.len(),
            0 <= i <= a@.len(),
            forall|j: int| 0 <= j < i ==> #[trigger] fold(a@[j]) == fold(b@[j]),
        decreases a.len() - i,
    {
        if fold_char(a[i]) != fold_char(b[i]) {
            return false;
        }
        i += 1;
    }
    true
}

/// Executable ASCII case folding, see [`fold`].
pub fn fold_char(c: char) -> (r: u32)
    ensures
        r == fold(c),
{
    if 'A' <= c && c <= 'Z' {
        c as u32 + 32
    } else {
        c as u32
    }
}

/// Whether `name` (as characters) matches the ASCII literal `lit`
/// case-insensitively.
pub fn str_eq_ignore_ascii_case(a: &str, b: &str) -> (r: bool)
    ensures
        r == names_match(a@, b@),
{
    let av = chars_of(a);
    let bv = chars_of(b);
    eq_ignore_ascii_case(av.as_slice(), bv.as_slice())
}

} // verus!

verus! {

/// Unicode `White_Space`, the set `str::trim` removes (the same set as
/// `char::is_whitespace`).
pub open spec fn is_white_space(c: char) -> bool {
    ||| ('\u{9}' <= c && c <= '\u{d}')
    ||| c == ' '
    ||| c == '\u{85}'
    ||| c == '\u{a0}'
    ||| c == '\u{1680}'
    ||| ('\u{2000}' <= c && c <= '\u{200a}')
    ||| c == '\u{2028}'
    ||| c == '\u{2029}'
    ||| c == '\u{202f}'
    ||| c == '\u{205f}'
    ||| c == '\u{3000}'
}

pub fn is_white_space_char(c: char) -> (r: bool)
    ensures
        r == is_white_space(c),
{
    ('\u{9}' <= c && c <= '\u{d}') || c == ' ' || c == '\u{85}' || c == '\u{a0}' || c == '\u{1680}'
        || ('\u{2000}' <= c && c <= '\u{200a}') || c == '\u{2028}' || c == '\u{2029}' || c
        == '\u{202f}' || c == '\u{205f}' || c == '\u{3000}'
}

/// `s` without its leading white space.
pub open spec fn trim_front(s: Seq<char>) -> Seq<char>
    decreases s.len(),
{
    if s.len() > 0 && is_white_space(s[0]) {
        trim_front(s.drop_first())
    } else {
        s
    }
}

/// `s` without its trailing white space.
pub open spec fn trim_back(s: Seq<char>) -> Seq<char>
    decreases s.len(),
{
    if s.len() > 0 && is_white_space(s.last()) {
        trim_back(s.drop_last())
    } else {
        s
    }
}

/// `s` without leading and trailing white space (`str::trim`).
pub open spec fn trim(s: Seq<char>) -> Seq<char> {
    trim_back(trim_front(s))
}

proof fn lemma_trim_front_skip(s: Seq<char>, i: int)
    requires
        0 <= i <= s.len(),
        forall|j: int| 0 <= j < i ==> is_white_space(#[trigger] s[j]),
    ensures
        trim_front(s) == trim_front(s.subrange(i, s.len() as int)),
    decreases i,
{
    if i > 0 {
        assert(s.drop_first() =~= s.subrange(1, s.len() as int));
        lemma_trim_front_skip(s.drop_first(), i - 1);
        assert(s.drop_first().subrange(i - 1, s.drop_first().len() as int) =~= s.subrange(
            i,
            s.len() as int,
        ));
    } else {
        assert(s.subrange(0, s.len() as int) =~= s);
    }
}

proof fn lemma_trim_back_cut(s: Seq<char>, j: int)
    requires
        0 <= j <= s.len(),
        forall|k: int| j <= k < s.len() ==> is_white_space(#[trigger] s[k]),
    ensures
        trim_back(s) == trim_back(s.subrange(0, j)),
    decreases s.len() - j,
{
    if j < s.len() {
        assert(s.drop_last() =~= s.subrange(0, s.len() - 1));
        lemma_trim_back_cut(s.drop_last(), j);
        assert(s.drop_last().subrange(0, j) =~= s.subrange(0, j));
    } else {
        assert(s.subrange(0, j) =~= s);
    }
}

/// The bounds `(start, end)` of `trim(v)` inside `v`.
pub fn trim_bounds(v: &[char]) -> (r: (usize, usize))
    ensures
        r.0 <= r.1 <= v@.len(),
        v@.subrange(r.0 as int, r.1 as int) == trim(v@),
{
    let mut i: usize = 0;
    while i < v.len() && is_white_space_char(v[i])
        invariant
            0 <= i <= v@.len(),
            forall|j: int| 0 <= j < i ==> is_white_space(#[trigger] v@[j]),
        decreases v.len() - i,
    {
        i += 1;
    }
    proof {
        lemma_trim_front_skip(v@, i as int);
    }
    let ghost rest = v@.subrange(i as int, v@.len() as int);
    assert(trim_front(rest) == rest);
    let mut j: usize = v.len();
    while j > i && is_white_space_char(v[j - 1])
        invariant
            i <= j <= v@.len(),
            rest == v@.subrange(i as int, v@.len() as int),
            forall|k: int| j <= k < v@.len() ==> is_white_space(#[trigger] v@[k]),
        decreases j,
    {
        j -= 1;
    }
    proof {
        assert forall|k: int| j - i <= k < rest.len() implies is_white_space(#[trigger] rest[k]) by {
            assert(rest[k] == v@[k + i]);
        }
        lemma_trim_back_cut(rest, j - i);
        assert(rest.subrange(0, j - i) =~= v@.subrange(i as int, j as int));
        let cut = v@.subrange(i as int, j as int);
        if cut.len() > 0 {
            assert(cut.last() == v@[j - 1]);
        }
        assert(trim_back(cut) == cut);
    }
    (i, j)
}

/// Whether `c` is an ASCII decimal digit.
pub open spec fn is_digit(c: char) -> bool {
    '0' <= c && c <= '9'
}

/// The numeric value of a decimal digit character.
pub open spec fn digit_value(c: char) -> nat {
    (c as u32 - '0' as u32) as nat
}

/// The value of a string of decimal digits (most significant first).
pub open spec fn digits_value(s: Seq<char>) -> nat
    decreases s.len(),
{
    if s.len() == 0 {
        0
    } else {
        digits_value(s.drop_last()) * 10 + digit_value(s.last())
    }
}

pub open spec fn all_digits(s: Seq<char>) -> bool {
    forall|i: int| 0 <= i < s.len() ==> is_digit(#[trigger] s[i])
}

/// The integer written by `s`: an optional `+` or `-` sign followed by at
/// least one decimal digit, and nothing else.
pub open spec fn signed_decimal(s: Seq<char>) -> Option<int> {
    let signed = s.len() > 0 && (s[0] == '+' || s[0] == '-');
    let body = if signed { s.drop_first() } else { s };
    if body.len() > 0 && all_digits(body) {
        if signed && s[0] == '-' {
            Some(-(digits_value(body) as int))
        } else {
            Some(digits_value(body) as int)
        }
    } else {
        None
    }
}

/// The integer written by `s`, when it is a decimal number without sign
/// (beyond an optional `+`).
pub open spec fn unsigned_decimal(s: Seq<char>) -> Option<nat> {
    let signed = s.len() > 0 && s[0] == '+';
    let body = if signed { s.drop_first() } else { s };
    if body.len() > 0 && all_digits(body) {
        Some(digits_value(body))
    } else {
        None
    }
}

pub proof fn lemma_digits_value_monotone(s: Seq<char>, i: int)
    requires
        0 <= i <= s.len(),
        all_digits(s),
    ensures
        digits_value(s.take(i)) <= digits_value(s),
    decreases s.len() - i,
{
    if i < s.len() {
        lemma_digits_value_monotone(s, i + 1);
        assert(s.take(i + 1).drop_last() =~= s.take(i));
    } else {
        assert(s.take(i) =~= s);
    }
}

/// The value of the digit run `v[from..to]`, saturated: `None` when it
/// exceeds `limit`.
pub fn digits_value_upto(v: &[char], from: usize, to: usize, limit: u128) -> (r: Option<u128>)
    requires
        from <= to <= v@.len(),
        all_digits(v@.subrange(from as int, to as int)),
    ensures
        match r {
            Some(n) => n == digits_value(v@.subrange(from as int, to as int)) && n <= limit,
            None => digits_value(v@.subrange(from as int, to as int)) > limit,
        },
{
    let ghost s = v@.subrange(from as int, to as int);
    let mut acc: u128 = 0;
    let mut i: usize = from;
    while i < to
        invariant
            from <= i <= to <= v@.len(),
            s == v@.subrange(from as int, to as int),
            all_digits(s),
            acc == digits_value(s.take(i - from)),
            acc <= limit,
        decreases to - i,
    {
        assert(s[i - from] == v@[i as int]);
        let d = (v[i] as u32 - '0' as u32) as u128;
        assert(s.take(i - from + 1).drop_last() =~= s.take(i - from));
        if d > limit || acc > (limit - d) / 10 {
            proof {
                assert(acc * 10 + d > limit) by (nonlinear_arith)
                    requires
                        d > limit || acc > (limit - d) / 10,
                        d <= limit ==> limit - d >= 0,
                ;
                lemma_digits_value_monotone(s, i - from + 1);
            }
            return None;
        }
        assert(acc * 10 + d <= limit) by (nonlinear_arith)
            requires
                acc <= (limit - d) / 10,
                d <= limit,
        ;
        acc = acc * 10 + d;
        i += 1;
    }
    assert(s.take(to - from) =~= s);
    Some(acc)
}

} // verus!

verus! {

#[verifier::loop_isolation(false)]
/// Read `t` as a signed decimal integer (see [`signed_decimal`]), giving its
/// sign and magnitude; `None` when the syntax does not match or the magnitude
/// exceeds `limit`.
pub fn read_signed_decimal(t: &[char], limit: u128) -> (r: Option<(bool, u128)>)
    ensures
        match r {
            Some((neg, m)) => m <= limit && signed_decimal(t@) == Some(
                if neg {
                    -(m as int)
                } else {
                    m as int
                },
            ),
            None => match signed_decimal(t@) {
                Some(v) => v > limit || -v > limit,
                None => true,
            },
        },
{
    let len: usize = t.len();
    let signed = len > 0 && (t[0] == '+' || t[0] == '-');
    let start: usize = if signed {
        1
    } else {
        0
    };
    let neg = signed && t[0] == '-';
    let ghost body = if signed {
        t@.drop_first()
    } else {
        t@
    };
    assert(body =~= t@.subrange(start as int, len as int));
    if start >= len {
        return None;
    }
    let mut i: usize = start;
    while i < len
        invariant
            start <= i <= len == t@.len(),
            body == t@.subrange(start as int, len as int),
            forall|k: int| start <= k < i ==> is_digit(#[trigger] t@[k]),
        decreases len - i,
    {
        if !('0' <= t[i] && t[i] <= '9') {
            assert(!is_digit(body[i - start]));
            assert(!all_digits(body));
            return None;
        }
        i += 1;
    }
    assert(all_digits(body));
    match digits_value_upto(t, start, len, limit) {
        Some(m) => Some((neg, m)),
        None => None,
    }
}

#[verifier::loop_isolation(false)]
/// Read `t` as an unsigned decimal integer (see [`unsigned_decimal`]);
/// `None` when the syntax does not match or the value exceeds `limit`.
pub fn read_unsigned_decimal(t: &[char], limit: u128) -> (r: Option<u128>)
    ensures
        match r {
            Some(m) => m <= limit && unsigned_decimal(t@) == Some(m as nat),
            None => match unsigned_decimal(t@) {
                Some(v) => v > limit,
                None => true,
            },
        },
{
    let len: usize = t.len();
    let start: usize = if len > 0 && t[0] == '+' {
        1
    } else {
        0
    };
    let ghost body = if len > 0 && t@[0] == '+' {
        t@.drop_first()
    } else {
        t@
    };
    assert(body =~= t@.subrange(start as int, len as int));
    if start >= len {
        return None;
    }
    let mut i: usize = start;
    while i < len
        invariant
            start <= i <= len == t@.len(),
            body == t@.subrange(start as int, len as int),
            forall|k: int| start <= k < i ==> is_digit(#[trigger] t@[k]),
        decreases len - i,
    {
        if !('0' <= t[i] && t[i] <= '9') {
            assert(!is_digit(body[i - start]));
            assert(!all_digits(body));
            return None;
        }
        i += 1;
    }
    assert(all_digits(body));
    digits_value_upto(t, start, len, limit)
}

} // verus!
