//! Lenient integer reading: a decimal integer, or a decimal number (in the
//! syntax `f64` accepts) whose value is a whole number within the range
//! where `f64` represents every integer exactly.

use vstd::prelude::*;

use crate::text::{
    all_digits, digit_value, digits_value, digits_value_upto, is_digit,
    lemma_digits_value_monotone, signed_decimal, trim, trim_bounds,
};

verus! {

/// `10^k`.
pub open spec fn pow10(k: nat) -> nat
    decreases k,
{
    if k == 0 {
        1
    } else {
        10 * pow10((k - 1) as nat)
    }
}

/// `2^53`: below this magnitude every integer is exactly an `f64`.
pub open spec fn exact_float_bound() -> nat {
    9007199254740992
}

/// End of the maximal run of decimal digits in `s` starting at `i`.
pub open spec fn digit_run_end(s: Seq<char>, i: int) -> int
    decreases s.len() - i,
{
    if 0 <= i < s.len() && is_digit(s[i]) {
        digit_run_end(s, i + 1)
    } else {
        i
    }
}

/// A number in the syntax `f64::from_str` accepts for finite values:
/// `Sign? (Digit+ | Digit+ '.' Digit* | Digit* '.' Digit+) (('e'|'E') Sign? Digit+)?`.
pub struct DecimalNumber {
    pub negative: bool,
    pub int_digits: Seq<char>,
    pub frac_digits: Seq<char>,
    pub exponent: int,
}

/// The parts of `s` read as a decimal number, or `None` when `s` is not one.
pub open spec fn decimal_number(s: Seq<char>) -> Option<DecimalNumber> {
    let p0: int = if s.len() > 0 && (s[0] == '+' || s[0] == '-') {
        1
    } else {
        0
    };
    let negative = p0 == 1 && s[0] == '-';
    let a_end = digit_run_end(s, p0);
    let has_point = a_end < s.len() && s[a_end] == '.';
    let b_start = if has_point {
        a_end + 1
    } else {
        a_end
    };
    let b_end = if has_point {
        digit_run_end(s, b_start)
    } else {
        a_end
    };
    let a = s.subrange(p0, a_end);
    let b = s.subrange(b_start, b_end);
    if a.len() + b.len() == 0 {
        None
    } else if b_end == s.len() {
        Some(DecimalNumber { negative, int_digits: a, frac_digits: b, exponent: 0 })
    } else if s[b_end] == 'e' || s[b_end] == 'E' {
        let q0 = b_end + 1;
        let q1 = if q0 < s.len() && (s[q0] == '+' || s[q0] == '-') {
            q0 + 1
        } else {
            q0
        };
        let e_end = digit_run_end(s, q1);
        if e_end > q1 && e_end == s.len() {
            let m = digits_value(s.subrange(q1, e_end)) as int;
            Some(
                DecimalNumber {
                    negative,
                    int_digits: a,
                    frac_digits: b,
                    exponent: if q1 == q0 + 1 && s[q0] == '-' {
                        -m
                    } else {
                        m
                    },
                },
            )
        } else {
            None
        }
    } else {
        None
    }
}

/// The digits `d` with the decimal point after position `q` (`q` may lie
/// outside `d`), as a whole number; `None` when a nonzero digit lies after
/// the point.
pub open spec fn whole_value(d: Seq<char>, q: int) -> Option<nat> {
    if forall|i: int| 0 <= i < d.len() && i >= q ==> #[trigger] d[i] == '0' {
        Some(
            if q <= 0 {
                0
            } else if q >= d.len() {
                digits_value(d) * pow10((q - d.len()) as nat)
            } else {
                digits_value(d.take(q))
            },
        )
    } else {
        None
    }
}

/// The whole number written by the decimal number `s`, when its exact value
/// is an integer of magnitude below `2^53`.
pub open spec fn decimal_whole_number(s: Seq<char>) -> Option<int> {
    match decimal_number(s) {
        Some(p) => match whole_value(p.int_digits + p.frac_digits, p.int_digits.len() + p.exponent) {
            Some(n) => if n < exact_float_bound() {
                Some(
                    if p.negative {
                        -(n as int)
                    } else {
                        n as int
                    },
                )
            } else {
                None
            },
            None => None,
        },
        None => None,
    }
}

/// Lenient integer reading of a keyword value: the trimmed text as a
/// decimal `i64`, or else as a decimal number whose value is a whole number
/// below `2^53` in magnitude (`20.0` and `1e10` read as integers, `20.5`
/// does not). This is the reading of the text's exact value; reading it as
/// an `f64` gives the same wherever [`settled_int`] holds.
pub open spec fn lenient_int(text: Seq<char>) -> Option<i64> {
    let t = trim(text);
    match signed_decimal(t) {
        Some(v) if i64::MIN <= v <= i64::MAX => Some(v as i64),
        _ => match decimal_whole_number(t) {
            Some(n) => Some(n as i64),
            None => None,
        },
    }
}

/// `a / 10^k`, not a whole number, lies farther from every integer than
/// `2^-53` of its magnitude and above `2^-1075`; then the `f64` nearest to
/// it (which differs from it by at most `2^-53` of its magnitude, or by at
/// most `2^-1075` below `2^-1022`) is not a whole number either.
pub open spec fn clearly_fractional(a: nat, k: nat) -> bool {
    let r = a % pow10(k);
    let dist: int = if r <= pow10(k) - r {
        r as int
    } else {
        pow10(k) - r
    };
    &&& dist * vstd::arithmetic::power2::pow2(53) > a
    &&& a * vstd::arithmetic::power2::pow2(1075) > pow10(k)
}

/// Whether [`lenient_int`] is the reading of `text` that parsing it as an
/// `f64` and rounding also gives: always, except for a decimal number that
/// is not a whole number but lies so close to one (or to zero) that its
/// nearest `f64` may be whole. No reading is stated for those.
pub open spec fn settled_int(text: Seq<char>) -> bool {
    let t = trim(text);
    match signed_decimal(t) {
        Some(v) if i64::MIN <= v <= i64::MAX => true,
        _ => match decimal_number(t) {
            None => true,
            Some(p) => {
                let d = p.int_digits + p.frac_digits;
                let q = p.int_digits.len() + p.exponent;
                whole_value(d, q) is Some || clearly_fractional(digits_value(d), (d.len() - q) as nat)
            },
        },
    }
}

proof fn lemma_digit_run(s: Seq<char>, i: int)
    requires
        0 <= i <= s.len(),
    ensures
        i <= digit_run_end(s, i) <= s.len(),
        forall|k: int| i <= k < digit_run_end(s, i) ==> is_digit(#[trigger] s[k]),
        digit_run_end(s, i) < s.len() ==> !is_digit(s[digit_run_end(s, i)]),
    decreases s.len() - i,
{
    if i < s.len() && is_digit(s[i]) {
        lemma_digit_run(s, i + 1);
    }
}

fn digit_run(t: &[char], i: usize) -> (e: usize)
    requires
        i <= t@.len(),
    ensures
        e == digit_run_end(t@, i as int),
        i <= e <= t@.len(),
        all_digits(t@.subrange(i as int, e as int)),
{
    proof {
        lemma_digit_run(t@, i as int);
    }
    let mut j: usize = i;
    while j < t.len() && '0' <= t[j] && t[j] <= '9'
        invariant
            i <= j <= t@.len(),
            digit_run_end(t@, j as int) == digit_run_end(t@, i as int),
        decreases t.len() - j,
    {
        j += 1;
    }
    j
}

pub proof fn lemma_all_zero_digits(d: Seq<char>)
    requires
        forall|i: int| 0 <= i < d.len() ==> #[trigger] d[i] == '0',
    ensures
        digits_value(d) == 0,
    decreases d.len(),
{
    if d.len() > 0 {
        lemma_all_zero_digits(d.drop_last());
    }
}

pub proof fn lemma_nonzero_digits(d: Seq<char>, i: int)
    requires
        all_digits(d),
        0 <= i < d.len(),
        d[i] != '0',
    ensures
        digits_value(d) >= 1,
    decreases d.len(),
{
    if i < d.len() - 1 {
        lemma_nonzero_digits(d.drop_last(), i);
    }
}

pub proof fn lemma_pow10_grows(k: nat)
    ensures
        pow10(k) >= 1,
        k >= 16 ==> pow10(k) > exact_float_bound(),
    decreases k,
{
    if k > 0 {
        lemma_pow10_grows((k - 1) as nat);
        if k == 16 {
            reveal_with_fuel(pow10, 17);
        }
    }
}

/// The pieces of a decimal number read from `t`: its sign, its digits (the
/// integer digits followed by the fraction digits), the number of integer
/// digits, and the exponent's sign and magnitude (`None` when the magnitude
/// exceeds `2^65`).
struct NumberPieces {
    negative: bool,
    digits: Vec<char>,
    int_len: usize,
    exp_negative: bool,
    exp_magnitude: Option<u128>,
}

fn copy_range(t: &[char], from: usize, to: usize, d: &mut Vec<char>)
    requires
        from <= to <= t@.len(),
    ensures
        final(d)@ == old(d)@ + t@.subrange(from as int, to as int),
{
    let mut k: usize = from;
    while k < to
        invariant
            from <= k <= to <= t@.len(),
            d@ == old(d)@ + t@.subrange(from as int, k as int),
        decreases to - k,
    {
        d.push(t[k]);
        k += 1;
        assert(d@ =~= old(d)@ + t@.subrange(from as int, k as int));
    }
}

fn read_number_pieces(t: &[char]) -> (r: Option<NumberPieces>)
    ensures
        match r {
            None => decimal_number(t@) is None,
            Some(p) => decimal_number(t@) matches Some(n) && {
                &&& p.negative == n.negative
                &&& p.digits@ == n.int_digits + n.frac_digits
                &&& p.int_len == n.int_digits.len()
                &&& all_digits(p.digits@)
                &&& match p.exp_magnitude {
                    Some(m) => m <= 36893488147419103232u128 && n.exponent == (if p.exp_negative {
                        -(m as int)
                    } else {
                        m as int
                    }),
                    None => if p.exp_negative {
                        n.exponent < -36893488147419103232
                    } else {
                        n.exponent > 36893488147419103232
                    },
                }
            },
        },
{
    let ghost s = t@;
    let len: usize = t.len();
    let p0: usize = if len > 0 && (t[0] == '+' || t[0] == '-') {
        1
    } else {
        0
    };
    let negative = p0 == 1 && t[0] == '-';
    let a_end = digit_run(t, p0);
    let has_point = a_end < len && t[a_end] == '.';
    let b_start = if has_point {
        a_end + 1
    } else {
        a_end
    };
    let b_end = if has_point {
        digit_run(t, b_start)
    } else {
        a_end
    };
    let ghost a = s.subrange(p0 as int, a_end as int);
    let ghost b = s.subrange(b_start as int, b_end as int);
    if a_end - p0 == 0 && b_end - b_start == 0 {
        return None;
    }
    let mut d: Vec<char> = Vec::new();
    copy_range(t, p0, a_end, &mut d);
    copy_range(t, b_start, b_end, &mut d);
    assert(d@ =~= a + b);
    assert forall|i: int| 0 <= i < d@.len() implies is_digit(#[trigger] d@[i]) by {
        if i < a.len() {
            assert(d@[i] == a[i]);
        } else {
            assert(d@[i] == b[i - a.len()]);
        }
    }
    let mut exp_negative = false;
    let mut exp_magnitude: Option<u128> = Some(0);
    if b_end < len {
        if !(t[b_end] == 'e' || t[b_end] == 'E') {
            return None;
        }
        let q0 = b_end + 1;
        let q1 = if q0 < len && (t[q0] == '+' || t[q0] == '-') {
            q0 + 1
        } else {
            q0
        };
        let e_end = digit_run(t, q1);
        if !(e_end > q1 && e_end == len) {
            return None;
        }
        exp_negative = q1 == q0 + 1 && t[q0] == '-';
        exp_magnitude = digits_value_upto(t, q1, e_end, 36893488147419103232u128);
    }
    Some(NumberPieces { negative, digits: d, int_len: a_end - p0, exp_negative, exp_magnitude })
}

proof fn lemma_whole_value_shifted(d: Seq<char>, q: int)
    requires
        all_digits(d),
        q >= d.len(),
        digits_value(d) >= 1,
    ensures
        whole_value(d, q) == Some(digits_value(d) * pow10((q - d.len()) as nat)),
        digits_value(d) * pow10((q - d.len()) as nat) >= digits_value(d),
        q - d.len() >= 16 ==> digits_value(d) * pow10((q - d.len()) as nat) > exact_float_bound(),
{
    let k = (q - d.len()) as nat;
    lemma_pow10_grows(k);
    assert(digits_value(d) * pow10(k) >= digits_value(d)) by (nonlinear_arith)
        requires
            pow10(k) >= 1,
    ;
    assert(digits_value(d) * pow10(k) >= pow10(k)) by (nonlinear_arith)
        requires
            digits_value(d) >= 1,
    ;
}

/// The whole number `digits_value(d) * 10^shift`, when at most `limit`.
fn scale_by_pow10(n0: u128, shift: u128, limit: u128, ghost_d: Ghost<nat>) -> (r: Option<u128>)
    requires
        n0 == ghost_d@,
        n0 >= 1,
        n0 <= limit,
        limit < 0x1000000000000000000000u128,
    ensures
        match r {
            Some(n) => n == n0 * pow10(shift as nat) && n <= limit,
            None => n0 * pow10(shift as nat) > limit,
        },
{
    let mut n = n0;
    let mut done: u128 = 0;
    assert(pow10(0) == 1);
    assert(n0 * pow10(0) == n0);
    while done < shift
        invariant
            0 <= done <= shift,
            n == n0 * pow10(done as nat),
            n <= limit,
            n0 >= 1,
            limit < 0x1000000000000000000000u128,
        decreases shift - done,
    {
        proof {
            lemma_pow10_adds(done as nat, 1);
            reveal_with_fuel(pow10, 2);
            assert(n0 * pow10((done + 1) as nat) == n * 10) by (nonlinear_arith)
                requires
                    pow10((done + 1) as nat) == pow10(done as nat) * 10,
                    n == n0 * pow10(done as nat),
            ;
        }
        if n > limit / 10 {
            proof {
                let rest = (shift - done - 1) as nat;
                lemma_pow10_adds((done + 1) as nat, rest);
                lemma_pow10_grows(rest);
                assert((done + 1) as nat + rest == shift as nat);
                assert(n0 * pow10(shift as nat) == (n * 10) * pow10(rest)) by (nonlinear_arith)
                    requires
                        pow10(shift as nat) == pow10((done + 1) as nat) * pow10(rest),
                        n0 * pow10((done + 1) as nat) == n * 10,
                ;
                assert((n * 10) * pow10(rest) >= n * 10) by (nonlinear_arith)
                    requires
                        pow10(rest) >= 1,
                        n >= 0,
                ;
            }
            return None;
        }
        n = n * 10;
        done = done + 1;
    }
    Some(n)
}

/// Exact whole-number reading of the decimal number `t`, see
/// [`decimal_whole_number`].
#[verifier::loop_isolation(false)]
fn decimal_whole(t: &[char]) -> (r: Option<i64>)
    ensures
        r == (match decimal_whole_number(t@) {
            Some(n) => Some(n as i64),
            None => None,
        }),
{
    let pieces = match read_number_pieces(t) {
        Some(p) => p,
        None => {
            return None;
        },
    };
    let ghost p = decimal_number(t@).unwrap();
    let d = &pieces.digits;
    let nd: usize = d.len();
    let negative = pieces.negative;
    let ghost q_spec: int = p.int_digits.len() + p.exponent;
    let mut first_nonzero: usize = 0;
    while first_nonzero < nd && d[first_nonzero] == '0'
        invariant
            0 <= first_nonzero <= nd == d@.len(),
            forall|i: int| 0 <= i < first_nonzero ==> #[trigger] d@[i] == '0',
        decreases nd - first_nonzero,
    {
        first_nonzero += 1;
    }
    if first_nonzero == nd {
        proof {
            lemma_all_zero_digits(d@);
            if q_spec >= d@.len() {
                let k = (q_spec - d@.len()) as nat;
                assert(digits_value(d@) * pow10(k) == 0) by (nonlinear_arith)
                    requires
                        digits_value(d@) == 0,
                ;
            } else if q_spec > 0 {
                lemma_all_zero_digits(d@.take(q_spec));
            }
        }
        return Some(0);
    }
    proof {
        lemma_nonzero_digits(d@, first_nonzero as int);
    }
    let e: u128 = match pieces.exp_magnitude {
        Some(m) => m,
        None => {
            proof {
                if !pieces.exp_negative {
                    lemma_whole_value_shifted(d@, q_spec);
                }
            }
            return None;
        },
    };
    let q: i128 = if pieces.exp_negative {
        pieces.int_len as i128 - e as i128
    } else {
        pieces.int_len as i128 + e as i128
    };
    assert(q == q_spec);
    if q <= first_nonzero as i128 {
        // a nonzero digit lies after the point
        return None;
    }
    let limit: u128 = 9007199254740991;
    if q < nd as i128 {
        let qu: usize = q as usize;
        let mut i: usize = qu;
        while i < nd
            invariant
                qu <= i <= nd == d@.len(),
                qu == q_spec,
                forall|j: int| qu <= j < i ==> #[trigger] d@[j] == '0',
            decreases nd - i,
        {
            if d[i] != '0' {
                return None;
            }
            i += 1;
        }
        assert(all_digits(d@.subrange(0, qu as int)));
        assert(d@.subrange(0, qu as int) =~= d@.take(qu as int));
        return match digits_value_upto(d.as_slice(), 0, qu, limit) {
            Some(n) => Some(
                if negative {
                    -(n as i64)
                } else {
                    n as i64
                },
            ),
            None => None,
        };
    }
    assert(d@.subrange(0, nd as int) =~= d@);
    proof {
        lemma_whole_value_shifted(d@, q_spec);
    }
    let n0 = match digits_value_upto(d.as_slice(), 0, nd, limit) {
        Some(n) => n,
        None => {
            assert(digits_value(d@) > limit);
            assert(whole_value(d@, q_spec) matches Some(w) && w >= exact_float_bound());
            return None;
        },
    };
    let shift: u128 = (q - nd as i128) as u128;
    match scale_by_pow10(n0, shift, limit, Ghost(digits_value(d@))) {
        Some(n) => Some(
            if negative {
                -(n as i64)
            } else {
                n as i64
            },
        ),
        None => None,
    }
}

pub proof fn lemma_pow10_adds(a: nat, b: nat)
    ensures
        pow10(a + b) == pow10(a) * pow10(b),
    decreases a,
{
    if a > 0 {
        let a1 = (a - 1) as nat;
        lemma_pow10_adds(a1, b);
        assert((a + b) as nat - 1 == a1 + b);
        assert(pow10(a + b) == 10 * pow10(a1 + b));
        assert(pow10(a) == 10 * pow10(a1));
        let x = pow10(a1);
        let y = pow10(b);
        assert(10 * (x * y) == (10 * x) * y) by (nonlinear_arith);
    } else {
        assert(pow10(0) == 1);
        assert(a + b == b);
    }
}

/// Lenient integer reading, see [`lenient_int`]: accepts `20`, and the
/// decimal forms `20.0` and `1e10`; surrounding white space is ignored.
/// Where [`settled_int`] does not hold it reads the exact value, which is
/// not a whole number, and gives `None`.
pub fn read_lenient_int(text: &str) -> (r: Option<i64>)
    ensures
        settled_int(text@) ==> r == lenient_int(text@),
{
    let v = crate::text::chars_of(text);
    let (from, to) = trim_bounds(v.as_slice());
    let t = vstd::slice::slice_subrange(v.as_slice(), from, to);
    assert(t@ == trim(text@));
    match crate::text::read_signed_decimal(t, 9223372036854775808u128) {
        Some((neg, m)) => {
            if !neg && m <= 9223372036854775807u128 {
                return Some(m as i64);
            }
            if neg {
                if m == 9223372036854775808u128 {
                    return Some(i64::MIN);
                }
                return Some(-(m as i64));
            }
        },
        None => {},
    }
    decimal_whole(t)
}

proof fn lemma_trim_unchanged(s: Seq<char>)
    requires
        s.len() > 0,
        !crate::text::is_white_space(s[0]),
        !crate::text::is_white_space(s.last()),
    ensures
        trim(s) == s,
{
}

proof fn lemma_digit_run_to(s: Seq<char>, k: int, e: int)
    requires
        0 <= k <= e <= s.len(),
        forall|i: int| k <= i < e ==> is_digit(#[trigger] s[i]),
        e == s.len() || !is_digit(s[e]),
    ensures
        digit_run_end(s, k) == e,
    decreases e - k,
{
    if k < e {
        lemma_digit_run_to(s, k + 1, e);
    }
}

/// A whole number written with a decimal point and a zero fraction
/// (`20.0`), below `2^53`, reads as that integer, and the reading is
/// settled: it is what parsing it as an `f64` gives.
pub proof fn law_whole_decimal_reads(d: Seq<char>)
    requires
        d.len() > 0,
        all_digits(d),
        digits_value(d) < exact_float_bound(),
    ensures
        settled_int(d + ".0"@),
        lenient_int(d + ".0"@) == Some(digits_value(d) as i64),
{
    reveal_strlit(".0");
    let s = d + ".0"@;
    let n = d.len() as int;
    assert(s.len() == n + 2);
    assert(s[n] == '.' && s[n + 1] == '0');
    assert forall|i: int| 0 <= i < n implies s[i] == d[i] by {}
    assert(!crate::text::is_white_space(s[0])) by {
        assert(s[0] == d[0]);
        assert(is_digit(d[0]));
    }
    assert(!crate::text::is_white_space(s.last()));
    lemma_trim_unchanged(s);
    assert(!(s[0] == '+' || s[0] == '-')) by {
        assert(is_digit(d[0]));
    }
    assert(!all_digits(s)) by {
        assert(!is_digit(s[n]));
    }
    assert(signed_decimal(s) is None);
    lemma_digit_run_to(s, 0, n);
    lemma_digit_run_to(s, n + 1, n + 2);
    assert(s.subrange(0, n) =~= d);
    assert(s.subrange(n + 1, n + 2) =~= seq!['0']);
    let p = decimal_number(s)->Some_0;
    assert(decimal_number(s) is Some);
    assert(p.int_digits == d && p.frac_digits == seq!['0'] && p.exponent == 0);
    let all = d + seq!['0'];
    assert(all.take(n) =~= d);
    assert(forall|i: int| 0 <= i < all.len() && i >= n ==> #[trigger] all[i] == '0');
    assert(whole_value(all, n) == Some(digits_value(d)));
}

} // verus!
