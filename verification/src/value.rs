//! Value representation and the [`FromField`] / [`IntoValue`] conversion
//! traits.

use vstd::prelude::*;

use crate::number::{lenient_int, read_lenient_int, settled_int};
use crate::text::{chars_of, eq_ignore_ascii_case, names_match, push_char, trim, trim_bounds};

verus! {

/// A keyword value together with how it should be serialized.
///
/// XISF stores FITS keyword values with FITS formatting conventions: string
/// values are single-quoted, everything else (numbers, logicals) is bare. The
/// distinction is preserved so a value round-trips as the same kind it was.
#[derive(Debug, Clone, PartialEq, Eq)]
pub enum Value {
    /// A string value (serialized single-quoted).
    Str(String),
    /// A bare literal — number, logical, or any pre-formatted token.
    Literal(String),
}

/// The mathematical meaning of a [`Value`]: whether it is a (quoted) string
/// value, and its text.
pub struct ValueView {
    pub quoted: bool,
    pub text: Seq<char>,
}

impl View for Value {
    type V = ValueView;

    open spec fn view(&self) -> ValueView {
        match self {
            Value::Str(s) => ValueView { quoted: true, text: s@ },
            Value::Literal(s) => ValueView { quoted: false, text: s@ },
        }
    }
}

impl Value {
    /// The underlying text, regardless of kind.
    pub fn text(&self) -> (r: &str)
        ensures
            r@ == self@.text,
    {
        match self {
            Value::Str(s) => s.as_str(),
            Value::Literal(s) => s.as_str(),
        }
    }

    /// A copy of this value.
    pub fn duplicate(&self) -> (r: Value)
        ensures
            r@ == self@,
    {
        match self {
            Value::Str(s) => Value::Str(s.clone()),
            Value::Literal(s) => Value::Literal(s.clone()),
        }
    }
}

impl Default for Value {
    fn default() -> (r: Value)
        ensures
            r@ == (ValueView { quoted: true, text: Seq::empty() }),
    {
        Value::Str(String::new())
    }
}

/// Conversion into an owned `String` (for names, comments, ids and raw
/// property text).
pub trait IntoText {
    spec fn text_spec(&self) -> Seq<char>;

    fn into_text(self) -> (s: String)
        ensures
            s@ == self.text_spec(),
    ;
}

impl<'a> IntoText for &'a str {
    open spec fn text_spec(&self) -> Seq<char> {
        self@
    }

    fn into_text(self) -> (s: String) {
        self.to_owned()
    }
}

impl<'a> IntoText for &'a String {
    open spec fn text_spec(&self) -> Seq<char> {
        self@
    }

    fn into_text(self) -> (s: String) {
        self.clone()
    }
}

impl IntoText for String {
    open spec fn text_spec(&self) -> Seq<char> {
        self@
    }

    fn into_text(self) -> (s: String) {
        self
    }
}

/// The decimal digit character for `d < 10`.
pub open spec fn digit_char(d: nat) -> char {
    (d + 48) as char
}

/// The decimal text of `n` (no leading zeros).
pub open spec fn nat_text(n: nat) -> Seq<char>
    decreases n,
{
    if n < 10 {
        seq![digit_char(n)]
    } else {
        nat_text(n / 10).push(digit_char(n % 10))
    }
}

/// The decimal text of `n`, with a leading `-` when negative (what
/// `to_string` gives for Rust integers).
pub open spec fn int_text(n: int) -> Seq<char> {
    if n < 0 {
        seq!['-'] + nat_text((-n) as nat)
    } else {
        nat_text(n as nat)
    }
}

fn digit(d: u128) -> (c: char)
    requires
        d < 10,
    ensures
        c == digit_char(d as nat),
{
    match d {
        0 => '0',
        1 => '1',
        2 => '2',
        3 => '3',
        4 => '4',
        5 => '5',
        6 => '6',
        7 => '7',
        8 => '8',
        _ => '9',
    }
}

pub(crate) fn push_nat_text(s: &mut String, n: u128)
    ensures
        final(s)@ == old(s)@ + nat_text(n as nat),
    decreases n,
{
    if n >= 10 {
        push_nat_text(s, n / 10);
    }
    push_char(s, digit(n % 10));
    proof {
        if n >= 10 {
            assert(final(s)@ =~= old(s)@ + nat_text(n as nat));
        } else {
            assert(final(s)@ =~= old(s)@ + nat_text(n as nat));
        }
    }
}

/// The decimal text of an `i64`.
pub fn i64_text(n: i64) -> (s: String)
    ensures
        s@ == int_text(n as int),
{
    let mut s = String::new();
    if n < 0 {
        push_char(&mut s, '-');
        let m: u64 = if n == i64::MIN {
            9223372036854775808u64
        } else {
            (-n) as u64
        };
        push_nat_text(&mut s, m as u128);
        assert(s@ =~= int_text(n as int));
    } else {
        push_nat_text(&mut s, n as u128);
        assert(s@ =~= int_text(n as int));
    }
    s
}

/// The decimal text of a `usize`.
pub fn usize_text(n: usize) -> (s: String)
    ensures
        s@ == nat_text(n as nat),
{
    let mut s = String::new();
    push_nat_text(&mut s, n as u128);
    assert(s@ =~= nat_text(n as nat));
    s
}

/// Produce a [`Value`] for a write, with the on-disk kind chosen by the Rust
/// type: strings become quoted string values, numbers and logicals become
/// bare literals. Use [`Literal`] for a pre-formatted token.
pub trait IntoValue {
    spec fn value_spec(&self) -> ValueView;

    /// Convert `self` into a serializable [`Value`].
    fn into_value(self) -> (v: Value)
        ensures
            v@ == self.value_spec(),
    ;
}

impl IntoValue for Value {
    open spec fn value_spec(&self) -> ValueView {
        self@
    }

    fn into_value(self) -> (v: Value) {
        self
    }
}

impl<'a> IntoValue for &'a str {
    open spec fn value_spec(&self) -> ValueView {
        ValueView { quoted: true, text: self@ }
    }

    fn into_value(self) -> (v: Value) {
        Value::Str(self.to_owned())
    }
}

impl IntoValue for String {
    open spec fn value_spec(&self) -> ValueView {
        ValueView { quoted: true, text: self@ }
    }

    fn into_value(self) -> (v: Value) {
        Value::Str(self)
    }
}

impl IntoValue for i64 {
    open spec fn value_spec(&self) -> ValueView {
        ValueView { quoted: false, text: int_text(*self as int) }
    }

    fn into_value(self) -> (v: Value) {
        Value::Literal(i64_text(self))
    }
}

impl IntoValue for u32 {
    open spec fn value_spec(&self) -> ValueView {
        ValueView { quoted: false, text: int_text(*self as int) }
    }

    fn into_value(self) -> (v: Value) {
        Value::Literal(i64_text(self as i64))
    }
}

/// The FITS logical literal for `b`: `T` or `F`.
pub open spec fn logical_text(b: bool) -> Seq<char> {
    if b {
        seq!['T']
    } else {
        seq!['F']
    }
}

impl IntoValue for bool {
    open spec fn value_spec(&self) -> ValueView {
        ValueView { quoted: false, text: logical_text(*self) }
    }

    fn into_value(self) -> (v: Value) {
        let mut s = String::new();
        push_char(&mut s, if self { 'T' } else { 'F' });
        assert(s@ =~= logical_text(self));
        Value::Literal(s)
    }
}

/// Write a value as a bare literal exactly as given (escape hatch for
/// pre-formatted or vendor-specific tokens).
#[derive(Debug, Clone)]
pub struct Literal(pub String);

impl IntoValue for Literal {
    open spec fn value_spec(&self) -> ValueView {
        ValueView { quoted: false, text: self.0@ }
    }

    fn into_value(self) -> (v: Value) {
        Value::Literal(self.0)
    }
}

} // verus!

verus! {

/// Interpret a keyword's value text as a Rust type.
///
/// This is the open extension point behind `Header::get`: implement it for
/// your own type to call `header.get::<MyType>(key)`. Returning `None` means
/// "the value cannot be read as this type" (treated as absence, never an
/// error).
pub trait FromField: Sized {
    /// `r` is what reading `text` as `Self` gives.
    spec fn reads_as(text: Seq<char>, r: Option<Self>) -> bool;

    /// Whether `text` can be read as `Self` at all.
    spec fn readable(text: Seq<char>) -> bool;

    /// Whether the reading of `text` is stated by `reads_as` and
    /// `readable`.
    spec fn settled(text: Seq<char>) -> bool;

    /// Parse the value text into `Self`, or `None` if it does not apply.
    fn from_field(text: &str) -> (r: Option<Self>)
        ensures
            Self::reads_as(text@, r),
            Self::settled(text@) ==> (r is Some <==> Self::readable(text@)),
    ;
}

impl FromField for String {
    /// A `String` reads the text verbatim.
    open spec fn reads_as(text: Seq<char>, r: Option<Self>) -> bool {
        r matches Some(s) && s@ == text
    }

    open spec fn readable(text: Seq<char>) -> bool {
        true
    }

    open spec fn settled(text: Seq<char>) -> bool {
        true
    }

    fn from_field(text: &str) -> (r: Option<Self>) {
        Some(text.to_owned())
    }
}

impl FromField for i64 {
    /// Where it is settled (see [`settled_int`]), an `i64` reads as the
    /// lenient integer.
    open spec fn reads_as(text: Seq<char>, r: Option<Self>) -> bool {
        settled_int(text) ==> r == lenient_int(text)
    }

    open spec fn readable(text: Seq<char>) -> bool {
        lenient_int(text) is Some
    }

    open spec fn settled(text: Seq<char>) -> bool {
        settled_int(text)
    }

    fn from_field(text: &str) -> (r: Option<Self>) {
        read_lenient_int(text)
    }
}

/// `u32` reading: the lenient integer, when it lies in `0..=u32::MAX`.
pub open spec fn lenient_u32(text: Seq<char>) -> Option<u32> {
    match lenient_int(text) {
        Some(n) if 0 <= n <= u32::MAX => Some(n as u32),
        _ => None,
    }
}

impl FromField for u32 {
    /// Where it is settled (see [`settled_int`]), a `u32` reads as the
    /// lenient integer in range.
    open spec fn reads_as(text: Seq<char>, r: Option<Self>) -> bool {
        settled_int(text) ==> r == lenient_u32(text)
    }

    open spec fn readable(text: Seq<char>) -> bool {
        lenient_u32(text) is Some
    }

    open spec fn settled(text: Seq<char>) -> bool {
        settled_int(text)
    }

    fn from_field(text: &str) -> (r: Option<Self>) {
        match read_lenient_int(text) {
            Some(n) => if 0 <= n && n <= 4294967295 {
                Some(n as u32)
            } else {
                None
            },
            None => None,
        }
    }
}

/// Logical reading of the trimmed text: `T`, `t`, `1` and any casing of
/// `true` are true; `F`, `f`, `0` and any casing of `false` are false.
pub open spec fn logical(text: Seq<char>) -> Option<bool> {
    let t = trim(text);
    if t == seq!['T'] || t == seq!['t'] || t == seq!['1'] {
        Some(true)
    } else if t == seq!['F'] || t == seq!['f'] || t == seq!['0'] {
        Some(false)
    } else if names_match(t, seq!['t', 'r', 'u', 'e']) {
        Some(true)
    } else if names_match(t, seq!['f', 'a', 'l', 's', 'e']) {
        Some(false)
    } else {
        None
    }
}

impl FromField for bool {
    open spec fn reads_as(text: Seq<char>, r: Option<Self>) -> bool {
        r == logical(text)
    }

    open spec fn readable(text: Seq<char>) -> bool {
        logical(text) is Some
    }

    open spec fn settled(text: Seq<char>) -> bool {
        true
    }

    fn from_field(text: &str) -> (r: Option<Self>) {
        let v = chars_of(text);
        let (from, to) = trim_bounds(v.as_slice());
        let t = vstd::slice::slice_subrange(v.as_slice(), from, to);
        let n = to - from;
        if n == 1 {
            let c = t[0];
            assert(t@ =~= seq![c]);
            if c == 'T' || c == 't' || c == '1' {
                return Some(true);
            }
            if c == 'F' || c == 'f' || c == '0' {
                return Some(false);
            }
        }
        let word_true = ['t', 'r', 'u', 'e'];
        let word_false = ['f', 'a', 'l', 's', 'e'];
        assert(word_true@ =~= seq!['t', 'r', 'u', 'e']);
        assert(word_false@ =~= seq!['f', 'a', 'l', 's', 'e']);
        if eq_ignore_ascii_case(t, &word_true) {
            return Some(true);
        }
        if eq_ignore_ascii_case(t, &word_false) {
            return Some(false);
        }
        proof {
            if n == 1 {
                assert(t@ =~= seq![t@[0]]);
            } else {
                assert(t@.len() != 1);
                assert(seq!['T'].len() == 1);
            }
        }
        None
    }
}

} // verus!

verus! {

pub(crate) proof fn lemma_nat_text(m: nat)
    ensures
        nat_text(m).len() >= 1,
        crate::text::all_digits(nat_text(m)),
        crate::text::digits_value(nat_text(m)) == m,
    decreases m,
{
    let d = m % 10;
    assert(crate::text::digit_value(digit_char(d)) == d);
    if m >= 10 {
        lemma_nat_text(m / 10);
        let t = nat_text(m / 10);
        assert(nat_text(m).drop_last() =~= t);
        assert(nat_text(m).last() == digit_char(d));
        assert((m / 10) * 10 + d == m);
        assert(crate::text::digits_value(nat_text(m)) == crate::text::digits_value(t) * 10
            + crate::text::digit_value(digit_char(d)));
        assert forall|i: int| 0 <= i < nat_text(m).len() implies crate::text::is_digit(#[trigger] nat_text(m)[i]) by {
            if i < t.len() {
                assert(nat_text(m)[i] == t[i]);
            }
        }
    } else {
        assert(nat_text(m).drop_last() =~= Seq::<char>::empty());
        assert(m % 10 == m);
        assert(crate::text::digits_value(Seq::<char>::empty()) == 0);
        assert(crate::text::digits_value(nat_text(m)) == crate::text::digit_value(digit_char(m)));
    }
}

proof fn lemma_trim_plain(s: Seq<char>)
    requires
        s.len() > 0,
        !crate::text::is_white_space(s[0]),
        !crate::text::is_white_space(s.last()),
    ensures
        crate::text::trim(s) == s,
{
}

/// An `i64` written as a keyword value reads back as the same `i64`.
pub proof fn law_i64_reads_back(n: i64)
    ensures
        settled_int(int_text(n as int)),
        lenient_int(int_text(n as int)) == Some(n),
{
    let t = int_text(n as int);
    if n < 0 {
        let m = (-n) as nat;
        lemma_nat_text(m);
        assert(t.drop_first() =~= nat_text(m));
        assert(t.last() == nat_text(m).last());
        assert(crate::text::is_digit(nat_text(m)[nat_text(m).len() - 1]));
    } else {
        lemma_nat_text(n as nat);
        assert(crate::text::is_digit(t[0]));
        assert(crate::text::is_digit(t[t.len() - 1]));
    }
    lemma_trim_plain(t);
}

/// A `u32` written as a keyword value reads back as the same `u32`.
pub proof fn law_u32_reads_back(n: u32)
    ensures
        settled_int(int_text(n as int)),
        lenient_u32(int_text(n as int)) == Some(n),
{
    law_i64_reads_back(n as i64);
}

/// A `bool` written as a keyword value (`T`/`F`) reads back as the same
/// `bool`.
pub proof fn law_bool_reads_back(b: bool)
    ensures
        logical(logical_text(b)) == Some(b),
{
    lemma_trim_plain(logical_text(b));
}

} // verus!

verus! {

/// A civil (time-zone-naive) date and time, as FITS `DATE-OBS` writes it.
#[derive(Debug, Clone, Copy, PartialEq, Eq)]
pub struct DateTime {
    pub year: i32,
    /// 1 to 12.
    pub month: u8,
    pub day: u8,
    pub hour: u8,
    pub minute: u8,
    pub second: u8,
    pub nanosecond: u32,
}

impl DateTime {
    /// The year.
    pub fn year(&self) -> (r: i32)
        ensures
            r == self.year,
    {
        self.year
    }

    /// The month, 1 to 12.
    pub fn month(&self) -> (r: u8)
        ensures
            r == self.month,
    {
        self.month
    }

    /// The day of the month.
    pub fn day(&self) -> (r: u8)
        ensures
            r == self.day,
    {
        self.day
    }

    /// The hour.
    pub fn hour(&self) -> (r: u8)
        ensures
            r == self.hour,
    {
        self.hour
    }

    /// The minute.
    pub fn minute(&self) -> (r: u8)
        ensures
            r == self.minute,
    {
        self.minute
    }

    /// The second.
    pub fn second(&self) -> (r: u8)
        ensures
            r == self.second,
    {
        self.second
    }

    /// The whole milliseconds within the second.
    pub fn millisecond(&self) -> (r: u32)
        ensures
            r == self.nanosecond / 1000000,
    {
        self.nanosecond / 1000000
    }
}

/// What `skymath::parse_date_obs` reads the text as, field by field of the
/// `time::PrimitiveDateTime` it returns, or `None` for its error (a
/// function of the text alone).
pub uninterp spec fn date_obs(text: Seq<char>) -> Option<DateTime>;

/// `skymath::parse_date_obs`: the FITS `DATE-OBS` reading of the text — an
/// ISO-8601 civil date/time with optional fractional seconds and `Z`, or a
/// bare calendar date at midnight — converted field by field.
#[verifier::external_body]
fn parse_date_obs(text: &str) -> (r: Option<DateTime>)
    ensures
        r == date_obs(text@),
{
    match skymath::parse_date_obs(text) {
        Ok(d) => {
            let (year, month, day) = d.to_calendar_date();
            let (hour, minute, second, nanosecond) = d.as_hms_nano();
            Some(DateTime { year, month: month as u8, day, hour, minute, second, nanosecond })
        },
        Err(_) => None,
    }
}

impl FromField for DateTime {
    /// A date/time reads as what `skymath::parse_date_obs` gives.
    open spec fn reads_as(text: Seq<char>, r: Option<Self>) -> bool {
        r == date_obs(text)
    }

    open spec fn readable(text: Seq<char>) -> bool {
        date_obs(text) is Some
    }

    open spec fn settled(text: Seq<char>) -> bool {
        true
    }

    fn from_field(text: &str) -> (r: Option<Self>) {
        parse_date_obs(text)
    }
}

/// A one-character text matches `w` ignoring ASCII case exactly when it
/// is `w` or its upper-case form.
proof fn lemma_one_letter(a: Seq<char>, w: char, up: char)
    requires
        'a' <= w <= 'z',
        up as u32 == w as u32 - 32,
    ensures
        names_match(a, seq![w]) <==> (a == seq![w] || a == seq![up]),
{
    if names_match(a, seq![w]) {
        assert(crate::text::fold(a[0]) == crate::text::fold(seq![w][0]));
        vstd::utf8::char_u32_cast(a[0], a[0] as u32);
        vstd::utf8::char_u32_cast(w, w as u32);
        vstd::utf8::char_u32_cast(up, up as u32);
        if 'A' <= a[0] && a[0] <= 'Z' {
            assert(a[0] as u32 == up as u32);
            assert(a =~= seq![up]);
        } else {
            assert(a[0] as u32 == w as u32);
            assert(a =~= seq![w]);
        }
    }
    if a == seq![up] {
        assert(crate::text::fold(a[0]) == crate::text::fold(seq![w][0]));
    }
    if a == seq![w] {
        assert(crate::text::fold(a[0]) == crate::text::fold(seq![w][0]));
    }
}

/// A one-character text matches a digit ignoring ASCII case exactly when
/// it is that digit.
proof fn lemma_one_digit(a: Seq<char>, d: char)
    requires
        '0' <= d <= '9',
    ensures
        names_match(a, seq![d]) <==> a == seq![d],
{
    if names_match(a, seq![d]) {
        assert(crate::text::fold(a[0]) == crate::text::fold(seq![d][0]));
        vstd::utf8::char_u32_cast(a[0], a[0] as u32);
        vstd::utf8::char_u32_cast(d, d as u32);
        assert(a[0] as u32 == d as u32);
        assert(a =~= seq![d]);
    }
    if a == seq![d] {
        assert(crate::text::fold(a[0]) == crate::text::fold(seq![d][0]));
    }
}

/// Matching ignoring ASCII case is symmetric and transitive.
proof fn lemma_match_same_class(x: Seq<char>, a: Seq<char>, b: Seq<char>)
    requires
        names_match(a, b),
    ensures
        names_match(x, a) == names_match(x, b),
        names_match(a, x) == names_match(b, x),
{
    if names_match(x, a) {
        assert forall|i: int| 0 <= i < x.len() implies #[trigger] crate::text::fold(x[i])
            == crate::text::fold(b[i]) by {
            assert(crate::text::fold(x[i]) == crate::text::fold(a[i]));
            assert(crate::text::fold(a[i]) == crate::text::fold(b[i]));
        }
    }
    if names_match(x, b) {
        assert forall|i: int| 0 <= i < x.len() implies #[trigger] crate::text::fold(x[i])
            == crate::text::fold(a[i]) by {
            assert(crate::text::fold(x[i]) == crate::text::fold(b[i]));
            assert(crate::text::fold(a[i]) == crate::text::fold(b[i]));
        }
    }
    if names_match(a, x) {
        assert forall|i: int| 0 <= i < b.len() implies #[trigger] crate::text::fold(b[i])
            == crate::text::fold(x[i]) by {
            assert(crate::text::fold(a[i]) == crate::text::fold(x[i]));
            assert(crate::text::fold(a[i]) == crate::text::fold(b[i]));
        }
    }
    if names_match(b, x) {
        assert forall|i: int| 0 <= i < a.len() implies #[trigger] crate::text::fold(a[i])
            == crate::text::fold(x[i]) by {
            assert(crate::text::fold(b[i]) == crate::text::fold(x[i]));
            assert(crate::text::fold(a[i]) == crate::text::fold(b[i]));
        }
    }
}

/// A text reads as a `bool` by its trimmed form's words alone, any ASCII
/// casing: `true` and `t` (any casing) and `1` read as true; `false` and
/// `f` (any casing) and `0` read as false; nothing else reads.
pub proof fn law_bool_words(t: Seq<char>)
    ensures
        logical(t) == Some(true) <==> (names_match(trim(t), "true"@) || names_match(trim(t), "t"@) || trim(t)
            == "1"@),
        logical(t) == Some(false) <==> (names_match(trim(t), "false"@) || names_match(trim(t), "f"@) || trim(t)
            == "0"@),
{
    reveal_strlit("true");
    reveal_strlit("false");
    reveal_strlit("t");
    reveal_strlit("f");
    reveal_strlit("1");
    reveal_strlit("0");
    let a = trim(t);
    lemma_one_letter(a, 't', 'T');
    lemma_one_letter(a, 'f', 'F');
    lemma_one_digit(a, '1');
    lemma_one_digit(a, '0');
    assert("true"@ =~= seq!['t', 'r', 'u', 'e']);
    assert("false"@ =~= seq!['f', 'a', 'l', 's', 'e']);
    assert("t"@ =~= seq!['t']);
    assert("f"@ =~= seq!['f']);
    assert("1"@ =~= seq!['1']);
    assert("0"@ =~= seq!['0']);
    if a.len() == 1 {
        let c = a[0];
        assert(a =~= seq![c]);
        assert(seq![c][0] == c);
        assert(seq!['T'][0] == 'T' && seq!['t'][0] == 't' && seq!['1'][0] == '1');
        assert(seq!['F'][0] == 'F' && seq!['f'][0] == 'f' && seq!['0'][0] == '0');
    }
}

/// Reading a `bool` ignores ASCII case: two texts whose trimmed forms
/// match ignoring case read alike.
pub proof fn law_bool_reading_ignores_case(t: Seq<char>, u: Seq<char>)
    requires
        names_match(trim(t), trim(u)),
    ensures
        logical(t) == logical(u),
{
    law_bool_words(t);
    law_bool_words(u);
    reveal_strlit("true");
    reveal_strlit("false");
    reveal_strlit("t");
    reveal_strlit("f");
    reveal_strlit("1");
    reveal_strlit("0");
    let a = trim(t);
    let b = trim(u);
    lemma_match_same_class("true"@, a, b);
    lemma_match_same_class("false"@, a, b);
    lemma_match_same_class("t"@, a, b);
    lemma_match_same_class("f"@, a, b);
    lemma_one_digit(a, '1');
    lemma_one_digit(b, '1');
    lemma_one_digit(a, '0');
    lemma_one_digit(b, '0');
    lemma_match_same_class(seq!['1'], a, b);
    lemma_match_same_class(seq!['0'], a, b);
    assert("1"@ =~= seq!['1']);
    assert("0"@ =~= seq!['0']);
}

} // verus!
