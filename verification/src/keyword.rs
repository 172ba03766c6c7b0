//! The [`FitsKeyword`] record.

use vstd::prelude::*;

use crate::text::chars_of;
use crate::value::{FromField, IntoText, IntoValue, Value, ValueView};

verus! {

/// A single FITS keyword extracted from (or destined for) an XISF header:
/// a name, a value, and a comment (empty when absent).
///
/// The value's on-disk kind (quoted string vs. bare literal) is preserved;
/// see [`IntoValue`] for how the kind is chosen when you write one.
#[derive(Debug, Clone, PartialEq, Eq, Default)]
pub struct FitsKeyword {
    /// The keyword name (e.g. `EXPTIME`), kept verbatim.
    pub name: String,
    /// The keyword value.
    pub value: Value,
    /// The keyword comment (empty when absent).
    pub comment: String,
}

/// The mathematical meaning of a [`FitsKeyword`].
pub struct KeywordView {
    pub name: Seq<char>,
    pub value: ValueView,
    pub comment: Seq<char>,
}

impl View for FitsKeyword {
    type V = KeywordView;

    open spec fn view(&self) -> KeywordView {
        KeywordView { name: self.name@, value: self.value@, comment: self.comment@ }
    }
}

/// `HISTORY`, as characters.
pub open spec fn history_name() -> Seq<char> {
    seq!['H', 'I', 'S', 'T', 'O', 'R', 'Y']
}

/// `COMMENT`, as characters.
pub open spec fn comment_name() -> Seq<char> {
    seq!['C', 'O', 'M', 'M', 'E', 'N', 'T']
}

/// Whether `name` is a FITS commentary keyword (`HISTORY`/`COMMENT`), which
/// carries no FITS value, only free text. XISF represents that text in the
/// `comment` attribute with an empty `value`. The match is exact and
/// case-sensitive: only the canonical uppercase spellings count.
pub open spec fn commentary(name: Seq<char>) -> bool {
    name == history_name() || name == comment_name()
}

/// Executable [`commentary`].
pub fn is_commentary(name: &str) -> (r: bool)
    ensures
        r == commentary(name@),
{
    let v = chars_of(name);
    let history = ['H', 'I', 'S', 'T', 'O', 'R', 'Y'];
    let comment = ['C', 'O', 'M', 'M', 'E', 'N', 'T'];
    assert(history@ =~= history_name());
    assert(comment@ =~= comment_name());
    chars_equal(v.as_slice(), &history) || chars_equal(v.as_slice(), &comment)
}

/// Exact equality of two character slices.
pub fn chars_equal(a: &[char], b: &[char]) -> (r: bool)
    ensures
        r == (a@ == b@),
{
    if a.len() != b.len() {
        return false;
    }
    let mut i: usize = 0;
    while i < a.len()
        invariant
            a@.len() == b@.len(),
            0 <= i <= a@.len(),
            forall|j: int| 0 <= j < i ==> a@[j] == b@[j],
        decreases a.len() - i,
    {
        if a[i] != b[i] {
            return false;
        }
        i += 1;
    }
    assert(a@ =~= b@);
    true
}

/// Exact equality of two strings, by their characters.
pub fn same_text(a: &String, b: &String) -> (r: bool)
    ensures
        r == (a@ == b@),
{
    a.eq(b)
}

impl FitsKeyword {
    /// Create a keyword from its name, value, and comment.
    pub fn new(name: impl IntoText, value: impl IntoValue, comment: impl IntoText) -> (k: Self)
        ensures
            k@ == (KeywordView {
                name: name.text_spec(),
                value: value.value_spec(),
                comment: comment.text_spec(),
            }),
    {
        FitsKeyword { name: name.into_text(), value: value.into_value(), comment: comment.into_text() }
    }

    /// The value's raw text, regardless of kind.
    pub fn value_str(&self) -> (r: &str)
        ensures
            r@ == self@.value.text,
    {
        self.value.text()
    }

    /// Interpret the value as `T` (see [`FromField`]).
    pub fn get<T: FromField>(&self) -> (r: Option<T>)
        ensures
            T::reads_as(self@.value.text, r),
            T::settled(self@.value.text) ==> (r is Some <==> T::readable(self@.value.text)),
    {
        T::from_field(self.value.text())
    }

    /// A copy of this keyword.
    pub fn duplicate(&self) -> (r: Self)
        ensures
            r@ == self@,
    {
        FitsKeyword {
            name: self.name.clone(),
            value: self.value.duplicate(),
            comment: self.comment.clone(),
        }
    }

    /// Whether `self` and `other` have the same name, value (kind and text)
    /// and comment.
    pub fn same(&self, other: &FitsKeyword) -> (r: bool)
        ensures
            r == (self@ == other@),
    {
        let same_value = match (&self.value, &other.value) {
            (Value::Str(a), Value::Str(b)) => same_text(a, b),
            (Value::Literal(a), Value::Literal(b)) => same_text(a, b),
            _ => false,
        };
        same_text(&self.name, &other.name) && same_value && same_text(&self.comment, &other.comment)
    }
}

} // verus!
