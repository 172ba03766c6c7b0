//! The [`Header`] value, [`StructuralHints`], and the keyword/property API.

use vstd::prelude::*;
use vstd::std_specs::iter::IteratorSpec;

use crate::error::{is_ambiguous, is_out_of_range, Result, XisfError};
use crate::key::{IntoKey, Key, KeySpec};
use crate::keyword::{FitsKeyword, KeywordView};
use crate::property::{default_property, PropertyMap, PropertyView};
use crate::text::{chars_of, eq_ignore_ascii_case, names_match};
use crate::value::{FromField, IntoText, IntoValue, ValueView};

verus! {

/// Geometry hints used when serializing a standalone container. A [`Header`]
/// stores only keywords and properties, never image structure, so these
/// hints always supply the `<Image>` element's `geometry`, `sampleFormat`,
/// and `colorSpace`. Defaults to a minimal 1×1 8-bit grayscale image.
#[derive(Debug, Clone, PartialEq, Eq)]
pub struct StructuralHints {
    /// XISF `geometry` attribute, e.g. `"1:1:1"` (width:height:channels).
    pub geometry: String,
    /// XISF `sampleFormat`, e.g. `"UInt8"`.
    pub sample_format: String,
    /// XISF `colorSpace`, e.g. `"Gray"`.
    pub color_space: String,
}

impl Default for StructuralHints {
    /// A minimal 1×1 8-bit grayscale image: `1:1:1`, `UInt8`, `Gray`.
    fn default() -> (h: StructuralHints)
        ensures
            h.geometry@ == "1:1:1"@,
            h.sample_format@ == "UInt8"@,
            h.color_space@ == "Gray"@,
    {
        StructuralHints {
            geometry: "1:1:1".to_owned(),
            sample_format: "UInt8".to_owned(),
            color_space: "Gray".to_owned(),
        }
    }
}

/// A parsed XISF header: an ordered list of [`FitsKeyword`]s plus the XISF
/// `<Property>` elements keyed by id.
///
/// Keyword access is **strict**: a bare name must be unique, or the accessor
/// returns [`XisfError::Ambiguous`]. Repeated keywords are reached with an
/// `(name, n)` key or the `get_all`/`count` helpers. Names are compared
/// ASCII-case-insensitively. Keyword order is preserved; property iteration
/// is ordered by id, not document order.
///
/// This struct is an in-memory model only: mutating it changes nothing on
/// disk.
#[derive(Debug, Clone, PartialEq, Eq)]
pub struct Header {
    /// The keywords, in document order.
    pub keywords: Vec<FitsKeyword>,
    /// The properties, by id.
    pub properties: PropertyMap,
}

/// The mathematical meaning of a [`Header`].
pub struct HeaderView {
    pub keywords: Seq<KeywordView>,
    pub properties: Map<Seq<char>, PropertyView>,
}

impl View for Header {
    type V = HeaderView;

    open spec fn view(&self) -> HeaderView {
        HeaderView {
            keywords: self.keywords@.map_values(|k: FitsKeyword| k@),
            properties: self.properties@,
        }
    }
}

// ----- the strict keyword-addressing model ---------------------------------

/// How many keywords are named `name` (ASCII-case-insensitively).
pub open spec fn count_named(kws: Seq<KeywordView>, name: Seq<char>) -> nat
    decreases kws.len(),
{
    if kws.len() == 0 {
        0
    } else {
        count_named(kws.drop_last(), name) + if names_match(kws.last().name, name) {
            1nat
        } else {
            0nat
        }
    }
}

/// Keyword `i` is the `n`-th (0-based) keyword named `name`.
pub open spec fn is_occurrence(kws: Seq<KeywordView>, name: Seq<char>, n: nat, i: int) -> bool {
    &&& 0 <= i < kws.len()
    &&& names_match(kws[i].name, name)
    &&& count_named(kws.take(i), name) == n
}

/// The position of the `n`-th keyword named `name` (meaningful when
/// `n < count_named(kws, name)`).
pub open spec fn occurrence(kws: Seq<KeywordView>, name: Seq<char>, n: nat) -> int {
    choose|i: int| is_occurrence(kws, name, n, i)
}

/// What a key addresses in a keyword list.
pub enum Resolution {
    /// The keyword at this position.
    Found(int),
    /// No keyword has the name: absence, not an error.
    Absent,
    /// A bare name that occurs this many times.
    Ambiguous(nat),
    /// An occurrence index past the last of this many occurrences.
    OutOfRange(nat),
}

/// What `key` addresses in `kws`: a bare name must be unique; `(name, n)`
/// selects the `n`-th occurrence, and a name that is absent altogether is
/// absence rather than an error.
pub open spec fn resolve(kws: Seq<KeywordView>, key: KeySpec) -> Resolution {
    match key {
        KeySpec::Name(name) => {
            let c = count_named(kws, name);
            if c == 0 {
                Resolution::Absent
            } else if c == 1 {
                Resolution::Found(occurrence(kws, name, 0))
            } else {
                Resolution::Ambiguous(c)
            }
        },
        KeySpec::Nth(name, n) => {
            let c = count_named(kws, name);
            if n < c {
                Resolution::Found(occurrence(kws, name, n))
            } else if c == 0 {
                Resolution::Absent
            } else {
                Resolution::OutOfRange(c)
            }
        },
    }
}

/// `e` is the error a failed resolution of `key` reports.
pub open spec fn resolution_error(kws: Seq<KeywordView>, key: KeySpec, e: XisfError) -> bool {
    match resolve(kws, key) {
        Resolution::Ambiguous(c) => is_ambiguous(e, key.name(), c),
        Resolution::OutOfRange(c) => match key {
            KeySpec::Nth(name, n) => is_out_of_range(e, name, n, c),
            _ => false,
        },
        _ => false,
    }
}

/// The resolution is an error (ambiguity or a bad occurrence index).
pub open spec fn resolution_fails(kws: Seq<KeywordView>, key: KeySpec) -> bool {
    resolve(kws, key) is Ambiguous || resolve(kws, key) is OutOfRange
}

proof fn lemma_count_take_step(kws: Seq<KeywordView>, name: Seq<char>, i: int)
    requires
        0 <= i < kws.len(),
    ensures
        count_named(kws.take(i + 1), name) == count_named(kws.take(i), name) + if names_match(
            kws[i].name,
            name,
        ) {
            1nat
        } else {
            0nat
        },
{
    assert(kws.take(i + 1).drop_last() =~= kws.take(i));
}

proof fn lemma_count_take_monotone(kws: Seq<KeywordView>, name: Seq<char>, i: int, j: int)
    requires
        0 <= i <= j <= kws.len(),
    ensures
        count_named(kws.take(i), name) <= count_named(kws.take(j), name),
    decreases j - i,
{
    if i < j {
        lemma_count_take_monotone(kws, name, i, j - 1);
        lemma_count_take_step(kws, name, j - 1);
    }
}

proof fn lemma_occurrence_unique(kws: Seq<KeywordView>, name: Seq<char>, n: nat, i: int, j: int)
    requires
        is_occurrence(kws, name, n, i),
        is_occurrence(kws, name, n, j),
    ensures
        i == j,
{
    if i < j {
        lemma_count_take_step(kws, name, i);
        lemma_count_take_monotone(kws, name, i + 1, j);
    } else if j < i {
        lemma_count_take_step(kws, name, j);
        lemma_count_take_monotone(kws, name, j + 1, i);
    }
}

/// The `n`-th occurrence, once found, is what [`occurrence`] denotes.
pub proof fn lemma_occurrence_is(kws: Seq<KeywordView>, name: Seq<char>, n: nat, i: int)
    requires
        is_occurrence(kws, name, n, i),
    ensures
        occurrence(kws, name, n) == i,
{
    let j = occurrence(kws, name, n);
    lemma_occurrence_unique(kws, name, n, i, j);
}

/// An occurrence exists below the count.
pub proof fn lemma_occurrence_exists(kws: Seq<KeywordView>, name: Seq<char>, n: nat)
    requires
        n < count_named(kws, name),
    ensures
        is_occurrence(kws, name, n, occurrence(kws, name, n)),
    decreases kws.len(),
{
    let l = kws.len() - 1;
    assert(kws.take(kws.len() as int) =~= kws);
    assert(kws.take(l) =~= kws.drop_last());
    if n < count_named(kws.drop_last(), name) {
        lemma_occurrence_exists(kws.drop_last(), name, n);
        let i = occurrence(kws.drop_last(), name, n);
        assert(kws.drop_last().take(i) =~= kws.take(i));
        assert(is_occurrence(kws, name, n, i));
    } else {
        assert(is_occurrence(kws, name, n, l));
    }
}

/// Where `key` resolves in the list: position, or `None` for absence; an
/// error for an ambiguous bare name or a bad occurrence index.
fn resolve_in(kws: &Vec<FitsKeyword>, key: Key) -> (r: Result<Option<usize>>)
    ensures
        ({
            let kv = kws@.map_values(|k: FitsKeyword| k@);
            match resolve(kv, key@) {
                Resolution::Found(i) => r matches Ok(Some(j)) && j == i && 0 <= i < kv.len(),
                Resolution::Absent => r matches Ok(None),
                _ => r matches Err(e) && resolution_error(kv, key@, e),
            }
        }),
{
    let ghost kv = kws@.map_values(|k: FitsKeyword| k@);
    let name_str = key.name();
    let name = chars_of(name_str);
    let want: usize = match key {
        Key::Name(_) => 0,
        Key::Nth(_, n) => n,
    };
    let mut seen: usize = 0;
    let mut found: Option<usize> = None;
    let mut i: usize = 0;
    while i < kws.len()
        invariant
            0 <= i <= kws@.len() == kv.len(),
            kv == kws@.map_values(|k: FitsKeyword| k@),
            name@ == key@.name(),
            seen == count_named(kv.take(i as int), name@),
            seen <= i,
            want == (match key@ {
                KeySpec::Name(_) => 0nat,
                KeySpec::Nth(_, n) => n,
            }),
            match found {
                Some(f) => seen > want && is_occurrence(kv, name@, want as nat, f as int),
                None => seen <= want,
            },
        decreases kws.len() - i,
    {
        let kname = chars_of(kws[i].name.as_str());
        proof {
            lemma_count_take_step(kv, name@, i as int);
        }
        if eq_ignore_ascii_case(kname.as_slice(), name.as_slice()) {
            if seen == want {
                found = Some(i);
            }
            seen += 1;
        }
        i += 1;
    }
    assert(kv.take(kv.len() as int) =~= kv);
    match key {
        Key::Name(n) => {
            if seen > 1 {
                return Err(XisfError::Ambiguous { name: n.to_owned(), count: seen });
            }
        },
        Key::Nth(n, idx) => {
            if found.is_none() && seen > 0 {
                return Err(XisfError::IndexOutOfRange { name: n.to_owned(), index: idx, count: seen });
            }
        },
    }
    proof {
        if let Some(f) = found {
            lemma_occurrence_is(kv, name@, want as nat, f as int);
        }
    }
    Ok(found)
}


// ----- identifier rules ------------------------------------------------------

/// Why an identifier is rejected.
pub enum NameProblem {
    Empty,
    TooLong,
    BadKeywordChar,
    BadPropertyChar,
}

/// The `reason` text reported for each problem.
pub open spec fn name_reason(p: NameProblem) -> Seq<char> {
    match p {
        NameProblem::Empty => "empty"@,
        NameProblem::TooLong => "exceeds 8 characters"@,
        NameProblem::BadKeywordChar => "must be ASCII letters, digits, `-`, or `_`"@,
        NameProblem::BadPropertyChar => "property id must be ASCII alphanumeric, `_`, or `:`"@,
    }
}

pub open spec fn is_ascii_alphanumeric(b: u8) -> bool {
    (48 <= b <= 57) || (65 <= b <= 90) || (97 <= b <= 122)
}

/// A byte allowed in a FITS keyword name: ASCII letter, digit, `-` or `_`.
pub open spec fn keyword_byte(b: u8) -> bool {
    is_ascii_alphanumeric(b) || b == 45 || b == 95
}

/// A byte allowed in an XISF property id: ASCII letter, digit, `_` or `:`.
pub open spec fn property_id_byte(b: u8) -> bool {
    is_ascii_alphanumeric(b) || b == 95 || b == 58
}

/// Why `name` is not a valid keyword name (non-empty, at most 8 bytes of
/// UTF-8, every byte an ASCII letter, digit, `-` or `_`), if it is not.
pub open spec fn keyword_name_problem(name: Seq<char>) -> Option<NameProblem> {
    let b = vstd::utf8::encode_utf8(name);
    if b.len() == 0 {
        Some(NameProblem::Empty)
    } else if b.len() > 8 {
        Some(NameProblem::TooLong)
    } else if !(forall|i: int| 0 <= i < b.len() ==> keyword_byte(#[trigger] b[i])) {
        Some(NameProblem::BadKeywordChar)
    } else {
        None
    }
}

/// Why `id` is not a valid property id (non-empty, every byte an ASCII
/// letter, digit, `_` or `:`), if it is not.
pub open spec fn property_id_problem(id: Seq<char>) -> Option<NameProblem> {
    let b = vstd::utf8::encode_utf8(id);
    if b.len() == 0 {
        Some(NameProblem::Empty)
    } else if !(forall|i: int| 0 <= i < b.len() ==> property_id_byte(#[trigger] b[i])) {
        Some(NameProblem::BadPropertyChar)
    } else {
        None
    }
}

/// `e` rejects `name` for the problem `p`.
pub open spec fn rejects(e: XisfError, name: Seq<char>, p: NameProblem) -> bool {
    crate::error::is_invalid_name(e, name, name_reason(p))
}

fn all_bytes(b: &[u8], keyword: bool) -> (r: bool)
    ensures
        r == (forall|i: int|
            0 <= i < b@.len() ==> if keyword {
                keyword_byte(#[trigger] b@[i])
            } else {
                property_id_byte(b@[i])
            }),
{
    let mut i: usize = 0;
    while i < b.len()
        invariant
            0 <= i <= b@.len(),
            forall|j: int|
                0 <= j < i ==> if keyword {
                    keyword_byte(#[trigger] b@[j])
                } else {
                    property_id_byte(b@[j])
                },
        decreases b.len() - i,
    {
        let c = b[i];
        let alnum = (48 <= c && c <= 57) || (65 <= c && c <= 90) || (97 <= c && c <= 122);
        let ok = if keyword {
            alnum || c == 45 || c == 95
        } else {
            alnum || c == 95 || c == 58
        };
        if !ok {
            return false;
        }
        i += 1;
    }
    true
}

fn invalid(name: &str, reason: &'static str) -> (e: XisfError)
    ensures
        e matches XisfError::InvalidName { name: n, reason: r } && n@ == name@ && r == reason,
{
    XisfError::InvalidName { name: name.to_owned(), reason }
}

impl Header {
    /// Check a FITS keyword name.
    pub fn validate_name(name: &str) -> (r: Result<()>)
        ensures
            match keyword_name_problem(name@) {
                None => r is Ok,
                Some(p) => r matches Err(e) && rejects(e, name@, p),
            },
    {
        let b = name.as_bytes();
        if b.len() == 0 {
            proof {
                reveal_strlit("empty");
            }
            return Err(invalid(name, "empty"));
        }
        if b.len() > 8 {
            proof {
                reveal_strlit("exceeds 8 characters");
            }
            return Err(invalid(name, "exceeds 8 characters"));
        }
        if !all_bytes(b, true) {
            proof {
                reveal_strlit("must be ASCII letters, digits, `-`, or `_`");
            }
            return Err(invalid(name, "must be ASCII letters, digits, `-`, or `_`"));
        }
        Ok(())
    }

    /// Check an XISF property id.
    pub fn validate_property_id(id: &str) -> (r: Result<()>)
        ensures
            match property_id_problem(id@) {
                None => r is Ok,
                Some(p) => r matches Err(e) && rejects(e, id@, p),
            },
    {
        let b = id.as_bytes();
        if b.len() == 0 {
            proof {
                reveal_strlit("empty");
            }
            return Err(invalid(id, "empty"));
        }
        if !all_bytes(b, false) {
            proof {
                reveal_strlit("property id must be ASCII alphanumeric, `_`, or `:`");
            }
            return Err(invalid(id, "property id must be ASCII alphanumeric, `_`, or `:`"));
        }
        Ok(())
    }
}


// ----- reads -------------------------------------------------------------------

/// Positions of the keywords named `name` whose value reads as `T`, in
/// document order.
pub open spec fn readable_named<T: FromField>(kws: Seq<KeywordView>, name: Seq<char>) -> Seq<int>
    decreases kws.len(),
{
    if kws.len() == 0 {
        Seq::empty()
    } else {
        let r = readable_named::<T>(kws.drop_last(), name);
        if names_match(kws.last().name, name) && T::readable(kws.last().value.text) {
            r.push(kws.len() - 1)
        } else {
            r
        }
    }
}

/// Whether the reading as `T` of every value of the keywords named `name`
/// is settled (see [`FromField::settled`]).
pub open spec fn settled_named<T: FromField>(kws: Seq<KeywordView>, name: Seq<char>) -> bool {
    forall|i: int|
        0 <= i < kws.len() && names_match(#[trigger] kws[i].name, name) ==> T::settled(kws[i].value.text)
}

/// `r` is the outcome of a keyword lookup by `key` that, when found, relates
/// the keyword to the value by `found`.
pub open spec fn lookup_outcome<T>(
    kws: Seq<KeywordView>,
    key: KeySpec,
    r: Result<Option<T>>,
    found: spec_fn(KeywordView, T) -> bool,
) -> bool {
    match resolve(kws, key) {
        Resolution::Found(i) => r matches Ok(Some(v)) && found(kws[i], v),
        Resolution::Absent => r matches Ok(None),
        _ => r matches Err(e) && resolution_error(kws, key, e),
    }
}

impl Default for Header {
    fn default() -> (h: Header)
        ensures
            h@.keywords == Seq::<KeywordView>::empty(),
            h@.properties == Map::<Seq<char>, PropertyView>::empty(),
    {
        Header::new()
    }
}

impl Header {
    /// Create an empty header.
    pub fn new() -> (h: Self)
        ensures
            h@.keywords == Seq::<KeywordView>::empty(),
            h@.properties == Map::<Seq<char>, PropertyView>::empty(),
    {
        let h = Header { keywords: Vec::new(), properties: PropertyMap::new() };
        assert(h@.keywords =~= Seq::<KeywordView>::empty());
        h
    }

    fn resolve_key(&self, key: Key) -> (r: Result<Option<usize>>)
        ensures
            match resolve(self@.keywords, key@) {
                Resolution::Found(i) => r matches Ok(Some(j)) && j == i && 0 <= i
                    < self@.keywords.len(),
                Resolution::Absent => r matches Ok(None),
                _ => r matches Err(e) && resolution_error(self@.keywords, key@, e),
            },
    {
        resolve_in(&self.keywords, key)
    }

    /// Interpret the addressed keyword's value as `T`.
    ///
    /// `Ok(None)` when the keyword is absent or its value cannot be read as
    /// `T`; [`XisfError::Ambiguous`] when a bare name matches more than one
    /// keyword; [`XisfError::IndexOutOfRange`] for an `(name, n)` index past
    /// the last occurrence.
    pub fn get<'a, T: FromField>(&self, key: impl IntoKey<'a>) -> (r: Result<Option<T>>)
        ensures
            match resolve(self@.keywords, key.key_spec()) {
                Resolution::Found(i) => r matches Ok(v) && T::reads_as(
                    self@.keywords[i].value.text,
                    v,
                ),
                Resolution::Absent => r matches Ok(None),
                _ => r matches Err(e) && resolution_error(self@.keywords, key.key_spec(), e),
            },
    {
        let key = key.into_key();
        match self.resolve_key(key) {
            Err(e) => Err(e),
            Ok(None) => Ok(None),
            Ok(Some(i)) => {
                assert(self@.keywords[i as int] == self.keywords@[i as int]@);
                Ok(self.keywords[i].get::<T>())
            },
        }
    }

    /// The addressed keyword's raw value text.
    pub fn get_str<'a>(&self, key: impl IntoKey<'a>) -> (r: Result<Option<&str>>)
        ensures
            lookup_outcome(
                self@.keywords,
                key.key_spec(),
                r,
                |k: KeywordView, s: &str| s@ == k.value.text,
            ),
    {
        let key = key.into_key();
        match self.resolve_key(key) {
            Err(e) => Err(e),
            Ok(None) => Ok(None),
            Ok(Some(i)) => {
                assert(self@.keywords[i as int] == self.keywords@[i as int]@);
                Ok(Some(self.keywords[i].value_str()))
            },
        }
    }

    /// The addressed keyword's value as an `i64` (accepts `20` and `20.0`).
    pub fn get_i64<'a>(&self, key: impl IntoKey<'a>) -> (r: Result<Option<i64>>)
        ensures
            match resolve(self@.keywords, key.key_spec()) {
                Resolution::Found(i) => r matches Ok(v) && (crate::number::settled_int(
                    self@.keywords[i].value.text,
                ) ==> v == crate::number::lenient_int(self@.keywords[i].value.text)),
                Resolution::Absent => r matches Ok(None),
                _ => r matches Err(e) && resolution_error(self@.keywords, key.key_spec(), e),
            },
    {
        self.get::<i64>(key)
    }

    /// The addressed keyword's value as a `u32`.
    pub fn get_u32<'a>(&self, key: impl IntoKey<'a>) -> (r: Result<Option<u32>>)
        ensures
            match resolve(self@.keywords, key.key_spec()) {
                Resolution::Found(i) => r matches Ok(v) && (crate::number::settled_int(
                    self@.keywords[i].value.text,
                ) ==> v == crate::value::lenient_u32(self@.keywords[i].value.text)),
                Resolution::Absent => r matches Ok(None),
                _ => r matches Err(e) && resolution_error(self@.keywords, key.key_spec(), e),
            },
    {
        self.get::<u32>(key)
    }

    /// The addressed keyword's value as a `bool` (FITS `T`/`F`).
    pub fn get_bool<'a>(&self, key: impl IntoKey<'a>) -> (r: Result<Option<bool>>)
        ensures
            match resolve(self@.keywords, key.key_spec()) {
                Resolution::Found(i) => r == Ok::<Option<bool>, XisfError>(
                    crate::value::logical(self@.keywords[i].value.text),
                ),
                Resolution::Absent => r matches Ok(None),
                _ => r matches Err(e) && resolution_error(self@.keywords, key.key_spec(), e),
            },
    {
        self.get::<bool>(key)
    }

    /// The addressed keyword's value as a civil date/time (FITS `DATE-OBS`
    /// forms; a bare date reads as midnight).
    pub fn get_datetime<'a>(&self, key: impl IntoKey<'a>) -> (r: Result<Option<crate::value::DateTime>>)
        ensures
            match resolve(self@.keywords, key.key_spec()) {
                Resolution::Found(i) => r == Ok::<Option<crate::value::DateTime>, XisfError>(
                    crate::value::date_obs(self@.keywords[i].value.text),
                ),
                Resolution::Absent => r matches Ok(None),
                _ => r matches Err(e) && resolution_error(self@.keywords, key.key_spec(), e),
            },
    {
        self.get::<crate::value::DateTime>(key)
    }

    /// Every value for `name` (ASCII-case-insensitive), in order, that reads
    /// as `T` (stated where every such value's reading is settled).
    pub fn get_all<T: FromField>(&self, name: &str) -> (r: Vec<T>)
        ensures
            settled_named::<T>(self@.keywords, name@) ==> r@.len() == readable_named::<T>(
                self@.keywords,
                name@,
            ).len() && forall|j: int|
                0 <= j < r@.len() ==> T::reads_as(
                    self@.keywords[#[trigger] readable_named::<T>(self@.keywords, name@)[j]].value.text,
                    Some(r@[j]),
                ),
    {
        let ghost kv = self@.keywords;
        let want = chars_of(name);
        let mut out: Vec<T> = Vec::new();
        let mut i: usize = 0;
        while i < self.keywords.len()
            invariant
                0 <= i <= kv.len(),
                kv == self@.keywords,
                want@ == name@,
                settled_named::<T>(kv.take(i as int), name@) ==> out@.len() == readable_named::<T>(
                    kv.take(i as int),
                    name@,
                ).len() && forall|j: int|
                    0 <= j < out@.len() ==> 0 <= #[trigger] readable_named::<T>(kv.take(i as int), name@)[j] < i
                        && T::reads_as(
                        kv[readable_named::<T>(kv.take(i as int), name@)[j]].value.text,
                        Some(out@[j]),
                    ),
            decreases self.keywords.len() - i,
        {
            let ghost before = readable_named::<T>(kv.take(i as int), name@);
            assert(kv.take(i + 1).drop_last() =~= kv.take(i as int));
            assert(kv.take(i + 1).last() == kv[i as int]);
            proof {
                if settled_named::<T>(kv.take(i + 1), name@) {
                    assert forall|m: int|
                        0 <= m < kv.take(i as int).len() && names_match(
                            #[trigger] kv.take(i as int)[m].name,
                            name@,
                        ) implies T::settled(kv.take(i as int)[m].value.text) by {
                        assert(kv.take(i as int)[m] == kv.take(i + 1)[m]);
                    }
                }
            }
            let kname = chars_of(self.keywords[i].name.as_str());
            assert(kv[i as int] == self.keywords@[i as int]@);
            if eq_ignore_ascii_case(kname.as_slice(), want.as_slice()) {
                proof {
                    if settled_named::<T>(kv.take(i + 1), name@) {
                        assert(kv.take(i + 1)[i as int] == kv[i as int]);
                        assert(names_match(kv.take(i + 1)[i as int].name, name@));
                        assert(T::settled(kv[i as int].value.text));
                    }
                }
                match self.keywords[i].get::<T>() {
                    Some(v) => {
                        let ghost old_out = out@;
                        out.push(v);
                        proof {
                            if settled_named::<T>(kv.take(i + 1), name@) {
                                let after = readable_named::<T>(kv.take(i + 1), name@);
                                assert(after == before.push(i as int));
                                assert forall|j: int| 0 <= j < out@.len() implies 0 <= #[trigger] after[j]
                                    < i + 1 && T::reads_as(kv[after[j]].value.text, Some(out@[j])) by {
                                    if j < old_out.len() {
                                        assert(out@[j] == old_out[j]);
                                        assert(after[j] == before[j]);
                                    }
                                }
                            }
                        }
                    },
                    None => {},
                }
            }
            i += 1;
        }
        assert(kv.take(kv.len() as int) =~= kv);
        out
    }

    /// How many keywords carry `name` (ASCII-case-insensitive).
    pub fn count(&self, name: &str) -> (n: usize)
        ensures
            n == count_named(self@.keywords, name@),
    {
        let ghost kv = self@.keywords;
        let want = chars_of(name);
        let mut n: usize = 0;
        let mut i: usize = 0;
        while i < self.keywords.len()
            invariant
                0 <= i <= kv.len(),
                kv == self@.keywords,
                want@ == name@,
                n == count_named(kv.take(i as int), name@),
                n <= i,
            decreases self.keywords.len() - i,
        {
            proof {
                lemma_count_take_step(kv, name@, i as int);
            }
            let kname = chars_of(self.keywords[i].name.as_str());
            if eq_ignore_ascii_case(kname.as_slice(), want.as_slice()) {
                n += 1;
            }
            i += 1;
        }
        assert(kv.take(kv.len() as int) =~= kv);
        n
    }

    /// All keywords in document order.
    pub fn keywords(&self) -> (r: &[FitsKeyword])
        ensures
            r@.map_values(|k: FitsKeyword| k@) == self@.keywords,
    {
        self.keywords.as_slice()
    }

    /// Iterate the keywords in document order.
    pub fn iter(&self) -> (r: std::slice::Iter<'_, FitsKeyword>)
        ensures
            r.remaining().map_values(|k: &FitsKeyword| k@) == self@.keywords,
    {
        let s = self.keywords.as_slice();
        let r = s.iter();
        proof {
            vstd::std_specs::slice::axiom_spec_slice_iter(s);
            assert(r.remaining().map_values(|k: &FitsKeyword| k@) =~= self@.keywords);
        }
        r
    }
}


// ----- writes ------------------------------------------------------------------

/// `k` with value `v`.
pub open spec fn with_value(k: KeywordView, v: ValueView) -> KeywordView {
    KeywordView { value: v, ..k }
}

/// `k` with comment `c`.
pub open spec fn with_comment(k: KeywordView, c: Seq<char>) -> KeywordView {
    KeywordView { comment: c, ..k }
}

/// A new keyword `name = v` with an empty comment.
pub open spec fn fresh_keyword(name: Seq<char>, v: ValueView) -> KeywordView {
    KeywordView { name, value: v, comment: Seq::empty() }
}

/// The keywords after `set(key, v)`: the addressed keyword gets value `v`
/// (keeping its name and comment); an absent bare name with a valid keyword
/// name is appended with an empty comment. `None` when `set` fails.
pub open spec fn set_outcome(kws: Seq<KeywordView>, key: KeySpec, v: ValueView) -> Option<Seq<KeywordView>> {
    match resolve(kws, key) {
        Resolution::Found(i) => Some(kws.update(i, with_value(kws[i], v))),
        Resolution::Absent => match key {
            KeySpec::Name(n) => if keyword_name_problem(n) is None {
                Some(kws.push(fresh_keyword(n, v)))
            } else {
                None
            },
            KeySpec::Nth(_, _) => None,
        },
        _ => None,
    }
}

/// The position `set(key, _)` writes (when it succeeds).
pub open spec fn set_position(kws: Seq<KeywordView>, key: KeySpec) -> int {
    match resolve(kws, key) {
        Resolution::Found(i) => i,
        _ => kws.len() as int,
    }
}

/// `e` is the error `set(key, _)` reports: the resolution error, an invalid
/// name for a new keyword, or a missing occurrence (count 0) for an `(name,
/// n)` key whose name is absent.
pub open spec fn set_error(kws: Seq<KeywordView>, key: KeySpec, e: XisfError) -> bool {
    match resolve(kws, key) {
        Resolution::Absent => match key {
            KeySpec::Name(n) => keyword_name_problem(n) matches Some(p) && rejects(e, n, p),
            KeySpec::Nth(n, k) => is_out_of_range(e, n, k, 0),
        },
        _ => resolution_error(kws, key, e),
    }
}

/// The keywords after `remove(key)` (unchanged when the key is absent).
pub open spec fn remove_outcome(kws: Seq<KeywordView>, key: KeySpec) -> Seq<KeywordView> {
    match resolve(kws, key) {
        Resolution::Found(i) => kws.remove(i),
        _ => kws,
    }
}

/// The keywords without any named `name`.
pub open spec fn without_named(kws: Seq<KeywordView>, name: Seq<char>) -> Seq<KeywordView>
    decreases kws.len(),
{
    if kws.len() == 0 {
        kws
    } else {
        let r = without_named(kws.drop_last(), name);
        if names_match(kws.last().name, name) {
            r
        } else {
            r.push(kws.last())
        }
    }
}

proof fn lemma_view_update(kws: Vec<FitsKeyword>, old_kws: Vec<FitsKeyword>, i: int, k: FitsKeyword)
    requires
        0 <= i < old_kws@.len(),
        kws@ == old_kws@.update(i, k),
    ensures
        kws@.map_values(|k: FitsKeyword| k@) == old_kws@.map_values(|k: FitsKeyword| k@).update(i, k@),
{
    assert(kws@.map_values(|k: FitsKeyword| k@) =~= old_kws@.map_values(|k: FitsKeyword| k@).update(i, k@));
}

impl Header {
    fn write_value(&mut self, i: usize, value: crate::value::Value)
        requires
            i < old(self).keywords@.len(),
        ensures
            final(self)@.keywords == old(self)@.keywords.update(i as int, with_value(old(self)@.keywords[i as int], value@)),
            final(self)@.properties == old(self)@.properties,
    {
        let ghost before = self.keywords;
        self.keywords[i].value = value;
        proof {
            let k = self.keywords@[i as int];
            assert(self.keywords@ =~= before@.update(i as int, k));
            lemma_view_update(self.keywords, before, i as int, k);
        }
    }

    fn write_comment(&mut self, i: usize, comment: String)
        requires
            i < old(self).keywords@.len(),
        ensures
            final(self)@.keywords == old(self)@.keywords.update(i as int, with_comment(old(self)@.keywords[i as int], comment@)),
            final(self)@.properties == old(self)@.properties,
    {
        let ghost before = self.keywords;
        self.keywords[i].comment = comment;
        proof {
            let k = self.keywords@[i as int];
            assert(self.keywords@ =~= before@.update(i as int, k));
            lemma_view_update(self.keywords, before, i as int, k);
        }
    }

    fn push_keyword(&mut self, k: FitsKeyword)
        ensures
            final(self)@.keywords == old(self)@.keywords.push(k@),
            final(self)@.properties == old(self)@.properties,
    {
        self.keywords.push(k);
        assert(self@.keywords =~= old(self)@.keywords.push(k@));
    }

    /// Set a keyword's value: update in place when the key resolves, append
    /// (with an empty comment) when a bare name is absent. An existing
    /// comment is preserved. On error the header is unchanged.
    pub fn set<'a>(&mut self, key: impl IntoKey<'a>, value: impl IntoValue) -> (r: Result<()>)
        ensures
            match set_outcome(old(self)@.keywords, key.key_spec(), value.value_spec()) {
                Some(kws) => r is Ok && final(self)@.keywords == kws,
                None => r matches Err(e) && set_error(old(self)@.keywords, key.key_spec(), e)
                    && final(self)@.keywords == old(self)@.keywords,
            },
            final(self)@.properties == old(self)@.properties,
    {
        let key = key.into_key();
        let value = value.into_value();
        match self.resolve_key(key) {
            Err(e) => Err(e),
            Ok(Some(i)) => {
                self.write_value(i, value);
                Ok(())
            },
            Ok(None) => match key {
                Key::Name(name) => {
                    match Header::validate_name(name) {
                        Err(e) => {
                            return Err(e);
                        },
                        Ok(()) => {},
                    }
                    self.push_keyword(FitsKeyword { name: name.to_owned(), value, comment: String::new() });
                    Ok(())
                },
                Key::Nth(name, n) => Err(XisfError::IndexOutOfRange { name: name.to_owned(), index: n, count: 0 }),
            },
        }
    }

    /// Append a keyword unconditionally (allowing duplicate names). This is
    /// how commentary keywords such as `HISTORY` are built up.
    pub fn append(&mut self, name: &str, value: impl IntoValue) -> (r: Result<()>)
        ensures
            match keyword_name_problem(name@) {
                None => r is Ok && final(self)@.keywords == old(self)@.keywords.push(
                    fresh_keyword(name@, value.value_spec()),
                ),
                Some(p) => r matches Err(e) && rejects(e, name@, p) && final(self)@.keywords
                    == old(self)@.keywords,
            },
            final(self)@.properties == old(self)@.properties,
    {
        match Header::validate_name(name) {
            Err(e) => {
                return Err(e);
            },
            Ok(()) => {},
        }
        self.push_keyword(FitsKeyword { name: name.to_owned(), value: value.into_value(), comment: String::new() });
        Ok(())
    }

    /// Set (or clear, with `""`) the comment on the addressed keyword.
    /// Returns `true` if a keyword was found.
    pub fn set_comment<'a>(&mut self, key: impl IntoKey<'a>, comment: impl IntoText) -> (r: Result<bool>)
        ensures
            match resolve(old(self)@.keywords, key.key_spec()) {
                Resolution::Found(i) => r matches Ok(true) && final(self)@.keywords == old(
                    self,
                )@.keywords.update(i, with_comment(old(self)@.keywords[i], comment.text_spec())),
                Resolution::Absent => r matches Ok(false) && final(self)@.keywords == old(self)@.keywords,
                _ => r matches Err(e) && resolution_error(old(self)@.keywords, key.key_spec(), e)
                    && final(self)@.keywords == old(self)@.keywords,
            },
            final(self)@.properties == old(self)@.properties,
    {
        let key = key.into_key();
        match self.resolve_key(key) {
            Err(e) => Err(e),
            Ok(None) => Ok(false),
            Ok(Some(i)) => {
                self.write_comment(i, comment.into_text());
                Ok(true)
            },
        }
    }

    /// Remove the addressed keyword. Returns `true` if one was removed.
    pub fn remove<'a>(&mut self, key: impl IntoKey<'a>) -> (r: Result<bool>)
        ensures
            match resolve(old(self)@.keywords, key.key_spec()) {
                Resolution::Found(i) => r matches Ok(true),
                Resolution::Absent => r matches Ok(false),
                _ => r matches Err(e) && resolution_error(old(self)@.keywords, key.key_spec(), e),
            },
            final(self)@.keywords == remove_outcome(old(self)@.keywords, key.key_spec()),
            final(self)@.properties == old(self)@.properties,
    {
        let key = key.into_key();
        match self.resolve_key(key) {
            Err(e) => Err(e),
            Ok(None) => Ok(false),
            Ok(Some(i)) => {
                let _ = self.keywords.remove(i);
                assert(self@.keywords =~= old(self)@.keywords.remove(i as int));
                Ok(true)
            },
        }
    }
}


proof fn lemma_count_same_names(a: Seq<KeywordView>, b: Seq<KeywordView>, name: Seq<char>)
    requires
        a.len() == b.len(),
        forall|i: int| 0 <= i < a.len() ==> #[trigger] a[i].name == b[i].name,
    ensures
        count_named(a, name) == count_named(b, name),
    decreases a.len(),
{
    if a.len() > 0 {
        lemma_count_same_names(a.drop_last(), b.drop_last(), name);
    }
}

/// Two lists with the same names, position by position, resolve every key
/// alike.
pub proof fn lemma_resolve_same_names(a: Seq<KeywordView>, b: Seq<KeywordView>, key: KeySpec)
    requires
        a.len() == b.len(),
        forall|i: int| 0 <= i < a.len() ==> #[trigger] a[i].name == b[i].name,
    ensures
        resolve(a, key) == resolve(b, key),
{
    let name = key.name();
    lemma_count_same_names(a, b, name);
    assert forall|j: int| 0 <= j <= a.len() implies count_named(#[trigger] a.take(j), name) == count_named(b.take(j), name) by {
        lemma_count_same_names(a.take(j), b.take(j), name);
    }
    let n: nat = match key {
        KeySpec::Name(_) => 0,
        KeySpec::Nth(_, k) => k,
    };
    if n < count_named(a, name) {
        lemma_occurrence_exists(a, name, n);
        let i = occurrence(a, name, n);
        assert(a.take(i) == a.take(i));
        assert(count_named(a.take(i), name) == count_named(b.take(i), name));
        assert(is_occurrence(b, name, n, i));
        lemma_occurrence_is(b, name, n, i);
    }
}

proof fn lemma_set_then_resolve(kws: Seq<KeywordView>, key: KeySpec, v: ValueView)
    requires
        set_outcome(kws, key, v) is Some,
    ensures
        resolve(set_outcome(kws, key, v).unwrap(), key) == Resolution::Found(set_position(kws, key)),
        0 <= set_position(kws, key) < set_outcome(kws, key, v).unwrap().len(),
{
    let kws1 = set_outcome(kws, key, v).unwrap();
    let name = key.name();
    match resolve(kws, key) {
        Resolution::Found(i) => {
            let n: nat = match key {
                KeySpec::Name(_) => 0,
                KeySpec::Nth(_, k) => k,
            };
            lemma_occurrence_exists(kws, name, n);
            lemma_resolve_same_names(kws, kws1, key);
        },
        _ => {
            let l = kws.len() as int;
            assert(kws1.drop_last() =~= kws);
            assert(names_match(name, name));
            assert(kws1.take(l) =~= kws);
            assert(is_occurrence(kws1, name, 0, l));
            lemma_occurrence_is(kws1, name, 0, l);
        },
    }
}

proof fn lemma_without_named_len(kws: Seq<KeywordView>, name: Seq<char>)
    ensures
        without_named(kws, name).len() + count_named(kws, name) == kws.len(),
    decreases kws.len(),
{
    if kws.len() > 0 {
        lemma_without_named_len(kws.drop_last(), name);
    }
}

impl Header {
    /// Set a keyword's value and comment together (see [`Header::set`]).
    pub fn set_with_comment<'a>(&mut self, key: impl IntoKey<'a>, value: impl IntoValue, comment: impl IntoText) -> (r: Result<()>)
        ensures
            match set_outcome(old(self)@.keywords, key.key_spec(), value.value_spec()) {
                Some(kws) => r is Ok && final(self)@.keywords == kws.update(
                    set_position(old(self)@.keywords, key.key_spec()),
                    with_comment(kws[set_position(old(self)@.keywords, key.key_spec())], comment.text_spec()),
                ),
                None => r matches Err(e) && set_error(old(self)@.keywords, key.key_spec(), e)
                    && final(self)@.keywords == old(self)@.keywords,
            },
            final(self)@.properties == old(self)@.properties,
    {
        let key = key.into_key();
        let ghost kws0 = self@.keywords;
        let ghost v = value.value_spec();
        match self.set(key, value) {
            Err(e) => {
                return Err(e);
            },
            Ok(()) => {},
        }
        proof {
            lemma_set_then_resolve(kws0, key@, v);
        }
        match self.resolve_key(key) {
            Ok(Some(i)) => {
                self.write_comment(i, comment.into_text());
            },
            _ => {},
        }
        Ok(())
    }

    /// Remove every keyword named `name` (ASCII-case-insensitive). Returns
    /// how many were removed.
    pub fn remove_all(&mut self, name: &str) -> (n: usize)
        ensures
            final(self)@.keywords == without_named(old(self)@.keywords, name@),
            n == count_named(old(self)@.keywords, name@),
            final(self)@.properties == old(self)@.properties,
    {
        let ghost kv = self@.keywords;
        let want = chars_of(name);
        let mut kept: Vec<FitsKeyword> = Vec::new();
        let mut i: usize = 0;
        while i < self.keywords.len()
            invariant
                0 <= i <= kv.len(),
                kv == self@.keywords,
                want@ == name@,
                kept@.map_values(|k: FitsKeyword| k@) == without_named(kv.take(i as int), name@),
            decreases self.keywords.len() - i,
        {
            assert(kv.take(i + 1).drop_last() =~= kv.take(i as int));
            assert(kv[i as int] == self.keywords@[i as int]@);
            let kname = chars_of(self.keywords[i].name.as_str());
            if !eq_ignore_ascii_case(kname.as_slice(), want.as_slice()) {
                let k = self.keywords[i].duplicate();
                kept.push(k);
                assert(kept@.map_values(|k: FitsKeyword| k@) =~= without_named(kv.take(i + 1), name@));
            }
            i += 1;
        }
        assert(kv.take(kv.len() as int) =~= kv);
        proof {
            lemma_without_named_len(kv, name@);
        }
        let removed = self.keywords.len() - kept.len();
        self.keywords = kept;
        removed
    }
}


/// `set_many`'s write of one entry: update the first keyword named `name`,
/// or append `name = v` when there is none.
pub open spec fn upsert(kws: Seq<KeywordView>, name: Seq<char>, v: ValueView) -> Seq<KeywordView> {
    if count_named(kws, name) > 0 {
        let i = occurrence(kws, name, 0);
        kws.update(i, with_value(kws[i], v))
    } else {
        kws.push(fresh_keyword(name, v))
    }
}

/// The entries written in order, each by [`upsert`].
pub open spec fn upsert_all(kws: Seq<KeywordView>, es: Seq<(Seq<char>, ValueView)>) -> Seq<KeywordView>
    decreases es.len(),
{
    if es.len() == 0 {
        kws
    } else {
        upsert(upsert_all(kws, es.drop_last()), es.last().0, es.last().1)
    }
}

/// An entry of `set_many` is acceptable: a valid keyword name that is not
/// duplicated in the header.
pub open spec fn batch_entry_ok(kws: Seq<KeywordView>, name: Seq<char>) -> bool {
    keyword_name_problem(name) is None && count_named(kws, name) <= 1
}

/// `e` is the error for a rejected `set_many` entry: its name's problem, or
/// its ambiguity.
pub open spec fn batch_entry_error(kws: Seq<KeywordView>, name: Seq<char>, e: XisfError) -> bool {
    match keyword_name_problem(name) {
        Some(p) => rejects(e, name, p),
        None => is_ambiguous(e, name, count_named(kws, name)),
    }
}

/// `e` reports the first entry of `names` that `ok` rejects, as `err` says.
pub open spec fn first_rejection(
    names: Seq<Seq<char>>,
    ok: spec_fn(Seq<char>) -> bool,
    err: spec_fn(Seq<char>, XisfError) -> bool,
    e: XisfError,
) -> bool {
    exists|b: int|
        0 <= b < names.len() && (forall|j: int| 0 <= j < b ==> #[trigger] ok(names[j])) && !ok(
            names[b],
        ) && err(#[trigger] names[b], e)
}

/// `remove_many`'s removal of one name: the first keyword with that name.
pub open spec fn remove_first(kws: Seq<KeywordView>, name: Seq<char>) -> Seq<KeywordView> {
    if count_named(kws, name) > 0 {
        kws.remove(occurrence(kws, name, 0))
    } else {
        kws
    }
}

/// The names removed in order, each by [`remove_first`].
pub open spec fn remove_firsts(kws: Seq<KeywordView>, names: Seq<Seq<char>>) -> Seq<KeywordView>
    decreases names.len(),
{
    if names.len() == 0 {
        kws
    } else {
        remove_first(remove_firsts(kws, names.drop_last()), names.last())
    }
}

/// How many of the names in order find a keyword to remove.
pub open spec fn removal_count(kws: Seq<KeywordView>, names: Seq<Seq<char>>) -> nat
    decreases names.len(),
{
    if names.len() == 0 {
        0
    } else {
        removal_count(kws, names.drop_last()) + if count_named(
            remove_firsts(kws, names.drop_last()),
            names.last(),
        ) > 0 {
            1nat
        } else {
            0nat
        }
    }
}

impl Header {
    /// The first keyword named `name`, if any.
    fn first_index(&self, name: &str) -> (r: Option<usize>)
        ensures
            match r {
                Some(i) => count_named(self@.keywords, name@) > 0 && i == occurrence(
                    self@.keywords,
                    name@,
                    0,
                ) && i < self@.keywords.len(),
                None => count_named(self@.keywords, name@) == 0,
            },
    {
        match self.resolve_key(Key::Nth(name, 0)) {
            Ok(Some(i)) => Some(i),
            _ => None,
        }
    }

    /// Apply several single-keyword upserts atomically: validate every entry
    /// first (a valid keyword name, not duplicated in the header), then
    /// write all of them in order — or, on any rejection, none.
    pub fn set_many<'a, V: IntoValue>(&mut self, entries: Vec<(&'a str, V)>) -> (r: Result<()>)
        ensures
            ({
                let kws = old(self)@.keywords;
                let names = entries@.map_values(|e: (&'a str, V)| e.0@);
                let es = entries@.map_values(|e: (&'a str, V)| (e.0@, e.1.value_spec()));
                if forall|j: int| 0 <= j < names.len() ==> batch_entry_ok(kws, #[trigger] names[j]) {
                    r is Ok && final(self)@.keywords == upsert_all(kws, es)
                } else {
                    r matches Err(e) && first_rejection(
                        names,
                        |n: Seq<char>| batch_entry_ok(kws, n),
                        |n: Seq<char>, e: XisfError| batch_entry_error(kws, n, e),
                        e,
                    ) && final(self)@.keywords == kws
                }
            }),
            final(self)@.properties == old(self)@.properties,
    {
        let ghost kws = self@.keywords;
        let ghost names = entries@.map_values(|e: (&'a str, V)| e.0@);
        let ghost es = entries@.map_values(|e: (&'a str, V)| (e.0@, e.1.value_spec()));
        let ghost ok = |n: Seq<char>| batch_entry_ok(kws, n);
        let ghost err = |n: Seq<char>, e: XisfError| batch_entry_error(kws, n, e);
        let mut j: usize = 0;
        while j < entries.len()
            invariant
                0 <= j <= entries@.len() == names.len(),
                kws == self@.keywords,
                names == entries@.map_values(|e: (&'a str, V)| e.0@),
                ok == (|n: Seq<char>| batch_entry_ok(kws, n)),
                err == (|n: Seq<char>, e: XisfError| batch_entry_error(kws, n, e)),
                forall|k: int| 0 <= k < j ==> #[trigger] ok(names[k]),
            decreases entries.len() - j,
        {
            let name = entries[j].0;
            assert(names[j as int] == name@);
            match Header::validate_name(name) {
                Err(e) => {
                    assert(!ok(names[j as int]) && err(names[j as int], e));
                    return Err(e);
                },
                Ok(()) => {},
            }
            let count = self.count(name);
            if count > 1 {
                let e = XisfError::Ambiguous { name: name.to_owned(), count };
                assert(!ok(names[j as int]) && err(names[j as int], e));
                return Err(e);
            }
            j += 1;
        }
        assert forall|k: int| 0 <= k < names.len() implies batch_entry_ok(kws, #[trigger] names[k]) by {
            assert(ok(names[k]));
        }
        let ghost ents = entries@;
        let mut rest = entries;
        let mut k: usize = 0;
        while rest.len() > 0
            invariant
                k + rest@.len() == ents.len() == es.len(),
                ents.len() <= usize::MAX,
                rest@ == ents.subrange(k as int, ents.len() as int),
                es == ents.map_values(|e: (&'a str, V)| (e.0@, e.1.value_spec())),
                self@.keywords == upsert_all(kws, es.take(k as int)),
                self@.properties == old(self)@.properties,
            decreases rest.len(),
        {
            let (name, value) = rest.remove(0);
            assert(ents[k as int] == (name, value));
            let v = value.into_value();
            assert(es.take(k + 1).drop_last() =~= es.take(k as int));
            assert(es.take(k + 1).last() == (name@, v@));
            match self.first_index(name) {
                Some(i) => {
                    self.write_value(i, v);
                },
                None => {
                    self.push_keyword(FitsKeyword { name: name.to_owned(), value: v, comment: String::new() });
                },
            }
            k += 1;
            assert(rest@ =~= ents.subrange(k as int, ents.len() as int));
        }
        assert(es.take(es.len() as int) =~= es);
        Ok(())
    }
}


/// Every name of a `remove_many` batch is unique in the header.
pub open spec fn batch_unambiguous(kws: Seq<KeywordView>, names: Seq<Seq<char>>) -> bool {
    forall|j: int| 0 <= j < names.len() ==> count_named(kws, #[trigger] names[j]) <= 1
}

impl Header {
    /// Remove several keywords atomically: every name is checked first (it
    /// must not be duplicated in the header), then the first keyword with
    /// each name is removed in order — or, on any rejection, none. Returns
    /// how many were removed.
    pub fn remove_many<'a>(&mut self, names: Vec<&'a str>) -> (r: Result<usize>)
        ensures
            ({
                let kws = old(self)@.keywords;
                let ns = names@.map_values(|n: &'a str| n@);
                if batch_unambiguous(kws, ns) {
                    r matches Ok(n) && n == removal_count(kws, ns) && final(self)@.keywords
                        == remove_firsts(kws, ns)
                } else {
                    r matches Err(e) && first_rejection(
                        ns,
                        |n: Seq<char>| count_named(kws, n) <= 1,
                        |n: Seq<char>, e: XisfError| is_ambiguous(e, n, count_named(kws, n)),
                        e,
                    ) && final(self)@.keywords == kws
                }
            }),
            final(self)@.properties == old(self)@.properties,
    {
        let ghost kws = self@.keywords;
        let ghost ns = names@.map_values(|n: &'a str| n@);
        let ghost ok = |n: Seq<char>| count_named(kws, n) <= 1;
        let ghost err = |n: Seq<char>, e: XisfError| is_ambiguous(e, n, count_named(kws, n));
        let mut j: usize = 0;
        while j < names.len()
            invariant
                0 <= j <= names@.len() == ns.len(),
                kws == self@.keywords,
                ns == names@.map_values(|n: &'a str| n@),
                ok == (|n: Seq<char>| count_named(kws, n) <= 1),
                err == (|n: Seq<char>, e: XisfError| is_ambiguous(e, n, count_named(kws, n))),
                forall|k: int| 0 <= k < j ==> #[trigger] ok(ns[k]),
            decreases names.len() - j,
        {
            let name = names[j];
            assert(ns[j as int] == name@);
            let count = self.count(name);
            if count > 1 {
                let e = XisfError::Ambiguous { name: name.to_owned(), count };
                assert(!ok(ns[j as int]) && err(ns[j as int], e));
                return Err(e);
            }
            j += 1;
        }
        assert forall|k: int| 0 <= k < ns.len() implies count_named(kws, #[trigger] ns[k]) <= 1 by {
            assert(ok(ns[k]));
        }
        let mut removed: usize = 0;
        let mut k: usize = 0;
        while k < names.len()
            invariant
                0 <= k <= names@.len() == ns.len(),
                ns == names@.map_values(|n: &'a str| n@),
                removed == removal_count(kws, ns.take(k as int)),
                removed <= k,
                self@.keywords == remove_firsts(kws, ns.take(k as int)),
                self@.properties == old(self)@.properties,
            decreases names.len() - k,
        {
            let name = names[k];
            assert(ns.take(k + 1).drop_last() =~= ns.take(k as int));
            assert(ns.take(k + 1).last() == name@);
            match self.first_index(name) {
                Some(i) => {
                    let _ = self.keywords.remove(i);
                    assert(self@.keywords =~= remove_firsts(kws, ns.take(k + 1)));
                    removed += 1;
                },
                None => {},
            }
            k += 1;
        }
        assert(ns.take(ns.len() as int) =~= ns);
        Ok(removed)
    }
}


/// The property `id` after writing `value` (and `type_`, when given) into
/// it: an existing property keeps everything else, a new one starts from
/// the default (type `String`).
pub open spec fn written_property(
    props: Map<Seq<char>, PropertyView>,
    id: Seq<char>,
    value: Seq<char>,
    type_: Option<Seq<char>>,
) -> PropertyView {
    let cur = if props.contains_key(id) {
        props[id]
    } else {
        default_property()
    };
    PropertyView {
        value,
        type_: match type_ {
            Some(t) => t,
            None => cur.type_,
        },
        ..cur
    }
}

impl Header {
    /// All `<Property>` entries, keyed by id; iteration is ordered by id, not
    /// by document order.
    pub fn properties(&self) -> (r: &PropertyMap)
        ensures
            r@ == self@.properties,
    {
        &self.properties
    }

    /// A property's raw value text by `id`.
    pub fn property(&self, id: &str) -> (r: Option<&str>)
        ensures
            match r {
                Some(v) => self@.properties.contains_key(id@) && v@ == self@.properties[id@].value,
                None => !self@.properties.contains_key(id@),
            },
    {
        match self.properties.get(id) {
            Some(p) => Some(p.value.as_str()),
            None => None,
        }
    }

    /// A property value interpreted as `T` (see [`FromField`]); `None` when
    /// the property is absent or its value does not read as `T`.
    pub fn property_get<T: FromField>(&self, id: &str) -> (r: Option<T>)
        ensures
            if self@.properties.contains_key(id@) {
                T::reads_as(self@.properties[id@].value, r) && (T::settled(self@.properties[id@].value) ==> (r is Some
                    <==> T::readable(self@.properties[id@].value)))
            } else {
                r is None
            },
    {
        match self.properties.get(id) {
            Some(p) => T::from_field(p.value.as_str()),
            None => None,
        }
    }

    /// Insert or update a property's value. An existing property keeps its
    /// `type`, `comment` and `format`; a new one is created with type
    /// `String`. Fails, changing nothing, when `id` is not a valid property
    /// id.
    pub fn set_property(&mut self, id: impl IntoText, value: impl IntoText) -> (r: Result<()>)
        ensures
            match property_id_problem(id.text_spec()) {
                None => r is Ok && final(self)@.properties == old(self)@.properties.insert(
                    id.text_spec(),
                    written_property(old(self)@.properties, id.text_spec(), value.text_spec(), None),
                ),
                Some(p) => r matches Err(e) && rejects(e, id.text_spec(), p) && final(self)@.properties
                    == old(self)@.properties,
            },
            final(self)@.keywords == old(self)@.keywords,
    {
        let id = id.into_text();
        match Header::validate_property_id(id.as_str()) {
            Err(e) => {
                return Err(e);
            },
            Ok(()) => {},
        }
        self.properties.upsert(id, value.into_text(), None);
        Ok(())
    }

    /// Insert or update a property with an explicit XISF `type` (e.g.
    /// `Float32`, `TimePoint`). An existing property keeps its `comment` and
    /// `format`. Fails, changing nothing, when `id` is not a valid property
    /// id.
    pub fn set_property_with_type(
        &mut self,
        id: impl IntoText,
        value: impl IntoText,
        type_: impl IntoText,
    ) -> (r: Result<()>)
        ensures
            match property_id_problem(id.text_spec()) {
                None => r is Ok && final(self)@.properties == old(self)@.properties.insert(
                    id.text_spec(),
                    written_property(
                        old(self)@.properties,
                        id.text_spec(),
                        value.text_spec(),
                        Some(type_.text_spec()),
                    ),
                ),
                Some(p) => r matches Err(e) && rejects(e, id.text_spec(), p) && final(self)@.properties
                    == old(self)@.properties,
            },
            final(self)@.keywords == old(self)@.keywords,
    {
        let id = id.into_text();
        match Header::validate_property_id(id.as_str()) {
            Err(e) => {
                return Err(e);
            },
            Ok(()) => {},
        }
        self.properties.upsert(id, value.into_text(), Some(type_.into_text()));
        Ok(())
    }

    /// Remove a property by `id`. Returns `true` if it existed.
    pub fn remove_property(&mut self, id: &str) -> (r: bool)
        ensures
            r == old(self)@.properties.contains_key(id@),
            final(self)@.properties == old(self)@.properties.remove(id@),
            final(self)@.keywords == old(self)@.keywords,
    {
        self.properties.remove(id)
    }
}


impl Header {
    /// A copy of this header: the same keywords in the same order and the
    /// same properties.
    pub fn duplicate(&self) -> (r: Header)
        ensures
            r@ == self@,
            r.properties.entry_views() == self.properties.entry_views(),
    {
        let ghost kv = self@.keywords;
        let mut kws: Vec<FitsKeyword> = Vec::new();
        let mut i: usize = 0;
        while i < self.keywords.len()
            invariant
                0 <= i <= kv.len() == self.keywords@.len(),
                kv == self@.keywords,
                kws@.map_values(|k: FitsKeyword| k@) == kv.take(i as int),
            decreases self.keywords.len() - i,
        {
            let k = self.keywords[i].duplicate();
            assert(kv[i as int] == self.keywords@[i as int]@);
            let ghost old_kws = kws@;
            kws.push(k);
            proof {
                let nv = kws@.map_values(|k: FitsKeyword| k@);
                let ov = old_kws.map_values(|k: FitsKeyword| k@);
                assert(ov.len() == i);
                assert forall|j: int| 0 <= j < nv.len() implies nv[j] == kv.take(i + 1)[j] by {
                    if j < i {
                        assert(kws@[j] == old_kws[j]);
                        assert(ov[j] == kv.take(i as int)[j]);
                    }
                }
                assert(nv =~= kv.take(i + 1));
            }
            i += 1;
        }
        assert(kv.take(i as int) =~= kv);
        Header { keywords: kws, properties: self.properties.clone() }
    }
}


// ----- laws of the keyword API --------------------------------------------------------------

/// After a successful `set(key, v)`, the same key resolves to the written
/// keyword, which carries `v` and keeps the comment it had (a new keyword
/// has an empty comment).
pub proof fn law_set_then_get(kws: Seq<KeywordView>, key: KeySpec, v: ValueView)
    requires
        set_outcome(kws, key, v) is Some,
    ensures
        ({
            let after = set_outcome(kws, key, v)->Some_0;
            let i = set_position(kws, key);
            &&& resolve(after, key) == Resolution::Found(i)
            &&& after[i].value == v
            &&& (resolve(kws, key) is Found ==> after[i].comment == kws[i].comment)
            &&& (resolve(kws, key) is Absent ==> after[i].comment == Seq::<char>::empty())
        }),
{
    lemma_set_then_resolve(kws, key, v);
    if resolve(kws, key) is Found {
        let n: nat = match key {
            KeySpec::Name(_) => 0,
            KeySpec::Nth(_, k) => k,
        };
        lemma_occurrence_exists(kws, key.name(), n);
    }
}

/// `append` always adds one more occurrence of the name, at the end.
pub proof fn law_append_adds_occurrence(kws: Seq<KeywordView>, name: Seq<char>, v: ValueView)
    ensures
        count_named(kws.push(fresh_keyword(name, v)), name) == count_named(kws, name) + 1,
        resolve(kws.push(fresh_keyword(name, v)), KeySpec::Nth(name, count_named(kws, name)))
            == Resolution::Found(kws.len() as int),
{
    let after = kws.push(fresh_keyword(name, v));
    assert(after.drop_last() =~= kws);
    let n = count_named(kws, name);
    assert(after.take(kws.len() as int) =~= kws);
    assert(is_occurrence(after, name, n, kws.len() as int));
    lemma_occurrence_is(after, name, n, kws.len() as int);
}

proof fn lemma_without_named_count(kws: Seq<KeywordView>, name: Seq<char>)
    ensures
        count_named(without_named(kws, name), name) == 0,
    decreases kws.len(),
{
    if kws.len() > 0 {
        lemma_without_named_count(kws.drop_last(), name);
        let r = without_named(kws.drop_last(), name);
        if !names_match(kws.last().name, name) {
            assert(r.push(kws.last()).drop_last() =~= r);
        }
    }
}

/// After `remove_all(name)` no keyword carries the name, and every other
/// keyword stays, in order.
pub proof fn law_remove_all_clears(kws: Seq<KeywordView>, name: Seq<char>)
    ensures
        count_named(without_named(kws, name), name) == 0,
        without_named(kws, name).len() == kws.len() - count_named(kws, name),
{
    lemma_without_named_count(kws, name);
    lemma_without_named_len(kws, name);
}

/// A bare name that occurs more than once is ambiguous, while each of its
/// occurrences is reached by an `(name, n)` key.
pub proof fn law_repeated_names_need_an_index(kws: Seq<KeywordView>, name: Seq<char>, n: nat)
    requires
        count_named(kws, name) > 1,
        n < count_named(kws, name),
    ensures
        resolve(kws, KeySpec::Name(name)) == Resolution::Ambiguous(count_named(kws, name)),
        resolve(kws, KeySpec::Nth(name, n)) matches Resolution::Found(i) && names_match(kws[i].name, name),
{
    lemma_occurrence_exists(kws, name, n);
}

} // verus!

verus! {

/// Two names that match ASCII-case-insensitively match the same names.
proof fn lemma_match_same(x: Seq<char>, a: Seq<char>, b: Seq<char>)
    requires
        names_match(a, b),
    ensures
        names_match(x, a) == names_match(x, b),
{
    if names_match(x, a) {
        assert forall|i: int| 0 <= i < x.len() implies #[trigger] crate::text::fold(x[i])
            == crate::text::fold(b[i]) by {
            assert(crate::text::fold(x[i]) == crate::text::fold(a[i]));
            assert(crate::text::fold(a[i]) == crate::text::fold(b[i]));
        }
    }
    if names_match(x, b) {
        assert forall|i: int| 0 <= i < x.len() implies #[trigger] crate::text::fold(x[i])
            == crate::text::fold(a[i]) by {
            assert(crate::text::fold(x[i]) == crate::text::fold(b[i]));
            assert(crate::text::fold(a[i]) == crate::text::fold(b[i]));
        }
    }
}

/// `count` compares names ASCII-case-insensitively: names that match so
/// count the same keywords.
pub proof fn law_count_ignores_case(kws: Seq<KeywordView>, a: Seq<char>, b: Seq<char>)
    requires
        names_match(a, b),
    ensures
        count_named(kws, a) == count_named(kws, b),
    decreases kws.len(),
{
    if kws.len() > 0 {
        law_count_ignores_case(kws.drop_last(), a, b);
        lemma_match_same(kws.last().name, a, b);
    }
}

/// `count(name)` is the length of `get_all::<String>(name)`: every value
/// reads as a `String`, and that reading is settled.
pub proof fn law_count_is_get_all_len(kws: Seq<KeywordView>, name: Seq<char>)
    ensures
        settled_named::<String>(kws, name),
        readable_named::<String>(kws, name).len() == count_named(kws, name),
    decreases kws.len(),
{
    if kws.len() > 0 {
        law_count_is_get_all_len(kws.drop_last(), name);
    }
}

/// The keywords after writing the entries one by one with
/// `set(name, value)`, in order; `None` as soon as one fails.
pub open spec fn set_each(kws: Seq<KeywordView>, es: Seq<(Seq<char>, ValueView)>) -> Option<Seq<KeywordView>>
    decreases es.len(),
{
    if es.len() == 0 {
        Some(kws)
    } else {
        match set_each(kws, es.drop_last()) {
            Some(k) => set_outcome(k, KeySpec::Name(es.last().0), es.last().1),
            None => None,
        }
    }
}

/// An upsert never makes a name occur twice.
proof fn lemma_upsert_keeps_unique(k: Seq<KeywordView>, m: Seq<char>, v: ValueView, n: Seq<char>)
    requires
        count_named(k, n) <= 1,
    ensures
        count_named(upsert(k, m, v), n) <= 1,
{
    if count_named(k, m) > 0 {
        lemma_occurrence_exists(k, m, 0);
        let i = occurrence(k, m, 0);
        let k2 = k.update(i, with_value(k[i], v));
        assert forall|j: int| 0 <= j < k.len() implies #[trigger] k[j].name == k2[j].name by {}
        lemma_count_same_names(k, k2, n);
    } else {
        let k2 = k.push(fresh_keyword(m, v));
        assert(k2.drop_last() =~= k);
        if names_match(m, n) {
            law_count_ignores_case(k, m, n);
        }
    }
}

proof fn lemma_unique_through(kws: Seq<KeywordView>, es: Seq<(Seq<char>, ValueView)>, n: Seq<char>)
    requires
        count_named(kws, n) <= 1,
    ensures
        count_named(upsert_all(kws, es), n) <= 1,
    decreases es.len(),
{
    if es.len() > 0 {
        lemma_unique_through(kws, es.drop_last(), n);
        lemma_upsert_keeps_unique(upsert_all(kws, es.drop_last()), es.last().0, es.last().1, n);
    }
}

/// An accepted `set_many` batch writes what the single `set(name, value)`
/// calls would write, one after another in order, each of them succeeding.
pub proof fn law_set_many_is_sets_in_order(kws: Seq<KeywordView>, es: Seq<(Seq<char>, ValueView)>)
    requires
        forall|j: int| 0 <= j < es.len() ==> batch_entry_ok(kws, #[trigger] es[j].0),
    ensures
        set_each(kws, es) == Some(upsert_all(kws, es)),
    decreases es.len(),
{
    if es.len() > 0 {
        let init = es.drop_last();
        assert forall|j: int| 0 <= j < init.len() implies batch_entry_ok(kws, #[trigger] init[j].0) by {
            assert(init[j] == es[j]);
        }
        law_set_many_is_sets_in_order(kws, init);
        let k = upsert_all(kws, init);
        let n = es.last().0;
        let v = es.last().1;
        assert(batch_entry_ok(kws, es[es.len() - 1].0));
        lemma_unique_through(kws, init, n);
        if count_named(k, n) == 1 {
            lemma_occurrence_exists(k, n, 0);
        }
    }
}

proof fn lemma_count_remove(kws: Seq<KeywordView>, name: Seq<char>, i: int)
    requires
        0 <= i < kws.len(),
    ensures
        count_named(kws.remove(i), name) + (if names_match(kws[i].name, name) {
            1int
        } else {
            0int
        }) == count_named(kws, name),
    decreases kws.len(),
{
    if i == kws.len() - 1 {
        assert(kws.remove(i) =~= kws.drop_last());
    } else {
        lemma_count_remove(kws.drop_last(), name, i);
        assert(kws.remove(i).drop_last() =~= kws.drop_last().remove(i));
        assert(kws.remove(i).last() == kws.last());
        assert(kws.drop_last()[i] == kws[i]);
    }
}

/// `remove` takes away exactly the keyword its key addresses: one fewer
/// keyword, one fewer of the key's name, and as many of every other name;
/// when the key addresses nothing, nothing changes.
pub proof fn law_remove_takes_the_addressed_one(kws: Seq<KeywordView>, key: KeySpec, other: Seq<char>)
    requires
        !names_match(other, key.name()),
    ensures
        resolve(kws, key) is Found ==> remove_outcome(kws, key).len() + 1 == kws.len() && count_named(
            remove_outcome(kws, key),
            key.name(),
        ) + 1 == count_named(kws, key.name()) && count_named(remove_outcome(kws, key), other) == count_named(
            kws,
            other,
        ),
        !(resolve(kws, key) is Found) ==> remove_outcome(kws, key) == kws,
{
    if resolve(kws, key) is Found {
        let i = resolve(kws, key)->Found_0;
        let name = key.name();
        let n: nat = match key {
            KeySpec::Name(_) => 0,
            KeySpec::Nth(_, k) => k,
        };
        lemma_occurrence_exists(kws, name, n);
        assert(i == occurrence(kws, name, n));
        assert(names_match(kws[i].name, name));
        lemma_count_remove(kws, name, i);
        lemma_count_remove(kws, other, i);
        lemma_match_same(other, kws[i].name, name);
        if names_match(kws[i].name, other) {
            assert forall|j: int| 0 <= j < other.len() implies #[trigger] crate::text::fold(other[j])
                == crate::text::fold(kws[i].name[j]) by {
                assert(crate::text::fold(kws[i].name[j]) == crate::text::fold(other[j]));
            }
            assert(names_match(other, kws[i].name));
        }
    }
}

/// Writing a property's value gives it that value; an explicit type is
/// taken, otherwise an existing property keeps its type and a new one is a
/// `String`; the comment and format of an existing property are kept, and
/// a new one has none.
pub proof fn law_written_property(
    props: Map<Seq<char>, PropertyView>,
    id: Seq<char>,
    value: Seq<char>,
    type_: Option<Seq<char>>,
)
    ensures
        written_property(props, id, value, type_).value == value,
        type_ matches Some(t) ==> written_property(props, id, value, type_).type_ == t,
        type_ is None && props.contains_key(id) ==> written_property(props, id, value, type_).type_
            == props[id].type_,
        type_ is None && !props.contains_key(id) ==> written_property(props, id, value, type_).type_ == "String"@,
        props.contains_key(id) ==> written_property(props, id, value, type_).comment == props[id].comment
            && written_property(props, id, value, type_).format == props[id].format,
        !props.contains_key(id) ==> written_property(props, id, value, type_).comment.len() == 0
            && written_property(props, id, value, type_).format.len() == 0,
{
    reveal_strlit("String");
    assert("String"@ =~= crate::property::string_type());
}

} // verus!
