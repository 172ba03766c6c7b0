//! Parsing: preamble validation, and the extraction of keywords, properties
//! and the attachment layout from the items of the XML header.

use vstd::prelude::*;
use vstd::string::StringSliceAdditionalSpecFns;

use crate::error::{Result, XisfError};
use crate::keyword::{commentary, is_commentary, FitsKeyword, KeywordView};
use crate::property::{default_property, string_type, Property, PropertyView};
use crate::header::{Header, HeaderView};
use crate::property::PropertyMap;
use crate::text::{chars_of, names_match, push_str, str_eq_ignore_ascii_case, string_from_chars};
use crate::value::{nat_text, usize_text, Value, ValueView};
use crate::xml::{
    image_tag, is_image_tag, is_keyword_tag, is_property_tag, item_views, items_in_bounds, keyword_tag,
    property_tag, scan_xml, xml_items, ItemKind, ItemView, ScanError, XmlAttr, XmlItem,
};

verus! {

// ----- the preamble ------------------------------------------------------------

/// The 8-byte XISF monolithic-file signature, `XISF0100`.
pub open spec fn signature() -> Seq<u8> {
    seq![88u8, 73u8, 83u8, 70u8, 48u8, 49u8, 48u8, 48u8]
}

/// Upper bound on the declared XML-header length (8 MiB).
pub const MAX_HEADER_LEN: usize = 8388608;

/// The little-endian `u32` stored at `b[at..at + 4]`.
pub open spec fn le_u32(b: Seq<u8>, at: int) -> nat {
    (b[at] + 256 * b[at + 1] + 65536 * b[at + 2] + 16777216 * b[at + 3]) as nat
}

/// What the 16-byte preamble of a container says.
pub enum Preamble {
    /// Fewer bytes than needed: `needed`, `got`.
    TooSmall(nat, nat),
    /// The first eight bytes are not the signature.
    BadSignature,
    /// The declared XML length exceeds the cap.
    TooLarge(nat),
    /// The XML header lies at `16..end`.
    Header(nat),
}

/// Validate the preamble: bytes 0–7 are the signature, bytes 8–11 the
/// little-endian XML-header length (capped at 8 MiB), bytes 12–15 are
/// reserved and ignored.
pub open spec fn preamble(b: Seq<u8>) -> Preamble {
    if b.len() < 16 {
        Preamble::TooSmall(16, b.len())
    } else if b.subrange(0, 8) != signature() {
        Preamble::BadSignature
    } else if le_u32(b, 8) > MAX_HEADER_LEN {
        Preamble::TooLarge(le_u32(b, 8))
    } else if b.len() < 16 + le_u32(b, 8) {
        Preamble::TooSmall(16 + le_u32(b, 8), b.len())
    } else {
        Preamble::Header(16 + le_u32(b, 8))
    }
}

/// `e` is the error a failed preamble check reports.
pub open spec fn preamble_error(b: Seq<u8>, e: XisfError) -> bool {
    match preamble(b) {
        Preamble::TooSmall(needed, got) => e matches XisfError::TooSmall { needed: n, got: g } && n
            == needed && g == got,
        Preamble::BadSignature => e is InvalidSignature,
        Preamble::TooLarge(len) => e matches XisfError::HeaderTooLarge { len: l, max: m } && l == len
            && m == MAX_HEADER_LEN,
        Preamble::Header(_) => false,
    }
}

/// Validate the preamble and return the byte range `(16, end)` of the XML
/// header.
pub fn split_preamble(bytes: &[u8]) -> (r: Result<(usize, usize)>)
    ensures
        match preamble(bytes@) {
            Preamble::Header(end) => r matches Ok((s, e)) && s == 16 && e == end,
            _ => r matches Err(err) && preamble_error(bytes@, err),
        },
{
    if bytes.len() < 16 {
        return Err(XisfError::TooSmall { needed: 16, got: bytes.len() });
    }
    let sig: [u8; 8] = [88, 73, 83, 70, 48, 49, 48, 48];
    let mut i: usize = 0;
    while i < 8
        invariant
            0 <= i <= 8,
            bytes@.len() >= 16,
            sig@ == signature(),
            forall|j: int| 0 <= j < i ==> bytes@[j] == signature()[j],
        decreases 8 - i,
    {
        if bytes[i] != sig[i] {
            assert(bytes@.subrange(0, 8)[i as int] != signature()[i as int]);
            return Err(XisfError::InvalidSignature);
        }
        i += 1;
    }
    assert(bytes@.subrange(0, 8) =~= signature());
    let xml_len: u64 = bytes[8] as u64 + 256 * (bytes[9] as u64) + 65536 * (bytes[10] as u64)
        + 16777216 * (bytes[11] as u64);
    if xml_len > 8388608 {
        return Err(XisfError::HeaderTooLarge { len: xml_len as usize, max: MAX_HEADER_LEN });
    }
    let end = 16 + xml_len as usize;
    if bytes.len() < end {
        return Err(XisfError::TooSmall { needed: end, got: bytes.len() });
    }
    Ok((16, end))
}

/// `std::str::from_utf8`: the text the bytes encode, or the error when they
/// are not valid UTF-8.
#[verifier::external_body]
pub(crate) fn utf8_text(b: &[u8]) -> (r: core::result::Result<&str, core::str::Utf8Error>)
    ensures
        match r {
            Ok(s) => vstd::utf8::valid_utf8(b@) && s.spec_bytes() == b@,
            Err(_) => !vstd::utf8::valid_utf8(b@),
        },
{
    core::str::from_utf8(b)
}

// ----- keyword and property attributes -------------------------------------------

/// The value of the last attribute whose key matches `key`
/// (ASCII-case-insensitively): later attributes override earlier ones.
pub open spec fn last_attr(attrs: Seq<(Seq<char>, Seq<char>)>, key: Seq<char>) -> Option<Seq<char>>
    decreases attrs.len(),
{
    if attrs.len() == 0 {
        None
    } else if names_match(attrs.last().0, key) {
        Some(attrs.last().1)
    } else {
        last_attr(attrs.drop_last(), key)
    }
}

/// The value of the attribute `key`, empty when absent.
pub open spec fn attr_text(attrs: Seq<(Seq<char>, Seq<char>)>, key: Seq<char>) -> Seq<char> {
    match last_attr(attrs, key) {
        Some(v) => v,
        None => Seq::empty(),
    }
}

/// Classify a keyword `value` attribute: text wrapped in single quotes is a
/// string value with one quote layer stripped; anything else is a bare
/// literal.
pub open spec fn classify(text: Seq<char>) -> ValueView {
    if text.len() >= 2 && text[0] == '\'' && text.last() == '\'' {
        ValueView { quoted: true, text: text.subrange(1, text.len() - 1) }
    } else {
        ValueView { quoted: false, text }
    }
}

/// The keyword a `<FITSKeyword>` tag with these attributes describes; none
/// without a name. A commentary keyword (`HISTORY`, `COMMENT`) takes its
/// text from `comment`, falling back to the classified `value` when the
/// comment is empty, and keeps no comment.
pub open spec fn keyword_of(attrs: Seq<(Seq<char>, Seq<char>)>) -> Option<KeywordView> {
    let name = attr_text(attrs, "name"@);
    let raw = attr_text(attrs, "value"@);
    let comment = attr_text(attrs, "comment"@);
    if name.len() == 0 {
        None
    } else if commentary(name) {
        if comment.len() == 0 {
            Some(KeywordView { name, value: classify(raw), comment: Seq::empty() })
        } else {
            Some(
                KeywordView {
                    name,
                    value: ValueView { quoted: true, text: comment },
                    comment: Seq::empty(),
                },
            )
        }
    } else {
        Some(KeywordView { name, value: classify(raw), comment })
    }
}

/// The id, the property and whether a `value` attribute is present, for a
/// `<Property>` tag with these attributes. The type defaults to `String`;
/// value, comment and format to empty.
pub open spec fn property_of(attrs: Seq<(Seq<char>, Seq<char>)>) -> (Option<Seq<char>>, PropertyView, bool) {
    let p = PropertyView {
        type_: match last_attr(attrs, "type"@) {
            Some(t) => t,
            None => string_type(),
        },
        value: attr_text(attrs, "value"@),
        comment: attr_text(attrs, "comment"@),
        format: attr_text(attrs, "format"@),
    };
    (last_attr(attrs, "id"@), p, last_attr(attrs, "value"@) is Some)
}

/// The attributes as views.
pub open spec fn attr_views(attrs: Seq<XmlAttr>) -> Seq<(Seq<char>, Seq<char>)> {
    attrs.map_values(|a: XmlAttr| a@)
}

/// The value of the last attribute matching `key`.
fn find_attr<'a>(attrs: &'a [XmlAttr], key: &str) -> (r: Option<&'a String>)
    ensures
        match last_attr(attr_views(attrs@), key@) {
            Some(v) => r matches Some(s) && s@ == v,
            None => r is None,
        },
{
    let ghost av = attr_views(attrs@);
    let mut i: usize = attrs.len();
    assert(av.take(i as int) =~= av);
    while i > 0
        invariant
            0 <= i <= attrs@.len(),
            av == attr_views(attrs@),
            last_attr(av, key@) == last_attr(av.take(i as int), key@),
        decreases i,
    {
        let ghost pre = av.take(i as int);
        assert(pre.drop_last() =~= av.take(i - 1));
        assert(pre.last() == attrs@[i - 1]@);
        if str_eq_ignore_ascii_case(attrs[i - 1].key.as_str(), key) {
            return Some(&attrs[i - 1].value);
        }
        i -= 1;
    }
    None
}

/// The text of the attribute `key`, empty when absent.
fn attr_string(attrs: &[XmlAttr], key: &str) -> (r: String)
    ensures
        r@ == attr_text(attr_views(attrs@), key@),
{
    match find_attr(attrs, key) {
        Some(v) => v.clone(),
        None => String::new(),
    }
}

/// Classify a keyword `value` attribute (see [`classify`]).
pub fn classify_value(text: &str) -> (v: Value)
    ensures
        v@ == classify(text@),
{
    let c = chars_of(text);
    let n = c.len();
    if n >= 2 && c[0] == '\'' && c[n - 1] == '\'' {
        Value::Str(string_from_chars(c.as_slice(), 1, n - 1))
    } else {
        Value::Literal(text.to_owned())
    }
}

/// The keyword a `<FITSKeyword>` tag describes (see [`keyword_of`]).
pub fn keyword_from_attrs(attrs: &[XmlAttr]) -> (r: Option<FitsKeyword>)
    ensures
        match keyword_of(attr_views(attrs@)) {
            Some(k) => r matches Some(kw) && kw@ == k,
            None => r is None,
        },
{
    proof {
        reveal_strlit("name");
        reveal_strlit("value");
        reveal_strlit("comment");
    }
    let name = attr_string(attrs, "name");
    let raw = attr_string(attrs, "value");
    let comment = attr_string(attrs, "comment");
    if name.as_str().is_empty() {
        return None;
    }
    if is_commentary(name.as_str()) {
        if comment.as_str().is_empty() {
            Some(FitsKeyword { name, value: classify_value(raw.as_str()), comment: String::new() })
        } else {
            Some(FitsKeyword { name, value: Value::Str(comment), comment: String::new() })
        }
    } else {
        Some(FitsKeyword { name, value: classify_value(raw.as_str()), comment })
    }
}

/// The id, property and presence of a `value` attribute of a `<Property>`
/// tag (see [`property_of`]).
pub fn property_from_attrs(attrs: &[XmlAttr]) -> (r: (Option<String>, Property, bool))
    ensures
        ({
            let (id, p, has_value) = property_of(attr_views(attrs@));
            &&& match id {
                Some(i) => r.0 matches Some(s) && s@ == i,
                None => r.0 is None,
            }
            &&& r.1@ == p
            &&& r.2 == has_value
        }),
{
    let mut prop = Property::default();
    match find_attr(attrs, "type") {
        Some(t) => {
            prop.type_ = t.clone();
        },
        None => {},
    }
    prop.value = attr_string(attrs, "value");
    prop.comment = attr_string(attrs, "comment");
    prop.format = attr_string(attrs, "format");
    let has_value = find_attr(attrs, "value").is_some();
    let id = match find_attr(attrs, "id") {
        Some(s) => Some(s.clone()),
        None => None,
    };
    (id, prop, has_value)
}

} // verus!

verus! {

// ----- the attachment location ----------------------------------------------------

/// ASCII whitespace, as `u8::is_ascii_whitespace` defines it.
pub open spec fn ascii_ws(b: u8) -> bool {
    b == 32 || b == 9 || b == 10 || b == 12 || b == 13
}

/// The ASCII lower-case form of a byte.
pub open spec fn lower(b: u8) -> u8 {
    if 65 <= b <= 90 {
        (b + 32) as u8
    } else {
        b
    }
}

/// ASCII case-insensitive equality of byte strings.
pub open spec fn bytes_match(a: Seq<u8>, b: Seq<u8>) -> bool {
    &&& a.len() == b.len()
    &&& forall|i: int| 0 <= i < a.len() ==> #[trigger] lower(a[i]) == lower(b[i])
}

/// The first position at or after `j` that is not ASCII whitespace.
pub open spec fn skip_ws(t: Seq<u8>, j: int) -> int
    decreases t.len() - j,
{
    if 0 <= j < t.len() && ascii_ws(t[j]) {
        skip_ws(t, j + 1)
    } else {
        j
    }
}

/// The first position at or after `j` holding `q`.
pub open spec fn find_byte(t: Seq<u8>, j: int, q: u8) -> Option<int>
    decreases t.len() - j,
{
    if j < 0 || j >= t.len() {
        None
    } else if t[j] == q {
        Some(j)
    } else {
        find_byte(t, j + 1, q)
    }
}

/// The quoted value of an attribute whose name occupies `t[i..i + n]`: the
/// name must start the tag or follow whitespace, then `=` and a single- or
/// double-quoted value may follow, with whitespace around `=`.
pub open spec fn value_at(t: Seq<u8>, i: int, n: int) -> Option<(int, int)> {
    if !(i == 0 || (0 < i <= t.len() && ascii_ws(t[i - 1]))) {
        None
    } else {
        let j = skip_ws(t, i + n);
        if 0 <= j < t.len() && t[j] == 61 {
            let k = skip_ws(t, j + 1);
            if 0 <= k < t.len() && (t[k] == 34 || t[k] == 39) {
                match find_byte(t, k + 1, t[k]) {
                    Some(e) => Some((k + 1, e)),
                    None => None,
                }
            } else {
                None
            }
        } else {
            None
        }
    }
}

/// The span of the value of the attribute `name` in the raw text of a tag,
/// scanning from `i`: at each position where `name` occurs
/// (ASCII-case-insensitively) and is followed by a quoted value, that value;
/// elsewhere the scan moves on past the occurrence, or by one byte.
pub open spec fn attr_span_from(t: Seq<u8>, name: Seq<u8>, i: int) -> Option<(int, int)>
    decreases t.len() - i,
{
    if name.len() == 0 || i < 0 || i + name.len() > t.len() {
        None
    } else if !bytes_match(t.subrange(i, i + name.len()), name) {
        attr_span_from(t, name, i + 1)
    } else {
        match value_at(t, i, name.len() as int) {
            Some(s) => Some(s),
            None => attr_span_from(t, name, i + name.len()),
        }
    }
}

/// The number the decimal digits `s` spell.
pub open spec fn digits_num(s: Seq<u8>) -> nat
    decreases s.len(),
{
    if s.len() == 0 {
        0
    } else {
        digits_num(s.drop_last()) * 10 + (s.last() - 48) as nat
    }
}

/// Every byte of `s` is an ASCII digit.
pub open spec fn all_digit_bytes(s: Seq<u8>) -> bool {
    forall|i: int| 0 <= i < s.len() ==> 48 <= #[trigger] s[i] <= 57
}

/// `usize`'s `FromStr`: optional `+`, then at least one decimal digit, and
/// the number must fit in a `usize`.
pub open spec fn parse_usize(s: Seq<u8>) -> Option<nat> {
    let d = if s.len() > 0 && s[0] == 43 {
        s.drop_first()
    } else {
        s
    };
    if d.len() > 0 && all_digit_bytes(d) && digits_num(d) <= usize::MAX {
        Some(digits_num(d))
    } else {
        None
    }
}

/// `attachment:`, as bytes.
pub open spec fn attachment_prefix() -> Seq<u8> {
    seq![97u8, 116u8, 116u8, 97u8, 99u8, 104u8, 109u8, 101u8, 110u8, 116u8, 58u8]
}

/// `location`, as bytes.
pub open spec fn location_name() -> Seq<u8> {
    seq![108u8, 111u8, 99u8, 97u8, 116u8, 105u8, 111u8, 110u8]
}

/// An `attachment:OFFSET:SIZE` location value: its offset and size.
pub open spec fn attachment_location(v: Seq<u8>) -> Option<(nat, nat)> {
    if v.len() >= 11 && v.take(11) == attachment_prefix() {
        let rest = v.skip(11);
        match find_byte(rest, 0, 58) {
            Some(c) => match (parse_usize(rest.take(c)), parse_usize(rest.skip(c + 1))) {
                (Some(o), Some(s)) => Some((o, s)),
                _ => None,
            },
            None => None,
        }
    } else {
        None
    }
}

proof fn lemma_digits_num_prefix(s: Seq<u8>, k: int)
    requires
        0 <= k <= s.len(),
    ensures
        digits_num(s.take(k)) <= digits_num(s),
    decreases s.len(),
{
    if k < s.len() {
        assert(s.drop_last().take(k) =~= s.take(k));
        lemma_digits_num_prefix(s.drop_last(), k);
    } else {
        assert(s.take(k) =~= s);
    }
}

/// Parse a `usize` (see [`parse_usize`]).
pub(crate) fn read_usize(s: &[u8]) -> (r: Option<usize>)
    ensures
        match parse_usize(s@) {
            Some(n) => r matches Some(v) && v == n,
            None => r is None,
        },
{
    let from: usize = if s.len() > 0 && s[0] == 43 {
        1
    } else {
        0
    };
    let ghost d = if s@.len() > 0 && s@[0] == 43 {
        s@.drop_first()
    } else {
        s@
    };
    assert(d =~= s@.skip(from as int));
    if from >= s.len() {
        return None;
    }
    let mut acc: usize = 0;
    let mut i: usize = from;
    while i < s.len()
        invariant
            from <= i <= s@.len(),
            from < s@.len(),
            d == s@.skip(from as int),
            d == (if s@.len() > 0 && s@[0] == 43 {
                s@.drop_first()
            } else {
                s@
            }),
            all_digit_bytes(d.take(i - from)),
            acc == digits_num(d.take(i - from)),
        decreases s.len() - i,
    {
        let b = s[i];
        assert(d.take(i + 1 - from).drop_last() =~= d.take(i - from));
        assert(d.take(i + 1 - from).last() == b);
        if b < 48 || b > 57 {
            assert(d[i - from] == b);
            assert(!all_digit_bytes(d));
            return None;
        }
        let digit = (b - 48) as usize;
        if acc > (usize::MAX - digit) / 10 {
            proof {
                lemma_digits_num_prefix(d, i + 1 - from);
                assert(digits_num(d.take(i + 1 - from)) == acc * 10 + digit);
                assert(acc * 10 + digit > usize::MAX) by (nonlinear_arith)
                    requires
                        acc > (usize::MAX - digit) / 10,
                        digit <= 9,
                ;
                if all_digit_bytes(d) {
                }
            }
            return None;
        }
        proof {
            assert(acc * 10 + digit <= usize::MAX) by (nonlinear_arith)
                requires
                    acc <= (usize::MAX - digit) / 10,
                    digit <= 9,
            ;
        }
        acc = acc * 10 + digit;
        i += 1;
    }
    assert(d.take(i - from) =~= d);
    Some(acc)
}

/// The first position of `q` in `t` at or after `j`.
fn find_byte_from(t: &[u8], j: usize, q: u8) -> (r: Option<usize>)
    ensures
        match find_byte(t@, j as int, q) {
            Some(p) => r matches Some(v) && v == p,
            None => r is None,
        },
{
    let mut k = j;
    while k < t.len()
        invariant
            j <= k,
            find_byte(t@, j as int, q) == find_byte(t@, k as int, q),
        decreases t.len() - k,
    {
        if t[k] == q {
            return Some(k);
        }
        k += 1;
    }
    None
}

/// The first position at or after `j` that is not ASCII whitespace.
fn skip_ws_from(t: &[u8], j: usize) -> (r: usize)
    ensures
        r == skip_ws(t@, j as int),
{
    let mut k = j;
    while k < t.len() && (t[k] == 32 || t[k] == 9 || t[k] == 10 || t[k] == 12 || t[k] == 13)
        invariant
            j <= k,
            skip_ws(t@, j as int) == skip_ws(t@, k as int),
        decreases t.len() - k,
    {
        k += 1;
    }
    k
}

/// Parse an `attachment:OFFSET:SIZE` location value.
pub fn parse_attachment_location(v: &[u8]) -> (r: Option<(usize, usize)>)
    ensures
        match attachment_location(v@) {
            Some((o, s)) => r matches Some((a, b)) && a == o && b == s,
            None => r is None,
        },
{
    let prefix: [u8; 11] = [97, 116, 116, 97, 99, 104, 109, 101, 110, 116, 58];
    if v.len() < 11 {
        return None;
    }
    let mut i: usize = 0;
    while i < 11
        invariant
            0 <= i <= 11 <= v@.len(),
            prefix@ == attachment_prefix(),
            forall|j: int| 0 <= j < i ==> v@[j] == prefix@[j],
        decreases 11 - i,
    {
        if v[i] != prefix[i] {
            assert(v@.take(11)[i as int] != attachment_prefix()[i as int]);
            return None;
        }
        i += 1;
    }
    assert(v@.take(11) =~= attachment_prefix());
    let rest = vstd::slice::slice_subrange(v, 11, v.len());
    assert(rest@ =~= v@.skip(11));
    match find_byte_from(rest, 0, 58) {
        None => None,
        Some(c) => {
            proof {
                lemma_find_byte_bound(rest@, 0, 58);
            }
            let a = vstd::slice::slice_subrange(rest, 0, c);
            let b = vstd::slice::slice_subrange(rest, c + 1, rest.len());
            assert(a@ =~= rest@.take(c as int));
            assert(b@ =~= rest@.skip(c + 1));
            match (read_usize(a), read_usize(b)) {
                (Some(o), Some(s)) => Some((o, s)),
                _ => None,
            }
        },
    }
}

proof fn lemma_find_byte_bound(t: Seq<u8>, j: int, q: u8)
    ensures
        find_byte(t, j, q) matches Some(p) ==> j <= p < t.len() && t[p] == q,
    decreases t.len() - j,
{
    if 0 <= j < t.len() && t[j] != q {
        lemma_find_byte_bound(t, j + 1, q);
    }
}

proof fn lemma_skip_ws_bound(t: Seq<u8>, j: int)
    ensures
        skip_ws(t, j) >= j,
        0 <= j <= t.len() ==> skip_ws(t, j) <= t.len(),
    decreases t.len() - j,
{
    if 0 <= j < t.len() && ascii_ws(t[j]) {
        lemma_skip_ws_bound(t, j + 1);
    }
}

proof fn lemma_attr_span_bound(t: Seq<u8>, name: Seq<u8>, i: int)
    ensures
        attr_span_from(t, name, i) matches Some((a, b)) ==> 0 < a <= b < t.len(),
    decreases t.len() - i,
{
    if name.len() == 0 || i < 0 || i + name.len() > t.len() {
    } else if !bytes_match(t.subrange(i, i + name.len()), name) {
        lemma_attr_span_bound(t, name, i + 1);
    } else {
        let n = name.len() as int;
        if i == 0 || (0 < i <= t.len() && ascii_ws(t[i - 1])) {
            let j = skip_ws(t, i + n);
            lemma_skip_ws_bound(t, i + n);
            if 0 <= j < t.len() && t[j] == 61 {
                let k = skip_ws(t, j + 1);
                lemma_skip_ws_bound(t, j + 1);
                if 0 <= k < t.len() && (t[k] == 34 || t[k] == 39) {
                    lemma_find_byte_bound(t, k + 1, t[k]);
                }
            }
        }
        lemma_attr_span_bound(t, name, i + n);
    }
}

/// Find the span of `name`'s value (quotes excluded) within a tag's raw
/// bytes (see [`attr_span_from`]).
pub fn find_attr_value_span(tag: &[u8], name: &[u8]) -> (r: Option<(usize, usize)>)
    ensures
        match attr_span_from(tag@, name@, 0) {
            Some((a, b)) => r matches Some((x, y)) && x == a && y == b,
            None => r is None,
        },
{
    let n = name.len();
    if n == 0 {
        return None;
    }
    let tl = tag.len();
    let mut i: usize = 0;
    while i <= tag.len() && n <= tag.len() - i
        invariant
            n == name@.len() > 0,
            tl == tag@.len(),
            attr_span_from(tag@, name@, 0) == attr_span_from(tag@, name@, i as int),
        decreases tag.len() - i,
    {
        let mut m: usize = 0;
        let mut same = true;
        while m < n
            invariant
                0 <= m <= n,
                i + n <= tag@.len(),
                tl == tag@.len(),
                n == name@.len(),
                same == (forall|x: int| 0 <= x < m ==> lower(tag@[i + x]) == lower(name@[x])),
            decreases n - m,
        {
            assert(i + m < tag@.len());
            let a = tag[i + m];
            let b = name[m];
            let la = if 65 <= a && a <= 90 {
                a + 32
            } else {
                a
            };
            let lb = if 65 <= b && b <= 90 {
                b + 32
            } else {
                b
            };
            if la != lb {
                same = false;
            }
            m += 1;
        }
        proof {
            let sub = tag@.subrange(i as int, i + n);
            assert(same == bytes_match(sub, name@)) by {
                if same {
                    assert forall|x: int| 0 <= x < sub.len() implies #[trigger] lower(sub[x]) == lower(
                        name@[x],
                    ) by {
                        assert(sub[x] == tag@[i + x]);
                    }
                } else {
                    let x = choose|x: int| 0 <= x < n && !(lower(tag@[i + x]) == lower(name@[x]));
                    assert(sub[x] == tag@[i + x]);
                }
            }
        }
        if !same {
            i += 1;
            continue;
        }
        let before_ok = i == 0 || {
            let c = tag[i - 1];
            c == 32 || c == 9 || c == 10 || c == 12 || c == 13
        };
        if before_ok {
            let j = skip_ws_from(tag, i + n);
            if j < tag.len() && tag[j] == 61 {
                let k = skip_ws_from(tag, j + 1);
                if k < tag.len() && (tag[k] == 34 || tag[k] == 39) {
                    match find_byte_from(tag, k + 1, tag[k]) {
                        Some(e) => {
                            return Some((k + 1, e));
                        },
                        None => {},
                    }
                }
            }
        }
        i += n;
    }
    None
}

} // verus!

verus! {

// ----- the index of a parsed header ------------------------------------------------

/// An element carrying an `attachment:OFFSET:SIZE` location: whether it is
/// the `<Image>`, the byte span of the location value in the XML, and the
/// offset and size it names.
pub struct LocationView {
    pub is_image: bool,
    pub start: nat,
    pub end: nat,
    pub offset: nat,
    pub size: nat,
}

/// A `<Property>` opened by a start tag, whose value may follow as child
/// text when it has no `value` attribute.
pub struct OpenView {
    pub id: Option<Seq<char>>,
    pub prop: PropertyView,
    pub has_value: bool,
    pub span_start: nat,
}

/// What reading the items so far has gathered: the keywords and properties,
/// the byte spans of their elements, the `<Property>` currently open, how
/// many `<Image>` elements there are, where `</Image>` starts, and every
/// attachment location.
pub struct IndexState {
    pub keywords: Seq<KeywordView>,
    pub properties: Map<Seq<char>, PropertyView>,
    pub keyword_spans: Seq<(nat, nat)>,
    pub property_spans: Seq<(Seq<char>, nat, nat)>,
    pub open: Option<OpenView>,
    pub image_count: nat,
    pub image_end: Option<nat>,
    pub locations: Seq<LocationView>,
}

/// Nothing read yet.
pub open spec fn empty_state() -> IndexState {
    IndexState {
        keywords: Seq::empty(),
        properties: Map::empty(),
        keyword_spans: Seq::empty(),
        property_spans: Seq::empty(),
        open: None,
        image_count: 0,
        image_end: None,
        locations: Seq::empty(),
    }
}

/// The attachment location an element's tag carries, if its `location`
/// attribute holds a valid `attachment:OFFSET:SIZE`.
pub open spec fn item_location(xml: Seq<u8>, it: ItemView) -> Option<LocationView> {
    match attr_span_from(xml.subrange(it.start as int, it.end as int), location_name(), 0) {
        Some((vs, ve)) => match attachment_location(
            xml.subrange(it.start + vs, it.start + ve),
        ) {
            Some((o, s)) => Some(
                LocationView {
                    is_image: names_match(it.name, image_tag()),
                    start: (it.start + vs) as nat,
                    end: (it.start + ve) as nat,
                    offset: o,
                    size: s,
                },
            ),
            None => None,
        },
        None => None,
    }
}

/// A tag other than `<FITSKeyword>` and `<Property>`: count it when it is an
/// `<Image>`, and record its attachment location.
pub open spec fn other_tag(xml: Seq<u8>, st: IndexState, it: ItemView) -> IndexState {
    IndexState {
        image_count: st.image_count + if names_match(it.name, image_tag()) {
            1nat
        } else {
            0nat
        },
        locations: match item_location(xml, it) {
            Some(l) => st.locations.push(l),
            None => st.locations,
        },
        ..st
    }
}

/// A `<FITSKeyword>` tag: its keyword and span, when it has a name.
pub open spec fn keyword_step(st: IndexState, it: ItemView) -> IndexState {
    match keyword_of(it.attrs) {
        Some(k) => IndexState {
            keywords: st.keywords.push(k),
            keyword_spans: st.keyword_spans.push((it.start, it.end)),
            ..st
        },
        None => st,
    }
}

/// Record the property `p` with id `id` and the span `start..end`; a later
/// property with the same id replaces an earlier one.
pub open spec fn add_property(st: IndexState, id: Seq<char>, p: PropertyView, start: nat, end: nat) -> IndexState {
    IndexState {
        properties: st.properties.insert(id, p),
        property_spans: st.property_spans.push((id, start, end)),
        ..st
    }
}

/// Read one item.
pub open spec fn index_step(xml: Seq<u8>, st: IndexState, it: ItemView) -> IndexState {
    match it.kind {
        ItemKind::Empty => if names_match(it.name, keyword_tag()) {
            keyword_step(st, it)
        } else if names_match(it.name, property_tag()) {
            match property_of(it.attrs).0 {
                Some(id) => add_property(st, id, property_of(it.attrs).1, it.start, it.end),
                None => st,
            }
        } else {
            other_tag(xml, st, it)
        },
        ItemKind::Start => if names_match(it.name, keyword_tag()) {
            keyword_step(st, it)
        } else if names_match(it.name, property_tag()) {
            let (id, p, has_value) = property_of(it.attrs);
            IndexState {
                open: Some(OpenView { id, prop: p, has_value, span_start: it.start }),
                ..st
            }
        } else {
            other_tag(xml, st, it)
        },
        ItemKind::Text | ItemKind::CData => match st.open {
            Some(o) => if o.has_value {
                st
            } else {
                IndexState {
                    open: Some(
                        OpenView { prop: PropertyView { value: o.prop.value + it.text, ..o.prop }, ..o },
                    ),
                    ..st
                }
            },
            None => st,
        },
        ItemKind::End => if names_match(it.name, property_tag()) {
            match st.open {
                Some(o) => match o.id {
                    Some(id) => add_property(
                        IndexState { open: None, ..st },
                        id,
                        o.prop,
                        o.span_start,
                        it.end,
                    ),
                    None => IndexState { open: None, ..st },
                },
                None => st,
            }
        } else if names_match(it.name, image_tag()) {
            IndexState { image_end: Some(it.start), ..st }
        } else {
            st
        },
        ItemKind::Other => st,
    }
}

/// Read the items in order.
pub open spec fn index_items(xml: Seq<u8>, items: Seq<ItemView>) -> IndexState
    decreases items.len(),
{
    if items.len() == 0 {
        empty_state()
    } else {
        index_step(xml, index_items(xml, items.drop_last()), items.last())
    }
}

/// Where the single attachment lives, and where new elements go.
pub struct ImageView {
    pub location_span: (nat, nat),
    pub offset: nat,
    pub size: nat,
    pub insertion_point: Option<nat>,
}

/// The attachment layout a splice can target: exactly one `<Image>`
/// element, carrying the document's one attachment location; otherwise the
/// reason it cannot.
pub open spec fn image_layout(count: nat, locs: Seq<LocationView>, image_end: Option<nat>) -> core::result::Result<ImageView, Seq<char>> {
    if count == 0 {
        Err("no <Image> element found"@)
    } else if count > 1 {
        Err("found "@ + nat_text(count) + " <Image> elements; update_file supports exactly one"@)
    } else if locs.len() != 1 {
        Err(
            "found "@ + nat_text(locs.len()) + " attachment location(s); update_file supports exactly one"@,
        )
    } else if !locs[0].is_image {
        Err("the attachment location is not on the <Image> element"@)
    } else {
        Ok(
            ImageView {
                location_span: (locs[0].start, locs[0].end),
                offset: locs[0].offset,
                size: locs[0].size,
                insertion_point: image_end,
            },
        )
    }
}

/// An attachment location found in the XML.
pub struct Location {
    pub is_image: bool,
    pub start: usize,
    pub end: usize,
    pub offset: usize,
    pub size: usize,
}

impl View for Location {
    type V = LocationView;

    open spec fn view(&self) -> LocationView {
        LocationView {
            is_image: self.is_image,
            start: self.start as nat,
            end: self.end as nat,
            offset: self.offset as nat,
            size: self.size as nat,
        }
    }
}

/// A `<Property>` opened by a start tag.
pub struct OpenProperty {
    pub id: Option<String>,
    pub prop: Property,
    pub has_value: bool,
    pub span_start: usize,
}

impl View for OpenProperty {
    type V = OpenView;

    open spec fn view(&self) -> OpenView {
        OpenView {
            id: match self.id {
                Some(s) => Some(s@),
                None => None,
            },
            prop: self.prop@,
            has_value: self.has_value,
            span_start: self.span_start as nat,
        }
    }
}

/// The single attachment's location value span, offset and size, and the
/// byte offset just before `</Image>` where new elements are inserted
/// (none for a self-closing `<Image/>`).
#[derive(Debug, Clone, Copy)]
pub struct ImageInfo {
    pub location_start: usize,
    pub location_end: usize,
    pub offset: usize,
    pub size: usize,
    pub insertion_point: Option<usize>,
}

impl View for ImageInfo {
    type V = ImageView;

    open spec fn view(&self) -> ImageView {
        ImageView {
            location_span: (self.location_start as nat, self.location_end as nat),
            offset: self.offset as nat,
            size: self.size as nat,
            insertion_point: match self.insertion_point {
                Some(p) => Some(p as nat),
                None => None,
            },
        }
    }
}

/// Byte spans of the modeled elements of a parsed XML header, in document
/// order, and the attachment layout (or why a splice cannot target it).
#[derive(Debug)]
pub struct XmlIndex {
    pub keyword_spans: Vec<(usize, usize)>,
    pub property_spans: Vec<(String, usize, usize)>,
    pub image: core::result::Result<ImageInfo, String>,
}

/// The mathematical meaning of an [`XmlIndex`].
pub struct IndexView {
    pub keyword_spans: Seq<(nat, nat)>,
    pub property_spans: Seq<(Seq<char>, nat, nat)>,
    pub image: core::result::Result<ImageView, Seq<char>>,
}

pub open spec fn span_views(v: Seq<(usize, usize)>) -> Seq<(nat, nat)> {
    v.map_values(|p: (usize, usize)| (p.0 as nat, p.1 as nat))
}

pub open spec fn id_span_views(v: Seq<(String, usize, usize)>) -> Seq<(Seq<char>, nat, nat)> {
    v.map_values(|p: (String, usize, usize)| (p.0@, p.1 as nat, p.2 as nat))
}

impl View for XmlIndex {
    type V = IndexView;

    open spec fn view(&self) -> IndexView {
        IndexView {
            keyword_spans: span_views(self.keyword_spans@),
            property_spans: id_span_views(self.property_spans@),
            image: match self.image {
                Ok(i) => Ok(i@),
                Err(s) => Err(s@),
            },
        }
    }
}

/// The header and index that reading `items` of the XML text `xml` gives.
pub open spec fn parsed_index(xml: Seq<u8>, items: Seq<ItemView>) -> (HeaderView, IndexView) {
    let st = index_items(xml, items);
    (
        HeaderView { keywords: st.keywords, properties: st.properties },
        IndexView {
            keyword_spans: st.keyword_spans,
            property_spans: st.property_spans,
            image: image_layout(st.image_count, st.locations, st.image_end),
        },
    )
}

} // verus!

verus! {

/// The record of the items read so far.
struct Builder {
    keywords: Vec<FitsKeyword>,
    properties: PropertyMap,
    keyword_spans: Vec<(usize, usize)>,
    property_spans: Vec<(String, usize, usize)>,
    open: Option<OpenProperty>,
    image_count: usize,
    image_end: Option<usize>,
    locations: Vec<Location>,
}

impl View for Builder {
    type V = IndexState;

    closed spec fn view(&self) -> IndexState {
        IndexState {
            keywords: self.keywords@.map_values(|k: FitsKeyword| k@),
            properties: self.properties@,
            keyword_spans: span_views(self.keyword_spans@),
            property_spans: id_span_views(self.property_spans@),
            open: match self.open {
                Some(o) => Some(o@),
                None => None,
            },
            image_count: self.image_count as nat,
            image_end: match self.image_end {
                Some(e) => Some(e as nat),
                None => None,
            },
            locations: self.locations@.map_values(|l: Location| l@),
        }
    }
}

/// The attachment location an element's tag carries (see
/// [`item_location`]).
fn location_of(xml: &[u8], it: &XmlItem) -> (r: Option<Location>)
    requires
        it.start < it.end <= xml@.len(),
    ensures
        match item_location(xml@, it@) {
            Some(l) => r matches Some(x) && x@ == l,
            None => r is None,
        },
{
    let tag = vstd::slice::slice_subrange(xml, it.start, it.end);
    let name: [u8; 8] = [108, 111, 99, 97, 116, 105, 111, 110];
    assert(name@ =~= location_name());
    match find_attr_value_span(tag, &name) {
        None => None,
        Some((vs, ve)) => {
            proof {
                lemma_attr_span_bound(tag@, location_name(), 0);
            }
            let start = it.start + vs;
            let end = it.start + ve;
            let value = vstd::slice::slice_subrange(xml, start, end);
            match parse_attachment_location(value) {
                None => None,
                Some((offset, size)) => Some(
                    Location { is_image: is_image_tag(it.name.as_str()), start, end, offset, size },
                ),
            }
        },
    }
}

impl Builder {
    fn new() -> (b: Builder)
        ensures
            b@ == empty_state(),
    {
        let b = Builder {
            keywords: Vec::new(),
            properties: PropertyMap::new(),
            keyword_spans: Vec::new(),
            property_spans: Vec::new(),
            open: None,
            image_count: 0,
            image_end: None,
            locations: Vec::new(),
        };
        assert(b@.keywords =~= Seq::<KeywordView>::empty());
        assert(b@.keyword_spans =~= Seq::<(nat, nat)>::empty());
        assert(b@.property_spans =~= Seq::<(Seq<char>, nat, nat)>::empty());
        assert(b@.locations =~= Seq::<LocationView>::empty());
        b
    }

    fn keyword(&mut self, it: &XmlItem)
        ensures
            final(self)@ == keyword_step(old(self)@, it@),
    {
        match keyword_from_attrs(it.attrs.as_slice()) {
            Some(k) => {
                self.keywords.push(k);
                self.keyword_spans.push((it.start, it.end));
                assert(self@.keywords =~= old(self)@.keywords.push(k@));
                assert(self@.keyword_spans =~= old(self)@.keyword_spans.push((it@.start, it@.end)));
            },
            None => {},
        }
    }

    fn add_property(&mut self, id: String, p: Property, start: usize, end: usize)
        ensures
            final(self)@ == add_property(old(self)@, id@, p@, start as nat, end as nat),
    {
        let ghost iv = id@;
        let ghost pv = p@;
        self.property_spans.push((id.clone(), start, end));
        self.properties.insert(id, p);
        assert(self@.property_spans =~= old(self)@.property_spans.push((iv, start as nat, end as nat)));
    }

    fn other(&mut self, xml: &[u8], it: &XmlItem)
        requires
            it.start < it.end <= xml@.len(),
            old(self).image_count < usize::MAX,
        ensures
            final(self)@ == other_tag(xml@, old(self)@, it@),
    {
        if is_image_tag(it.name.as_str()) {
            self.image_count = self.image_count + 1;
        }
        match location_of(xml, it) {
            Some(l) => {
                self.locations.push(l);
                assert(self@.locations =~= old(self)@.locations.push(l@));
            },
            None => {},
        }
    }

    fn step(&mut self, xml: &[u8], it: &XmlItem)
        requires
            it.start < it.end <= xml@.len(),
            old(self).image_count < usize::MAX,
        ensures
            final(self)@ == index_step(xml@, old(self)@, it@),
    {
        match it.kind {
            ItemKind::Empty => {
                if is_keyword_tag(it.name.as_str()) {
                    self.keyword(it);
                } else if is_property_tag(it.name.as_str()) {
                    let (id, p, _) = property_from_attrs(it.attrs.as_slice());
                    match id {
                        Some(id) => self.add_property(id, p, it.start, it.end),
                        None => {},
                    }
                } else {
                    self.other(xml, it);
                }
            },
            ItemKind::Start => {
                if is_keyword_tag(it.name.as_str()) {
                    self.keyword(it);
                } else if is_property_tag(it.name.as_str()) {
                    let (id, prop, has_value) = property_from_attrs(it.attrs.as_slice());
                    self.open = Some(OpenProperty { id, prop, has_value, span_start: it.start });
                } else {
                    self.other(xml, it);
                }
            },
            ItemKind::Text | ItemKind::CData => {
                let mut cur: Option<OpenProperty> = None;
                std::mem::swap(&mut cur, &mut self.open);
                match cur {
                    Some(mut o) => {
                        if !o.has_value {
                            push_str(&mut o.prop.value, it.text.as_str());
                        }
                        self.open = Some(o);
                    },
                    None => {},
                }
            },
            ItemKind::End => {
                if is_property_tag(it.name.as_str()) {
                    let mut cur: Option<OpenProperty> = None;
                    std::mem::swap(&mut cur, &mut self.open);
                    match cur {
                        Some(o) => match o.id {
                            Some(id) => self.add_property(id, o.prop, o.span_start, it.end),
                            None => {},
                        },
                        None => {},
                    }
                } else if is_image_tag(it.name.as_str()) {
                    self.image_end = Some(it.start);
                }
            },
            ItemKind::Other => {},
        }
    }
}

/// The reason, as text, that a splice cannot target the layout.
fn layout_problem(count: usize, locs: &Vec<Location>) -> (r: core::result::Result<ImageInfo, String>)
    ensures
        match image_layout(count as nat, locs@.map_values(|l: Location| l@), None) {
            Ok(_) => r is Ok,
            Err(m) => r matches Err(s) && s@ == m,
        },
        r matches Ok(i) ==> i@ == image_layout(count as nat, locs@.map_values(|l: Location| l@), None)->Ok_0,
{
    let ghost lv = locs@.map_values(|l: Location| l@);
    if count == 0 {
        return Err("no <Image> element found".to_owned());
    }
    if count > 1 {
        let mut m = "found ".to_owned();
        let n = usize_text(count);
        push_str(&mut m, n.as_str());
        push_str(&mut m, " <Image> elements; update_file supports exactly one");
        return Err(m);
    }
    if locs.len() != 1 {
        let mut m = "found ".to_owned();
        let n = usize_text(locs.len());
        push_str(&mut m, n.as_str());
        push_str(&mut m, " attachment location(s); update_file supports exactly one");
        return Err(m);
    }
    let l = &locs[0];
    assert(lv[0] == l@);
    if !l.is_image {
        return Err("the attachment location is not on the <Image> element".to_owned());
    }
    Ok(ImageInfo { location_start: l.start, location_end: l.end, offset: l.offset, size: l.size, insertion_point: None })
}

/// Decide whether the document has a splice-able single attachment (see
/// [`image_layout`]).
fn resolve_image(count: usize, locs: &Vec<Location>, image_end: Option<usize>) -> (r: core::result::Result<ImageInfo, String>)
    ensures
        match image_layout(
            count as nat,
            locs@.map_values(|l: Location| l@),
            match image_end {
                Some(e) => Some(e as nat),
                None => None,
            },
        ) {
            Ok(v) => r matches Ok(i) && i@ == v,
            Err(m) => r matches Err(s) && s@ == m,
        },
{
    match layout_problem(count, locs) {
        Err(m) => Err(m),
        Ok(i) => Ok(ImageInfo { insertion_point: image_end, ..i }),
    }
}

/// Read the items of the XML text `xml` into the header they describe and
/// the index a byte-exact splice needs (see [`parsed_index`]).
pub fn index_xml(xml: &str, items: &[XmlItem]) -> (r: (Header, XmlIndex))
    requires
        items_in_bounds(item_views(items@), xml.spec_bytes().len()),
    ensures
        (r.0@, r.1@) == parsed_index(xml.spec_bytes(), item_views(items@)),
{
    let bytes = xml.as_bytes();
    let ghost iv = item_views(items@);
    let mut b = Builder::new();
    let mut i: usize = 0;
    while i < items.len()
        invariant
            0 <= i <= items@.len(),
            iv == item_views(items@),
            bytes@ == xml.spec_bytes(),
            items_in_bounds(iv, bytes@.len()),
            b@ == index_items(bytes@, iv.take(i as int)),
            b.image_count <= i,
        decreases items.len() - i,
    {
        assert(iv[i as int] == items@[i as int]@);
        proof {
            crate::xml::lemma_item_in_bounds(iv, bytes@.len(), i as int);
        }
        assert(iv.take(i + 1).drop_last() =~= iv.take(i as int));
        b.step(bytes, &items[i]);
        i += 1;
    }
    assert(iv.take(i as int) =~= iv);
    let image = resolve_image(b.image_count, &b.locations, b.image_end);
    let header = Header { keywords: b.keywords, properties: b.properties };
    assert(header@.keywords == b@.keywords);
    (header, XmlIndex { keyword_spans: b.keyword_spans, property_spans: b.property_spans, image })
}

} // verus!

verus! {

/// The XML header of a container whose preamble is valid.
pub open spec fn xml_bytes(b: Seq<u8>) -> Seq<u8> {
    match preamble(b) {
        Preamble::Header(end) => b.subrange(16, end as int),
        _ => Seq::empty(),
    }
}

/// What reading the XML text with bytes `text` gives: the header and index
/// of the reader's items (see [`parsed_index`]), or the reader's error.
pub open spec fn read_xml(text: Seq<u8>) -> core::result::Result<(HeaderView, IndexView), ScanError> {
    match xml_items(text) {
        Ok(items) => Ok(parsed_index(text, items)),
        Err(e) => Err(e),
    }
}

/// `e` is the library's error for the reading error `se`.
pub open spec fn scan_error(e: XisfError, se: ScanError) -> bool {
    match se {
        ScanError::Xml => e is Xml,
        ScanError::Attr => e is Attr,
    }
}

/// Read the XML text: the header it describes and the index of its modeled
/// elements (see [`read_xml`]), or the reader's error for malformed XML.
pub fn parse_xml_with_index(xml: &str) -> (r: Result<(Header, XmlIndex)>)
    ensures
        match read_xml(xml.spec_bytes()) {
            Ok(v) => r matches Ok((h, idx)) && (h@, idx@) == v,
            Err(se) => r matches Err(e) && scan_error(e, se),
        },
{
    match scan_xml(xml) {
        Err(e) => Err(e),
        Ok(items) => {
            let r = index_xml(xml, items.as_slice());
            Ok(r)
        },
    }
}

impl Header {
    /// Parse an XISF header from raw container bytes.
    ///
    /// Validates the 16-byte preamble — bytes 0–7 are the `XISF0100`
    /// signature, bytes 8–11 the little-endian XML-header length (capped at
    /// 8 MiB), bytes 12–15 reserved and ignored — then decodes the UTF-8 XML
    /// header and extracts every `<FITSKeyword>` and `<Property>`. Data
    /// beyond the header is never read.
    pub fn parse(bytes: &[u8]) -> (r: Result<Header>)
        ensures
            match preamble(bytes@) {
                Preamble::Header(end) => if vstd::utf8::valid_utf8(xml_bytes(bytes@)) {
                    match read_xml(xml_bytes(bytes@)) {
                        Ok(v) => r matches Ok(h) && h@ == v.0,
                        Err(se) => r matches Err(e) && scan_error(e, se),
                    }
                } else {
                    r matches Err(e) && e is Utf8
                },
                _ => r matches Err(e) && preamble_error(bytes@, e),
            },
    {
        let (start, end) = match split_preamble(bytes) {
            Ok(range) => range,
            Err(e) => {
                return Err(e);
            },
        };
        let xml = match utf8_text(vstd::slice::slice_subrange(bytes, start, end)) {
            Ok(s) => s,
            Err(e) => {
                return Err(XisfError::Utf8(e));
            },
        };
        match parse_xml_with_index(xml) {
            Ok((h, _)) => Ok(h),
            Err(e) => Err(e),
        }
    }
}

/// The reserved bytes `12..16` and every byte after the declared XML
/// header never change what a container reads as: replacing them keeps the
/// preamble's verdict and the XML text, so `Header::parse` gives the same.
pub proof fn law_reserved_and_trailing_bytes_are_ignored(b: Seq<u8>, reserved: Seq<u8>, extra: Seq<u8>)
    requires
        preamble(b) is Header,
        reserved.len() == 4,
    ensures
        ({
            let end = preamble(b)->Header_0;
            let b2 = b.subrange(0, 12) + reserved + b.subrange(16, end as int) + extra;
            &&& preamble(b2) == preamble(b)
            &&& xml_bytes(b2) == xml_bytes(b)
        }),
{
    let end = preamble(b)->Header_0;
    let b2 = b.subrange(0, 12) + reserved + b.subrange(16, end as int) + extra;
    assert(b2.subrange(0, 8) =~= b.subrange(0, 8));
    assert(b2[8] == b[8] && b2[9] == b[9] && b2[10] == b[10] && b2[11] == b[11]);
    assert(xml_bytes(b2) =~= xml_bytes(b));
}

/// The spans lie inside a text of `len` bytes, in order, each ending
/// before the next starts.
pub open spec fn spans_ordered(spans: Seq<(nat, nat)>, len: nat) -> bool {
    &&& forall|i: int| 0 <= i < spans.len() ==> #[trigger] spans[i].0 < spans[i].1 <= len
    &&& forall|i: int, j: int| 0 <= i < j < spans.len() ==> #[trigger] spans[i].1 <= #[trigger] spans[j].0
}

proof fn lemma_keyword_spans(xml: Seq<u8>, items: Seq<ItemView>)
    requires
        items_in_bounds(items, xml.len()),
        crate::xml::items_ordered(items),
    ensures
        spans_ordered(index_items(xml, items).keyword_spans, xml.len()),
        index_items(xml, items).keywords.len() == index_items(xml, items).keyword_spans.len(),
        items.len() > 0 ==> forall|i: int|
            0 <= i < index_items(xml, items).keyword_spans.len() ==> #[trigger] index_items(
                xml,
                items,
            ).keyword_spans[i].1 <= items.last().end,
    decreases items.len(),
{
    if items.len() > 0 {
        let init = items.drop_last();
        assert forall|i: int| 0 <= i < init.len() implies #[trigger] init[i].start < init[i].end && init[i].end
            <= xml.len() by {
            assert(init[i] == items[i]);
        }
        assert forall|i: int, j: int| 0 <= i < j < init.len() implies #[trigger] init[i].end
            <= #[trigger] init[j].start by {
            assert(init[i] == items[i] && init[j] == items[j]);
        }
        lemma_keyword_spans(xml, init);
        let it = items.last();
        assert(it == items[items.len() - 1]);
        assert(it.start < it.end <= xml.len());
        if init.len() > 0 {
            assert(init.last() == items[items.len() - 2]);
            assert(init.last().end <= it.start);
        }
        let before = index_items(xml, init).keyword_spans;
        let after = index_items(xml, items).keyword_spans;
        assert(after == before || after == before.push((it.start, it.end)));
        if after != before {
            assert forall|i: int, j: int| 0 <= i < j < after.len() implies #[trigger] after[i].1
                <= #[trigger] after[j].0 by {
                assert(after[i] == before[i]);
                if j < before.len() {
                    assert(after[j] == before[j]);
                }
            }
            assert forall|i: int| 0 <= i < after.len() implies #[trigger] after[i].0 < after[i].1 <= xml.len() by {
                if i < before.len() {
                    assert(after[i] == before[i]);
                }
            }
            assert forall|i: int| 0 <= i < after.len() implies #[trigger] after[i].1 <= it.end by {
                if i < before.len() {
                    assert(after[i] == before[i]);
                }
            }
        }
    }
}

/// The keyword spans of a read XML text are one per keyword, inside the
/// text (a leading byte order mark counted), in document order and
/// disjoint.
pub proof fn law_keyword_spans_are_ordered(text: Seq<u8>)
    requires
        read_xml(text) is Ok,
    ensures
        read_xml(text)->Ok_0.1.keyword_spans.len() == read_xml(text)->Ok_0.0.keywords.len(),
        spans_ordered(read_xml(text)->Ok_0.1.keyword_spans, text.len()),
{
    crate::xml::lemma_xml_items_in_bounds(text);
    lemma_keyword_spans(text, xml_items(text)->Ok_0);
}

} // verus!
