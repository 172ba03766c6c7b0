//! Serialization: the XML header of a [`Header`] and the container preamble
//! around it.

use vstd::prelude::*;
use vstd::string::StringSliceAdditionalSpecFns;

use quick_xml::events::attributes::Attribute;

use crate::header::{Header, StructuralHints};
use crate::keyword::{commentary, is_commentary, KeywordView};
use crate::keyword::chars_equal;
use crate::property::{entry_view, Property, PropertyView};
use crate::reader::{parse_usize, read_usize, signature};
use crate::text::{chars_of, push_char, push_str, string_from_chars, trim, trim_bounds};
use crate::value::{nat_text, push_nat_text, usize_text, Value, ValueView};

verus! {

// ----- attribute escaping ----------------------------------------------------------

/// How one character of an attribute value is written: the XML special
/// characters and the whitespace that attribute-value normalization would
/// otherwise turn into spaces become references, everything else stays.
pub open spec fn escape_char(c: char) -> Seq<char> {
    if c == '<' {
        seq!['&', 'l', 't', ';']
    } else if c == '>' {
        seq!['&', 'g', 't', ';']
    } else if c == '&' {
        seq!['&', 'a', 'm', 'p', ';']
    } else if c == '\'' {
        seq!['&', 'a', 'p', 'o', 's', ';']
    } else if c == '"' {
        seq!['&', 'q', 'u', 'o', 't', ';']
    } else if c == '\r' {
        seq!['&', '#', '1', '3', ';']
    } else if c == '\n' {
        seq!['&', '#', '1', '0', ';']
    } else if c == '\t' {
        seq!['&', '#', '9', ';']
    } else {
        seq![c]
    }
}

/// An attribute value as written, character by character.
pub open spec fn escaped(s: Seq<char>) -> Seq<char>
    decreases s.len(),
{
    if s.len() == 0 {
        Seq::empty()
    } else {
        escaped(s.drop_last()) + escape_char(s.last())
    }
}

/// The value `quick_xml` writes for an attribute given as text (the value
/// of `Attribute::from((key, value))`): `<`, `>`, `&`, `'`, `"`, CR, LF and
/// TAB replaced by references, as its escaping table documents.
#[verifier::external_body]
fn escape_attribute(v: &str) -> (r: String)
    ensures
        r@ == escaped(v@),
{
    Attribute::from(("", v)).value.into_owned()
}

// ----- the XML text -----------------------------------------------------------------

/// One attribute of a tag as written: a space, the key, `="`, the escaped
/// value and `"`.
pub open spec fn attr(key: Seq<char>, value: Seq<char>) -> Seq<char> {
    " "@ + key + "=\""@ + escaped(value) + "\""@
}

/// The text of a keyword value in its `value` attribute: a string value
/// wrapped in single quotes, a literal as it is.
pub open spec fn value_text(v: ValueView) -> Seq<char> {
    if v.quoted {
        seq!['\''] + v.text + seq!['\'']
    } else {
        v.text
    }
}

/// A `<FITSKeyword .../>` element. A commentary keyword has no value: its
/// text goes in `comment`, with an empty `value`.
pub open spec fn keyword_element(k: KeywordView) -> Seq<char> {
    "<FITSKeyword"@ + attr("name"@, k.name) + if commentary(k.name) {
        attr("value"@, Seq::empty()) + attr("comment"@, k.value.text)
    } else {
        attr("value"@, value_text(k.value)) + attr("comment"@, k.comment)
    } + "/>"@
}

/// A `<Property .../>` element; `format` and `comment` only when not empty.
pub open spec fn property_element(id: Seq<char>, p: PropertyView) -> Seq<char> {
    "<Property"@ + attr("id"@, id) + attr("type"@, p.type_) + attr("value"@, p.value) + if p.format.len()
        > 0 {
        attr("format"@, p.format)
    } else {
        Seq::empty()
    } + if p.comment.len() > 0 {
        attr("comment"@, p.comment)
    } else {
        Seq::empty()
    } + "/>"@
}

/// The keyword elements, in order.
pub open spec fn keyword_elements(ks: Seq<KeywordView>) -> Seq<char>
    decreases ks.len(),
{
    if ks.len() == 0 {
        Seq::empty()
    } else {
        keyword_elements(ks.drop_last()) + keyword_element(ks.last())
    }
}

/// The property elements, in order.
pub open spec fn property_elements(es: Seq<(Seq<char>, PropertyView)>) -> Seq<char>
    decreases es.len(),
{
    if es.len() == 0 {
        Seq::empty()
    } else {
        property_elements(es.drop_last()) + property_element(es.last().0, es.last().1)
    }
}

/// The location value `attachment:OFFSET:SIZE`.
pub open spec fn location_text(offset: Seq<char>, size: nat) -> Seq<char> {
    "attachment:"@ + offset + ":"@ + nat_text(size)
}

/// Everything before the `<Image>` start tag.
pub open spec fn xml_prologue() -> Seq<char> {
    "<?xml version=\"1.0\" encoding=\"UTF-8\"?>"@ + "<xisf"@ + attr("version"@, "1.0"@) + attr(
        "xmlns"@,
        "http://www.pixinsight.com/xisf"@,
    ) + ">"@
}

/// Everything before the `location` attribute of `<Image>`: the
/// declaration, `<xisf>`, and `<Image` with the hinted geometry, sample
/// format and color space.
#[verifier::opaque]
pub open spec fn image_prefix(hints: (Seq<char>, Seq<char>, Seq<char>)) -> Seq<char> {
    xml_prologue() + "<Image"@ + attr("geometry"@, hints.0) + attr("sampleFormat"@, hints.1) + attr(
        "colorSpace"@,
        hints.2,
    )
}

/// Everything after the `location` attribute: the end of the `<Image>`
/// start tag, the keywords in order, the properties in id order, and the
/// closing tags.
#[verifier::opaque]
pub open spec fn image_suffix(kws: Seq<KeywordView>, entries: Seq<(Seq<char>, PropertyView)>) -> Seq<char> {
    ">"@ + keyword_elements(kws) + property_elements(entries) + "</Image>"@ + "</xisf>"@
}

/// The whole XML header: the declaration, `<xisf>`, one `<Image>` with the
/// hinted geometry, sample format and color space and the location
/// `attachment:OFFSET:SIZE`, the keywords in order, the properties in id
/// order, and the closing tags.
pub open spec fn xml_text(
    kws: Seq<KeywordView>,
    entries: Seq<(Seq<char>, PropertyView)>,
    hints: (Seq<char>, Seq<char>, Seq<char>),
    offset: Seq<char>,
    size: nat,
) -> Seq<char> {
    image_prefix(hints) + attr("location"@, location_text(offset, size)) + image_suffix(kws, entries)
}

/// The hints as text.
pub open spec fn hints_view(h: StructuralHints) -> (Seq<char>, Seq<char>, Seq<char>) {
    (h.geometry@, h.sample_format@, h.color_space@)
}

/// Append an attribute (see [`attr`]).
fn push_attr(out: &mut String, key: &str, value: &str)
    ensures
        final(out)@ == old(out)@ + attr(key@, value@),
{
    push_str(out, " ");
    push_str(out, key);
    push_str(out, "=\"");
    let v = escape_attribute(value);
    push_str(out, v.as_str());
    push_str(out, "\"");
    assert(final(out)@ =~= old(out)@ + attr(key@, value@));
}

/// Append a keyword element (see [`keyword_element`]).
pub(crate) fn push_keyword(out: &mut String, name: &str, value: &Value, comment: &str)
    ensures
        final(out)@ == old(out)@ + keyword_element(
            KeywordView { name: name@, value: value@, comment: comment@ },
        ),
{
    let ghost k = KeywordView { name: name@, value: value@, comment: comment@ };
    push_str(out, "<FITSKeyword");
    push_attr(out, "name", name);
    let ghost mid = out@;
    if is_commentary(name) {
        push_attr(out, "value", "");
        proof {
            reveal_strlit("");
        }
        push_attr(out, "comment", value.text());
        assert(out@ =~= mid + (attr("value"@, Seq::empty()) + attr("comment"@, k.value.text)));
    } else {
        let mut v = String::new();
        match value {
            Value::Str(s) => {
                push_char(&mut v, '\'');
                push_str(&mut v, s.as_str());
                push_char(&mut v, '\'');
            },
            Value::Literal(s) => {
                push_str(&mut v, s.as_str());
            },
        }
        assert(v@ =~= value_text(k.value));
        push_attr(out, "value", v.as_str());
        push_attr(out, "comment", comment);
        assert(out@ =~= mid + (attr("value"@, value_text(k.value)) + attr("comment"@, k.comment)));
    }
    push_str(out, "/>");
    assert(out@ =~= old(out)@ + keyword_element(k));
}

/// Append a property element (see [`property_element`]).
pub(crate) fn push_property(out: &mut String, id: &str, p: &Property)
    ensures
        final(out)@ == old(out)@ + property_element(id@, p@),
{
    push_str(out, "<Property");
    push_attr(out, "id", id);
    push_attr(out, "type", p.type_.as_str());
    push_attr(out, "value", p.value.as_str());
    let ghost a = out@;
    if !p.format.as_str().is_empty() {
        push_attr(out, "format", p.format.as_str());
    }
    let ghost b = out@;
    assert(b =~= a + if p@.format.len() > 0 {
        attr("format"@, p@.format)
    } else {
        Seq::empty()
    });
    if !p.comment.as_str().is_empty() {
        push_attr(out, "comment", p.comment.as_str());
    }
    let ghost c = out@;
    assert(c =~= b + if p@.comment.len() > 0 {
        attr("comment"@, p@.comment)
    } else {
        Seq::empty()
    });
    push_str(out, "/>");
    assert(out@ =~= old(out)@ + property_element(id@, p@));
}

impl Header {
    /// Render the XML header, with `offset` as the text of the attachment
    /// offset and `size` as its size.
    pub fn render_xml(&self, hints: &StructuralHints, offset: &str, size: usize) -> (r: String)
        ensures
            r@ == xml_text(
                self@.keywords,
                self.properties.entry_views(),
                hints_view(*hints),
                offset@,
                size as nat,
            ),
    {
        let mut out = String::new();
        push_str(&mut out, "<?xml version=\"1.0\" encoding=\"UTF-8\"?>");
        push_str(&mut out, "<xisf");
        push_attr(&mut out, "version", "1.0");
        push_attr(&mut out, "xmlns", "http://www.pixinsight.com/xisf");
        push_str(&mut out, ">");
        assert(out@ =~= xml_prologue());
        push_str(&mut out, "<Image");
        push_attr(&mut out, "geometry", hints.geometry.as_str());
        push_attr(&mut out, "sampleFormat", hints.sample_format.as_str());
        push_attr(&mut out, "colorSpace", hints.color_space.as_str());
        let mut location = String::new();
        push_str(&mut location, "attachment:");
        push_str(&mut location, offset);
        push_str(&mut location, ":");
        let size_text = usize_text(size);
        push_str(&mut location, size_text.as_str());
        assert(location@ =~= location_text(offset@, size as nat));
        proof {
            reveal(image_prefix);
        }
        let ghost prefix = image_prefix(hints_view(*hints)) + attr("location"@, location_text(offset@, size as nat));
        push_attr(&mut out, "location", location.as_str());
        assert(out@ =~= prefix);
        push_str(&mut out, ">");
        let ghost head = prefix + ">"@;
        assert(out@ =~= head);
        let ghost kws = self@.keywords;
        let mut i: usize = 0;
        while i < self.keywords.len()
            invariant
                0 <= i <= self.keywords@.len() == kws.len(),
                kws == self@.keywords,
                out@ == head + keyword_elements(kws.take(i as int)),
            decreases self.keywords.len() - i,
        {
            let k = &self.keywords[i];
            assert(kws[i as int] == k@);
            push_keyword(&mut out, k.name.as_str(), &k.value, k.comment.as_str());
            assert(kws.take(i + 1).drop_last() =~= kws.take(i as int));
            assert(out@ =~= head + keyword_elements(kws.take(i + 1)));
            i += 1;
        }
        assert(kws.take(i as int) =~= kws);
        let ghost mid = out@;
        let entries = self.properties.entries();
        let ghost es = self.properties.entry_views();
        let mut j: usize = 0;
        while j < entries.len()
            invariant
                0 <= j <= entries@.len() == es.len(),
                es == entries@.map_values(|e: (String, Property)| entry_view(e)),
                out@ == mid + property_elements(es.take(j as int)),
            decreases entries.len() - j,
        {
            let e = &entries[j];
            assert(es[j as int] == (e.0@, e.1@));
            push_property(&mut out, e.0.as_str(), &e.1);
            assert(es.take(j + 1).drop_last() =~= es.take(j as int));
            assert(out@ =~= mid + property_elements(es.take(j + 1)));
            j += 1;
        }
        assert(es.take(j as int) =~= es);
        push_str(&mut out, "</Image>");
        push_str(&mut out, "</xisf>");
        proof {
            reveal(image_suffix);
        }
        assert(out@ =~= xml_text(kws, es, hints_view(*hints), offset@, size as nat));
        out
    }
}

} // verus!

verus! {

// ----- the container preamble -------------------------------------------------------

/// Width of the zero-padded attachment offset, so that the rendered header's
/// length does not depend on the offset's magnitude.
pub const OFFSET_WIDTH: usize = 12;

/// `n` zeros.
pub open spec fn zeros(n: nat) -> Seq<char> {
    Seq::new(n, |i: int| '0')
}

/// The attachment offset as written: decimal, zero-padded to 12 digits so
/// that the header's length does not depend on the offset's magnitude.
pub open spec fn padded_offset(n: nat) -> Seq<char> {
    if nat_text(n).len() < 12 {
        zeros((12 - nat_text(n).len()) as nat) + nat_text(n)
    } else {
        nat_text(n)
    }
}

/// The four little-endian bytes of `n < 2^32`.
pub open spec fn le4(n: nat) -> Seq<u8> {
    seq![(n % 256) as u8, ((n / 256) % 256) as u8, ((n / 65536) % 256) as u8, ((n / 16777216) % 256) as u8]
}

/// The XML header of a container whose data block is `size` bytes: the
/// offset is that of the byte right after a header rendered with a
/// 12-digit placeholder offset.
pub open spec fn header_xml(
    kws: Seq<KeywordView>,
    entries: Seq<(Seq<char>, PropertyView)>,
    hints: (Seq<char>, Seq<char>, Seq<char>),
    size: nat,
) -> Seq<char> {
    let l = vstd::utf8::encode_utf8(xml_text(kws, entries, hints, zeros(12), size)).len();
    xml_text(kws, entries, hints, padded_offset(16 + l), size)
}

/// The preamble and XML header of a container whose data block is `size`
/// bytes: the signature, the XML length (little-endian `u32`, capped at
/// `u32::MAX`), four reserved zero bytes, and the UTF-8 XML.
pub open spec fn container_header(
    kws: Seq<KeywordView>,
    entries: Seq<(Seq<char>, PropertyView)>,
    hints: (Seq<char>, Seq<char>, Seq<char>),
    size: nat,
) -> Seq<u8> {
    let x = vstd::utf8::encode_utf8(header_xml(kws, entries, hints, size));
    signature() + le4(
        if x.len() > u32::MAX {
            u32::MAX as nat
        } else {
            x.len()
        },
    ) + seq![0u8, 0u8, 0u8, 0u8] + x
}

/// `n` zeros, as text.
fn zeros_text(n: usize) -> (s: String)
    ensures
        s@ == zeros(n as nat),
{
    let mut s = String::new();
    let mut i: usize = 0;
    while i < n
        invariant
            0 <= i <= n,
            s@ == zeros(i as nat),
        decreases n - i,
    {
        push_char(&mut s, '0');
        i += 1;
        assert(s@ =~= zeros(i as nat));
    }
    s
}

/// The padded offset text (see [`padded_offset`]).
fn offset_text(n: u128) -> (s: String)
    ensures
        s@ == padded_offset(n as nat),
{
    let mut digits = String::new();
    push_nat_text(&mut digits, n);
    assert(digits@ =~= nat_text(n as nat));
    let count = chars_of(digits.as_str()).len();
    if count < 12 {
        let mut s = zeros_text(12 - count);
        push_str(&mut s, digits.as_str());
        s
    } else {
        digits
    }
}

/// Append `b` to `out`.
fn push_bytes(out: &mut Vec<u8>, b: &[u8])
    ensures
        final(out)@ == old(out)@ + b@,
{
    out.extend_from_slice(b);
    assert(final(out)@ =~= old(out)@ + b@);
}

/// The little-endian bytes of `n`.
pub(crate) fn le4_bytes(n: u32) -> (r: [u8; 4])
    ensures
        r@ == le4(n as nat),
{
    let r: [u8; 4] = [
        (n % 256) as u8,
        ((n / 256) % 256) as u8,
        ((n / 65536) % 256) as u8,
        ((n / 16777216) % 256) as u8,
    ];
    assert(r@ =~= le4(n as nat));
    r
}

impl Header {
    /// Render the preamble and XML header for a container whose data block
    /// is `size` bytes.
    pub fn render_container_header(&self, hints: &StructuralHints, size: usize) -> (r: Vec<u8>)
        ensures
            r@ == container_header(
                self@.keywords,
                self.properties.entry_views(),
                hints_view(*hints),
                size as nat,
            ),
    {
        let ghost kws = self@.keywords;
        let ghost es = self.properties.entry_views();
        let ghost hv = hints_view(*hints);
        let placeholder = zeros_text(OFFSET_WIDTH);
        let first = self.render_xml(hints, placeholder.as_str(), size);
        let first_len = first.as_str().as_bytes().len();
        let offset = offset_text(16 + first_len as u128);
        let xml = self.render_xml(hints, offset.as_str(), size);
        assert(xml@ == header_xml(kws, es, hv, size as nat));
        let x = xml.as_str().as_bytes();
        let xml_len = x.len();
        let n: u32 = if xml_len > 4294967295 {
            4294967295
        } else {
            xml_len as u32
        };
        let mut out: Vec<u8> = Vec::new();
        let sig: [u8; 8] = [88, 73, 83, 70, 48, 49, 48, 48];
        assert(sig@ =~= signature());
        push_bytes(&mut out, &sig);
        let len_bytes = le4_bytes(n);
        push_bytes(&mut out, &len_bytes);
        let reserved: [u8; 4] = [0, 0, 0, 0];
        assert(reserved@ =~= seq![0u8, 0u8, 0u8, 0u8]);
        push_bytes(&mut out, &reserved);
        push_bytes(&mut out, x);
        out
    }
}

// ----- the data block size --------------------------------------------------------------

/// The first position at or after `j` holding `c`.
pub open spec fn find_char(s: Seq<char>, j: int, c: char) -> Option<int>
    decreases s.len() - j,
{
    if j < 0 || j >= s.len() {
        None
    } else if s[j] == c {
        Some(j)
    } else {
        find_char(s, j + 1, c)
    }
}

/// `s` split at every `:` (`str::split(':')`): one piece more than there
/// are colons, empty pieces included.
pub open spec fn pieces(s: Seq<char>) -> Seq<Seq<char>>
    decreases s.len(),
{
    match find_char(s, 0, ':') {
        Some(k) => if 0 <= k < s.len() {
            seq![s.take(k)] + pieces(s.skip(k + 1))
        } else {
            seq![s]
        },
        None => seq![s],
    }
}

/// A geometry dimension: the trimmed piece read as a `usize`.
pub open spec fn dimension(p: Seq<char>) -> Option<nat> {
    parse_usize(vstd::utf8::encode_utf8(trim(p)))
}

/// Every piece read as a dimension, or none if one fails.
pub open spec fn dimensions(ps: Seq<Seq<char>>) -> Option<Seq<nat>>
    decreases ps.len(),
{
    if ps.len() == 0 {
        Some(Seq::empty())
    } else {
        match (dimensions(ps.drop_last()), dimension(ps.last())) {
            (Some(d), Some(n)) => Some(d.push(n)),
            _ => None,
        }
    }
}

/// The product of the numbers.
pub open spec fn product(d: Seq<nat>) -> nat
    decreases d.len(),
{
    if d.len() == 0 {
        1
    } else {
        product(d.drop_last()) * d.last()
    }
}

/// Multiplying the dimensions in order stays within `usize`.
pub open spec fn geometry_fits(g: Seq<char>) -> bool {
    dimensions(pieces(g)) matches Some(d) ==> forall|k: int|
        0 <= k <= d.len() ==> #[trigger] product(d.take(k)) <= usize::MAX
}

/// The number of samples a geometry describes: the product of its
/// dimensions, or one when it is malformed or the product is zero.
pub open spec fn sample_count(g: Seq<char>) -> nat {
    match dimensions(pieces(g)) {
        Some(d) => if product(d) > 0 {
            product(d)
        } else {
            1
        },
        None => 1,
    }
}

/// Bytes per sample for an XISF `sampleFormat`: 1 for `UInt8`, `Int8` and
/// anything unrecognized.
pub open spec fn sample_bytes(f: Seq<char>) -> nat {
    if f == "UInt16"@ || f == "Int16"@ {
        2
    } else if f == "UInt32"@ || f == "Int32"@ || f == "Float32"@ {
        4
    } else if f == "UInt64"@ || f == "Int64"@ || f == "Float64"@ || f == "Complex32"@ {
        8
    } else if f == "Complex64"@ {
        16
    } else {
        1
    }
}

/// The byte size of the data block the hints imply: samples times bytes
/// per sample, saturating at `usize::MAX`, and at least one.
pub open spec fn data_size_of(g: Seq<char>, f: Seq<char>) -> nat {
    let t = sample_count(g) * sample_bytes(f);
    let s = if t > usize::MAX {
        usize::MAX as nat
    } else {
        t
    };
    if s < 1 {
        1
    } else {
        s
    }
}

/// Exact equality of two strings.
fn text_eq(a: &str, b: &str) -> (r: bool)
    ensures
        r == (a@ == b@),
{
    let x = chars_of(a);
    let y = chars_of(b);
    chars_equal(x.as_slice(), y.as_slice())
}

/// Bytes per sample for an XISF `sampleFormat` (see [`sample_bytes`]).
pub fn bytes_per_sample(format: &str) -> (n: usize)
    ensures
        n == sample_bytes(format@),
{
    if text_eq(format, "UInt16") || text_eq(format, "Int16") {
        2
    } else if text_eq(format, "UInt32") || text_eq(format, "Int32") || text_eq(format, "Float32") {
        4
    } else if text_eq(format, "UInt64") || text_eq(format, "Int64") || text_eq(format, "Float64")
        || text_eq(format, "Complex32") {
        8
    } else if text_eq(format, "Complex64") {
        16
    } else {
        1
    }
}


proof fn lemma_find_char_skip(t: Seq<char>, j: int, k: int, c: char)
    requires
        0 <= j <= k <= t.len(),
        forall|x: int| j <= x < k ==> #[trigger] t[x] != c,
    ensures
        find_char(t, j, c) == find_char(t, k, c),
    decreases k - j,
{
    if j < k {
        lemma_find_char_skip(t, j + 1, k, c);
    }
}

#[verifier::spinoff_prover]
#[verifier::rlimit(40)]
proof fn lemma_dimensions(ps: Seq<Seq<char>>)
    ensures
        dimensions(ps) is Some <==> forall|i: int| 0 <= i < ps.len() ==> #[trigger] dimension(ps[i]) is Some,
        dimensions(ps) matches Some(d) ==> d.len() == ps.len() && forall|i: int|
            0 <= i < ps.len() ==> dimension(ps[i]) == Some(#[trigger] d[i]),
    decreases ps.len(),
{
    if ps.len() > 0 {
        lemma_dimensions(ps.drop_last());
        if dimensions(ps) is Some {
            assert forall|i: int| 0 <= i < ps.len() implies #[trigger] dimension(ps[i]) is Some by {
                if i < ps.len() - 1 {
                    assert(ps[i] == ps.drop_last()[i]);
                }
            }
        } else {
            if dimensions(ps.drop_last()) is Some {
                assert(dimension(ps[ps.len() - 1]) is None);
            } else {
                let i = choose|i: int| 0 <= i < ps.len() - 1 && !(#[trigger] dimension(ps.drop_last()[i]) is Some);
                assert(ps[i] == ps.drop_last()[i]);
            }
        }
        if dimensions(ps) is Some {
            let d = dimensions(ps)->Some_0;
            assert forall|i: int| 0 <= i < ps.len() implies dimension(ps[i]) == Some(#[trigger] d[i]) by {
                if i < ps.len() - 1 {
                    assert(ps[i] == ps.drop_last()[i]);
                }
            }
        }
    }
}

/// The ranges of the `:`-separated pieces of `g`.
fn piece_ranges(g: &[char]) -> (r: Vec<(usize, usize)>)
    ensures
        r@.len() == pieces(g@).len(),
        forall|i: int|
            #![trigger r@[i]]
            0 <= i < r@.len() ==> r@[i].0 <= r@[i].1 && r@[i].1 <= g@.len() && g@.subrange(
                r@[i].0 as int,
                r@[i].1 as int,
            ) == pieces(g@)[i],
{
    let mut out: Vec<(usize, usize)> = Vec::new();
    let mut start: usize = 0;
    let mut i: usize = 0;
    let ghost mut done: Seq<Seq<char>> = Seq::empty();
    assert(g@.skip(0) =~= g@);
    while i < g.len()
        invariant
            0 <= start <= i <= g@.len(),
            forall|x: int| start <= x < i ==> g@[x] != ':',
            pieces(g@) == done + pieces(g@.skip(start as int)),
            out@.len() == done.len(),
            forall|k: int|
                #![trigger out@[k]]
                0 <= k < out@.len() ==> out@[k].0 <= out@[k].1 && out@[k].1 <= g@.len() && g@.subrange(
                    out@[k].0 as int,
                    out@[k].1 as int,
                ) == done[k],
        decreases g.len() - i,
    {
        if g[i] == ':' {
            proof {
                let t = g@.skip(start as int);
                lemma_find_char_skip(t, 0, i - start, ':');
                assert(t.take(i - start) =~= g@.subrange(start as int, i as int));
                assert(t.skip(i - start + 1) =~= g@.skip(i + 1));
                assert(pieces(t) == seq![t.take(i - start)] + pieces(t.skip(i - start + 1)));
                done = done.push(g@.subrange(start as int, i as int));
                assert(pieces(g@) =~= done + pieces(g@.skip(i + 1)));
            }
            let ghost old_out = out@;
            out.push((start, i));
            assert(out@[old_out.len() as int] == (start, i));
            start = i + 1;
        }
        i += 1;
    }
    proof {
        let t = g@.skip(start as int);
        lemma_find_char_skip(t, 0, t.len() as int, ':');
        assert(pieces(t) == seq![t]);
        assert(t =~= g@.subrange(start as int, g@.len() as int));
        done = done.push(t);
        assert(pieces(g@) =~= done);
    }
    let ghost old_out = out@;
    out.push((start, g.len()));
    assert(out@[old_out.len() as int] == (start, g.len()));
    out
}

/// A geometry dimension (see [`dimension`]).
fn read_dimension(g: &[char], from: usize, to: usize) -> (r: Option<usize>)
    requires
        from <= to <= g@.len(),
    ensures
        match dimension(g@.subrange(from as int, to as int)) {
            Some(n) => r matches Some(v) && v == n,
            None => r is None,
        },
{
    let piece = vstd::slice::slice_subrange(g, from, to);
    let (lo, hi) = trim_bounds(piece);
    let s = string_from_chars(g, from + lo, from + hi);
    assert(s@ =~= piece@.subrange(lo as int, hi as int));
    read_usize(s.as_str().as_bytes())
}

/// Whether the geometry's dimensions multiply within `usize` (see
/// [`geometry_fits`]), the condition `data_size` and `to_header_bytes`
/// need: a caller can test it first.
pub fn geometry_fits_check(geometry: &str) -> (r: bool)
    ensures
        r == geometry_fits(geometry@),
{
    let g = chars_of(geometry);
    let ranges = piece_ranges(g.as_slice());
    let ghost ps = pieces(g@);
    proof {
        lemma_dimensions(ps);
    }
    let mut dims: Vec<usize> = Vec::new();
    let mut i: usize = 0;
    while i < ranges.len()
        invariant
            0 <= i <= ranges@.len() == ps.len(),
            ps == pieces(g@),
            g@ == geometry@,
            forall|k: int|
                #![trigger ranges@[k]]
                0 <= k < ranges@.len() ==> ranges@[k].0 <= ranges@[k].1 && ranges@[k].1 <= g@.len()
                    && g@.subrange(ranges@[k].0 as int, ranges@[k].1 as int) == ps[k],
            dims@.len() == i,
            forall|k: int| 0 <= k < i ==> dimension(ps[k]) == Some(#[trigger] dims@[k] as nat),
        decreases ranges.len() - i,
    {
        let (a, b) = ranges[i];
        assert(g@.subrange(a as int, b as int) == ps[i as int]);
        match read_dimension(g.as_slice(), a, b) {
            Some(n) => {
                dims.push(n);
            },
            None => {
                proof {
                    assert(dimension(ps[i as int]) is None);
                    lemma_dimensions(ps);
                }
                return true;
            },
        }
        i += 1;
    }
    proof {
        lemma_dimensions(ps);
        assert forall|k: int| 0 <= k < ps.len() implies #[trigger] dimension(ps[k]) is Some by {
            assert(dimension(ps[k]) == Some(dims@[k] as nat));
        }
    }
    let ghost d = dimensions(ps)->Some_0;
    assert(dims@.map_values(|x: usize| x as nat) =~= d) by {
        assert forall|k: int| 0 <= k < d.len() implies dims@.map_values(|x: usize| x as nat)[k] == d[k] by {
            assert(dimension(ps[k]) == Some(d[k]));
            assert(dimension(ps[k]) == Some(dims@[k] as nat));
        }
    }
    let mut p: usize = 1;
    let mut k: usize = 0;
    assert(d.take(0) =~= Seq::<nat>::empty());
    while k < dims.len()
        invariant
            0 <= k <= dims@.len() == d.len(),
            d == dims@.map_values(|x: usize| x as nat),
            d == dimensions(pieces(geometry@))->Some_0,
            dimensions(pieces(geometry@)) is Some,
            forall|j: int| 0 <= j <= k ==> #[trigger] product(d.take(j)) <= usize::MAX,
            p == product(d.take(k as int)),
        decreases dims.len() - k,
    {
        assert(d.take(k + 1).drop_last() =~= d.take(k as int));
        match p.checked_mul(dims[k]) {
            Some(q) => {
                p = q;
            },
            None => {
                assert(product(d.take(k + 1)) > usize::MAX);
                return false;
            },
        }
        k += 1;
    }
    assert(d.take(k as int) =~= d);
    true
}

/// Byte size of the data block implied by the hinted geometry and sample
/// format (see [`data_size_of`]).
pub fn data_size(hints: &StructuralHints) -> (n: usize)
    requires
        geometry_fits(hints.geometry@),
    ensures
        n == data_size_of(hints.geometry@, hints.sample_format@),
{
    let g = chars_of(hints.geometry.as_str());
    let ranges = piece_ranges(g.as_slice());
    let ghost ps = pieces(g@);
    proof {
        lemma_dimensions(ps);
    }
    let mut dims: Vec<usize> = Vec::new();
    let mut all = true;
    let mut i: usize = 0;
    while i < ranges.len()
        invariant
            0 <= i <= ranges@.len() == ps.len(),
            ps == pieces(g@),
            forall|k: int|
                #![trigger ranges@[k]]
                0 <= k < ranges@.len() ==> ranges@[k].0 <= ranges@[k].1 && ranges@[k].1 <= g@.len()
                    && g@.subrange(ranges@[k].0 as int, ranges@[k].1 as int) == ps[k],
            all ==> dims@.len() == i && forall|k: int|
                0 <= k < i ==> dimension(ps[k]) == Some(#[trigger] dims@[k] as nat),
            !all ==> dimensions(ps) is None,
        decreases ranges.len() - i,
    {
        if all {
            let (a, b) = ranges[i];
            assert(g@.subrange(a as int, b as int) == ps[i as int]);
            match read_dimension(g.as_slice(), a, b) {
                Some(n) => {
                    dims.push(n);
                },
                None => {
                    proof {
                        lemma_dimensions(ps);
                    }
                    all = false;
                },
            }
        }
        i += 1;
    }
    let samples: usize = if all {
        proof {
            lemma_dimensions(ps);
            assert forall|k: int| 0 <= k < ps.len() implies #[trigger] dimension(ps[k]) is Some by {
                assert(dimension(ps[k]) == Some(dims@[k] as nat));
            }
        }
        let ghost d = dimensions(ps)->Some_0;
        assert(dims@.map_values(|x: usize| x as nat) =~= d) by {
            assert forall|k: int| 0 <= k < d.len() implies dims@.map_values(|x: usize| x as nat)[k] == d[k] by {
                assert(dimension(ps[k]) == Some(d[k]));
                assert(dimension(ps[k]) == Some(dims@[k] as nat));
            }
        }
        assert(geometry_fits(g@));
        let mut p: usize = 1;
        let mut k: usize = 0;
        while k < dims.len()
            invariant
                0 <= k <= dims@.len() == d.len(),
                d == dims@.map_values(|x: usize| x as nat),
                forall|j: int| 0 <= j <= d.len() ==> #[trigger] product(d.take(j)) <= usize::MAX,
                p == product(d.take(k as int)),
            decreases dims.len() - k,
        {
            assert(d.take(k + 1).drop_last() =~= d.take(k as int));
            assert(product(d.take(k + 1)) <= usize::MAX);
            p = p * dims[k];
            k += 1;
        }
        assert(d.take(k as int) =~= d);
        if p > 0 {
            p
        } else {
            1
        }
    } else {
        1
    };
    let bps = bytes_per_sample(hints.sample_format.as_str());
    let total = if samples > usize::MAX / bps {
        usize::MAX
    } else {
        proof {
            assert(samples * bps <= usize::MAX) by (nonlinear_arith)
                requires
                    samples <= usize::MAX / bps,
                    bps >= 1,
            ;
        }
        samples * bps
    };
    proof {
        if samples > usize::MAX / bps {
            assert(samples * bps > usize::MAX) by (nonlinear_arith)
                requires
                    samples > usize::MAX / bps,
                    bps >= 1,
            ;
        } else {
            assert(samples * bps <= usize::MAX) by (nonlinear_arith)
                requires
                    samples <= usize::MAX / bps,
                    bps >= 1,
            ;
            assert(samples * bps >= 1) by (nonlinear_arith)
                requires
                    samples >= 1,
                    bps >= 1,
            ;
        }
    }
    if total < 1 {
        1
    } else {
        total
    }
}

impl Header {
    /// Serialize the header block: the 16-byte preamble plus the UTF-8 XML
    /// header, with no data attached. The `<Image location>` points at the
    /// byte right after the header, sized per `hints`, where a caller
    /// assembling a new file appends the image data itself.
    pub fn to_header_bytes(&self, hints: &StructuralHints) -> (r: Vec<u8>)
        requires
            geometry_fits(hints.geometry@),
        ensures
            r@ == container_header(
                self@.keywords,
                self.properties.entry_views(),
                hints_view(*hints),
                data_size_of(hints.geometry@, hints.sample_format@),
            ),
    {
        self.render_container_header(hints, data_size(hints))
    }
}


// ----- laws of the container header -----------------------------------------------------

/// Every character of `s` is an ASCII decimal digit.
pub open spec fn digits_only(s: Seq<char>) -> bool {
    forall|i: int| 0 <= i < s.len() ==> '0' <= #[trigger] s[i] <= '9'
}

proof fn lemma_escaped_concat(a: Seq<char>, b: Seq<char>)
    ensures
        escaped(a + b) == escaped(a) + escaped(b),
    decreases b.len(),
{
    if b.len() > 0 {
        lemma_escaped_concat(a, b.drop_last());
        assert((a + b).drop_last() =~= a + b.drop_last());
        assert((a + b).last() == b.last());
        assert(escaped(a + b) =~= escaped(a) + escaped(b));
    } else {
        assert(a + b =~= a);
        assert(escaped(b) =~= Seq::<char>::empty());
        assert(escaped(a) + escaped(b) =~= escaped(a));
    }
}

proof fn lemma_escaped_digits(s: Seq<char>)
    requires
        digits_only(s),
    ensures
        escaped(s) == s,
    decreases s.len(),
{
    if s.len() > 0 {
        assert(digits_only(s.drop_last()));
        lemma_escaped_digits(s.drop_last());
        assert('0' <= s.last() <= '9');
        assert(s.drop_last().push(s.last()) =~= s);
    } else {
        assert(s =~= Seq::<char>::empty());
    }
}

proof fn lemma_encode_concat(a: Seq<char>, b: Seq<char>)
    ensures
        vstd::utf8::encode_utf8(a + b) == vstd::utf8::encode_utf8(a) + vstd::utf8::encode_utf8(b),
    decreases a.len(),
{
    if a.len() > 0 {
        lemma_encode_concat(a.drop_first(), b);
        assert((a + b).drop_first() =~= a.drop_first() + b);
        assert((a + b)[0] == a[0]);
        assert(vstd::utf8::encode_utf8(a + b) =~= vstd::utf8::encode_utf8(a) + vstd::utf8::encode_utf8(b));
    } else {
        assert(a + b =~= b);
        assert(vstd::utf8::encode_utf8(a) =~= Seq::<u8>::empty());
        assert(vstd::utf8::encode_utf8(a) + vstd::utf8::encode_utf8(b) =~= vstd::utf8::encode_utf8(b));
    }
}

proof fn lemma_encode_digits_len(s: Seq<char>)
    requires
        digits_only(s),
    ensures
        vstd::utf8::encode_utf8(s).len() == s.len(),
    decreases s.len(),
{
    if s.len() > 0 {
        assert(digits_only(s.drop_first()));
        lemma_encode_digits_len(s.drop_first());
        assert('0' <= s[0] <= '9');
        assert(vstd::utf8::has_width_1_encoding(s[0] as u32));
    }
}

proof fn lemma_padded_offset(n: nat)
    requires
        nat_text(n).len() <= 12,
    ensures
        padded_offset(n).len() == 12,
        digits_only(padded_offset(n)),
{
    crate::value::lemma_nat_text(n);
    let t = nat_text(n);
    assert forall|i: int| 0 <= i < t.len() implies '0' <= #[trigger] t[i] <= '9' by {
        assert(crate::text::is_digit(t[i]));
    }
    if t.len() < 12 {
        let z = zeros((12 - t.len()) as nat);
        assert forall|i: int| 0 <= i < padded_offset(n).len() implies '0' <= #[trigger] padded_offset(n)[i]
            <= '9' by {
            if i < z.len() {
                assert(padded_offset(n)[i] == z[i]);
            } else {
                assert(padded_offset(n)[i] == t[i - z.len()]);
            }
        }
    }
}

spec fn xml_head(hints: (Seq<char>, Seq<char>, Seq<char>)) -> Seq<char> {
    image_prefix(hints) + " "@ + "location"@ + "=\""@ + escaped("attachment:"@)
}

spec fn xml_tail(kws: Seq<KeywordView>, entries: Seq<(Seq<char>, PropertyView)>, size: nat) -> Seq<char> {
    escaped(":"@ + nat_text(size)) + "\""@ + image_suffix(kws, entries)
}

proof fn lemma_xml_text_shape(
    kws: Seq<KeywordView>,
    entries: Seq<(Seq<char>, PropertyView)>,
    hints: (Seq<char>, Seq<char>, Seq<char>),
    o: Seq<char>,
    size: nat,
)
    requires
        digits_only(o),
    ensures
        xml_text(kws, entries, hints, o, size) == xml_head(hints) + o + xml_tail(kws, entries, size),
{
    lemma_escaped_concat("attachment:"@ + o, ":"@ + nat_text(size));
    lemma_escaped_concat("attachment:"@, o);
    lemma_escaped_digits(o);
    let loc = location_text(o, size);
    assert(loc =~= ("attachment:"@ + o) + (":"@ + nat_text(size)));
    let el = escaped(loc);
    assert(el =~= escaped("attachment:"@) + o + escaped(":"@ + nat_text(size)));
    assert(xml_text(kws, entries, hints, o, size) =~= xml_head(hints) + o + xml_tail(kws, entries, size));
}

/// The byte length of the XML header depends on the attachment offset's
/// text only through that text's length.
proof fn lemma_xml_len_by_offset(
    kws: Seq<KeywordView>,
    entries: Seq<(Seq<char>, PropertyView)>,
    hints: (Seq<char>, Seq<char>, Seq<char>),
    a: Seq<char>,
    b: Seq<char>,
    size: nat,
)
    requires
        digits_only(a),
        digits_only(b),
        a.len() == b.len(),
    ensures
        vstd::utf8::encode_utf8(xml_text(kws, entries, hints, a, size)).len() == vstd::utf8::encode_utf8(
            xml_text(kws, entries, hints, b, size),
        ).len(),
{
    let head = xml_head(hints);
    let tail = xml_tail(kws, entries, size);
    lemma_xml_text_shape(kws, entries, hints, a, size);
    lemma_xml_text_shape(kws, entries, hints, b, size);
    lemma_encode_concat(head + a, tail);
    lemma_encode_concat(head, a);
    lemma_encode_concat(head + b, tail);
    lemma_encode_concat(head, b);
    lemma_encode_digits_len(a);
    lemma_encode_digits_len(b);
}

/// The attachment offset of a rendered container header names the byte
/// right after the header, and the header is exactly the preamble plus the
/// XML — whenever that offset fits the 12-digit field.
pub proof fn law_offset_points_past_header(
    kws: Seq<KeywordView>,
    entries: Seq<(Seq<char>, PropertyView)>,
    hints: (Seq<char>, Seq<char>, Seq<char>),
    size: nat,
)
    requires
        nat_text(16 + vstd::utf8::encode_utf8(xml_text(kws, entries, hints, zeros(12), size)).len()).len()
            <= 12,
    ensures
        ({
            let x = vstd::utf8::encode_utf8(header_xml(kws, entries, hints, size));
            &&& header_xml(kws, entries, hints, size) == xml_text(
                kws,
                entries,
                hints,
                padded_offset(16 + x.len()),
                size,
            )
            &&& container_header(kws, entries, hints, size).len() == 16 + x.len()
        }),
{
    let l = vstd::utf8::encode_utf8(xml_text(kws, entries, hints, zeros(12), size)).len();
    lemma_padded_offset(16 + l);
    assert(digits_only(zeros(12)));
    lemma_xml_len_by_offset(kws, entries, hints, zeros(12), padded_offset(16 + l), size);
}

} // verus!
