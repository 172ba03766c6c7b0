//! The XML header as a flat list of items, read with `quick_xml`.
//!
//! Each item is one event of the reader (a start, empty or end tag, text or
//! CDATA content, or anything else), with the byte span it covers in the
//! XML text. Attributes are read only for `<FITSKeyword>` and `<Property>`
//! tags, the two elements the header models.

use vstd::prelude::*;
use vstd::string::StringSliceAdditionalSpecFns;

use quick_xml::events::attributes::{AttrError, Attribute, Attributes};
use quick_xml::events::Event::{CData, Empty, End, Eof, Start, Text};
use quick_xml::events::{BytesCData, BytesEnd, BytesStart, BytesText};
use quick_xml::Reader;
use quick_xml::XmlVersion;

use crate::error::{Result, XisfError};
use crate::text::{names_match, str_eq_ignore_ascii_case};

verus! {

#[verifier::external_type_specification]
#[verifier::external_body]
#[verifier::reject_recursive_types(R)]
pub struct ExReader<R>(Reader<R>);

#[verifier::external_type_specification]
#[verifier::external_body]
pub struct ExBytesStart<'a>(BytesStart<'a>);

#[verifier::external_type_specification]
#[verifier::external_body]
pub struct ExBytesEnd<'a>(BytesEnd<'a>);

#[verifier::external_type_specification]
#[verifier::external_body]
pub struct ExBytesText<'a>(BytesText<'a>);

#[verifier::external_type_specification]
#[verifier::external_body]
pub struct ExBytesCData<'a>(BytesCData<'a>);

#[verifier::external_type_specification]
#[verifier::external_body]
pub struct ExAttributes<'a>(Attributes<'a>);

#[verifier::external_type_specification]
#[verifier::external_body]
pub struct ExAttribute<'a>(Attribute<'a>);

/// What one `Reader::read_event` call gives, by kind: the event's kind,
/// or `Failed` for the reader's error.
#[derive(PartialEq, Eq)]
pub enum EventKind {
    Start,
    Empty,
    End,
    Text,
    CData,
    Eof,
    Other,
    Failed,
}

/// What one `Attributes::next` call gives, by kind: the end of the
/// attributes, a malformed attribute, or an attribute.
#[derive(PartialEq, Eq)]
pub enum AttrStep {
    Done,
    Malformed,
    Attr,
}

/// The kind of what the `k`-th `read_event` call (counting from 0) gives on
/// a reader made by `Reader::from_str` over the text with bytes `text`.
pub uninterp spec fn read_event_kind(text: Seq<u8>, k: nat) -> EventKind;

/// `buffer_position` of that reader after `k` `read_event` calls.
pub uninterp spec fn buffer_position(text: Seq<u8>, k: nat) -> nat;

/// `BytesStart::local_name` of the tag the `k`-th call gives.
pub uninterp spec fn start_local_name(text: Seq<u8>, k: nat) -> Seq<char>;

/// `BytesEnd::local_name` of the closing tag the `k`-th call gives.
pub uninterp spec fn end_local_name(text: Seq<u8>, k: nat) -> Seq<char>;

/// `BytesText::xml_content` (XML 1.0) of the text the `k`-th call gives.
pub uninterp spec fn text_xml_content(text: Seq<u8>, k: nat) -> Seq<char>;

/// The content (`Deref` to `str`) of the CDATA section the `k`-th call
/// gives.
pub uninterp spec fn cdata_text(text: Seq<u8>, k: nat) -> Seq<char>;

/// `attributes_raw().len()` of the tag the `k`-th call gives.
pub uninterp spec fn attributes_raw_len(text: Seq<u8>, k: nat) -> nat;

/// The kind of what the `j`-th `Attributes::next` call (counting from 0)
/// gives on `attributes()` of the tag the `k`-th call gives.
pub uninterp spec fn attribute_step(text: Seq<u8>, k: nat, j: nat) -> AttrStep;

/// The key, as text, of the attribute that `j`-th call gives.
pub uninterp spec fn attribute_key_text(text: Seq<u8>, k: nat, j: nat) -> Seq<char>;

/// `Attribute::normalized_value` (XML 1.0) of that attribute, or `None`
/// for its error.
pub uninterp spec fn attribute_normalized(text: Seq<u8>, k: nat, j: nat) -> Option<Seq<char>>;

/// A reader over a text, with the text's bytes and the number of events it
/// has given so far.
pub struct XmlCursor<'a> {
    reader: Reader<&'a [u8]>,
    text: Ghost<Seq<u8>>,
    count: Ghost<nat>,
}

impl<'a> View for XmlCursor<'a> {
    type V = (Seq<u8>, nat);

    closed spec fn view(&self) -> (Seq<u8>, nat) {
        (self.text@, self.count@)
    }
}

/// A value an outside call gave, with where it came from: the text's
/// bytes, the event's number and (for attributes) the attribute's number.
pub struct At<T> {
    v: T,
    at: Ghost<(Seq<u8>, nat, nat)>,
}

impl<T> View for At<T> {
    type V = (Seq<u8>, nat, nat);

    closed spec fn view(&self) -> (Seq<u8>, nat, nat) {
        self.at@
    }
}

/// The attributes of a tag, with where the tag came from and how many
/// attributes they have given so far.
pub struct AttrCursor<'b> {
    attrs: Attributes<'b>,
    at: Ghost<(Seq<u8>, nat, nat)>,
}

impl<'b> View for AttrCursor<'b> {
    type V = (Seq<u8>, nat, nat);

    closed spec fn view(&self) -> (Seq<u8>, nat, nat) {
        self.at@
    }
}

/// One event of the reader, with the payload the header needs.
pub enum XmlEvent<'a> {
    Start(At<BytesStart<'a>>),
    Empty(At<BytesStart<'a>>),
    End(At<BytesEnd<'a>>),
    Text(At<BytesText<'a>>),
    CData(At<BytesCData<'a>>),
    Eof,
    Other,
}

/// The kind of an event, and where its payload came from.
pub open spec fn event_kind(ev: XmlEvent) -> EventKind {
    match ev {
        XmlEvent::Start(_) => EventKind::Start,
        XmlEvent::Empty(_) => EventKind::Empty,
        XmlEvent::End(_) => EventKind::End,
        XmlEvent::Text(_) => EventKind::Text,
        XmlEvent::CData(_) => EventKind::CData,
        XmlEvent::Eof => EventKind::Eof,
        XmlEvent::Other => EventKind::Other,
    }
}

/// Whether the event's payload, if any, came from event `k` of `text`.
pub open spec fn event_from(ev: XmlEvent, text: Seq<u8>, k: nat) -> bool {
    match ev {
        XmlEvent::Start(t) => t@ == (text, k, 0nat),
        XmlEvent::Empty(t) => t@ == (text, k, 0nat),
        XmlEvent::End(t) => t@ == (text, k, 0nat),
        XmlEvent::Text(t) => t@ == (text, k, 0nat),
        XmlEvent::CData(t) => t@ == (text, k, 0nat),
        _ => true,
    }
}

/// `quick_xml::Reader::from_str`: a reader over the XML text, which has
/// given no event yet.
#[verifier::external_body]
fn xml_reader<'a>(xml: &'a str) -> (r: XmlCursor<'a>)
    ensures
        r@ == (xml.spec_bytes(), 0nat),
{
    XmlCursor { reader: Reader::from_str(xml), text: Ghost(xml.spec_bytes()), count: Ghost(0) }
}

/// `quick_xml::Reader::buffer_position`: how many bytes the reader has
/// consumed, counted from after a leading byte order mark.
#[verifier::external_body]
fn reader_position(cur: &XmlCursor) -> (r: u64)
    ensures
        r == buffer_position(cur@.0, cur@.1),
{
    cur.reader.buffer_position()
}

/// `quick_xml::Reader::read_event`: the next event, or the reader's error
/// for malformed XML.
#[verifier::external_body]
fn next_event<'a>(cur: &mut XmlCursor<'a>) -> (r: core::result::Result<XmlEvent<'a>, quick_xml::Error>)
    ensures
        final(cur)@ == (old(cur)@.0, old(cur)@.1 + 1),
        read_event_kind(old(cur)@.0, old(cur)@.1) == match r {
            Ok(ev) => event_kind(ev),
            Err(_) => EventKind::Failed,
        },
        r matches Ok(ev) ==> event_from(ev, old(cur)@.0, old(cur)@.1),
{
    let at = Ghost((cur.text@, cur.count@, 0nat));
    cur.count = Ghost(cur.count@ + 1);
    match cur.reader.read_event() {
        Ok(Start(v)) => Ok(XmlEvent::Start(At { v, at })),
        Ok(Empty(v)) => Ok(XmlEvent::Empty(At { v, at })),
        Ok(End(v)) => Ok(XmlEvent::End(At { v, at })),
        Ok(Text(v)) => Ok(XmlEvent::Text(At { v, at })),
        Ok(CData(v)) => Ok(XmlEvent::CData(At { v, at })),
        Ok(Eof) => Ok(XmlEvent::Eof),
        Ok(_) => Ok(XmlEvent::Other),
        Err(e) => Err(e),
    }
}

/// `BytesStart::local_name`: the tag's name without a namespace prefix.
#[verifier::external_body]
fn start_name(e: &At<BytesStart>) -> (r: String)
    ensures
        r@ == start_local_name(e@.0, e@.1),
{
    e.v.local_name().as_ref().to_owned()
}

/// `BytesEnd::local_name`: the closing tag's name without a namespace prefix.
#[verifier::external_body]
fn end_name(e: &At<BytesEnd>) -> (r: String)
    ensures
        r@ == end_local_name(e@.0, e@.1),
{
    e.v.local_name().as_ref().to_owned()
}

/// `BytesStart::attributes`: the tag's attributes, none given yet.
#[verifier::external_body]
fn tag_attributes<'b>(e: &'b At<BytesStart>) -> (r: AttrCursor<'b>)
    ensures
        r@ == (e@.0, e@.1, 0nat),
{
    AttrCursor { attrs: e.v.attributes(), at: Ghost((e.at@.0, e.at@.1, 0nat)) }
}

/// `BytesStart::attributes_raw`: the length, in bytes, of the tag's text
/// after its name.
#[verifier::external_body]
fn attributes_len(e: &At<BytesStart>) -> (r: usize)
    ensures
        r == attributes_raw_len(e@.0, e@.1),
{
    e.v.attributes_raw().len()
}

/// `Attributes::next`: the next attribute, or the error for a malformed one.
#[verifier::external_body]
fn next_attribute<'b>(c: &mut AttrCursor<'b>) -> (r: Option<core::result::Result<At<Attribute<'b>>, AttrError>>)
    ensures
        final(c)@ == (old(c)@.0, old(c)@.1, old(c)@.2 + 1),
        attribute_step(old(c)@.0, old(c)@.1, old(c)@.2) == match r {
            None => AttrStep::Done,
            Some(Err(_)) => AttrStep::Malformed,
            Some(Ok(_)) => AttrStep::Attr,
        },
        r matches Some(Ok(a)) ==> a@ == old(c)@,
{
    let at = Ghost(c.at@);
    c.at = Ghost((c.at@.0, c.at@.1, c.at@.2 + 1));
    match c.attrs.next() {
        None => None,
        Some(Err(e)) => Some(Err(e)),
        Some(Ok(v)) => Some(Ok(At { v, at })),
    }
}

/// The attribute's key, as text.
#[verifier::external_body]
fn attribute_key(a: &At<Attribute>) -> (r: String)
    ensures
        r@ == attribute_key_text(a@.0, a@.1, a@.2),
{
    a.v.key.as_ref().to_owned()
}

/// `Attribute::normalized_value` (XML 1.0 rules): the value with entity
/// references resolved and attribute-value normalization applied.
#[verifier::external_body]
fn attribute_value(a: &At<Attribute>) -> (r: core::result::Result<String, quick_xml::Error>)
    ensures
        match r {
            Ok(v) => attribute_normalized(a@.0, a@.1, a@.2) == Some(v@),
            Err(_) => attribute_normalized(a@.0, a@.1, a@.2) is None,
        },
{
    match a.v.normalized_value(XmlVersion::Implicit1_0) {
        Ok(v) => Ok(v.into_owned()),
        Err(e) => Err(e),
    }
}

/// `BytesText::xml_content` (XML 1.0 end-of-line rules).
#[verifier::external_body]
fn text_content(t: &At<BytesText>) -> (r: String)
    ensures
        r@ == text_xml_content(t@.0, t@.1),
{
    t.v.xml_content(XmlVersion::Implicit1_0).into_owned()
}

/// The content of a CDATA section, verbatim (`Deref` to `str`).
#[verifier::external_body]
fn cdata_content(c: &At<BytesCData>) -> (r: String)
    ensures
        r@ == cdata_text(c@.0, c@.1),
{
    (*c.v).to_owned()
}

/// What kind of event an item records.
#[derive(Debug, Clone, Copy, PartialEq, Eq)]
pub enum ItemKind {
    Start,
    Empty,
    End,
    Text,
    CData,
    Other,
}

/// One attribute of a modeled tag: its key and its normalized value.
#[derive(Debug, Clone)]
pub struct XmlAttr {
    pub key: String,
    pub value: String,
}

/// One event of the XML header: its kind, the byte span `start..end` it
/// covers in the XML text, the tag's local name (tags only), the
/// attributes (only for `<FITSKeyword>` and `<Property>` tags), and the
/// content (text and CDATA only).
#[derive(Debug, Clone)]
pub struct XmlItem {
    pub kind: ItemKind,
    pub start: usize,
    pub end: usize,
    pub name: String,
    pub attrs: Vec<XmlAttr>,
    pub text: String,
}

/// The mathematical meaning of an [`XmlItem`].
pub struct ItemView {
    pub kind: ItemKind,
    pub start: nat,
    pub end: nat,
    pub name: Seq<char>,
    pub attrs: Seq<(Seq<char>, Seq<char>)>,
    pub text: Seq<char>,
}

impl View for XmlAttr {
    type V = (Seq<char>, Seq<char>);

    open spec fn view(&self) -> (Seq<char>, Seq<char>) {
        (self.key@, self.value@)
    }
}

impl View for XmlItem {
    type V = ItemView;

    open spec fn view(&self) -> ItemView {
        ItemView {
            kind: self.kind,
            start: self.start as nat,
            end: self.end as nat,
            name: self.name@,
            attrs: self.attrs@.map_values(|a: XmlAttr| a@),
            text: self.text@,
        }
    }
}

/// The items as views.
pub open spec fn item_views(items: Seq<XmlItem>) -> Seq<ItemView> {
    items.map_values(|i: XmlItem| i@)
}

/// `FITSKeyword`, as characters.
pub open spec fn keyword_tag() -> Seq<char> {
    "FITSKeyword"@
}

/// `Property`, as characters.
pub open spec fn property_tag() -> Seq<char> {
    "Property"@
}

/// `Image`, as characters.
pub open spec fn image_tag() -> Seq<char> {
    "Image"@
}

/// Every item covers a non-empty span inside a text of `len` bytes.
pub open spec fn items_in_bounds(items: Seq<ItemView>, len: nat) -> bool {
    forall|i: int| #![trigger items[i]] 0 <= i < items.len() ==> items[i].start < items[i].end && items[i].end <= len
}

/// One item of a list in bounds.
pub proof fn lemma_item_in_bounds(items: Seq<ItemView>, len: nat, i: int)
    requires
        items_in_bounds(items, len),
        0 <= i < items.len(),
    ensures
        items[i].start < items[i].end <= len,
{
    assert(items[i].start < items[i].end && items[i].end <= len);
}

/// Whether `name` is the `FITSKeyword` tag (ASCII-case-insensitively).
pub fn is_keyword_tag(name: &str) -> (r: bool)
    ensures
        r == names_match(name@, keyword_tag()),
{
    str_eq_ignore_ascii_case(name, "FITSKeyword")
}

/// Whether `name` is the `Property` tag (ASCII-case-insensitively).
pub fn is_property_tag(name: &str) -> (r: bool)
    ensures
        r == names_match(name@, property_tag()),
{
    str_eq_ignore_ascii_case(name, "Property")
}

/// Whether `name` is the `Image` tag (ASCII-case-insensitively).
pub fn is_image_tag(name: &str) -> (r: bool)
    ensures
        r == names_match(name@, image_tag()),
{
    str_eq_ignore_ascii_case(name, "Image")
}

/// Why reading the XML fails: the reader's error for malformed XML, or a
/// malformed attribute.
#[derive(PartialEq, Eq)]
pub enum ScanError {
    Xml,
    Attr,
}

/// The attributes of event `k` from the `j`-th on, after `acc`: read until
/// the iterator ends or `bound` is passed; the first malformed attribute or
/// value is an error.
pub open spec fn attrs_from(text: Seq<u8>, k: nat, j: nat, bound: nat, acc: Seq<(Seq<char>, Seq<char>)>) -> core::result::Result<
    Seq<(Seq<char>, Seq<char>)>,
    ScanError,
>
    decreases bound + 1 - j,
{
    if j > bound {
        Ok(acc)
    } else {
        match attribute_step(text, k, j) {
            AttrStep::Done => Ok(acc),
            AttrStep::Malformed => Err(ScanError::Attr),
            AttrStep::Attr => match attribute_normalized(text, k, j) {
                None => Err(ScanError::Xml),
                Some(v) => attrs_from(text, k, j + 1, bound, acc.push((attribute_key_text(text, k, j), v))),
            },
        }
    }
}

/// The attributes of the tag of event `k`. Every attribute takes at least
/// one byte of the tag's text, so that length bounds how many are read.
pub open spec fn tag_attrs(text: Seq<u8>, k: nat) -> core::result::Result<Seq<(Seq<char>, Seq<char>)>, ScanError> {
    attrs_from(text, k, 0, attributes_raw_len(text, k), Seq::empty())
}

/// The attributes as views.
pub open spec fn attr_views(v: Seq<XmlAttr>) -> Seq<(Seq<char>, Seq<char>)> {
    v.map_values(|a: XmlAttr| a@)
}

/// The attributes of a tag, read one by one (see [`tag_attrs`]).
fn read_attributes(e: &At<BytesStart>) -> (r: Result<Vec<XmlAttr>>)
    ensures
        match tag_attrs(e@.0, e@.1) {
            Ok(a) => r matches Ok(v) && attr_views(v@) == a,
            Err(ScanError::Attr) => r matches Err(err) && err is Attr,
            Err(ScanError::Xml) => r matches Err(err) && err is Xml,
        },
{
    let ghost text = e@.0;
    let ghost k = e@.1;
    let bound = attributes_len(e);
    let mut attrs = tag_attributes(e);
    let mut out: Vec<XmlAttr> = Vec::new();
    let mut n: usize = 0;
    assert(attr_views(out@) =~= Seq::<(Seq<char>, Seq<char>)>::empty());
    loop
        invariant
            n <= bound,
            text == e@.0,
            k == e@.1,
            bound == attributes_raw_len(text, k),
            attrs@ == (text, k, n as nat),
            attrs_from(text, k, n as nat, bound as nat, attr_views(out@)) == tag_attrs(text, k),
        decreases bound - n,
    {
        let ghost acc = attr_views(out@);
        assert(attrs_from(text, k, n as nat, bound as nat, acc) == match attribute_step(text, k, n as nat) {
            AttrStep::Done => Ok(acc),
            AttrStep::Malformed => Err(ScanError::Attr),
            AttrStep::Attr => match attribute_normalized(text, k, n as nat) {
                None => Err(ScanError::Xml),
                Some(v) => attrs_from(text, k, (n + 1) as nat, bound as nat, acc.push((attribute_key_text(text, k, n as nat), v))),
            },
        });
        match next_attribute(&mut attrs) {
            None => {
                assert(attribute_step(text, k, n as nat) == AttrStep::Done);
                assert(tag_attrs(text, k) == Ok::<Seq<(Seq<char>, Seq<char>)>, ScanError>(acc));
                return Ok(out);
            },
            Some(Err(err)) => {
                return Err(XisfError::Attr(err));
            },
            Some(Ok(a)) => {
                let key = attribute_key(&a);
                let value = match attribute_value(&a) {
                    Ok(v) => v,
                    Err(err) => {
                        assert(tag_attrs(text, k) == Err::<Seq<(Seq<char>, Seq<char>)>, ScanError>(ScanError::Xml));
                        return Err(XisfError::Xml(err));
                    },
                };
                let ghost before = out@;
                out.push(XmlAttr { key, value });
                assert(attr_views(out@) =~= attr_views(before).push((key@, value@)));
            },
        }
        if n == bound {
            return Ok(out);
        }
        n += 1;
    }
}

/// The bytes of a UTF-8 byte order mark.
pub open spec fn bom() -> Seq<u8> {
    seq![0xEFu8, 0xBBu8, 0xBFu8]
}

/// Whether the text starts with a byte order mark, which the reader skips
/// without counting it in its positions.
fn starts_with_bom(b: &[u8]) -> (r: bool)
    ensures
        r == (b@.len() >= 3 && b@.subrange(0, 3) == bom()),
{
    let r = b.len() >= 3 && b[0] == 0xEF && b[1] == 0xBB && b[2] == 0xBF;
    if b.len() >= 3 {
        assert(r == (b@.subrange(0, 3) =~= bom()));
    }
    r
}

/// The text's leading byte order mark, which the reader skips without
/// counting it in its positions: 3 bytes, or none.
pub open spec fn bom_shift(text: Seq<u8>) -> nat {
    if text.len() >= 3 && text.subrange(0, 3) == bom() {
        3
    } else {
        0
    }
}

/// Whether a tag's attributes are read: `<FITSKeyword>` and `<Property>`.
pub open spec fn modeled_tag(name: Seq<char>) -> bool {
    names_match(name, keyword_tag()) || names_match(name, property_tag())
}

/// An item with no name, attributes or content.
pub open spec fn bare_item(kind: ItemKind, start: nat, end: nat) -> ItemView {
    ItemView { kind, start, end, name: Seq::empty(), attrs: Seq::empty(), text: Seq::empty() }
}

/// The item that event `k` of the text makes, covering `start..end`.
pub open spec fn item_at(text: Seq<u8>, k: nat, start: nat, end: nat) -> core::result::Result<ItemView, ScanError> {
    match read_event_kind(text, k) {
        EventKind::Start => {
            let name = start_local_name(text, k);
            if modeled_tag(name) {
                match tag_attrs(text, k) {
                    Ok(a) => Ok(ItemView { name, attrs: a, ..bare_item(ItemKind::Start, start, end) }),
                    Err(e) => Err(e),
                }
            } else {
                Ok(ItemView { name, ..bare_item(ItemKind::Start, start, end) })
            }
        },
        EventKind::Empty => {
            let name = start_local_name(text, k);
            if modeled_tag(name) {
                match tag_attrs(text, k) {
                    Ok(a) => Ok(ItemView { name, attrs: a, ..bare_item(ItemKind::Empty, start, end) }),
                    Err(e) => Err(e),
                }
            } else {
                Ok(ItemView { name, ..bare_item(ItemKind::Empty, start, end) })
            }
        },
        EventKind::End => Ok(ItemView { name: end_local_name(text, k), ..bare_item(ItemKind::End, start, end) }),
        EventKind::Text => Ok(ItemView { text: text_xml_content(text, k), ..bare_item(ItemKind::Text, start, end) }),
        EventKind::CData => Ok(ItemView { text: cdata_text(text, k), ..bare_item(ItemKind::CData, start, end) }),
        _ => Ok(bare_item(ItemKind::Other, start, end)),
    }
}

/// The items from event `k` on, after `acc`, the previous item ending at
/// `last`: each event's span, shifted by `shift`, must cover at least one
/// byte inside the text after the previous one; reading stops at the end of
/// the text, at `Eof`, or at the first event that would not.
pub open spec fn scan_from(text: Seq<u8>, shift: nat, k: nat, last: nat, acc: Seq<ItemView>) -> core::result::Result<
    Seq<ItemView>,
    ScanError,
>
    decreases text.len() - last,
{
    if last >= text.len() || shift > text.len() {
        Ok(acc)
    } else if read_event_kind(text, k) == EventKind::Failed {
        Err(ScanError::Xml)
    } else {
        let p = buffer_position(text, k);
        let q = buffer_position(text, k + 1);
        if read_event_kind(text, k) == EventKind::Eof || p > text.len() - shift || q > text.len() - shift
            || q <= p || p + shift < last {
            Ok(acc)
        } else {
            match item_at(text, k, p + shift, q + shift) {
                Err(e) => Err(e),
                Ok(it) => scan_from(text, shift, k + 1, q + shift, acc.push(it)),
            }
        }
    }
}

/// The items of the XML text with bytes `text`, as the reader gives them, in
/// document order; positions are byte offsets into the text, a leading byte
/// order mark included.
pub open spec fn xml_items(text: Seq<u8>) -> core::result::Result<Seq<ItemView>, ScanError> {
    scan_from(text, bom_shift(text), 0, 0, Seq::empty())
}

/// Read the XML text into items (see [`xml_items`]): the reader's error
/// for malformed XML, or for a malformed attribute of a `<FITSKeyword>` or
/// `<Property>` tag.
pub fn scan_xml(xml: &str) -> (r: Result<Vec<XmlItem>>)
    ensures
        r matches Ok(items) ==> items_in_bounds(item_views(items@), xml.spec_bytes().len()),
        match xml_items(xml.spec_bytes()) {
            Ok(v) => r matches Ok(items) && item_views(items@) == v,
            Err(ScanError::Xml) => r matches Err(e) && e is Xml,
            Err(ScanError::Attr) => r matches Err(e) && e is Attr,
        },
{
    let bytes = xml.as_bytes();
    let ghost text = xml.spec_bytes();
    let len = bytes.len();
    let shift: usize = if starts_with_bom(bytes) {
        3
    } else {
        0
    };
    assert(shift == bom_shift(text));
    let mut reader = xml_reader(xml);
    let mut items: Vec<XmlItem> = Vec::new();
    let mut last: usize = 0;
    assert(item_views(items@) =~= Seq::<ItemView>::empty());
    while last < len
        invariant_except_break
            scan_from(text, shift as nat, reader@.1, last as nat, item_views(items@)) == xml_items(text),
        invariant
            text == xml.spec_bytes(),
            len == text.len(),
            last <= len,
            shift <= len,
            shift == bom_shift(text),
            reader@.0 == text,
            items_in_bounds(item_views(items@), len as nat),
        ensures
            xml_items(text) == Ok::<Seq<ItemView>, ScanError>(item_views(items@)),
        decreases len - last,
    {
        let ghost k = reader@.1;
        let ghost acc = item_views(items@);
        let p = reader_position(&reader);
        let event = match next_event(&mut reader) {
            Ok(ev) => ev,
            Err(err) => {
                assert(xml_items(text) == Err::<Seq<ItemView>, ScanError>(ScanError::Xml));
                return Err(XisfError::Xml(err));
            },
        };
        let q = reader_position(&reader);
        if let XmlEvent::Eof = event {
            break;
        }
        let room = (len - shift) as u64;
        if p > room || q > room || q <= p || (p as usize) + shift < last {
            break;
        }
        let start = p as usize + shift;
        let end = q as usize + shift;
        let item = match event {
            XmlEvent::Start(e) => {
                let name = start_name(&e);
                let attrs = if is_keyword_tag(name.as_str()) || is_property_tag(name.as_str()) {
                    match read_attributes(&e) {
                        Ok(a) => a,
                        Err(err) => {
                            proof {
                                let se = tag_attrs(text, k)->Err_0;
                                assert(item_at(text, k, start as nat, end as nat) == Err::<ItemView, ScanError>(se));
                                assert(xml_items(text) == Err::<Seq<ItemView>, ScanError>(se));
                            }
                            return Err(err);
                        },
                    }
                } else {
                    Vec::new()
                };
                XmlItem { kind: ItemKind::Start, start, end, name, attrs, text: String::new() }
            },
            XmlEvent::Empty(e) => {
                let name = start_name(&e);
                let attrs = if is_keyword_tag(name.as_str()) || is_property_tag(name.as_str()) {
                    match read_attributes(&e) {
                        Ok(a) => a,
                        Err(err) => {
                            proof {
                                let se = tag_attrs(text, k)->Err_0;
                                assert(item_at(text, k, start as nat, end as nat) == Err::<ItemView, ScanError>(se));
                                assert(xml_items(text) == Err::<Seq<ItemView>, ScanError>(se));
                            }
                            return Err(err);
                        },
                    }
                } else {
                    Vec::new()
                };
                XmlItem { kind: ItemKind::Empty, start, end, name, attrs, text: String::new() }
            },
            XmlEvent::End(e) => {
                XmlItem { kind: ItemKind::End, start, end, name: end_name(&e), attrs: Vec::new(), text: String::new() }
            },
            XmlEvent::Text(t) => {
                XmlItem { kind: ItemKind::Text, start, end, name: String::new(), attrs: Vec::new(), text: text_content(&t) }
            },
            XmlEvent::CData(c) => {
                XmlItem { kind: ItemKind::CData, start, end, name: String::new(), attrs: Vec::new(), text: cdata_content(&c) }
            },
            _ => XmlItem { kind: ItemKind::Other, start, end, name: String::new(), attrs: Vec::new(), text: String::new() },
        };
        assert(item_at(text, k, start as nat, end as nat) == Ok::<ItemView, ScanError>(item@)) by {
            assert(item@.attrs =~= attr_views(item.attrs@));
            if !(item@.kind == ItemKind::Start || item@.kind == ItemKind::Empty) || !modeled_tag(item@.name) {
                assert(item@.attrs =~= Seq::<(Seq<char>, Seq<char>)>::empty());
            }
        }
        let ghost before = items@;
        items.push(item);
        proof {
            assert(items@[before.len() as int] == item);
            assert(item_views(items@) =~= acc.push(item@));
            assert forall|i: int| 0 <= i < items@.len() implies #[trigger] item_views(items@)[i].start
                < item_views(items@)[i].end <= len by {
                assert(item_views(items@)[i] == items@[i]@);
                if i < before.len() {
                    assert(items@[i] == before[i]);
                    assert(item_views(before)[i] == before[i]@);
                }
            }
        }
        last = end;
    }
    Ok(items)
}

} // verus!

verus! {

/// Each item ends before the next one starts.
pub open spec fn items_ordered(items: Seq<ItemView>) -> bool {
    forall|i: int, j: int| 0 <= i < j < items.len() ==> #[trigger] items[i].end <= #[trigger] items[j].start
}

/// Items read from event `k` on keep every item inside the text, each
/// ending before the next starts.
proof fn lemma_scan_in_bounds(text: Seq<u8>, shift: nat, k: nat, last: nat, acc: Seq<ItemView>)
    requires
        items_in_bounds(acc, text.len()),
        items_ordered(acc),
        forall|i: int| 0 <= i < acc.len() ==> #[trigger] acc[i].end <= last,
    ensures
        scan_from(text, shift, k, last, acc) matches Ok(v) ==> items_in_bounds(v, text.len()) && items_ordered(v),
    decreases text.len() - last,
{
    if last >= text.len() || shift > text.len() {
    } else if read_event_kind(text, k) == EventKind::Failed {
    } else {
        let p = buffer_position(text, k);
        let q = buffer_position(text, k + 1);
        if read_event_kind(text, k) == EventKind::Eof || p > text.len() - shift || q > text.len() - shift
            || q <= p || p + shift < last {
        } else {
            match item_at(text, k, p + shift, q + shift) {
                Err(e) => {},
                Ok(it) => {
                    assert(it.start == p + shift && it.end == q + shift);
                    let next = acc.push(it);
                    assert forall|i: int| 0 <= i < next.len() implies #[trigger] next[i].start < next[i].end
                        && next[i].end <= text.len() by {
                        if i < acc.len() {
                            assert(next[i] == acc[i]);
                        }
                    }
                    assert forall|i: int, j: int| 0 <= i < j < next.len() implies #[trigger] next[i].end
                        <= #[trigger] next[j].start by {
                        assert(next[i] == acc[i]);
                        if j < acc.len() {
                            assert(next[j] == acc[j]);
                        }
                    }
                    assert forall|i: int| 0 <= i < next.len() implies #[trigger] next[i].end <= q + shift by {
                        if i < acc.len() {
                            assert(next[i] == acc[i]);
                        }
                    }
                    lemma_scan_in_bounds(text, shift, k + 1, q + shift, next);
                },
            }
        }
    }
}

/// The items of a text lie inside it, in order, each ending before the
/// next starts.
pub proof fn lemma_xml_items_in_bounds(text: Seq<u8>)
    ensures
        xml_items(text) matches Ok(v) ==> items_in_bounds(v, text.len()) && items_ordered(v),
{
    lemma_scan_in_bounds(text, bom_shift(text), 0, 0, Seq::empty());
}

} // verus!
