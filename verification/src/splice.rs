//! Byte-exact, data-preserving update of a container: only the edited
//! `<FITSKeyword>`/`<Property>` elements (and the attachment offset, when
//! the header's length changes) are replaced in the original bytes; every
//! other byte — unmodeled XML, whitespace, the attached data block —
//! survives untouched.

use vstd::prelude::*;
use vstd::string::StringSliceAdditionalSpecFns;

use crate::error::{Result, XisfError};
use crate::header::{Header, HeaderView};
use crate::keyword::{same_text, FitsKeyword, KeywordView};
use crate::property::{Property, PropertyView};
use crate::reader::{ImageInfo, ImageView, IndexView, XmlIndex};
use crate::text::push_str;
use crate::value::{nat_text, push_nat_text, usize_text};
use crate::writer::{keyword_element, le4, location_text, property_element, push_keyword, push_property};

verus! {

/// A byte range `start..end` of the original XML replaced by `bytes`
/// (empty to delete the range; `start == end` to insert).
pub struct RegionView {
    pub start: nat,
    pub end: nat,
    pub bytes: Seq<u8>,
}

/// A region of the XML to replace.
#[derive(Debug)]
pub struct Region {
    pub start: usize,
    pub end: usize,
    pub bytes: Vec<u8>,
}

impl View for Region {
    type V = RegionView;

    open spec fn view(&self) -> RegionView {
        RegionView { start: self.start as nat, end: self.end as nat, bytes: self.bytes@ }
    }
}

pub open spec fn region_views(rs: Seq<Region>) -> Seq<RegionView> {
    rs.map_values(|r: Region| r@)
}

// ----- which keywords survive --------------------------------------------------------

/// One step of matching: the original keyword `b` is kept at position `j`
/// of the edited list when the names there agree (exactly); then `j`
/// moves on.
pub open spec fn match_step(after: Seq<KeywordView>, st: (Seq<Option<nat>>, nat), b: KeywordView) -> (Seq<Option<nat>>, nat) {
    if st.1 < after.len() && after[st.1 as int].name == b.name {
        (st.0.push(Some(st.1)), st.1 + 1)
    } else {
        (st.0.push(None), st.1)
    }
}

/// Match each original keyword to its surviving position in the edited
/// list by name, left to right; the edited keywords from the returned
/// position on are new. The header API only updates a keyword in place,
/// removes one, or appends, so this tells kept from removed from new.
pub open spec fn match_keywords(before: Seq<KeywordView>, after: Seq<KeywordView>) -> (Seq<Option<nat>>, nat)
    decreases before.len(),
{
    if before.len() == 0 {
        (Seq::empty(), 0)
    } else {
        match_step(after, match_keywords(before.drop_last(), after), before.last())
    }
}

// ----- the regions ---------------------------------------------------------------------

/// The region for original keyword `i` with span `span`: none when it is
/// kept unchanged, its re-rendered element when kept and changed, a
/// deletion when removed.
pub open spec fn keyword_region(
    before: Seq<KeywordView>,
    after: Seq<KeywordView>,
    span: (nat, nat),
    kept: Option<nat>,
    i: int,
) -> Seq<RegionView> {
    match kept {
        Some(j) => if after[j as int] == before[i] {
            Seq::empty()
        } else {
            seq![
                RegionView {
                    start: span.0,
                    end: span.1,
                    bytes: vstd::utf8::encode_utf8(keyword_element(after[j as int])),
                },
            ]
        },
        None => seq![RegionView { start: span.0, end: span.1, bytes: Seq::empty() }],
    }
}

/// The regions of the first `n` original keywords.
pub open spec fn keyword_regions(
    before: Seq<KeywordView>,
    after: Seq<KeywordView>,
    spans: Seq<(nat, nat)>,
    kept: Seq<Option<nat>>,
    n: nat,
) -> Seq<RegionView>
    decreases n,
{
    if n == 0 {
        Seq::empty()
    } else {
        keyword_regions(before, after, spans, kept, (n - 1) as nat) + keyword_region(
            before,
            after,
            spans[n - 1],
            kept[n - 1],
            n - 1,
        )
    }
}

/// The region for an original property element: a deletion when the id is
/// gone, none when the property is unchanged, its re-rendered element
/// otherwise.
pub open spec fn property_region(
    before: Map<Seq<char>, PropertyView>,
    after: Map<Seq<char>, PropertyView>,
    span: (Seq<char>, nat, nat),
) -> Seq<RegionView> {
    if !after.contains_key(span.0) {
        seq![RegionView { start: span.1, end: span.2, bytes: Seq::empty() }]
    } else if before.contains_key(span.0) && before[span.0] == after[span.0] {
        Seq::empty()
    } else {
        seq![
            RegionView {
                start: span.1,
                end: span.2,
                bytes: vstd::utf8::encode_utf8(property_element(span.0, after[span.0])),
            },
        ]
    }
}

/// The regions of the original property elements, in order.
pub open spec fn property_regions(
    before: Map<Seq<char>, PropertyView>,
    after: Map<Seq<char>, PropertyView>,
    spans: Seq<(Seq<char>, nat, nat)>,
) -> Seq<RegionView>
    decreases spans.len(),
{
    if spans.len() == 0 {
        Seq::empty()
    } else {
        property_regions(before, after, spans.drop_last()) + property_region(
            before,
            after,
            spans.last(),
        )
    }
}

/// Whether an original property element has the id `id`.
pub open spec fn has_span_id(spans: Seq<(Seq<char>, nat, nat)>, id: Seq<char>) -> bool {
    exists|i: int| 0 <= i < spans.len() && #[trigger] spans[i].0 == id
}

/// The edited properties, in id order, that have no original element.
pub open spec fn new_entries(
    entries: Seq<(Seq<char>, PropertyView)>,
    spans: Seq<(Seq<char>, nat, nat)>,
) -> Seq<(Seq<char>, PropertyView)>
    decreases entries.len(),
{
    if entries.len() == 0 {
        Seq::empty()
    } else if has_span_id(spans, entries.last().0) {
        new_entries(entries.drop_last(), spans)
    } else {
        new_entries(entries.drop_last(), spans).push(entries.last())
    }
}

/// The line break and indentation before each inserted element.
pub open spec fn indent() -> Seq<char> {
    seq!['\n', ' ', ' ', ' ', ' ']
}

/// New keyword elements, each on a new indented line.
pub open spec fn keyword_block(ks: Seq<KeywordView>) -> Seq<char>
    decreases ks.len(),
{
    if ks.len() == 0 {
        Seq::empty()
    } else {
        keyword_block(ks.drop_last()) + indent() + keyword_element(ks.last())
    }
}

/// New property elements, each on a new indented line.
pub open spec fn property_block(es: Seq<(Seq<char>, PropertyView)>) -> Seq<char>
    decreases es.len(),
{
    if es.len() == 0 {
        Seq::empty()
    } else {
        property_block(es.drop_last()) + indent() + property_element(es.last().0, es.last().1)
    }
}

/// Why a new element cannot be added.
pub open spec fn self_closing_reason() -> Seq<char> {
    "cannot add keywords or properties: <Image> is self-closing and has no children to insert into"@
}

/// Every region but the attachment-offset rewrite: the edited and removed
/// keyword and property elements, and one insertion just before
/// `</Image>` holding every new keyword and then every new property.
pub open spec fn content_regions(
    before: HeaderView,
    after: HeaderView,
    after_entries: Seq<(Seq<char>, PropertyView)>,
    index: IndexView,
    image: ImageView,
) -> core::result::Result<Seq<RegionView>, Seq<char>> {
    let (kept, j) = match_keywords(before.keywords, after.keywords);
    let kr = keyword_regions(
        before.keywords,
        after.keywords,
        index.keyword_spans,
        kept,
        index.keyword_spans.len(),
    );
    let pr = property_regions(before.properties, after.properties, index.property_spans);
    let new_kws = after.keywords.skip(j as int);
    let new_props = new_entries(after_entries, index.property_spans);
    if new_kws.len() > 0 || new_props.len() > 0 {
        match image.insertion_point {
            None => Err(self_closing_reason()),
            Some(p) => Ok(
                kr + pr + seq![
                    RegionView {
                        start: p,
                        end: p,
                        bytes: vstd::utf8::encode_utf8(
                            keyword_block(new_kws) + property_block(new_props),
                        ),
                    },
                ],
            ),
        }
    } else {
        Ok(kr + pr)
    }
}

// ----- ordering and applying regions ---------------------------------------------------

/// Insert `r` into regions sorted by start, after every region that starts
/// no later (a stable insertion).
pub open spec fn insert_region(rs: Seq<RegionView>, r: RegionView) -> Seq<RegionView>
    decreases rs.len(),
{
    if rs.len() == 0 {
        seq![r]
    } else if rs.last().start <= r.start {
        rs.push(r)
    } else {
        insert_region(rs.drop_last(), r).push(rs.last())
    }
}

/// The regions stably sorted by start.
pub open spec fn sort_regions(rs: Seq<RegionView>) -> Seq<RegionView>
    decreases rs.len(),
{
    if rs.len() == 0 {
        Seq::empty()
    } else {
        insert_region(sort_regions(rs.drop_last()), rs.last())
    }
}

/// Sorted regions that do not overlap and lie inside a text of `len`
/// bytes, from `cursor` on.
pub open spec fn regions_fit(rs: Seq<RegionView>, cursor: nat, len: nat) -> bool
    decreases rs.len(),
{
    if rs.len() == 0 {
        cursor <= len
    } else {
        cursor <= rs[0].start && rs[0].start <= rs[0].end && regions_fit(rs.drop_first(), rs[0].end, len)
    }
}

/// Apply fitting regions to `xml` from `cursor` on, copying everything
/// between and around them verbatim.
pub open spec fn splice_from(xml: Seq<u8>, rs: Seq<RegionView>, cursor: nat) -> Seq<u8>
    decreases rs.len(),
{
    if rs.len() == 0 {
        xml.subrange(cursor as int, xml.len() as int)
    } else {
        xml.subrange(cursor as int, rs[0].start as int) + rs[0].bytes + splice_from(
            xml,
            rs.drop_first(),
            rs[0].end,
        )
    }
}

/// Why regions cannot be applied.
pub open spec fn overlap_reason() -> Seq<char> {
    "edited elements overlap in the XML header"@
}

// ----- the attachment offset -----------------------------------------------------------

/// The rewritten location after `rounds` more attempts from the guess
/// `offset`. The data keeps its distance from the end of the XML header —
/// any gap between them is kept — so the offset moves by exactly as much as
/// the header's length changes; the location text's own width is part of
/// that change, so the offset is recomputed until it is stable.
pub open spec fn relocate_from(xml_len: nat, delta: int, image: ImageView, offset: nat, rounds: nat) -> core::result::Result<RegionView, Seq<char>>
    decreases rounds,
{
    if rounds == 0 {
        Err("attachment offset did not converge while recomputing the header length"@)
    } else {
        let text = vstd::utf8::encode_utf8(location_text(nat_text(offset), image.size));
        let new_len = xml_len + delta + text.len() - (image.location_span.1 - image.location_span.0);
        let needed = image.offset + new_len - xml_len;
        if new_len < 0 {
            Err("edit shrank the header below zero bytes"@)
        } else if needed < 0 {
            Err("attachment offset overlaps the XML header"@)
        } else if needed == offset {
            Ok(RegionView { start: image.location_span.0, end: image.location_span.1, bytes: text })
        } else {
            relocate_from(xml_len, delta, image, needed as nat, (rounds - 1) as nat)
        }
    }
}

/// The rewritten location for a header of `xml_len` bytes whose content
/// changed by `delta` bytes: at most 16 rounds from the original offset.
pub open spec fn relocate(xml_len: nat, delta: int, image: ImageView) -> core::result::Result<RegionView, Seq<char>> {
    relocate_from(xml_len, delta, image, image.offset, 16)
}

// ----- the container ------------------------------------------------------------------------

/// The container around a new XML header: the original signature, the new
/// XML length, the original reserved bytes, the new XML, and every byte
/// after the original XML (gap, data, trailing bytes) verbatim — when the
/// attachment lies inside the file and after the XML.
pub open spec fn container_bytes(original: Seq<u8>, xml_end: nat, image: ImageView, new_xml: Seq<u8>) -> core::result::Result<Seq<u8>, Seq<char>> {
    if image.offset + image.size > original.len() {
        Err("attachment location/size is out of bounds"@)
    } else if image.offset < xml_end {
        Err("attachment offset overlaps the XML header"@)
    } else {
        Ok(
            original.subrange(0, 8) + le4(
                if new_xml.len() > u32::MAX {
                    u32::MAX as nat
                } else {
                    new_xml.len()
                },
            ) + original.subrange(12, 16) + new_xml + original.subrange(
                xml_end as int,
                image.offset as int,
            ) + original.subrange(image.offset as int, (image.offset + image.size) as int)
                + original.subrange((image.offset + image.size) as int, original.len() as int),
        )
    }
}

/// The updated container for the original bytes whose XML header lies at
/// `16..xml_end`, read as `before` with `index`, edited into `after`; or
/// why the splice cannot be done.
#[verifier::opaque]
pub open spec fn update_bytes(
    original: Seq<u8>,
    xml_end: nat,
    before: HeaderView,
    index: IndexView,
    after: HeaderView,
    after_entries: Seq<(Seq<char>, PropertyView)>,
) -> core::result::Result<Seq<u8>, Seq<char>> {
    let xml = original.subrange(16, xml_end as int);
    match index.image {
        Err(m) => Err(m),
        Ok(image) => match content_regions(before, after, after_entries, index, image) {
            Err(m) => Err(m),
            Ok(rs) => {
                let sorted = sort_regions(rs);
                if !regions_fit(sorted, 0, xml.len()) {
                    Err(overlap_reason())
                } else {
                    let delta = splice_from(xml, sorted, 0).len() - xml.len();
                    if delta == 0 {
                        container_bytes(original, xml_end, image, splice_from(xml, sorted, 0))
                    } else {
                        match relocate(xml.len(), delta, image) {
                            Err(m) => Err(m),
                            Ok(r) => {
                                let all = insert_region(sorted, r);
                                if !regions_fit(all, 0, xml.len()) {
                                    Err(overlap_reason())
                                } else {
                                    container_bytes(original, xml_end, image, splice_from(xml, all, 0))
                                }
                            },
                        }
                    }
                }
            },
        },
    }
}

} // verus!

verus! {

pub open spec fn keyword_views(ks: Seq<FitsKeyword>) -> Seq<KeywordView> {
    ks.map_values(|k: FitsKeyword| k@)
}

/// Match the original keywords to the edited ones (see
/// [`match_keywords`]).
fn match_keyword_slots(before: &[FitsKeyword], after: &[FitsKeyword]) -> (r: (Vec<Option<usize>>, usize))
    ensures
        ({
            let (kept, j) = match_keywords(keyword_views(before@), keyword_views(after@));
            &&& r.0@.map_values(|o: Option<usize>| match o {
                Some(x) => Some(x as nat),
                None => None,
            }) == kept
            &&& r.1 == j
            &&& kept.len() == before@.len()
            &&& j <= after@.len()
            &&& forall|i: int| 0 <= i < kept.len() ==> (#[trigger] kept[i] matches Some(x) ==> x < after@.len())
        }),
{
    let ghost bv = keyword_views(before@);
    let ghost av = keyword_views(after@);
    let mut kept: Vec<Option<usize>> = Vec::new();
    let mut j: usize = 0;
    let mut i: usize = 0;
    while i < before.len()
        invariant
            0 <= i <= before@.len(),
            bv == keyword_views(before@),
            av == keyword_views(after@),
            ({
                let (k, jj) = match_keywords(bv.take(i as int), av);
                &&& kept@.map_values(|o: Option<usize>| match o {
                    Some(x) => Some(x as nat),
                    None => None,
                }) == k
                &&& j == jj
                &&& k.len() == i
                &&& j <= after@.len()
                &&& forall|t: int| 0 <= t < k.len() ==> (#[trigger] k[t] matches Some(x) ==> x < after@.len())
            }),
        decreases before.len() - i,
    {
        assert(bv.take(i + 1).drop_last() =~= bv.take(i as int));
        assert(bv.take(i + 1).last() == before@[i as int]@);
        let ghost old_kept = kept@;
        if j < after.len() && same_text(&after[j as usize].name, &before[i].name) {
            assert(av[j as int] == after@[j as int]@);
            kept.push(Some(j));
            j += 1;
        } else {
            proof {
                if j < after@.len() {
                    assert(av[j as int] == after@[j as int]@);
                }
            }
            kept.push(None);
        }
        proof {
            let (k, jj) = match_keywords(bv.take(i + 1), av);
            assert(kept@.map_values(|o: Option<usize>| match o {
                Some(x) => Some(x as nat),
                None => None,
            }) =~= k);
        }
        i += 1;
    }
    assert(bv.take(i as int) =~= bv);
    (kept, j)
}

/// The UTF-8 bytes of a string.
fn text_bytes(s: &String) -> (r: Vec<u8>)
    ensures
        r@ == vstd::utf8::encode_utf8(s@),
{
    let b = s.as_str().as_bytes();
    let mut v: Vec<u8> = Vec::new();
    v.extend_from_slice(b);
    assert(v@ =~= b@);
    v
}

/// A keyword element's bytes.
fn keyword_bytes(k: &FitsKeyword) -> (r: Vec<u8>)
    ensures
        r@ == vstd::utf8::encode_utf8(keyword_element(k@)),
{
    let mut s = String::new();
    push_keyword(&mut s, k.name.as_str(), &k.value, k.comment.as_str());
    assert(s@ =~= keyword_element(k@));
    text_bytes(&s)
}

/// A property element's bytes.
fn property_bytes(id: &str, p: &Property) -> (r: Vec<u8>)
    ensures
        r@ == vstd::utf8::encode_utf8(property_element(id@, p@)),
{
    let mut s = String::new();
    push_property(&mut s, id, p);
    assert(s@ =~= property_element(id@, p@));
    text_bytes(&s)
}

} // verus!

verus! {

/// Whether an original property element has the id `id`.
fn has_id(spans: &Vec<(String, usize, usize)>, id: &String) -> (r: bool)
    ensures
        r == has_span_id(crate::reader::id_span_views(spans@), id@),
{
    let ghost sv = crate::reader::id_span_views(spans@);
    let mut i: usize = 0;
    while i < spans.len()
        invariant
            0 <= i <= spans@.len(),
            sv == crate::reader::id_span_views(spans@),
            forall|k: int| 0 <= k < i ==> #[trigger] sv[k].0 != id@,
        decreases spans.len() - i,
    {
        assert(sv[i as int].0 == spans@[i as int].0@);
        if same_text(&spans[i].0, id) {
            return true;
        }
        i += 1;
    }
    false
}

/// The regions of the original keywords (see [`keyword_regions`]).
fn keyword_region_list(
    before: &Header,
    after: &Header,
    spans: &Vec<(usize, usize)>,
    kept: &Vec<Option<usize>>,
) -> (r: Vec<Region>)
    requires
        spans@.len() <= kept@.len() == before@.keywords.len(),
        forall|i: int| 0 <= i < kept@.len() ==> (#[trigger] kept@[i] matches Some(x) ==> x < after@.keywords.len()),
    ensures
        region_views(r@) == keyword_regions(
            before@.keywords,
            after@.keywords,
            crate::reader::span_views(spans@),
            kept@.map_values(|o: Option<usize>| match o {
                Some(x) => Some(x as nat),
                None => None,
            }),
            spans@.len() as nat,
        ),
{
    let ghost sv = crate::reader::span_views(spans@);
    let ghost kv = kept@.map_values(|o: Option<usize>| match o {
        Some(x) => Some(x as nat),
        None => None,
    });
    let mut out: Vec<Region> = Vec::new();
    let mut i: usize = 0;
    while i < spans.len()
        invariant
            0 <= i <= spans@.len() <= kept@.len() == before@.keywords.len(),
            forall|t: int| 0 <= t < kept@.len() ==> (#[trigger] kept@[t] matches Some(x) ==> x < after@.keywords.len()),
            sv == crate::reader::span_views(spans@),
            kv == kept@.map_values(|o: Option<usize>| match o {
                Some(x) => Some(x as nat),
                None => None,
            }),
            region_views(out@) == keyword_regions(before@.keywords, after@.keywords, sv, kv, i as nat),
        decreases spans.len() - i,
    {
        let (start, end) = spans[i];
        assert(sv[i as int] == (start as nat, end as nat));
        let ghost old_out = out@;
        let ghost add = keyword_region(before@.keywords, after@.keywords, sv[i as int], kv[i as int], i as int);
        match kept[i] {
            Some(j) => {
                assert(after@.keywords[j as int] == after.keywords@[j as int]@);
                assert(before@.keywords[i as int] == before.keywords@[i as int]@);
                if !after.keywords[j].same(&before.keywords[i]) {
                    let bytes = keyword_bytes(&after.keywords[j]);
                    out.push(Region { start, end, bytes });
                }
            },
            None => {
                out.push(Region { start, end, bytes: Vec::new() });
            },
        }
        assert(region_views(out@) =~= region_views(old_out) + add);
        i += 1;
    }
    out
}

/// The regions of the original properties (see [`property_regions`]).
fn property_region_list(before: &Header, after: &Header, spans: &Vec<(String, usize, usize)>) -> (r: Vec<Region>)
    ensures
        region_views(r@) == property_regions(
            before@.properties,
            after@.properties,
            crate::reader::id_span_views(spans@),
        ),
{
    let ghost sv = crate::reader::id_span_views(spans@);
    let mut out: Vec<Region> = Vec::new();
    let mut i: usize = 0;
    while i < spans.len()
        invariant
            0 <= i <= spans@.len(),
            sv == crate::reader::id_span_views(spans@),
            region_views(out@) == property_regions(before@.properties, after@.properties, sv.take(i as int)),
        decreases spans.len() - i,
    {
        let span = &spans[i];
        assert(sv[i as int] == (span.0@, span.1 as nat, span.2 as nat));
        assert(sv.take(i + 1).drop_last() =~= sv.take(i as int));
        let ghost old_out = out@;
        match after.properties.get(span.0.as_str()) {
            None => {
                out.push(Region { start: span.1, end: span.2, bytes: Vec::new() });
            },
            Some(p) => {
                let unchanged = match before.properties.get(span.0.as_str()) {
                    Some(q) => q.same(p),
                    None => false,
                };
                if !unchanged {
                    let bytes = property_bytes(span.0.as_str(), p);
                    out.push(Region { start: span.1, end: span.2, bytes });
                }
            },
        }
        assert(region_views(out@) =~= region_views(old_out) + property_region(
            before@.properties,
            after@.properties,
            sv[i as int],
        ));
        i += 1;
    }
    assert(sv.take(i as int) =~= sv);
    out
}

} // verus!

verus! {

/// The text inserted before `</Image>`: the new keywords (from `j` on) and
/// the new properties; and whether there is any.
fn insertion_text(after: &Header, j: usize, spans: &Vec<(String, usize, usize)>) -> (r: (String, bool))
    requires
        j <= after@.keywords.len(),
    ensures
        ({
            let ks = after@.keywords.skip(j as int);
            let ps = new_entries(after.properties.entry_views(), crate::reader::id_span_views(spans@));
            &&& r.0@ == keyword_block(ks) + property_block(ps)
            &&& r.1 == (ks.len() > 0 || ps.len() > 0)
        }),
{
    let ghost kv = after@.keywords;
    let mut s = String::new();
    let mut k: usize = j;
    while k < after.keywords.len()
        invariant
            j <= k <= kv.len(),
            kv == after@.keywords,
            s@ == keyword_block(kv.subrange(j as int, k as int)),
        decreases after.keywords.len() - k,
    {
        let kw = &after.keywords[k];
        assert(kv[k as int] == kw@);
        push_str(&mut s, "\n    ");
        proof {
            reveal_strlit("\n    ");
        }
        push_keyword(&mut s, kw.name.as_str(), &kw.value, kw.comment.as_str());
        assert(kv.subrange(j as int, k + 1).drop_last() =~= kv.subrange(j as int, k as int));
        assert(s@ =~= keyword_block(kv.subrange(j as int, k + 1)));
        k += 1;
    }
    assert(kv.subrange(j as int, k as int) =~= kv.skip(j as int));
    let ghost head = s@;
    let any_keyword = j < after.keywords.len();
    let entries = after.properties.entries();
    let ghost es = after.properties.entry_views();
    let ghost sv = crate::reader::id_span_views(spans@);
    let mut any_property = false;
    let mut i: usize = 0;
    while i < entries.len()
        invariant
            0 <= i <= entries@.len() == es.len(),
            es == entries@.map_values(|e: (String, Property)| crate::property::entry_view(e)),
            sv == crate::reader::id_span_views(spans@),
            s@ == head + property_block(new_entries(es.take(i as int), sv)),
            any_property == (new_entries(es.take(i as int), sv).len() > 0),
        decreases entries.len() - i,
    {
        let e = &entries[i];
        assert(es[i as int] == (e.0@, e.1@));
        assert(es.take(i + 1).drop_last() =~= es.take(i as int));
        assert(es.take(i + 1).last() == es[i as int]);
        if !has_id(spans, &e.0) {
            push_str(&mut s, "\n    ");
            proof {
                reveal_strlit("\n    ");
            }
            push_property(&mut s, e.0.as_str(), &e.1);
            any_property = true;
            let ghost ne = new_entries(es.take(i as int), sv);
            assert(new_entries(es.take(i + 1), sv) == ne.push(es[i as int]));
            assert(ne.push(es[i as int]).drop_last() =~= ne);
            assert(indent() =~= "\n    "@);
            assert(s@ =~= head + property_block(new_entries(es.take(i + 1), sv)));
        }
        i += 1;
    }
    assert(es.take(i as int) =~= es);
    (s, any_keyword || any_property)
}

/// Every region but the attachment-offset rewrite (see
/// [`content_regions`]).
fn content_region_list(before: &Header, after: &Header, index: &XmlIndex, image: &ImageInfo) -> (r: core::result::Result<Vec<Region>, String>)
    requires
        index@.keyword_spans.len() == before@.keywords.len(),
    ensures
        match content_regions(before@, after@, after.properties.entry_views(), index@, image@) {
            Ok(rs) => r matches Ok(v) && region_views(v@) == rs,
            Err(m) => r matches Err(s) && s@ == m,
        },
{
    let (kept, j) = match_keyword_slots(before.keywords.as_slice(), after.keywords.as_slice());
    proof {
        let kv = kept@.map_values(|o: Option<usize>| match o {
            Some(x) => Some(x as nat),
            None => None,
        });
        assert forall|i: int| 0 <= i < kept@.len() implies (#[trigger] kept@[i] matches Some(x) ==> x
            < after@.keywords.len()) by {
            assert(kv[i] == match kept@[i] {
                Some(x) => Some(x as nat),
                None => None,
            });
        }
    }
    assert(keyword_views(before.keywords@) == before@.keywords);
    assert(keyword_views(after.keywords@) == after@.keywords);
    let mut regions = keyword_region_list(before, after, &index.keyword_spans, &kept);
    let mut props = property_region_list(before, after, &index.property_spans);
    let ghost kr = region_views(regions@);
    let ghost pr = region_views(props@);
    regions.append(&mut props);
    assert(region_views(regions@) =~= kr + pr);
    let (text, any) = insertion_text(after, j, &index.property_spans);
    if any {
        match image.insertion_point {
            None => {
                return Err(
                    "cannot add keywords or properties: <Image> is self-closing and has no children to insert into".to_owned(),
                );
            },
            Some(p) => {
                let bytes = text_bytes(&text);
                let ghost before_push = regions@;
                regions.push(Region { start: p, end: p, bytes });
                assert(region_views(regions@) =~= region_views(before_push).push(regions@.last()@));
            },
        }
    }
    Ok(regions)
}

} // verus!

verus! {

proof fn lemma_insert_region_at(rs: Seq<RegionView>, r: RegionView, p: int)
    requires
        0 <= p <= rs.len(),
        p == 0 || rs[p - 1].start <= r.start,
        forall|k: int| p <= k < rs.len() ==> #[trigger] rs[k].start > r.start,
    ensures
        insert_region(rs, r) == rs.take(p).push(r) + rs.skip(p),
    decreases rs.len() - p,
{
    if p == rs.len() {
        if rs.len() == 0 {
            assert(rs.take(p).push(r) + rs.skip(p) =~= seq![r]);
        } else {
            assert(rs.take(p) =~= rs);
            assert(rs.skip(p) =~= Seq::<RegionView>::empty());
            assert(rs.take(p).push(r) + rs.skip(p) =~= rs.push(r));
        }
    } else {
        let d = rs.drop_last();
        lemma_insert_region_at(d, r, p);
        assert(d.take(p) =~= rs.take(p));
        assert((d.take(p).push(r) + d.skip(p)).push(rs.last()) =~= rs.take(p).push(r) + rs.skip(p));
    }
}

/// Insert a region into regions sorted by start, stably (see
/// [`insert_region`]).
fn insert_sorted(rs: &mut Vec<Region>, r: Region)
    ensures
        region_views(final(rs)@) == insert_region(region_views(old(rs)@), r@),
{
    let ghost v = region_views(rs@);
    let mut p = rs.len();
    while p > 0 && rs[p - 1].start > r.start
        invariant
            0 <= p <= rs@.len(),
            v == region_views(rs@),
            forall|k: int| p <= k < v.len() ==> #[trigger] v[k].start > r.start,
        decreases p,
    {
        assert(v[p - 1] == rs@[p - 1]@);
        p -= 1;
    }
    proof {
        if p > 0 {
            assert(v[p - 1] == rs@[p - 1]@);
        }
        lemma_insert_region_at(v, r@, p as int);
    }
    let ghost rv = r@;
    rs.insert(p, r);
    assert(region_views(rs@) =~= v.take(p as int).push(rv) + v.skip(p as int));
}

/// The regions stably sorted by start (see [`sort_regions`]).
fn sort_region_list(rs: Vec<Region>) -> (r: Vec<Region>)
    ensures
        region_views(r@) == sort_regions(region_views(rs@)),
{
    let ghost all = region_views(rs@);
    let n = rs.len();
    let mut rest = rs;
    let mut out: Vec<Region> = Vec::new();
    let mut k: usize = 0;
    assert(all.skip(0) =~= all);
    assert(all.take(0) =~= Seq::<RegionView>::empty());
    while rest.len() > 0
        invariant
            k + rest@.len() == all.len() == n,
            region_views(rest@) == all.skip(k as int),
            region_views(out@) == sort_regions(all.take(k as int)),
        decreases rest.len(),
    {
        let ghost old_rest = rest@;
        let r = rest.remove(0);
        assert(r@ == all[k as int]) by {
            assert(region_views(old_rest)[0] == old_rest[0]@);
            assert(all.skip(k as int)[0] == all[k as int]);
        }
        assert(region_views(rest@) =~= region_views(old_rest).drop_first());
        assert(all.take(k + 1).drop_last() =~= all.take(k as int));
        insert_sorted(&mut out, r);
        k += 1;
        assert(region_views(rest@) =~= all.skip(k as int));
    }
    assert(all.take(k as int) =~= all);
    out
}

/// Whether sorted regions fit (see [`regions_fit`]).
fn regions_fit_exec(rs: &Vec<Region>, len: usize) -> (r: bool)
    ensures
        r == regions_fit(region_views(rs@), 0, len as nat),
{
    let ghost v = region_views(rs@);
    let mut cursor: usize = 0;
    let mut i: usize = 0;
    assert(v.skip(0) =~= v);
    while i < rs.len()
        invariant
            0 <= i <= rs@.len(),
            v == region_views(rs@),
            regions_fit(v, 0, len as nat) == regions_fit(v.skip(i as int), cursor as nat, len as nat),
        decreases rs.len() - i,
    {
        let r = &rs[i];
        assert(v.skip(i as int)[0] == r@);
        assert(v.skip(i as int).drop_first() =~= v.skip(i + 1));
        if !(cursor <= r.start && r.start <= r.end) {
            return false;
        }
        cursor = r.end;
        i += 1;
    }
    assert(v.skip(i as int) =~= Seq::<RegionView>::empty());
    cursor <= len
}

/// Apply fitting sorted regions to the XML (see [`splice_from`]).
fn splice_regions(xml: &[u8], rs: &Vec<Region>) -> (r: Vec<u8>)
    requires
        regions_fit(region_views(rs@), 0, xml@.len()),
    ensures
        r@ == splice_from(xml@, region_views(rs@), 0),
{
    let ghost v = region_views(rs@);
    let mut out: Vec<u8> = Vec::new();
    let mut cursor: usize = 0;
    let mut i: usize = 0;
    assert(v.skip(0) =~= v);
    assert(out@ + splice_from(xml@, v, 0) =~= splice_from(xml@, v, 0));
    while i < rs.len()
        invariant
            0 <= i <= rs@.len(),
            v == region_views(rs@),
            regions_fit(v.skip(i as int), cursor as nat, xml@.len()),
            splice_from(xml@, v, 0) == out@ + splice_from(xml@, v.skip(i as int), cursor as nat),
        decreases rs.len() - i,
    {
        let r = &rs[i];
        assert(v.skip(i as int)[0] == r@);
        assert(v.skip(i as int).drop_first() =~= v.skip(i + 1));
        proof {
            lemma_fit_bounds(v.skip(i + 1), r.end as nat, xml@.len());
        }
        let ghost before = out@;
        out.extend_from_slice(vstd::slice::slice_subrange(xml, cursor, r.start));
        out.extend_from_slice(r.bytes.as_slice());
        assert(out@ =~= before + xml@.subrange(cursor as int, r.start as int) + r.bytes@);
        cursor = r.end;
        i += 1;
    }
    assert(v.skip(i as int) =~= Seq::<RegionView>::empty());
    let ghost before = out@;
    out.extend_from_slice(vstd::slice::slice_subrange(xml, cursor, xml.len()));
    assert(out@ =~= before + xml@.subrange(cursor as int, xml@.len() as int));
    out
}

proof fn lemma_fit_bounds(rs: Seq<RegionView>, cursor: nat, len: nat)
    requires
        regions_fit(rs, cursor, len),
    ensures
        cursor <= len,
    decreases rs.len(),
{
    if rs.len() > 0 {
        lemma_fit_bounds(rs.drop_first(), rs[0].end, len);
    }
}

} // verus!

verus! {

/// The rewritten location (see [`relocate`]).
fn relocate_location(xml_len: usize, spliced_len: usize, image: &ImageInfo) -> (r: core::result::Result<Region, String>)
    ensures
        match relocate(xml_len as nat, spliced_len - xml_len, image@) {
            Ok(v) => r matches Ok(x) && x@ == v,
            Err(m) => r matches Err(s) && s@ == m,
        },
{
    let delta: i128 = spliced_len as i128 - xml_len as i128;
    let old_len: i128 = image.location_end as i128 - image.location_start as i128;
    let mut offset: u128 = image.offset as u128;
    let mut rounds: usize = 16;
    while rounds > 0
        invariant
            0 <= rounds <= 16,
            offset <= 4 * (usize::MAX as u128),
            delta == spliced_len - xml_len,
            old_len == image.location_end - image.location_start,
            relocate(xml_len as nat, delta as int, image@) == relocate_from(
                xml_len as nat,
                delta as int,
                image@,
                offset as nat,
                rounds as nat,
            ),
        decreases rounds,
    {
        let mut text = String::new();
        push_str(&mut text, "attachment:");
        push_nat_text(&mut text, offset);
        push_str(&mut text, ":");
        push_nat_text(&mut text, image.size as u128);
        assert(text@ =~= location_text(nat_text(offset as nat), image@.size));
        let bytes = text_bytes(&text);
        let tl = bytes.len();
        let new_len: i128 = xml_len as i128 + delta + tl as i128 - old_len;
        let needed: i128 = image.offset as i128 + new_len - xml_len as i128;
        if new_len < 0 {
            return Err("edit shrank the header below zero bytes".to_owned());
        }
        if needed < 0 {
            return Err("attachment offset overlaps the XML header".to_owned());
        }
        if needed as u128 == offset {
            return Ok(Region { start: image.location_start, end: image.location_end, bytes });
        }
        offset = needed as u128;
        rounds -= 1;
    }
    Err("attachment offset did not converge while recomputing the header length".to_owned())
}

/// Append `original[from..to]`.
fn push_range(out: &mut Vec<u8>, original: &[u8], from: usize, to: usize)
    requires
        from <= to <= original@.len(),
    ensures
        final(out)@ == old(out)@ + original@.subrange(from as int, to as int),
{
    out.extend_from_slice(vstd::slice::slice_subrange(original, from, to));
    assert(final(out)@ =~= old(out)@ + original@.subrange(from as int, to as int));
}

/// Assemble the container around the new XML (see [`container_bytes`]).
fn assemble_container(original: &[u8], xml_end: usize, image: &ImageInfo, new_xml: &[u8]) -> (r: core::result::Result<Vec<u8>, String>)
    requires
        16 <= xml_end <= original@.len(),
    ensures
        match container_bytes(original@, xml_end as nat, image@, new_xml@) {
            Ok(b) => r matches Ok(v) && v@ == b,
            Err(m) => r matches Err(s) && s@ == m,
        },
{
    let data_start = image.offset;
    if image.size > original.len() || data_start > original.len() - image.size {
        return Err("attachment location/size is out of bounds".to_owned());
    }
    let data_end = data_start + image.size;
    if data_start < xml_end {
        return Err("attachment offset overlaps the XML header".to_owned());
    }
    let n = new_xml.len();
    let len: u32 = if n > 4294967295 {
        4294967295
    } else {
        n as u32
    };
    let mut out: Vec<u8> = Vec::new();
    push_range(&mut out, original, 0, 8);
    let le = crate::writer::le4_bytes(len);
    out.extend_from_slice(&le);
    let ghost a = out@;
    push_range(&mut out, original, 12, 16);
    out.extend_from_slice(new_xml);
    let ghost b = out@;
    push_range(&mut out, original, xml_end, data_start);
    push_range(&mut out, original, data_start, data_end);
    push_range(&mut out, original, data_end, original.len());
    proof {
        assert(a =~= original@.subrange(0, 8) + le4(len as nat));
        assert(b =~= a + original@.subrange(12, 16) + new_xml@);
    }
    Ok(out)
}

/// Splice the edited header `after` into the original container whose XML
/// header lies at `16..xml_end` and was read as `before` with `index` (see
/// [`update_bytes`]); every failure is [`XisfError::Unsupported`].
pub fn splice_update(original: &[u8], xml_end: usize, before: &Header, index: &XmlIndex, after: &Header) -> (r: Result<Vec<u8>>)
    requires
        16 <= xml_end <= original@.len(),
        index@.keyword_spans.len() == before@.keywords.len(),
    ensures
        match update_bytes(original@, xml_end as nat, before@, index@, after@, after.properties.entry_views()) {
            Ok(b) => r matches Ok(v) && v@ == b,
            Err(m) => r matches Err(e) && e matches XisfError::Unsupported(s) && s@ == m,
        },
{
    proof {
        reveal(update_bytes);
    }
    let image = match &index.image {
        Err(m) => {
            return Err(XisfError::Unsupported(m.clone()));
        },
        Ok(i) => *i,
    };
    let xml = vstd::slice::slice_subrange(original, 16, xml_end);
    let regions = match content_region_list(before, after, index, &image) {
        Err(m) => {
            return Err(XisfError::Unsupported(m));
        },
        Ok(rs) => rs,
    };
    let mut sorted = sort_region_list(regions);
    if !regions_fit_exec(&sorted, xml.len()) {
        return Err(XisfError::Unsupported("edited elements overlap in the XML header".to_owned()));
    }
    let first = splice_regions(xml, &sorted);
    if first.len() == xml.len() {
        return match assemble_container(original, xml_end, &image, first.as_slice()) {
            Ok(v) => Ok(v),
            Err(m) => Err(XisfError::Unsupported(m)),
        };
    }
    let relocation = match relocate_location(xml.len(), first.len(), &image) {
        Err(m) => {
            return Err(XisfError::Unsupported(m));
        },
        Ok(r) => r,
    };
    insert_sorted(&mut sorted, relocation);
    if !regions_fit_exec(&sorted, xml.len()) {
        return Err(XisfError::Unsupported("edited elements overlap in the XML header".to_owned()));
    }
    let new_xml = splice_regions(xml, &sorted);
    match assemble_container(original, xml_end, &image, new_xml.as_slice()) {
        Ok(v) => Ok(v),
        Err(m) => Err(XisfError::Unsupported(m)),
    }
}

} // verus!

verus! {

/// What reading items keeps: one span per keyword, and an element span for
/// every property id and a property for every element span.
pub proof fn lemma_index_facts(xml: Seq<u8>, items: Seq<crate::xml::ItemView>)
    ensures
        ({
            let st = crate::reader::index_items(xml, items);
            &&& st.keywords.len() == st.keyword_spans.len()
            &&& forall|id: Seq<char>| #[trigger]
                st.properties.contains_key(id) ==> has_span_id(st.property_spans, id)
            &&& forall|i: int|
                0 <= i < st.property_spans.len() ==> st.properties.contains_key(
                    #[trigger] st.property_spans[i].0,
                )
        }),
    decreases items.len(),
{
    if items.len() > 0 {
        let prev = crate::reader::index_items(xml, items.drop_last());
        lemma_index_facts(xml, items.drop_last());
        let st = crate::reader::index_items(xml, items);
        assert forall|id: Seq<char>| #[trigger] st.properties.contains_key(id) implies has_span_id(
            st.property_spans,
            id,
        ) by {
            if prev.properties.contains_key(id) {
                let k = choose|k: int| 0 <= k < prev.property_spans.len() && #[trigger] prev.property_spans[k].0 == id;
                assert(st.property_spans[k] == prev.property_spans[k]);
            } else {
                let k = st.property_spans.len() - 1;
                assert(st.property_spans[k].0 == id);
            }
        }
        assert forall|i: int| 0 <= i < st.property_spans.len() implies st.properties.contains_key(
            #[trigger] st.property_spans[i].0,
        ) by {
            if i < prev.property_spans.len() {
                assert(st.property_spans[i] == prev.property_spans[i]);
            }
        }
    }
}

impl Header {
    /// Parse the container `original`, apply `edit` to its header, and
    /// splice the result back into the original bytes: byte-exact and
    /// data-preserving (see [`update_bytes`]). Every byte outside the edited
    /// `<FITSKeyword>`/`<Property>` elements survives; when the XML length
    /// changes, the attachment offset is recomputed and the data moves,
    /// unchanged. The layout is checked before `edit` is called: on a layout
    /// the splice cannot target, `edit` is never called and the result is
    /// [`XisfError::Unsupported`]. Otherwise `edit` is called once, on the
    /// parsed header; its error is passed on.
    pub fn update_file(original: &[u8], edit: impl FnOnce(&mut Header) -> Result<()>) -> (r: Result<Vec<u8>>)
        requires
            forall|h: &mut Header| call_requires(edit, (h,)),
        ensures
            match crate::reader::preamble(original@) {
                crate::reader::Preamble::Header(end) => if vstd::utf8::valid_utf8(
                    crate::reader::xml_bytes(original@),
                ) {
                    match crate::reader::read_xml(crate::reader::xml_bytes(original@)) {
                        Err(se) => r matches Err(e) && crate::reader::scan_error(e, se),
                        Ok((h0, idx)) => match idx.image {
                            Err(msg) => r matches Err(e) && e matches XisfError::Unsupported(s) && s@ == msg,
                            Ok(_) => exists|m: &mut Header, res: Result<()>|
                                (*m)@ == h0 && (*final(m)).properties.wf() && #[trigger] call_ensures(
                                    edit,
                                    (m,),
                                    res,
                                ) && match res {
                                    Err(e) => r == Err::<Vec<u8>, XisfError>(e),
                                    Ok(_) => match update_bytes(
                                        original@,
                                        end,
                                        h0,
                                        idx,
                                        (*final(m))@,
                                        (*final(m)).properties.entry_views(),
                                    ) {
                                        Ok(b) => r matches Ok(v) && v@ == b,
                                        Err(msg) => r matches Err(e) && e matches XisfError::Unsupported(s) && s@
                                            == msg,
                                    },
                                },
                        },
                    }
                } else {
                    r matches Err(e) && e is Utf8
                },
                _ => r matches Err(e) && crate::reader::preamble_error(original@, e),
            },
    {
        let (start, end) = match crate::reader::split_preamble(original) {
            Ok(range) => range,
            Err(e) => {
                return Err(e);
            },
        };
        let xml = match crate::reader::utf8_text(vstd::slice::slice_subrange(original, start, end)) {
            Ok(s) => s,
            Err(e) => {
                return Err(XisfError::Utf8(e));
            },
        };
        let (before, index) = match crate::reader::parse_xml_with_index(xml) {
            Ok(p) => p,
            Err(e) => {
                return Err(e);
            },
        };
        proof {
            let items = crate::xml::xml_items(xml.spec_bytes())->Ok_0;
            lemma_index_facts(xml.spec_bytes(), items);
        }
        if let Err(m) = &index.image {
            return Err(XisfError::Unsupported(m.clone()));
        }
        let mut after = before.duplicate();
        let res = edit(&mut after);
        proof {
            use_type_invariant(&after.properties);
        }
        match res {
            Ok(()) => {},
            Err(e) => {
                return Err(e);
            },
        }
        splice_update(original, end, &before, &index, &after)
    }
}

} // verus!

verus! {

// ----- laws of the splice -------------------------------------------------------------------

proof fn lemma_le4_of_bytes(b: Seq<u8>)
    requires
        b.len() >= 12,
    ensures
        le4(crate::reader::le_u32(b, 8)) == b.subrange(8, 12),
{
    let (b0, b1, b2, b3) = (b[8] as int, b[9] as int, b[10] as int, b[11] as int);
    let n = crate::reader::le_u32(b, 8) as int;
    assert(n == b0 + 256 * b1 + 65536 * b2 + 16777216 * b3);
    vstd::arithmetic::div_mod::lemma_fundamental_div_mod_converse(n, 256, b1 + 256 * b2 + 65536 * b3, b0);
    vstd::arithmetic::div_mod::lemma_fundamental_div_mod_converse(b1 + 256 * b2 + 65536 * b3, 256, b2 + 256 * b3, b1);
    vstd::arithmetic::div_mod::lemma_fundamental_div_mod_converse(n, 65536, b2 + 256 * b3, b0 + 256 * b1);
    vstd::arithmetic::div_mod::lemma_fundamental_div_mod_converse(b2 + 256 * b3, 256, b3, b2);
    vstd::arithmetic::div_mod::lemma_fundamental_div_mod_converse(n, 16777216, b3, b0 + 256 * b1 + 65536 * b2);
    vstd::arithmetic::div_mod::lemma_fundamental_div_mod_converse(b3, 256, 0, b3);
    assert(le4(n as nat) =~= b.subrange(8, 12));
}

proof fn lemma_match_self(kws: Seq<KeywordView>, n: int)
    requires
        0 <= n <= kws.len(),
    ensures
        match_keywords(kws.take(n), kws).1 == n,
        match_keywords(kws.take(n), kws).0.len() == n,
        forall|i: int| 0 <= i < n ==> #[trigger] match_keywords(kws.take(n), kws).0[i] == Some(i as nat),
    decreases n,
{
    if n > 0 {
        lemma_match_self(kws, n - 1);
        assert(kws.take(n).drop_last() =~= kws.take(n - 1));
        assert(kws.take(n).last() == kws[n - 1]);
    }
}

proof fn lemma_unchanged_keyword_regions(
    kws: Seq<KeywordView>,
    spans: Seq<(nat, nat)>,
    kept: Seq<Option<nat>>,
    n: nat,
)
    requires
        n <= kept.len(),
        n <= kws.len(),
        forall|i: int| 0 <= i < n ==> #[trigger] kept[i] == Some(i as nat),
    ensures
        keyword_regions(kws, kws, spans, kept, n) == Seq::<RegionView>::empty(),
    decreases n,
{
    if n > 0 {
        lemma_unchanged_keyword_regions(kws, spans, kept, (n - 1) as nat);
        assert(kept[n - 1] == Some((n - 1) as nat));
        assert(Seq::<RegionView>::empty() + Seq::<RegionView>::empty() =~= Seq::<RegionView>::empty());
    }
}

proof fn lemma_unchanged_property_regions(props: Map<Seq<char>, PropertyView>, spans: Seq<(Seq<char>, nat, nat)>)
    requires
        forall|i: int| 0 <= i < spans.len() ==> props.contains_key(#[trigger] spans[i].0),
    ensures
        property_regions(props, props, spans) == Seq::<RegionView>::empty(),
    decreases spans.len(),
{
    if spans.len() > 0 {
        let d = spans.drop_last();
        assert forall|i: int| 0 <= i < d.len() implies props.contains_key(#[trigger] d[i].0) by {
            assert(d[i] == spans[i]);
        }
        lemma_unchanged_property_regions(props, d);
        assert(props.contains_key(spans[spans.len() - 1].0));
        assert(Seq::<RegionView>::empty() + Seq::<RegionView>::empty() =~= Seq::<RegionView>::empty());
    }
}

proof fn lemma_no_new_entries(es: Seq<(Seq<char>, PropertyView)>, spans: Seq<(Seq<char>, nat, nat)>)
    requires
        forall|i: int| 0 <= i < es.len() ==> has_span_id(spans, #[trigger] es[i].0),
    ensures
        new_entries(es, spans) == Seq::<(Seq<char>, PropertyView)>::empty(),
    decreases es.len(),
{
    if es.len() > 0 {
        let d = es.drop_last();
        assert forall|i: int| 0 <= i < d.len() implies has_span_id(spans, #[trigger] d[i].0) by {
            assert(d[i] == es[i]);
        }
        lemma_no_new_entries(d, spans);
        assert(has_span_id(spans, es[es.len() - 1].0));
    }
}

/// An unedited header read from any items in bounds splices back into the
/// container byte for byte.
proof fn lemma_unchanged_items_byte_exact(original: Seq<u8>, items: Seq<crate::xml::ItemView>, h: Header)
    requires
        crate::reader::preamble(original) is Header,
        crate::xml::items_in_bounds(items, crate::reader::xml_bytes(original).len()),
        h@ == crate::reader::parsed_index(crate::reader::xml_bytes(original), items).0,
        h.properties.wf(),
        crate::reader::parsed_index(crate::reader::xml_bytes(original), items).1.image matches Ok(image)
            && 16 + crate::reader::le_u32(original, 8) <= image.offset && image.offset + image.size
            <= original.len(),
    ensures
        update_bytes(
            original,
            16 + crate::reader::le_u32(original, 8),
            h@,
            crate::reader::parsed_index(crate::reader::xml_bytes(original), items).1,
            h@,
            h.properties.entry_views(),
        ) == Ok::<Seq<u8>, Seq<char>>(original),
        content_regions(
            h@,
            h@,
            h.properties.entry_views(),
            crate::reader::parsed_index(crate::reader::xml_bytes(original), items).1,
            crate::reader::parsed_index(crate::reader::xml_bytes(original), items).1.image->Ok_0,
        ) == Ok::<Seq<RegionView>, Seq<char>>(Seq::empty()),
{
    reveal(update_bytes);
    let xml = crate::reader::xml_bytes(original);
    let end = 16 + crate::reader::le_u32(original, 8);
    assert(xml == original.subrange(16, end as int));
    let idx = crate::reader::parsed_index(xml, items).1;
    let st = crate::reader::index_items(xml, items);
    lemma_index_facts(xml, items);
    let image = idx.image->Ok_0;
    let kws = h@.keywords;
    let es = h.properties.entry_views();
    h.properties.lemma_wf();
    lemma_match_self(kws, kws.len() as int);
    assert(kws.take(kws.len() as int) =~= kws);
    let (kept, j) = match_keywords(kws, kws);
    lemma_unchanged_keyword_regions(kws, idx.keyword_spans, kept, idx.keyword_spans.len());
    lemma_unchanged_property_regions(h@.properties, idx.property_spans);
    assert forall|i: int| 0 <= i < es.len() implies has_span_id(idx.property_spans, #[trigger] es[i].0) by {
        crate::property::lemma_map_of_entry(es, i);
    }
    lemma_no_new_entries(es, idx.property_spans);
    assert(kws.skip(j as int) =~= Seq::<KeywordView>::empty());
    let rs = Seq::<RegionView>::empty() + Seq::<RegionView>::empty();
    assert(rs =~= Seq::<RegionView>::empty());
    assert(content_regions(h@, h@, es, idx, image) == Ok::<Seq<RegionView>, Seq<char>>(rs));
    assert(sort_regions(rs) =~= Seq::<RegionView>::empty());
    assert(splice_from(xml, Seq::<RegionView>::empty(), 0) =~= xml);
    lemma_le4_of_bytes(original);
    assert(original.subrange(0, 8) + le4(xml.len()) + original.subrange(12, 16) + xml + original.subrange(
        end as int,
        image.offset as int,
    ) + original.subrange(image.offset as int, (image.offset + image.size) as int) + original.subrange(
        (image.offset + image.size) as int,
        original.len() as int,
    ) =~= original);
}

/// An unedited header read from an XML text yields no edit regions: nothing
/// is re-rendered, removed or inserted.
pub proof fn law_unchanged_header_has_no_regions(text: Seq<u8>, h: Header)
    requires
        crate::reader::read_xml(text) is Ok,
        h@ == crate::reader::read_xml(text)->Ok_0.0,
        h.properties.wf(),
    ensures
        ({
            let (h0, idx) = crate::reader::read_xml(text)->Ok_0;
            forall|image: crate::reader::ImageView|
                #[trigger] content_regions(h0, h@, h.properties.entry_views(), idx, image) == Ok::<
                    Seq<RegionView>,
                    Seq<char>,
                >(Seq::empty())
        }),
{
    let items = crate::xml::xml_items(text)->Ok_0;
    let idx = crate::reader::parsed_index(text, items).1;
    lemma_index_facts(text, items);
    let kws = h@.keywords;
    let es = h.properties.entry_views();
    h.properties.lemma_wf();
    lemma_match_self(kws, kws.len() as int);
    assert(kws.take(kws.len() as int) =~= kws);
    let (kept, j) = match_keywords(kws, kws);
    lemma_unchanged_keyword_regions(kws, idx.keyword_spans, kept, idx.keyword_spans.len());
    lemma_unchanged_property_regions(h@.properties, idx.property_spans);
    assert forall|i: int| 0 <= i < es.len() implies has_span_id(idx.property_spans, #[trigger] es[i].0) by {
        crate::property::lemma_map_of_entry(es, i);
    }
    lemma_no_new_entries(es, idx.property_spans);
    assert(kws.skip(j as int) =~= Seq::<KeywordView>::empty());
    let rs = Seq::<RegionView>::empty() + Seq::<RegionView>::empty();
    assert(rs =~= Seq::<RegionView>::empty());
    assert forall|image: crate::reader::ImageView|
        #[trigger] content_regions(h@, h@, es, idx, image) == Ok::<Seq<RegionView>, Seq<char>>(Seq::empty()) by {
        assert(content_regions(h@, h@, es, idx, image) == Ok::<Seq<RegionView>, Seq<char>>(rs));
    }
}

/// Splicing an unedited header back into the container it was read from
/// replaces no element and reproduces the container byte for byte,
/// whenever the splice can target its layout (one `<Image>` whose
/// attachment lies inside the file, after the XML header): an `update_file`
/// whose edit changes nothing gives back the original bytes.
pub proof fn law_unchanged_header_is_byte_exact(original: Seq<u8>, h: Header)
    requires
        crate::reader::preamble(original) is Header,
        crate::reader::read_xml(crate::reader::xml_bytes(original)) is Ok,
        h@ == crate::reader::read_xml(crate::reader::xml_bytes(original))->Ok_0.0,
        crate::reader::read_xml(crate::reader::xml_bytes(original))->Ok_0.1.image matches Ok(image) && 16
            + crate::reader::le_u32(original, 8) <= image.offset && image.offset + image.size <= original.len(),
        h.properties.wf(),
    ensures
        ({
            let (h0, idx) = crate::reader::read_xml(crate::reader::xml_bytes(original))->Ok_0;
            &&& content_regions(h0, h@, h.properties.entry_views(), idx, idx.image->Ok_0) == Ok::<
                Seq<RegionView>,
                Seq<char>,
            >(Seq::empty())
            &&& update_bytes(original, 16 + crate::reader::le_u32(original, 8), h0, idx, h@, h.properties.entry_views())
                == Ok::<Seq<u8>, Seq<char>>(original)
        }),
{
    let xml = crate::reader::xml_bytes(original);
    crate::xml::lemma_xml_items_in_bounds(xml);
    lemma_unchanged_items_byte_exact(original, crate::xml::xml_items(xml)->Ok_0, h);
}

/// Whatever a splice changes, every byte after the original XML header —
/// the gap before the data, the data and anything after it — follows the
/// new XML header unchanged, and the preamble records the new XML length.
pub proof fn law_splice_keeps_data(
    original: Seq<u8>,
    xml_end: nat,
    before: HeaderView,
    index: IndexView,
    after: HeaderView,
    after_entries: Seq<(Seq<char>, PropertyView)>,
)
    requires
        16 <= xml_end <= original.len(),
        update_bytes(original, xml_end, before, index, after, after_entries) is Ok,
    ensures
        ({
            let out = update_bytes(original, xml_end, before, index, after, after_entries)->Ok_0;
            let new_len = out.len() - (16 + original.len() - xml_end);
            &&& out.len() >= 16 + original.len() - xml_end
            &&& out.subrange(out.len() - (original.len() - xml_end), out.len() as int) == original.subrange(
                xml_end as int,
                original.len() as int,
            )
            &&& out.subrange(0, 8) == original.subrange(0, 8)
            &&& out.subrange(12, 16) == original.subrange(12, 16)
            &&& new_len <= u32::MAX ==> out.subrange(8, 12) == le4(new_len as nat)
        }),
{
    reveal(update_bytes);
    let image = index.image->Ok_0;
    let out = update_bytes(original, xml_end, before, index, after, after_entries)->Ok_0;
    let rs = content_regions(before, after, after_entries, index, image)->Ok_0;
    let sorted = sort_regions(rs);
    let xml = original.subrange(16, xml_end as int);
    let delta = splice_from(xml, sorted, 0).len() - xml.len();
    let new_xml = if delta == 0 {
        splice_from(xml, sorted, 0)
    } else {
        splice_from(xml, insert_region(sorted, relocate(xml.len(), delta, image)->Ok_0), 0)
    };
    assert(container_bytes(original, xml_end, image, new_xml) == Ok::<Seq<u8>, Seq<char>>(out));
    let tail = original.subrange(xml_end as int, image.offset as int) + original.subrange(
        image.offset as int,
        (image.offset + image.size) as int,
    ) + original.subrange((image.offset + image.size) as int, original.len() as int);
    assert(tail =~= original.subrange(xml_end as int, original.len() as int));
    let l = if new_xml.len() > u32::MAX {
        u32::MAX as nat
    } else {
        new_xml.len()
    };
    assert(out =~= original.subrange(0, 8) + le4(l) + original.subrange(12, 16) + new_xml + tail);
    assert(out.subrange(out.len() - (original.len() - xml_end), out.len() as int) =~= tail);
    assert(out.subrange(0, 8) =~= original.subrange(0, 8));
    assert(out.subrange(12, 16) =~= original.subrange(12, 16));
    assert(out.subrange(8, 12) =~= le4(l));
}

proof fn lemma_keyword_regions_contain(
    before: Seq<KeywordView>,
    after: Seq<KeywordView>,
    spans: Seq<(nat, nat)>,
    kept: Seq<Option<nat>>,
    n: nat,
    i: int,
)
    requires
        0 <= i < n,
    ensures
        forall|r: RegionView|
            keyword_region(before, after, spans[i], kept[i], i).contains(r) ==> #[trigger] keyword_regions(
                before,
                after,
                spans,
                kept,
                n,
            ).contains(r),
    decreases n,
{
    let whole = keyword_regions(before, after, spans, kept, n);
    let pre = keyword_regions(before, after, spans, kept, (n - 1) as nat);
    let last = keyword_region(before, after, spans[n - 1], kept[n - 1], n - 1);
    assert(whole == pre + last);
    if i < n - 1 {
        lemma_keyword_regions_contain(before, after, spans, kept, (n - 1) as nat, i);
        assert forall|r: RegionView| keyword_region(before, after, spans[i], kept[i], i).contains(r) implies #[trigger] whole.contains(r) by {
            assert(pre.contains(r));
            let k = choose|k: int| 0 <= k < pre.len() && pre[k] == r;
            assert(whole[k] == r);
        }
    } else {
        assert forall|r: RegionView| keyword_region(before, after, spans[i], kept[i], i).contains(r) implies #[trigger] whole.contains(r) by {
            let k = choose|k: int| 0 <= k < last.len() && last[k] == r;
            assert(whole[pre.len() + k] == r);
        }
    }
}

proof fn lemma_property_regions_contain(
    before: Map<Seq<char>, PropertyView>,
    after: Map<Seq<char>, PropertyView>,
    spans: Seq<(Seq<char>, nat, nat)>,
    i: int,
)
    requires
        0 <= i < spans.len(),
    ensures
        forall|r: RegionView|
            property_region(before, after, spans[i]).contains(r) ==> #[trigger] property_regions(
                before,
                after,
                spans,
            ).contains(r),
    decreases spans.len(),
{
    let whole = property_regions(before, after, spans);
    let pre = property_regions(before, after, spans.drop_last());
    let last = property_region(before, after, spans.last());
    assert(whole == pre + last);
    if i < spans.len() - 1 {
        lemma_property_regions_contain(before, after, spans.drop_last(), i);
        assert(spans.drop_last()[i] == spans[i]);
        assert forall|r: RegionView| property_region(before, after, spans[i]).contains(r) implies #[trigger] whole.contains(r) by {
            assert(pre.contains(r));
            let k = choose|k: int| 0 <= k < pre.len() && pre[k] == r;
            assert(whole[k] == r);
        }
    } else {
        assert(spans.last() == spans[i]);
        assert forall|r: RegionView| property_region(before, after, spans[i]).contains(r) implies #[trigger] whole.contains(r) by {
            let k = choose|k: int| 0 <= k < last.len() && last[k] == r;
            assert(whole[pre.len() + k] == r);
        }
    }
}

proof fn lemma_content_contains(a: Seq<RegionView>, b: Seq<RegionView>, c: Seq<RegionView>, r: RegionView)
    ensures
        a.contains(r) ==> (a + b + c).contains(r) && (a + b).contains(r),
        b.contains(r) ==> (a + b + c).contains(r) && (a + b).contains(r),
        c.contains(r) ==> (a + b + c).contains(r),
{
    if a.contains(r) {
        let k = choose|k: int| 0 <= k < a.len() && a[k] == r;
        assert((a + b + c)[k] == r);
        assert((a + b)[k] == r);
    }
    if b.contains(r) {
        let k = choose|k: int| 0 <= k < b.len() && b[k] == r;
        assert((a + b + c)[a.len() + k] == r);
        assert((a + b)[a.len() + k] == r);
    }
    if c.contains(r) {
        let k = choose|k: int| 0 <= k < c.len() && c[k] == r;
        assert((a + b + c)[a.len() + b.len() + k] == r);
    }
}

/// An update splices every keyword edit into the XML: an original keyword
/// the edit keeps (under the same name) but changes in any field — value,
/// kind or comment — has its element replaced by the rendering of its new
/// form, and one the edit removes has its element deleted.
pub proof fn law_keyword_edits_are_spliced(
    before: HeaderView,
    after: HeaderView,
    after_entries: Seq<(Seq<char>, PropertyView)>,
    index: IndexView,
    image: ImageView,
    i: int,
)
    requires
        content_regions(before, after, after_entries, index, image) is Ok,
        index.keyword_spans.len() == before.keywords.len(),
        0 <= i < before.keywords.len(),
    ensures
        ({
            let kept = match_keywords(before.keywords, after.keywords).0;
            let rs = content_regions(before, after, after_entries, index, image)->Ok_0;
            let span = index.keyword_spans[i];
            match kept[i] {
                Some(x) => after.keywords[x as int].name == before.keywords[i].name && (after.keywords[x as int]
                    != before.keywords[i] ==> rs.contains(
                    RegionView {
                        start: span.0,
                        end: span.1,
                        bytes: vstd::utf8::encode_utf8(keyword_element(after.keywords[x as int])),
                    },
                )),
                None => rs.contains(RegionView { start: span.0, end: span.1, bytes: Seq::empty() }),
            }
        }),
{
    let b = before.keywords;
    let a = after.keywords;
    let (kept, j) = match_keywords(b, a);
    let n = index.keyword_spans.len();
    lemma_match_names(b, a, i);
    let kr = keyword_regions(b, a, index.keyword_spans, kept, n);
    let pr = property_regions(before.properties, after.properties, index.property_spans);
    lemma_keyword_regions_contain(b, a, index.keyword_spans, kept, n, i);
    let r = match kept[i] {
        Some(x) => RegionView {
            start: index.keyword_spans[i].0,
            end: index.keyword_spans[i].1,
            bytes: vstd::utf8::encode_utf8(keyword_element(a[x as int])),
        },
        None => RegionView { start: index.keyword_spans[i].0, end: index.keyword_spans[i].1, bytes: Seq::empty() },
    };
    let kri = keyword_region(b, a, index.keyword_spans[i], kept[i], i);
    if kri.len() > 0 {
        assert(kri[0] == r);
        assert(kri.contains(r));
        assert(kr.contains(r));
        let rs = content_regions(before, after, after_entries, index, image)->Ok_0;
        let ins = rs.subrange((kr + pr).len() as int, rs.len() as int);
        assert(rs == kr + pr || rs == kr + pr + ins);
        lemma_content_contains(kr, pr, ins, r);
    }
}

/// Matching keeps a keyword only under the same name.
proof fn lemma_match_names(before: Seq<KeywordView>, after: Seq<KeywordView>, i: int)
    requires
        0 <= i < before.len(),
    ensures
        match_keywords(before, after).0.len() == before.len(),
        match_keywords(before, after).0[i] matches Some(x) ==> 0 <= x < after.len() && after[x as int].name
            == before[i].name,
    decreases before.len(),
{
    if i < before.len() - 1 {
        lemma_match_names(before.drop_last(), after, i);
        assert(before.drop_last()[i] == before[i]);
    } else {
        if before.len() > 1 {
            lemma_match_names(before.drop_last(), after, 0);
        } else {
            assert(before.drop_last() =~= Seq::<KeywordView>::empty());
            assert(match_keywords(before.drop_last(), after).0.len() == 0);
        }
    }
}

/// An update splices every property edit into the XML: an original
/// property element whose id the edit removes is deleted, and one whose
/// property the edit changes in any field — type, value, comment or format
/// — is replaced by the rendering of its new form.
pub proof fn law_property_edits_are_spliced(
    before: HeaderView,
    after: HeaderView,
    after_entries: Seq<(Seq<char>, PropertyView)>,
    index: IndexView,
    image: ImageView,
    i: int,
)
    requires
        content_regions(before, after, after_entries, index, image) is Ok,
        0 <= i < index.property_spans.len(),
    ensures
        ({
            let rs = content_regions(before, after, after_entries, index, image)->Ok_0;
            let (id, start, end) = index.property_spans[i];
            &&& !after.properties.contains_key(id) ==> rs.contains(
                RegionView { start, end, bytes: Seq::empty() },
            )
            &&& after.properties.contains_key(id) && !(before.properties.contains_key(id) && before.properties[id]
                == after.properties[id]) ==> rs.contains(
                RegionView { start, end, bytes: vstd::utf8::encode_utf8(property_element(id, after.properties[id])) },
            )
        }),
{
    let b = before.keywords;
    let a = after.keywords;
    let (kept, j) = match_keywords(b, a);
    let kr = keyword_regions(b, a, index.keyword_spans, kept, index.keyword_spans.len());
    let pr = property_regions(before.properties, after.properties, index.property_spans);
    lemma_property_regions_contain(before.properties, after.properties, index.property_spans, i);
    let sp = index.property_spans[i];
    let pri = property_region(before.properties, after.properties, sp);
    if pri.len() > 0 {
        assert(pri.contains(pri[0]));
        assert(pr.contains(pri[0]));
        let rs = content_regions(before, after, after_entries, index, image)->Ok_0;
        let ins = rs.subrange((kr + pr).len() as int, rs.len() as int);
        assert(rs == kr + pr || rs == kr + pr + ins);
        lemma_content_contains(kr, pr, ins, pri[0]);
    }
}

/// An update inserts every new keyword and every new property: when the
/// edit adds any, one region inserts, at the insertion point before
/// `</Image>`, the new keywords (those after the kept ones) and then the
/// properties whose ids have no original element, each rendered.
pub proof fn law_new_elements_are_inserted(
    before: HeaderView,
    after: HeaderView,
    after_entries: Seq<(Seq<char>, PropertyView)>,
    index: IndexView,
    image: ImageView,
)
    requires
        content_regions(before, after, after_entries, index, image) is Ok,
    ensures
        ({
            let j = match_keywords(before.keywords, after.keywords).1;
            let new_kws = after.keywords.skip(j as int);
            let new_props = new_entries(after_entries, index.property_spans);
            let rs = content_regions(before, after, after_entries, index, image)->Ok_0;
            new_kws.len() > 0 || new_props.len() > 0 ==> image.insertion_point is Some && rs.contains(
                RegionView {
                    start: image.insertion_point->Some_0,
                    end: image.insertion_point->Some_0,
                    bytes: vstd::utf8::encode_utf8(keyword_block(new_kws) + property_block(new_props)),
                },
            )
        }),
{
    let b = before.keywords;
    let a = after.keywords;
    let (kept, j) = match_keywords(b, a);
    let new_kws = a.skip(j as int);
    let new_props = new_entries(after_entries, index.property_spans);
    if new_kws.len() > 0 || new_props.len() > 0 {
        let kr = keyword_regions(b, a, index.keyword_spans, kept, index.keyword_spans.len());
        let pr = property_regions(before.properties, after.properties, index.property_spans);
        let p = image.insertion_point->Some_0;
        let r = RegionView {
            start: p,
            end: p,
            bytes: vstd::utf8::encode_utf8(keyword_block(new_kws) + property_block(new_props)),
        };
        assert(seq![r].contains(r)) by {
            assert(seq![r][0] == r);
        }
        lemma_content_contains(kr, pr, seq![r], r);
    }
}

} // verus!
