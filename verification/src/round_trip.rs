//! What reading gives back of what writing wrote.
//!
//! The XML text of a rendered header is read by `quick_xml` into items; the
//! items that text stands for are described here, and reading those items
//! back is proved to give the header that was rendered, for every header
//! whose keywords have one written form.

use vstd::prelude::*;

use crate::header::{Header, HeaderView};
use crate::keyword::{commentary, KeywordView};
use crate::property::{lemma_map_of_prefix, map_of, strictly_sorted, PropertyView};
use crate::reader::{classify, index_items, index_step, keyword_of, last_attr, parsed_index, property_of, IndexState};
use crate::text::names_match;
use crate::value::ValueView;
use crate::writer::value_text;
use crate::reader::{le_u32, preamble, read_xml, signature, xml_bytes, Preamble, MAX_HEADER_LEN};
use crate::writer::{container_header, header_xml, le4};
use crate::xml::{image_tag, keyword_tag, property_tag, xml_items, ItemKind, ItemView};

verus! {

/// The attributes of the `<FITSKeyword>` element written for `k`, as read
/// back (unescaped).
pub open spec fn keyword_attrs(k: KeywordView) -> Seq<(Seq<char>, Seq<char>)> {
    if commentary(k.name) {
        seq![("name"@, k.name), ("value"@, Seq::empty()), ("comment"@, k.value.text)]
    } else {
        seq![("name"@, k.name), ("value"@, value_text(k.value)), ("comment"@, k.comment)]
    }
}

/// The attributes of the `<Property>` element written for `id` and `p`, as
/// read back (unescaped).
pub open spec fn property_attrs(id: Seq<char>, p: PropertyView) -> Seq<(Seq<char>, Seq<char>)> {
    seq![("id"@, id), ("type"@, p.type_), ("value"@, p.value)] + if p.format.len() > 0 {
        seq![("format"@, p.format)]
    } else {
        Seq::empty()
    } + if p.comment.len() > 0 {
        seq![("comment"@, p.comment)]
    } else {
        Seq::empty()
    }
}

/// `items` are what an XML reader reports for the text rendered from the
/// keywords `kws` and the property entries `es` (their byte spans aside):
/// the declaration, `<xisf>`, `<Image>`, one empty `<FITSKeyword>` per
/// keyword, one empty `<Property>` per entry, `</Image>` and `</xisf>`.
pub open spec fn describes_rendering(
    items: Seq<ItemView>,
    kws: Seq<KeywordView>,
    es: Seq<(Seq<char>, PropertyView)>,
) -> bool {
    let n = kws.len() as int;
    let m = es.len() as int;
    &&& items.len() == n + m + 5
    &&& items[0].kind == ItemKind::Other
    &&& items[1].kind == ItemKind::Start && items[1].name == "xisf"@
    &&& items[2].kind == ItemKind::Start && items[2].name == image_tag()
    &&& forall|i: int|
        #![trigger items[3 + i]]
        0 <= i < n ==> items[3 + i].kind == ItemKind::Empty && items[3 + i].name == keyword_tag()
            && items[3 + i].attrs == keyword_attrs(kws[i])
    &&& forall|j: int|
        #![trigger items[3 + n + j]]
        0 <= j < m ==> items[3 + n + j].kind == ItemKind::Empty && items[3 + n + j].name
            == property_tag() && items[3 + n + j].attrs == property_attrs(es[j].0, es[j].1)
    &&& items[3 + n + m].kind == ItemKind::End && items[3 + n + m].name == image_tag()
    &&& items[4 + n + m].kind == ItemKind::End && items[4 + n + m].name == "xisf"@
}

/// A keyword whose written form reads back as itself: it has a name; a
/// commentary keyword holds non-empty string text and no comment (its text
/// is written as the comment); any other keyword's literal value is not
/// itself wrapped in single quotes (which would read back as a string).
pub open spec fn reads_back(k: KeywordView) -> bool {
    &&& k.name.len() > 0
    &&& if commentary(k.name) {
        k.value.quoted && k.value.text.len() > 0 && k.comment.len() == 0
    } else {
        k.value.quoted || !(k.value.text.len() >= 2 && k.value.text[0] == '\'' && k.value.text.last()
            == '\'')
    }
}

proof fn lemma_classify_value_text(v: ValueView)
    requires
        v.quoted || !(v.text.len() >= 2 && v.text[0] == '\'' && v.text.last() == '\''),
    ensures
        classify(value_text(v)) == v,
{
    if v.quoted {
        let t = value_text(v);
        assert(t.subrange(1, t.len() - 1) =~= v.text);
    }
}

proof fn lemma_last_attr_push(attrs: Seq<(Seq<char>, Seq<char>)>, e: (Seq<char>, Seq<char>), key: Seq<char>)
    ensures
        last_attr(attrs.push(e), key) == if names_match(e.0, key) {
            Some(e.1)
        } else {
            last_attr(attrs, key)
        },
{
    assert(attrs.push(e).drop_last() =~= attrs);
}

proof fn lemma_keyword_attrs(k: KeywordView)
    requires
        reads_back(k),
    ensures
        keyword_of(keyword_attrs(k)) == Some(k),
{
    reveal_strlit("name");
    reveal_strlit("value");
    reveal_strlit("comment");
    let e = Seq::<(Seq<char>, Seq<char>)>::empty();
    let (v, c) = if commentary(k.name) {
        (Seq::<char>::empty(), k.value.text)
    } else {
        (value_text(k.value), k.comment)
    };
    let a1 = e.push(("name"@, k.name));
    let a2 = a1.push(("value"@, v));
    let a3 = a2.push(("comment"@, c));
    assert(keyword_attrs(k) =~= a3);
    assert(!names_match("comment"@, "name"@));
    assert(!names_match("value"@, "name"@));
    assert(!names_match("comment"@, "value"@));
    assert(!names_match("name"@, "value"@));
    assert(!names_match("name"@, "comment"@));
    assert(!names_match("value"@, "comment"@));
    assert(names_match("name"@, "name"@));
    assert(names_match("value"@, "value"@));
    assert(names_match("comment"@, "comment"@));
    assert(last_attr(e, "name"@) is None);
    lemma_last_attr_push(e, ("name"@, k.name), "name"@);
    lemma_last_attr_push(a1, ("value"@, v), "name"@);
    lemma_last_attr_push(a2, ("comment"@, c), "name"@);
    lemma_last_attr_push(a1, ("value"@, v), "value"@);
    lemma_last_attr_push(a2, ("comment"@, c), "value"@);
    lemma_last_attr_push(a2, ("comment"@, c), "comment"@);
    if !commentary(k.name) {
        lemma_classify_value_text(k.value);
    } else {
        assert(k.comment =~= Seq::<char>::empty());
    }
}

proof fn lemma_property_attrs(id: Seq<char>, p: PropertyView)
    ensures
        property_of(property_attrs(id, p)) == (Some(id), p, true),
{
    reveal_strlit("id");
    reveal_strlit("type");
    reveal_strlit("value");
    reveal_strlit("format");
    reveal_strlit("comment");
    let keys = seq!["id"@, "type"@, "value"@, "format"@, "comment"@];
    assert forall|x: int, y: int| 0 <= x < 5 && 0 <= y < 5 && x != y implies !names_match(
        #[trigger] keys[x],
        #[trigger] keys[y],
    ) by {
        assert(keys[x].len() != keys[y].len());
    }
    assert forall|x: int| 0 <= x < 5 implies names_match(#[trigger] keys[x], keys[x]) by {}
    assert(keys[0] == "id"@ && keys[1] == "type"@ && keys[2] == "value"@ && keys[3] == "format"@
        && keys[4] == "comment"@);
    let e = Seq::<(Seq<char>, Seq<char>)>::empty();
    let a1 = e.push(("id"@, id));
    let a2 = a1.push(("type"@, p.type_));
    let a3 = a2.push(("value"@, p.value));
    let a4 = if p.format.len() > 0 {
        a3.push(("format"@, p.format))
    } else {
        a3
    };
    let a5 = if p.comment.len() > 0 {
        a4.push(("comment"@, p.comment))
    } else {
        a4
    };
    assert(property_attrs(id, p) =~= a5);
    assert forall|key: Seq<char>| #[trigger] last_attr(a5, key) == last_attr(a5, key) implies (
        key == "id"@ || key == "type"@ || key == "value"@ || key == "format"@ || key == "comment"@
    ) ==> {
        &&& last_attr(a5, key) == if key == "id"@ {
            Some(id)
        } else if key == "type"@ {
            Some(p.type_)
        } else if key == "value"@ {
            Some(p.value)
        } else if key == "format"@ {
            if p.format.len() > 0 {
                Some(p.format)
            } else {
                None
            }
        } else if p.comment.len() > 0 {
            Some(p.comment)
        } else {
            None
        }
    } by {
        if key == "id"@ || key == "type"@ || key == "value"@ || key == "format"@ || key == "comment"@ {
            assert(last_attr(e, key) is None);
            lemma_last_attr_push(e, ("id"@, id), key);
            lemma_last_attr_push(a1, ("type"@, p.type_), key);
            lemma_last_attr_push(a2, ("value"@, p.value), key);
            if p.format.len() > 0 {
                lemma_last_attr_push(a3, ("format"@, p.format), key);
            }
            if p.comment.len() > 0 {
                lemma_last_attr_push(a4, ("comment"@, p.comment), key);
            }
        }
    }
    assert(last_attr(a5, "id"@) == Some(id));
    assert(last_attr(a5, "type"@) == Some(p.type_));
    assert(last_attr(a5, "value"@) == Some(p.value));
    assert(last_attr(a5, "format"@) == if p.format.len() > 0 {
        Some(p.format)
    } else {
        None::<Seq<char>>
    });
    assert(last_attr(a5, "comment"@) == if p.comment.len() > 0 {
        Some(p.comment)
    } else {
        None::<Seq<char>>
    });
    if p.comment.len() == 0 {
        assert(p.comment =~= Seq::<char>::empty());
    }
    if p.format.len() == 0 {
        assert(p.format =~= Seq::<char>::empty());
    }
}

/// What reading the first `k` items of a rendering gives: the keywords
/// read so far, and the map of the properties read so far.
pub open spec fn prefix_reading(kws: Seq<KeywordView>, es: Seq<(Seq<char>, PropertyView)>, k: int) -> (Seq<KeywordView>, Map<Seq<char>, PropertyView>) {
    let n = kws.len() as int;
    let m = es.len() as int;
    if k <= 3 {
        (Seq::empty(), Map::empty())
    } else if k <= 3 + n {
        (kws.take(k - 3), Map::empty())
    } else if k <= 3 + n + m {
        (kws, map_of(es.take(k - 3 - n)))
    } else {
        (kws, map_of(es))
    }
}

proof fn lemma_tag_names()
    ensures
        !names_match("xisf"@, keyword_tag()),
        !names_match("xisf"@, property_tag()),
        !names_match("xisf"@, image_tag()),
        !names_match(image_tag(), keyword_tag()),
        !names_match(image_tag(), property_tag()),
        !names_match(property_tag(), keyword_tag()),
        !names_match(keyword_tag(), property_tag()),
        names_match(keyword_tag(), keyword_tag()),
        names_match(property_tag(), property_tag()),
        names_match(image_tag(), image_tag()),
{
    reveal_strlit("xisf");
    reveal_strlit("FITSKeyword");
    reveal_strlit("Property");
    reveal_strlit("Image");
}

proof fn lemma_reading_prefix(xml: Seq<u8>, items: Seq<ItemView>, kws: Seq<KeywordView>, es: Seq<(Seq<char>, PropertyView)>, k: int)
    requires
        describes_rendering(items, kws, es),
        forall|i: int| 0 <= i < kws.len() ==> reads_back(#[trigger] kws[i]),
        strictly_sorted(es),
        0 <= k <= items.len(),
    ensures
        ({
            let st = index_items(xml, items.take(k));
            (st.keywords, st.properties) == prefix_reading(kws, es, k)
        }),
    decreases k,
{
    let n = kws.len() as int;
    let m = es.len() as int;
    if k == 0 {
        assert(items.take(0) =~= Seq::<ItemView>::empty());
        assert(Map::<Seq<char>, PropertyView>::empty() =~= map_of(es.take(0))) by {
            lemma_map_of_prefix_base(es);
        }
    } else {
        lemma_reading_prefix(xml, items, kws, es, k - 1);
        lemma_tag_names();
        let prev = index_items(xml, items.take(k - 1));
        let it = items[k - 1];
        assert(items.take(k).drop_last() =~= items.take(k - 1));
        assert(items.take(k).last() == it);
        let st = index_step(xml, prev, it);
        assert(index_items(xml, items.take(k)) == st);
        if k - 1 < 3 {
            if k - 1 == 0 {
            } else if k - 1 == 1 {
            } else {
            }
            if k == 3 {
                assert(kws.take(0) =~= Seq::<KeywordView>::empty());
            }
        } else if k - 1 < 3 + n {
            let i = k - 1 - 3;
            assert(items[3 + i] == it);
            lemma_keyword_attrs(kws[i]);
            assert(kws.take(k - 3) =~= kws.take(k - 4).push(kws[i]));
            if k == 3 + n {
                assert(kws.take(n) =~= kws);
                lemma_map_of_prefix_base(es);
            }
        } else if k - 1 < 3 + n + m {
            let j = k - 1 - 3 - n;
            assert(items[3 + n + j] == it);
            lemma_property_attrs(es[j].0, es[j].1);
            lemma_map_of_prefix(es, j);
            if k - 1 == 3 + n {
                assert(kws.take(n) =~= kws);
            }
            if k == 3 + n + m {
                assert(es.take(m) =~= es);
            }
        } else {
            if k - 1 == 3 + n + m {
                assert(es.take(m) =~= es);
                if m == 0 {
                    assert(kws.take(n) =~= kws);
                }
            }
        }
    }
}

proof fn lemma_map_of_prefix_base(es: Seq<(Seq<char>, PropertyView)>)
    ensures
        map_of(es.take(0)) == Map::<Seq<char>, PropertyView>::empty(),
{
    assert(map_of(es.take(0)) =~= Map::<Seq<char>, PropertyView>::empty());
}

/// Reading back the items of a rendered header gives the header: its
/// keywords in order, with their kinds and comments, and its properties —
/// for every header whose keywords have one written form.
proof fn lemma_items_read_back(h: Header, xml: Seq<u8>, items: Seq<ItemView>)
    requires
        h.properties.wf(),
        forall|i: int| 0 <= i < h@.keywords.len() ==> reads_back(#[trigger] h@.keywords[i]),
        describes_rendering(items, h@.keywords, h.properties.entry_views()),
    ensures
        parsed_index(xml, items).0 == h@,
{
    h.properties.lemma_wf();
    lemma_reading_prefix(xml, items, h@.keywords, h.properties.entry_views(), items.len() as int);
    assert(items.take(items.len() as int) =~= items);
}

/// The four little-endian bytes of a `u32` read back as it.
proof fn lemma_le4_reads_back(x: u32)
    ensures
        x == (x % 256) + 256 * ((x / 256) % 256) + 65536 * ((x / 65536) % 256) + 16777216 * ((x / 16777216)
            % 256),
{
    assert(x == (x % 256) + 256 * ((x / 256) % 256) + 65536 * ((x / 65536) % 256) + 16777216 * ((x
        / 16777216) % 256)) by (bit_vector);
}

/// What `to_header_bytes` writes reads back as the header that was written:
/// the container's preamble is valid, its XML header is the rendered text,
/// and reading that text gives the header — its keywords in order, with
/// their kinds and comments, and its properties. This holds for every header
/// whose keywords have one written form and whose XML fits the size cap,
/// given that the reader reports for the rendered text the elements that
/// were written (see [`describes_rendering`]).
pub proof fn law_rendered_header_reads_back(
    h: Header,
    hints: (Seq<char>, Seq<char>, Seq<char>),
    size: nat,
)
    requires
        h.properties.wf(),
        forall|i: int| 0 <= i < h@.keywords.len() ==> reads_back(#[trigger] h@.keywords[i]),
        vstd::utf8::encode_utf8(header_xml(h@.keywords, h.properties.entry_views(), hints, size)).len()
            <= MAX_HEADER_LEN,
        xml_items(vstd::utf8::encode_utf8(header_xml(h@.keywords, h.properties.entry_views(), hints, size)))
            is Ok,
        describes_rendering(
            xml_items(vstd::utf8::encode_utf8(header_xml(h@.keywords, h.properties.entry_views(), hints, size)))->Ok_0,
            h@.keywords,
            h.properties.entry_views(),
        ),
    ensures
        ({
            let c = container_header(h@.keywords, h.properties.entry_views(), hints, size);
            let x = vstd::utf8::encode_utf8(header_xml(h@.keywords, h.properties.entry_views(), hints, size));
            &&& preamble(c) == Preamble::Header(c.len())
            &&& xml_bytes(c) == x
            &&& vstd::utf8::valid_utf8(xml_bytes(c))
            &&& read_xml(xml_bytes(c)) is Ok
            &&& read_xml(xml_bytes(c))->Ok_0.0 == h@
        }),
{
    let kws = h@.keywords;
    let es = h.properties.entry_views();
    let x = vstd::utf8::encode_utf8(header_xml(kws, es, hints, size));
    let c = container_header(kws, es, hints, size);
    let n = x.len();
    assert(n <= u32::MAX);
    assert(c =~= signature() + le4(n) + seq![0u8, 0u8, 0u8, 0u8] + x);
    assert(c.subrange(0, 8) =~= signature());
    lemma_le4_reads_back(n as u32);
    assert(le_u32(c, 8) == n);
    assert(xml_bytes(c) =~= x);
    vstd::utf8::encode_utf8_valid_utf8(header_xml(kws, es, hints, size));
    let items = xml_items(x)->Ok_0;
    lemma_items_read_back(h, x, items);
}

// ----- reading an updated header back ------------------------------------------------

/// A `<FITSKeyword>` tag item (empty or start).
pub open spec fn is_keyword_item(it: ItemView) -> bool {
    (it.kind == ItemKind::Empty || it.kind == ItemKind::Start) && names_match(it.name, keyword_tag())
}

/// A self-closing `<Property>` tag item.
pub open spec fn is_property_item(it: ItemView) -> bool {
    it.kind == ItemKind::Empty && names_match(it.name, property_tag()) && !names_match(it.name, keyword_tag())
}

/// A `<Property>` start tag, which opens a child-text property.
pub open spec fn opens_property(it: ItemView) -> bool {
    it.kind == ItemKind::Start && names_match(it.name, property_tag()) && !names_match(it.name, keyword_tag())
}

/// No item opens a child-text property: every `<Property>` is self-closing.
pub open spec fn no_open_property(items: Seq<ItemView>) -> bool {
    forall|i: int| 0 <= i < items.len() ==> !opens_property(#[trigger] items[i])
}

/// The keywords the items read as, in order.
pub open spec fn kw_reads(items: Seq<ItemView>) -> Seq<KeywordView>
    decreases items.len(),
{
    if items.len() == 0 {
        Seq::empty()
    } else {
        let r = kw_reads(items.drop_last());
        let it = items.last();
        if is_keyword_item(it) && keyword_of(it.attrs) is Some {
            r.push(keyword_of(it.attrs)->Some_0)
        } else {
            r
        }
    }
}

/// The map `m` with the self-closing properties of the items recorded in
/// order (a later id replaces an earlier one).
pub open spec fn props_into(m: Map<Seq<char>, PropertyView>, items: Seq<ItemView>) -> Map<Seq<char>, PropertyView>
    decreases items.len(),
{
    if items.len() == 0 {
        m
    } else {
        let r = props_into(m, items.drop_last());
        let it = items.last();
        if is_property_item(it) && property_of(it.attrs).0 is Some {
            r.insert(property_of(it.attrs).0->Some_0, property_of(it.attrs).1)
        } else {
            r
        }
    }
}

/// The items are alike but for their spans: kind, name, attributes and
/// content agree, position by position.
pub open spec fn same_reading(a: Seq<ItemView>, b: Seq<ItemView>) -> bool {
    &&& a.len() == b.len()
    &&& forall|i: int|
        0 <= i < a.len() ==> (#[trigger] a[i]).kind == b[i].kind && a[i].name == b[i].name && a[i].attrs
            == b[i].attrs && a[i].text == b[i].text
}

/// A self-closing element with this name and these attributes.
pub open spec fn element_item(name: Seq<char>, attrs: Seq<(Seq<char>, Seq<char>)>) -> ItemView {
    ItemView { kind: ItemKind::Empty, start: 0, end: 0, name, attrs, text: Seq::empty() }
}

/// What an update makes of one item of the original XML, the `c`-th
/// keyword read: a kept keyword stays, or is re-rendered when it changed;
/// a removed keyword is gone; a property whose id is gone is gone, one
/// whose value changed is re-rendered; anything else stays.
pub open spec fn edited_item(
    before: HeaderView,
    after: HeaderView,
    kept: Seq<Option<nat>>,
    c: nat,
    it: ItemView,
) -> Seq<ItemView> {
    if is_keyword_item(it) && keyword_of(it.attrs) is Some {
        match kept[c as int] {
            Some(j) => if after.keywords[j as int] == before.keywords[c as int] {
                seq![it]
            } else {
                seq![element_item(keyword_tag(), keyword_attrs(after.keywords[j as int]))]
            },
            None => Seq::empty(),
        }
    } else if is_property_item(it) && property_of(it.attrs).0 is Some {
        let id = property_of(it.attrs).0->Some_0;
        if !after.properties.contains_key(id) {
            Seq::empty()
        } else if before.properties.contains_key(id) && before.properties[id] == after.properties[id] {
            seq![it]
        } else {
            seq![element_item(property_tag(), property_attrs(id, after.properties[id]))]
        }
    } else {
        seq![it]
    }
}

/// What an update makes of the items, in order.
pub open spec fn edited_items(
    before: HeaderView,
    after: HeaderView,
    kept: Seq<Option<nat>>,
    items: Seq<ItemView>,
) -> Seq<ItemView>
    decreases items.len(),
{
    if items.len() == 0 {
        Seq::empty()
    } else {
        edited_items(before, after, kept, items.drop_last()) + edited_item(
            before,
            after,
            kept,
            kw_reads(items.drop_last()).len(),
            items.last(),
        )
    }
}

/// The new keyword elements, as read.
pub open spec fn keyword_items(ks: Seq<KeywordView>) -> Seq<ItemView>
    decreases ks.len(),
{
    if ks.len() == 0 {
        Seq::empty()
    } else {
        keyword_items(ks.drop_last()).push(element_item(keyword_tag(), keyword_attrs(ks.last())))
    }
}

/// The new property elements, as read.
pub open spec fn property_items(es: Seq<(Seq<char>, PropertyView)>) -> Seq<ItemView>
    decreases es.len(),
{
    if es.len() == 0 {
        Seq::empty()
    } else {
        property_items(es.drop_last()).push(element_item(property_tag(), property_attrs(es.last().0, es.last().1)))
    }
}

/// The items an update of the items `old` (read as `before`, with property
/// spans `spans`) into `after` (with property entries `es`) leaves, as a
/// reader would report them: each edited element as its new rendering,
/// and the new keywords and then the new properties inserted before item
/// `p`, where the insertion point lies.
pub open spec fn updated_items(
    before: HeaderView,
    after: HeaderView,
    es: Seq<(Seq<char>, PropertyView)>,
    spans: Seq<(Seq<char>, nat, nat)>,
    old: Seq<ItemView>,
    p: int,
) -> Seq<ItemView> {
    let (kept, j) = crate::splice::match_keywords(before.keywords, after.keywords);
    edited_items(before, after, kept, old.take(p)) + keyword_items(after.keywords.skip(j as int))
        + property_items(crate::splice::new_entries(es, spans)) + edited_items(before, after, kept, old.skip(p))
}

proof fn lemma_same_reading(m: Map<Seq<char>, PropertyView>, a: Seq<ItemView>, b: Seq<ItemView>)
    requires
        same_reading(a, b),
    ensures
        kw_reads(a) == kw_reads(b),
        props_into(m, a) == props_into(m, b),
        no_open_property(a) == no_open_property(b),
    decreases a.len(),
{
    if a.len() > 0 {
        let ai = a.drop_last();
        let bi = b.drop_last();
        assert forall|i: int| 0 <= i < ai.len() implies (#[trigger] ai[i]).kind == bi[i].kind && ai[i].name
            == bi[i].name && ai[i].attrs == bi[i].attrs && ai[i].text == bi[i].text by {
            assert(ai[i] == a[i] && bi[i] == b[i]);
        }
        lemma_same_reading(m, ai, bi);
        assert(a.last() == a[a.len() - 1] && b.last() == b[b.len() - 1]);
        assert(a[a.len() - 1].kind == b[b.len() - 1].kind);
        if no_open_property(a) {
            assert forall|i: int| 0 <= i < b.len() implies !opens_property(#[trigger] b[i]) by {
                assert(!opens_property(a[i]));
            }
        }
        if no_open_property(b) {
            assert forall|i: int| 0 <= i < a.len() implies !opens_property(#[trigger] a[i]) by {
                assert(!opens_property(b[i]));
            }
        }
    }
}

proof fn lemma_concat(m: Map<Seq<char>, PropertyView>, a: Seq<ItemView>, b: Seq<ItemView>)
    ensures
        kw_reads(a + b) == kw_reads(a) + kw_reads(b),
        props_into(m, a + b) == props_into(props_into(m, a), b),
        no_open_property(a + b) == (no_open_property(a) && no_open_property(b)),
    decreases b.len(),
{
    if b.len() == 0 {
        assert(a + b =~= a);
        assert(kw_reads(a) + kw_reads(b) =~= kw_reads(a));
    } else {
        lemma_concat(m, a, b.drop_last());
        assert((a + b).drop_last() =~= a + b.drop_last());
        assert((a + b).last() == b.last());
        if is_keyword_item(b.last()) && keyword_of(b.last().attrs) is Some {
            assert(kw_reads(a) + kw_reads(b) =~= (kw_reads(a) + kw_reads(b.drop_last())).push(
                keyword_of(b.last().attrs)->Some_0,
            ));
        }
        let ab = a + b;
        if no_open_property(ab) {
            assert forall|i: int| 0 <= i < a.len() implies !opens_property(#[trigger] a[i]) by {
                assert(ab[i] == a[i]);
            }
            assert forall|i: int| 0 <= i < b.len() implies !opens_property(#[trigger] b[i]) by {
                assert(ab[a.len() + i] == b[i]);
            }
        }
        if no_open_property(a) && no_open_property(b) {
            assert forall|i: int| 0 <= i < ab.len() implies !opens_property(#[trigger] ab[i]) by {
                if i < a.len() {
                    assert(ab[i] == a[i]);
                } else {
                    assert(ab[i] == b[i - a.len()]);
                }
            }
        }
    }
}

proof fn lemma_match_len(before: Seq<KeywordView>, after: Seq<KeywordView>)
    ensures
        crate::splice::match_keywords(before, after).0.len() == before.len(),
        crate::splice::match_keywords(before, after).1 <= after.len(),
    decreases before.len(),
{
    if before.len() > 0 {
        lemma_match_len(before.drop_last(), after);
    }
}

proof fn lemma_match_prefix(before: Seq<KeywordView>, after: Seq<KeywordView>, n: int)
    requires
        0 <= n <= before.len(),
    ensures
        crate::splice::match_keywords(before, after).0.take(n) == crate::splice::match_keywords(before.take(n), after).0,
    decreases before.len(),
{
    lemma_match_len(before, after);
    if n == before.len() {
        assert(before.take(n) =~= before);
        assert(crate::splice::match_keywords(before, after).0.take(n) =~= crate::splice::match_keywords(before, after).0);
    } else {
        lemma_match_prefix(before.drop_last(), after, n);
        assert(before.drop_last().take(n) =~= before.take(n));
        lemma_match_len(before.drop_last(), after);
        let k = crate::splice::match_keywords(before, after).0;
        let k0 = crate::splice::match_keywords(before.drop_last(), after).0;
        assert(k.take(n) =~= k0.take(n)) by {
            assert forall|i: int| 0 <= i < n implies k.take(n)[i] == k0.take(n)[i] by {
                assert(k[i] == k0[i]);
            }
        }
    }
}

proof fn lemma_seq1_reads(m: Map<Seq<char>, PropertyView>, it: ItemView)
    ensures
        kw_reads(seq![it]) == if is_keyword_item(it) && keyword_of(it.attrs) is Some {
            seq![keyword_of(it.attrs)->Some_0]
        } else {
            Seq::<KeywordView>::empty()
        },
        props_into(m, seq![it]) == if is_property_item(it) && property_of(it.attrs).0 is Some {
            m.insert(property_of(it.attrs).0->Some_0, property_of(it.attrs).1)
        } else {
            m
        },
{
    assert(seq![it].drop_last() =~= Seq::<ItemView>::empty());
    assert(seq![it].last() == it);
    assert(kw_reads(Seq::<ItemView>::empty()) == Seq::<KeywordView>::empty());
    assert(props_into(m, Seq::<ItemView>::empty()) == m);
    assert(Seq::<KeywordView>::empty().push(keyword_of(it.attrs)->Some_0) =~= seq![keyword_of(it.attrs)->Some_0]);
}

/// No item reads as a keyword.
pub open spec fn no_keyword_reads(x: Seq<ItemView>) -> bool {
    forall|i: int| 0 <= i < x.len() ==> !(is_keyword_item(#[trigger] x[i]) && keyword_of(x[i].attrs) is Some)
}

proof fn lemma_no_keyword_reads(
    before: HeaderView,
    after: HeaderView,
    kept: Seq<Option<nat>>,
    x: Seq<ItemView>,
)
    requires
        no_keyword_reads(x),
    ensures
        kw_reads(x) == Seq::<KeywordView>::empty(),
        kw_reads(edited_items(before, after, kept, x)) == Seq::<KeywordView>::empty(),
    decreases x.len(),
{
    if x.len() > 0 {
        let init = x.drop_last();
        assert forall|i: int| 0 <= i < init.len() implies !(is_keyword_item(#[trigger] init[i]) && keyword_of(
            init[i].attrs,
        ) is Some) by {
            assert(init[i] == x[i]);
        }
        lemma_no_keyword_reads(before, after, kept, init);
        let it = x.last();
        assert(it == x[x.len() - 1]);
        let c = kw_reads(init).len();
        let e = edited_item(before, after, kept, c, it);
        lemma_concat(Map::empty(), edited_items(before, after, kept, init), e);
        lemma_tag_names();
        lemma_seq1_reads(Map::empty(), it);
        if is_property_item(it) && property_of(it.attrs).0 is Some {
            let id = property_of(it.attrs).0->Some_0;
            lemma_seq1_reads(Map::empty(), element_item(property_tag(), property_attrs(id, after.properties[id])));
            assert(kw_reads(Seq::<ItemView>::empty()) =~= Seq::<KeywordView>::empty());
        }
        assert(Seq::<KeywordView>::empty() + Seq::<KeywordView>::empty() =~= Seq::<KeywordView>::empty());
    }
}

proof fn lemma_keyword_items(ks: Seq<KeywordView>)
    requires
        forall|i: int| 0 <= i < ks.len() ==> reads_back(#[trigger] ks[i]),
    ensures
        kw_reads(keyword_items(ks)) == ks,
        no_open_property(keyword_items(ks)),
    decreases ks.len(),
{
    if ks.len() > 0 {
        let init = ks.drop_last();
        assert forall|i: int| 0 <= i < init.len() implies reads_back(#[trigger] init[i]) by {
            assert(init[i] == ks[i]);
        }
        lemma_keyword_items(init);
        lemma_tag_names();
        lemma_keyword_attrs(ks[ks.len() - 1]);
        let x = keyword_items(ks);
        assert(x.drop_last() =~= keyword_items(init));
        assert(ks =~= init.push(ks.last()));
        assert forall|i: int| 0 <= i < x.len() implies !opens_property(#[trigger] x[i]) by {
            if i < x.len() - 1 {
                assert(x[i] == keyword_items(init)[i]);
            }
        }
    }
}

proof fn lemma_property_items_no_keywords(es: Seq<(Seq<char>, PropertyView)>)
    ensures
        no_keyword_reads(property_items(es)),
        no_open_property(property_items(es)),
    decreases es.len(),
{
    if es.len() > 0 {
        lemma_property_items_no_keywords(es.drop_last());
        lemma_tag_names();
        let x = property_items(es);
        assert forall|i: int| 0 <= i < x.len() implies !(is_keyword_item(#[trigger] x[i]) && keyword_of(
            x[i].attrs,
        ) is Some) && !opens_property(x[i]) by {
            if i < x.len() - 1 {
                assert(x[i] == property_items(es.drop_last())[i]);
            }
        }
    }
}

/// Reading the edited items of the first `k` original items gives the
/// kept keywords matched so far.
proof fn lemma_edited_keywords(
    before: HeaderView,
    after: HeaderView,
    old: Seq<ItemView>,
    k: int,
)
    requires
        0 <= k <= old.len(),
        kw_reads(old) == before.keywords,
        forall|i: int| 0 <= i < after.keywords.len() ==> reads_back(#[trigger] after.keywords[i]),
    ensures
        ({
            let kept = crate::splice::match_keywords(before.keywords, after.keywords).0;
            let c = kw_reads(old.take(k)).len();
            &&& c <= before.keywords.len()
            &&& kw_reads(old.take(k)) == before.keywords.take(c as int)
            &&& kw_reads(edited_items(before, after, kept, old.take(k))) == after.keywords.take(
                crate::splice::match_keywords(before.keywords.take(c as int), after.keywords).1 as int,
            )
        }),
    decreases k,
{
    let b = before.keywords;
    let a = after.keywords;
    let kept = crate::splice::match_keywords(b, a).0;
    lemma_concat(Map::empty(), old.take(k), old.skip(k));
    assert(old.take(k) + old.skip(k) =~= old);
    let c = kw_reads(old.take(k)).len();
    assert(kw_reads(old.take(k)) =~= b.take(c as int));
    if k == 0 {
        assert(old.take(0) =~= Seq::<ItemView>::empty());
        assert(b.take(0) =~= Seq::<KeywordView>::empty());
        assert(a.take(0) =~= Seq::<KeywordView>::empty());
    } else {
        lemma_edited_keywords(before, after, old, k - 1);
        let pre = old.take(k - 1);
        let it = old[k - 1];
        assert(old.take(k).drop_last() =~= pre);
        assert(old.take(k).last() == it);
        let c0 = kw_reads(pre).len();
        let (kc, jc) = crate::splice::match_keywords(b.take(c0 as int), a);
        lemma_match_len(b.take(c0 as int), a);
        let e = edited_item(before, after, kept, c0, it);
        lemma_concat(Map::empty(), edited_items(before, after, kept, pre), e);
        lemma_seq1_reads(Map::empty(), it);
        lemma_tag_names();
        if is_keyword_item(it) && keyword_of(it.attrs) is Some {
            let kw = keyword_of(it.attrs)->Some_0;
            assert(c == c0 + 1);
            assert(b.take(c as int).drop_last() =~= b.take(c0 as int));
            assert(b[c0 as int] == kw) by {
                assert(b.take(c as int)[c0 as int] == kw);
            }
            assert(b.take(c as int) =~= b.take(c0 as int).push(b[c0 as int]));
            lemma_match_prefix(b, a, c as int);
            lemma_match_len(b, a);
            assert(kept[c0 as int] == crate::splice::match_keywords(b.take(c as int), a).0[c0 as int]) by {
                assert(kept.take(c as int)[c0 as int] == kept[c0 as int]);
            }
            if jc < a.len() && a[jc as int].name == b[c0 as int].name {
                assert(kept[c0 as int] == Some(jc));
                if a[jc as int] != b[c0 as int] {
                    lemma_keyword_attrs(a[jc as int]);
                    lemma_seq1_reads(Map::empty(), element_item(keyword_tag(), keyword_attrs(a[jc as int])));
                }
                assert(a.take(jc as int).push(a[jc as int]) =~= a.take((jc + 1) as int));
                assert(a.take(jc as int) + seq![a[jc as int]] =~= a.take((jc + 1) as int));
            } else {
                assert(kept[c0 as int] is None);
                assert(kw_reads(Seq::<ItemView>::empty()) =~= Seq::<KeywordView>::empty());
                assert(a.take(jc as int) + Seq::<KeywordView>::empty() =~= a.take(jc as int));
            }
        } else {
            assert(c == c0);
            if is_property_item(it) && property_of(it.attrs).0 is Some {
                let id = property_of(it.attrs).0->Some_0;
                lemma_seq1_reads(Map::empty(), element_item(property_tag(), property_attrs(id, after.properties[id])));
                assert(kw_reads(Seq::<ItemView>::empty()) =~= Seq::<KeywordView>::empty());
            }
            assert(a.take(jc as int) + Seq::<KeywordView>::empty() =~= a.take(jc as int));
        }
    }
}

/// The properties `m` after an update: an id the edit removed is gone, an
/// id whose value the edit changed takes the new value, and an unchanged
/// id keeps what `m` holds.
pub open spec fn edited_map(
    m: Map<Seq<char>, PropertyView>,
    before: Map<Seq<char>, PropertyView>,
    after: Map<Seq<char>, PropertyView>,
) -> Map<Seq<char>, PropertyView> {
    Map::new(
        |id: Seq<char>| m.contains_key(id) && after.contains_key(id),
        |id: Seq<char>|
            if before.contains_key(id) && before[id] == after[id] {
                m[id]
            } else {
                after[id]
            },
    )
}

proof fn lemma_edited_props(
    before: HeaderView,
    after: HeaderView,
    kept: Seq<Option<nat>>,
    m: Map<Seq<char>, PropertyView>,
    x: Seq<ItemView>,
)
    ensures
        props_into(edited_map(m, before.properties, after.properties), edited_items(before, after, kept, x))
            == edited_map(props_into(m, x), before.properties, after.properties),
    decreases x.len(),
{
    let bp = before.properties;
    let ap = after.properties;
    if x.len() > 0 {
        let init = x.drop_last();
        let it = x.last();
        lemma_edited_props(before, after, kept, m, init);
        let mm = props_into(m, init);
        let em = edited_map(mm, bp, ap);
        let c = kw_reads(init).len();
        let e = edited_item(before, after, kept, c, it);
        lemma_concat(edited_map(m, bp, ap), edited_items(before, after, kept, init), e);
        lemma_seq1_reads(em, it);
        lemma_seq1_reads(mm, it);
        lemma_tag_names();
        assert(props_into(em, Seq::<ItemView>::empty()) == em);
        if is_keyword_item(it) && keyword_of(it.attrs) is Some {
            match kept[c as int] {
                Some(j) => {
                    if after.keywords[j as int] != before.keywords[c as int] {
                        lemma_seq1_reads(em, element_item(keyword_tag(), keyword_attrs(after.keywords[j as int])));
                    }
                },
                None => {},
            }
        } else if is_property_item(it) && property_of(it.attrs).0 is Some {
            let id = property_of(it.attrs).0->Some_0;
            let q = property_of(it.attrs).1;
            if !ap.contains_key(id) {
                assert(edited_map(mm.insert(id, q), bp, ap) =~= em);
            } else if bp.contains_key(id) && bp[id] == ap[id] {
                assert(edited_map(mm.insert(id, q), bp, ap) =~= em.insert(id, q));
            } else {
                let r = element_item(property_tag(), property_attrs(id, ap[id]));
                lemma_property_attrs(id, ap[id]);
                lemma_seq1_reads(em, r);
                assert(edited_map(mm.insert(id, q), bp, ap) =~= em.insert(id, ap[id]));
            }
        }
    } else {
        assert(edited_items(before, after, kept, x) =~= Seq::<ItemView>::empty());
    }
}

/// Recording the new property elements `es` records each entry in turn.
proof fn lemma_property_items_step(n: Map<Seq<char>, PropertyView>, es: Seq<(Seq<char>, PropertyView)>)
    requires
        es.len() > 0,
    ensures
        props_into(n, property_items(es)) == props_into(n, property_items(es.drop_last())).insert(
            es.last().0,
            es.last().1,
        ),
{
    lemma_tag_names();
    lemma_property_attrs(es.last().0, es.last().1);
    assert(property_items(es).drop_last() =~= property_items(es.drop_last()));
}

proof fn lemma_insert_past_entries(
    n: Map<Seq<char>, PropertyView>,
    es: Seq<(Seq<char>, PropertyView)>,
    id: Seq<char>,
    v: PropertyView,
)
    requires
        forall|j: int| 0 <= j < es.len() ==> (#[trigger] es[j]).0 != id,
    ensures
        props_into(n.insert(id, v), property_items(es)) == props_into(n, property_items(es)).insert(id, v),
    decreases es.len(),
{
    if es.len() > 0 {
        let init = es.drop_last();
        assert forall|j: int| 0 <= j < init.len() implies (#[trigger] init[j]).0 != id by {
            assert(init[j] == es[j]);
        }
        lemma_insert_past_entries(n, init, id, v);
        lemma_property_items_step(n, es);
        lemma_property_items_step(n.insert(id, v), es);
        assert(es.last() == es[es.len() - 1]);
        assert(props_into(n, property_items(init)).insert(id, v).insert(es.last().0, es.last().1)
            =~= props_into(n, property_items(init)).insert(es.last().0, es.last().1).insert(id, v));
    } else {
        assert(property_items(es) =~= Seq::<ItemView>::empty());
    }
}

/// The id a self-closing property item records, if any.
pub open spec fn prop_id(it: ItemView) -> Option<Seq<char>> {
    if is_property_item(it) {
        property_of(it.attrs).0
    } else {
        None
    }
}

proof fn lemma_commute(m: Map<Seq<char>, PropertyView>, es: Seq<(Seq<char>, PropertyView)>, x: Seq<ItemView>)
    requires
        forall|i: int, j: int|
            0 <= i < x.len() && 0 <= j < es.len() && prop_id(#[trigger] x[i]) is Some ==> prop_id(x[i])->Some_0
                != (#[trigger] es[j]).0,
    ensures
        props_into(props_into(m, property_items(es)), x) == props_into(props_into(m, x), property_items(es)),
    decreases x.len(),
{
    if x.len() > 0 {
        let init = x.drop_last();
        assert forall|i: int, j: int|
            0 <= i < init.len() && 0 <= j < es.len() && prop_id(#[trigger] init[i]) is Some implies prop_id(
                init[i],
            )->Some_0 != (#[trigger] es[j]).0 by {
            assert(init[i] == x[i]);
        }
        lemma_commute(m, es, init);
        let it = x.last();
        assert(it == x[x.len() - 1]);
        if is_property_item(it) && property_of(it.attrs).0 is Some {
            let id = property_of(it.attrs).0->Some_0;
            assert forall|j: int| 0 <= j < es.len() implies (#[trigger] es[j]).0 != id by {
                assert(prop_id(x[x.len() - 1]) is Some);
            }
            lemma_insert_past_entries(props_into(m, init), es, id, property_of(it.attrs).1);
        }
    }
}

/// Every id an edited item records is one the original items record.
proof fn lemma_edited_ids(
    before: HeaderView,
    after: HeaderView,
    kept: Seq<Option<nat>>,
    m: Map<Seq<char>, PropertyView>,
    x: Seq<ItemView>,
)
    ensures
        forall|i: int|
            0 <= i < edited_items(before, after, kept, x).len() && prop_id(
                #[trigger] edited_items(before, after, kept, x)[i],
            ) is Some ==> props_into(m, x).contains_key(prop_id(edited_items(before, after, kept, x)[i])->Some_0),
    decreases x.len(),
{
    if x.len() > 0 {
        let init = x.drop_last();
        let it = x.last();
        lemma_edited_ids(before, after, kept, m, init);
        let c = kw_reads(init).len();
        let e = edited_item(before, after, kept, c, it);
        let ei = edited_items(before, after, kept, init);
        let ex = edited_items(before, after, kept, x);
        assert(ex == ei + e);
        lemma_tag_names();
        if is_property_item(it) && property_of(it.attrs).0 is Some {
            let id = property_of(it.attrs).0->Some_0;
            lemma_property_attrs(id, after.properties[id]);
        }
        assert forall|i: int| 0 <= i < ex.len() && prop_id(#[trigger] ex[i]) is Some implies props_into(
            m,
            x,
        ).contains_key(prop_id(ex[i])->Some_0) by {
            if i < ei.len() {
                assert(ex[i] == ei[i]);
            } else {
                assert(ex[i] == e[i - ei.len()]);
                if is_keyword_item(it) && keyword_of(it.attrs) is Some {
                    match kept[c as int] {
                        Some(j) => {},
                        None => {},
                    }
                }
            }
        }
    }
}

/// Whether some entry of `es` has id `k`.
pub open spec fn entry_id_in(es: Seq<(Seq<char>, PropertyView)>, k: Seq<char>) -> bool {
    exists|j: int| 0 <= j < es.len() && (#[trigger] es[j]).0 == k
}

/// Whether `e` is an entry of `es`.
pub open spec fn entry_in(es: Seq<(Seq<char>, PropertyView)>, e: (Seq<char>, PropertyView)) -> bool {
    exists|i: int| 0 <= i < es.len() && #[trigger] es[i] == e
}

/// The new entries are entries without an original element, and every
/// such entry's id is among them.
proof fn lemma_new_entries(es: Seq<(Seq<char>, PropertyView)>, spans: Seq<(Seq<char>, nat, nat)>)
    ensures
        forall|j: int|
            0 <= j < crate::splice::new_entries(es, spans).len() ==> !crate::splice::has_span_id(
                spans,
                (#[trigger] crate::splice::new_entries(es, spans)[j]).0,
            ) && entry_in(es, crate::splice::new_entries(es, spans)[j]),
        forall|i: int|
            0 <= i < es.len() && !crate::splice::has_span_id(spans, (#[trigger] es[i]).0) ==> entry_id_in(
                crate::splice::new_entries(es, spans),
                es[i].0,
            ),
    decreases es.len(),
{
    if es.len() > 0 {
        let init = es.drop_last();
        lemma_new_entries(init, spans);
        let ns = crate::splice::new_entries(es, spans);
        let ni = crate::splice::new_entries(init, spans);
        assert forall|j: int| 0 <= j < ns.len() implies !crate::splice::has_span_id(spans, (#[trigger] ns[j]).0)
            && entry_in(es, ns[j]) by {
            if j < ni.len() {
                assert(ns[j] == ni[j]);
                assert(entry_in(init, ni[j]));
                let i = choose|i: int| 0 <= i < init.len() && #[trigger] init[i] == ni[j];
                assert(es[i] == init[i]);
            } else {
                assert(ns[j] == es[es.len() - 1]);
            }
        }
        assert forall|i: int| 0 <= i < es.len() && !crate::splice::has_span_id(spans, (#[trigger] es[i]).0) implies entry_id_in(
            ns,
            es[i].0,
        ) by {
            if i < init.len() {
                assert(init[i] == es[i]);
                assert(entry_id_in(ni, init[i].0));
                let j = choose|j: int| 0 <= j < ni.len() && (#[trigger] ni[j]).0 == init[i].0;
                assert(ns[j] == ni[j]);
            } else {
                assert(ns[ns.len() - 1] == es[i]);
            }
        }
    }
}

/// Recording entries that agree with `a` onto `n`: an id recorded takes
/// its value in `a`; every other id keeps what `n` holds.
proof fn lemma_props_entries(
    n: Map<Seq<char>, PropertyView>,
    es: Seq<(Seq<char>, PropertyView)>,
    a: Map<Seq<char>, PropertyView>,
)
    requires
        forall|j: int| 0 <= j < es.len() ==> a.contains_key((#[trigger] es[j]).0) && a[es[j].0] == es[j].1,
    ensures
        forall|k: Seq<char>|
            #[trigger] props_into(n, property_items(es)).contains_key(k) == (n.contains_key(k) || entry_id_in(
                es,
                k,
            )),
        forall|k: Seq<char>|
            #[trigger] props_into(n, property_items(es)).contains_key(k) ==> props_into(n, property_items(es))[k]
                == if entry_id_in(es, k) {
                a[k]
            } else {
                n[k]
            },
    decreases es.len(),
{
    if es.len() > 0 {
        let init = es.drop_last();
        assert forall|j: int| 0 <= j < init.len() implies a.contains_key((#[trigger] init[j]).0) && a[init[j].0]
            == init[j].1 by {
            assert(init[j] == es[j]);
        }
        lemma_props_entries(n, init, a);
        lemma_property_items_step(n, es);
        let last = es[es.len() - 1];
        assert(es.last() == last);
        assert forall|k: Seq<char>| entry_id_in(es, k) == (entry_id_in(init, k) || last.0 == k) by {
            if entry_id_in(es, k) {
                let j = choose|j: int| 0 <= j < es.len() && (#[trigger] es[j]).0 == k;
                if j < init.len() {
                    assert(init[j] == es[j]);
                }
            }
            if entry_id_in(init, k) {
                let j = choose|j: int| 0 <= j < init.len() && (#[trigger] init[j]).0 == k;
                assert(es[j] == init[j]);
            }
        }
    } else {
        assert(property_items(es) =~= Seq::<ItemView>::empty());
    }
}

proof fn lemma_edited_no_open(before: HeaderView, after: HeaderView, kept: Seq<Option<nat>>, x: Seq<ItemView>)
    requires
        no_open_property(x),
    ensures
        no_open_property(edited_items(before, after, kept, x)),
    decreases x.len(),
{
    if x.len() > 0 {
        let init = x.drop_last();
        assert forall|i: int| 0 <= i < init.len() implies !opens_property(#[trigger] init[i]) by {
            assert(init[i] == x[i]);
        }
        lemma_edited_no_open(before, after, kept, init);
        let it = x.last();
        assert(!opens_property(x[x.len() - 1]));
        let e = edited_item(before, after, kept, kw_reads(init).len(), it);
        assert forall|i: int| 0 <= i < e.len() implies !opens_property(#[trigger] e[i]) by {}
        lemma_concat(Map::empty(), edited_items(before, after, kept, init), e);
    }
}

proof fn lemma_keyword_items_props(m: Map<Seq<char>, PropertyView>, ks: Seq<KeywordView>)
    ensures
        props_into(m, keyword_items(ks)) == m,
    decreases ks.len(),
{
    if ks.len() > 0 {
        lemma_keyword_items_props(m, ks.drop_last());
        lemma_tag_names();
        assert(keyword_items(ks).drop_last() =~= keyword_items(ks.drop_last()));
    }
}

proof fn lemma_updated_keywords(
    before: HeaderView,
    after: HeaderView,
    es: Seq<(Seq<char>, PropertyView)>,
    spans: Seq<(Seq<char>, nat, nat)>,
    old: Seq<ItemView>,
    p: int,
)
    requires
        0 <= p <= old.len(),
        kw_reads(old) == before.keywords,
        no_keyword_reads(old.skip(p)),
        no_open_property(old),
        forall|i: int| 0 <= i < after.keywords.len() ==> reads_back(#[trigger] after.keywords[i]),
    ensures
        kw_reads(updated_items(before, after, es, spans, old, p)) == after.keywords,
        no_open_property(updated_items(before, after, es, spans, old, p)),
{
    let e0 = Map::<Seq<char>, PropertyView>::empty();
    let (kept, j) = crate::splice::match_keywords(before.keywords, after.keywords);
    let e1 = edited_items(before, after, kept, old.take(p));
    let k1 = keyword_items(after.keywords.skip(j as int));
    let ns = crate::splice::new_entries(es, spans);
    let p1 = property_items(ns);
    let e2 = edited_items(before, after, kept, old.skip(p));
    assert(updated_items(before, after, es, spans, old, p) == e1 + k1 + p1 + e2);
    lemma_concat(e0, old.take(p), old.skip(p));
    assert(old.take(p) + old.skip(p) =~= old);
    lemma_edited_keywords(before, after, old, p);
    lemma_no_keyword_reads(before, after, kept, old.skip(p));
    let c = kw_reads(old.take(p)).len();
    assert(kw_reads(old.take(p)) =~= before.keywords);
    assert(before.keywords.take(c as int) =~= before.keywords);
    lemma_match_len(before.keywords, after.keywords);
    assert forall|i: int| 0 <= i < after.keywords.skip(j as int).len() implies reads_back(
        #[trigger] after.keywords.skip(j as int)[i],
    ) by {
        assert(after.keywords.skip(j as int)[i] == after.keywords[j + i]);
    }
    lemma_keyword_items(after.keywords.skip(j as int));
    lemma_property_items_no_keywords(ns);
    lemma_no_keyword_reads(before, after, kept, p1);
    lemma_concat(e0, e1, k1);
    lemma_concat(e0, e1 + k1, p1);
    lemma_concat(e0, e1 + k1 + p1, e2);
    assert(after.keywords.take(j as int) + after.keywords.skip(j as int) =~= after.keywords);
    assert(kw_reads(e1 + k1 + p1 + e2) =~= after.keywords);
    assert forall|i: int| 0 <= i < old.take(p).len() implies !opens_property(#[trigger] old.take(p)[i]) by {
        assert(old.take(p)[i] == old[i]);
    }
    assert forall|i: int| 0 <= i < old.skip(p).len() implies !opens_property(#[trigger] old.skip(p)[i]) by {
        assert(old.skip(p)[i] == old[p + i]);
    }
    lemma_edited_no_open(before, after, kept, old.take(p));
    lemma_edited_no_open(before, after, kept, old.skip(p));
}

proof fn lemma_updated_props_shape(
    before: HeaderView,
    after: HeaderView,
    es: Seq<(Seq<char>, PropertyView)>,
    spans: Seq<(Seq<char>, nat, nat)>,
    old: Seq<ItemView>,
    p: int,
)
    requires
        0 <= p <= old.len(),
        props_into(Map::empty(), old) == before.properties,
        forall|id: Seq<char>| #[trigger] before.properties.contains_key(id) ==> crate::splice::has_span_id(spans, id),
    ensures
        props_into(Map::empty(), updated_items(before, after, es, spans, old, p)) == props_into(
            edited_map(before.properties, before.properties, after.properties),
            property_items(crate::splice::new_entries(es, spans)),
        ),
{
    let bp = before.properties;
    let ap = after.properties;
    let e0 = Map::<Seq<char>, PropertyView>::empty();
    let (kept, j) = crate::splice::match_keywords(before.keywords, after.keywords);
    let e1 = edited_items(before, after, kept, old.take(p));
    let k1 = keyword_items(after.keywords.skip(j as int));
    let ns = crate::splice::new_entries(es, spans);
    let p1 = property_items(ns);
    let e2 = edited_items(before, after, kept, old.skip(p));
    assert(updated_items(before, after, es, spans, old, p) == e1 + k1 + p1 + e2);
    lemma_concat(e0, old.take(p), old.skip(p));
    assert(old.take(p) + old.skip(p) =~= old);
    lemma_concat(e0, e1, k1);
    lemma_concat(e0, e1 + k1, p1);
    lemma_concat(e0, e1 + k1 + p1, e2);
    let mp = props_into(e0, old.take(p));
    assert(edited_map(e0, bp, ap) =~= e0);
    lemma_edited_props(before, after, kept, e0, old.take(p));
    let m1 = props_into(e0, e1);
    lemma_keyword_items_props(m1, after.keywords.skip(j as int));
    lemma_edited_props(before, after, kept, mp, old.skip(p));
    lemma_edited_ids(before, after, kept, mp, old.skip(p));
    lemma_new_entries(es, spans);
    assert forall|i: int, jj: int|
        0 <= i < e2.len() && 0 <= jj < ns.len() && prop_id(#[trigger] e2[i]) is Some implies prop_id(e2[i])->Some_0
            != (#[trigger] ns[jj]).0 by {
        let id = prop_id(e2[i])->Some_0;
        assert(bp.contains_key(id));
        assert(crate::splice::has_span_id(spans, id));
    }
    lemma_commute(m1, ns, e2);
}

proof fn lemma_updated_props_final(
    bp: Map<Seq<char>, PropertyView>,
    ap: Map<Seq<char>, PropertyView>,
    es: Seq<(Seq<char>, PropertyView)>,
    spans: Seq<(Seq<char>, nat, nat)>,
)
    requires
        forall|i: int| 0 <= i < spans.len() ==> bp.contains_key(#[trigger] spans[i].0),
        strictly_sorted(es),
        ap == map_of(es),
    ensures
        props_into(edited_map(bp, bp, ap), property_items(crate::splice::new_entries(es, spans))) == ap,
{
    let ns = crate::splice::new_entries(es, spans);
    let em = edited_map(bp, bp, ap);
    lemma_new_entries(es, spans);
    assert forall|jj: int| 0 <= jj < ns.len() implies ap.contains_key((#[trigger] ns[jj]).0) && ap[ns[jj].0]
        == ns[jj].1 by {
        assert(entry_in(es, ns[jj]));
        let i = choose|i: int| 0 <= i < es.len() && #[trigger] es[i] == ns[jj];
        crate::property::lemma_map_of_entry(es, i);
    }
    lemma_props_entries(em, ns, ap);
    let f = props_into(em, property_items(ns));
    assert forall|k: Seq<char>| #[trigger] f.contains_key(k) == ap.contains_key(k) by {
        if entry_id_in(ns, k) {
            let jj = choose|jj: int| 0 <= jj < ns.len() && (#[trigger] ns[jj]).0 == k;
            assert(ap.contains_key(ns[jj].0));
        }
        if ap.contains_key(k) && !bp.contains_key(k) {
            assert(crate::property::has_key(es, k));
            let i = choose|i: int| 0 <= i < es.len() && #[trigger] es[i].0 == k;
            if crate::splice::has_span_id(spans, k) {
                let s = choose|s: int| 0 <= s < spans.len() && #[trigger] spans[s].0 == k;
                assert(bp.contains_key(spans[s].0));
            }
            assert(!crate::splice::has_span_id(spans, es[i].0));
        }
    }
    assert forall|k: Seq<char>| #[trigger] f.contains_key(k) implies f[k] == ap[k] by {
        if entry_id_in(ns, k) {
        } else {
            assert(em.contains_key(k));
        }
    }
    assert(f =~= ap);
}

/// A `<Property>` end tag.
pub open spec fn closes_property(it: ItemView) -> bool {
    it.kind == ItemKind::End && names_match(it.name, property_tag())
}

/// The attributes of the self-closing element that reads as the property
/// element whose start tag has attributes `a` and whose content is `t`: the
/// content becomes the `value` attribute unless there is one.
pub open spec fn run_attrs(a: Seq<(Seq<char>, Seq<char>)>, t: Seq<char>) -> Seq<(Seq<char>, Seq<char>)> {
    if property_of(a).2 {
        a
    } else {
        a.push(("value"@, property_of(a).1.value + t))
    }
}

/// The items with every child-text `<Property>` element (start tag,
/// content, end tag) folded into the one self-closing element it reads as,
/// and text, CDATA and other events dropped; and the start tag's attributes
/// and content so far when a property element is still open.
pub open spec fn collapse(items: Seq<ItemView>) -> (Seq<ItemView>, Option<(Seq<(Seq<char>, Seq<char>)>, Seq<char>)>)
    decreases items.len(),
{
    if items.len() == 0 {
        (Seq::empty(), None)
    } else {
        let (out, open) = collapse(items.drop_last());
        let it = items.last();
        if opens_property(it) {
            (out, Some((it.attrs, Seq::empty())))
        } else if it.kind == ItemKind::Text || it.kind == ItemKind::CData {
            match open {
                Some((a, t)) => (out, Some((a, t + it.text))),
                None => (out, None),
            }
        } else if closes_property(it) {
            match open {
                Some((a, t)) => (out.push(element_item(property_tag(), run_attrs(a, t))), None),
                None => (out, None),
            }
        } else if it.kind == ItemKind::Start || it.kind == ItemKind::Empty || it.kind == ItemKind::End {
            (out.push(it), open)
        } else {
            (out, open)
        }
    }
}

proof fn lemma_value_push(a: Seq<(Seq<char>, Seq<char>)>, v: Seq<char>)
    ensures
        property_of(a.push(("value"@, v))).0 == property_of(a).0,
        property_of(a.push(("value"@, v))).1 == (PropertyView { value: v, ..property_of(a).1 }),
        property_of(a.push(("value"@, v))).2,
{
    reveal_strlit("value");
    reveal_strlit("id");
    reveal_strlit("type");
    reveal_strlit("comment");
    reveal_strlit("format");
    lemma_last_attr_push(a, ("value"@, v), "value"@);
    lemma_last_attr_push(a, ("value"@, v), "id"@);
    lemma_last_attr_push(a, ("value"@, v), "type"@);
    lemma_last_attr_push(a, ("value"@, v), "comment"@);
    lemma_last_attr_push(a, ("value"@, v), "format"@);
    assert(names_match("value"@, "value"@));
    assert(!names_match("value"@, "id"@));
    assert(!names_match("value"@, "type"@));
    assert(!names_match("value"@, "comment"@));
    assert(!names_match("value"@, "format"@));
}

/// Reading the items is reading their collapsed form.
proof fn lemma_collapse_reading(xml: Seq<u8>, items: Seq<ItemView>)
    ensures
        index_items(xml, items).keywords == kw_reads(collapse(items).0),
        index_items(xml, items).properties == props_into(Map::empty(), collapse(items).0),
        no_open_property(collapse(items).0),
        match collapse(items).1 {
            None => index_items(xml, items).open is None,
            Some((a, t)) => index_items(xml, items).open matches Some(o) && o.id == property_of(a).0
                && o.has_value == property_of(a).2 && o.prop == if property_of(a).2 {
                property_of(a).1
            } else {
                (PropertyView { value: property_of(a).1.value + t, ..property_of(a).1 })
            },
        },
    decreases items.len(),
{
    if items.len() > 0 {
        let init = items.drop_last();
        lemma_collapse_reading(xml, init);
        lemma_tag_names();
        let it = items.last();
        let (out, open) = collapse(init);
        let st = index_items(xml, init);
        let e0 = Map::<Seq<char>, PropertyView>::empty();
        if opens_property(it) {
            assert(property_of(it.attrs).1.value + Seq::<char>::empty() =~= property_of(it.attrs).1.value);
        } else if it.kind == ItemKind::Text || it.kind == ItemKind::CData {
            match open {
                Some((a, t)) => {
                    assert(property_of(a).1.value + t + it.text =~= property_of(a).1.value + (t + it.text));
                },
                None => {},
            }
        } else if closes_property(it) {
            match open {
                Some((a, t)) => {
                    let r = element_item(property_tag(), run_attrs(a, t));
                    if !property_of(a).2 {
                        lemma_value_push(a, property_of(a).1.value + t);
                    }
                    lemma_concat(e0, out, seq![r]);
                    assert(out.push(r) == out + seq![r]);
                    lemma_seq1_reads(props_into(e0, out), r);
                    let o2 = out.push(r);
                    assert forall|i: int| 0 <= i < o2.len() implies !opens_property(#[trigger] o2[i]) by {
                        if i < out.len() {
                            assert(o2[i] == out[i]);
                        }
                    }
                },
                None => {},
            }
        } else if it.kind == ItemKind::Start || it.kind == ItemKind::Empty || it.kind == ItemKind::End {
            let o2 = out.push(it);
            assert(o2.drop_last() =~= out);
            assert forall|i: int| 0 <= i < o2.len() implies !opens_property(#[trigger] o2[i]) by {
                if i < out.len() {
                    assert(o2[i] == out[i]);
                }
            }
        }
    }
}

/// Splicing an edited header into the container it was read from gives a
/// container whose XML reads back as the edited header — its keywords in
/// order, with their kinds and comments, and its properties — given that
/// the reader reports for the spliced text the original elements, each
/// edited one read as its new rendering and the new ones where they were
/// inserted (compared in collapsed form, spans aside: see [`collapse`] and
/// [`updated_items`]). It holds for every edited header whose keywords have
/// one written form, and every original XML whose keywords all come before
/// the insertion point `p` (new keywords are written there, so a keyword
/// after it would end up after them).
pub proof fn law_updated_header_reads_back(original: Seq<u8>, h1: Header, p: int, c2: Seq<u8>)
    requires
        preamble(original) is Header,
        read_xml(xml_bytes(original)) is Ok,
        0 <= p <= collapse(xml_items(xml_bytes(original))->Ok_0).0.len(),
        no_keyword_reads(collapse(xml_items(xml_bytes(original))->Ok_0).0.skip(p)),
        h1.properties.wf(),
        forall|i: int| 0 <= i < h1@.keywords.len() ==> reads_back(#[trigger] h1@.keywords[i]),
        crate::splice::update_bytes(
            original,
            16 + le_u32(original, 8),
            read_xml(xml_bytes(original))->Ok_0.0,
            read_xml(xml_bytes(original))->Ok_0.1,
            h1@,
            h1.properties.entry_views(),
        ) == Ok::<Seq<u8>, Seq<char>>(c2),
        xml_items(xml_bytes(c2)) is Ok,
        same_reading(
            collapse(xml_items(xml_bytes(c2))->Ok_0).0,
            updated_items(
                read_xml(xml_bytes(original))->Ok_0.0,
                h1@,
                h1.properties.entry_views(),
                read_xml(xml_bytes(original))->Ok_0.1.property_spans,
                collapse(xml_items(xml_bytes(original))->Ok_0).0,
                p,
            ),
        ),
    ensures
        read_xml(xml_bytes(c2)) is Ok,
        read_xml(xml_bytes(c2))->Ok_0.0 == h1@,
{
    let text = xml_bytes(original);
    let items = xml_items(text)->Ok_0;
    let old = collapse(items).0;
    let before = read_xml(text)->Ok_0.0;
    let idx = read_xml(text)->Ok_0.1;
    let es = h1.properties.entry_views();
    let e0 = Map::<Seq<char>, PropertyView>::empty();
    lemma_collapse_reading(text, items);
    crate::splice::lemma_index_facts(text, items);
    h1.properties.lemma_wf();
    lemma_updated_keywords(before, h1@, es, idx.property_spans, old, p);
    lemma_updated_props_shape(before, h1@, es, idx.property_spans, old, p);
    lemma_updated_props_final(before.properties, h1@.properties, es, idx.property_spans);
    let up = updated_items(before, h1@, es, idx.property_spans, old, p);
    let text2 = xml_bytes(c2);
    let new = xml_items(text2)->Ok_0;
    lemma_same_reading(e0, collapse(new).0, up);
    lemma_collapse_reading(text2, new);
    assert(read_xml(text2)->Ok_0.0 =~= h1@);
}

/// The attributes as written in a tag: each as ` key="escaped value"`, in
/// order.
pub open spec fn attrs_text(attrs: Seq<(Seq<char>, Seq<char>)>) -> Seq<char>
    decreases attrs.len(),
{
    if attrs.len() == 0 {
        Seq::empty()
    } else {
        attrs_text(attrs.drop_last()) + crate::writer::attr(attrs.last().0, attrs.last().1)
    }
}

proof fn lemma_attrs_text_push(attrs: Seq<(Seq<char>, Seq<char>)>, e: (Seq<char>, Seq<char>))
    ensures
        attrs_text(attrs.push(e)) == attrs_text(attrs) + crate::writer::attr(e.0, e.1),
{
    assert(attrs.push(e).drop_last() =~= attrs);
}

proof fn lemma_keyword_element_attrs(k: KeywordView)
    ensures
        crate::writer::keyword_element(k) == "<FITSKeyword"@ + attrs_text(keyword_attrs(k)) + "/>"@,
{
    let e = Seq::<(Seq<char>, Seq<char>)>::empty();
    assert(attrs_text(e) == Seq::<char>::empty());
    let (v, c) = if commentary(k.name) {
        (Seq::<char>::empty(), k.value.text)
    } else {
        (value_text(k.value), k.comment)
    };
    let a1 = e.push(("name"@, k.name));
    let a2 = a1.push(("value"@, v));
    let a3 = a2.push(("comment"@, c));
    assert(keyword_attrs(k) =~= a3);
    lemma_attrs_text_push(e, ("name"@, k.name));
    lemma_attrs_text_push(a1, ("value"@, v));
    lemma_attrs_text_push(a2, ("comment"@, c));
    let n = crate::writer::attr("name"@, k.name);
    let x = crate::writer::attr("value"@, v);
    let y = crate::writer::attr("comment"@, c);
    assert(attrs_text(a1) =~= n);
    assert(attrs_text(a3) == n + x + y);
    assert(crate::writer::keyword_element(k) == "<FITSKeyword"@ + n + (x + y) + "/>"@);
    assert("<FITSKeyword"@ + n + (x + y) + "/>"@ =~= "<FITSKeyword"@ + (n + x + y) + "/>"@);
}

proof fn lemma_property_element_attrs(id: Seq<char>, p: PropertyView)
    ensures
        crate::writer::property_element(id, p) == "<Property"@ + attrs_text(property_attrs(id, p)) + "/>"@,
{
    let e = Seq::<(Seq<char>, Seq<char>)>::empty();
    assert(attrs_text(e) == Seq::<char>::empty());
    let b1 = e.push(("id"@, id));
    let b2 = b1.push(("type"@, p.type_));
    let b3 = b2.push(("value"@, p.value));
    lemma_attrs_text_push(e, ("id"@, id));
    lemma_attrs_text_push(b1, ("type"@, p.type_));
    lemma_attrs_text_push(b2, ("value"@, p.value));
    let i = crate::writer::attr("id"@, id);
    let t = crate::writer::attr("type"@, p.type_);
    let v = crate::writer::attr("value"@, p.value);
    let f = if p.format.len() > 0 {
        crate::writer::attr("format"@, p.format)
    } else {
        Seq::empty()
    };
    let c = if p.comment.len() > 0 {
        crate::writer::attr("comment"@, p.comment)
    } else {
        Seq::empty()
    };
    assert(attrs_text(b1) =~= i);
    assert(attrs_text(b3) == i + t + v);
    let b4 = if p.format.len() > 0 {
        b3.push(("format"@, p.format))
    } else {
        b3
    };
    if p.format.len() > 0 {
        lemma_attrs_text_push(b3, ("format"@, p.format));
    }
    assert(attrs_text(b4) =~= i + t + v + f);
    let b5 = if p.comment.len() > 0 {
        b4.push(("comment"@, p.comment))
    } else {
        b4
    };
    if p.comment.len() > 0 {
        lemma_attrs_text_push(b4, ("comment"@, p.comment));
    }
    assert(attrs_text(b5) =~= i + t + v + f + c);
    assert(property_attrs(id, p) =~= b5);
    assert(crate::writer::property_element(id, p) =~= "<Property"@ + (i + t + v + f + c) + "/>"@);
}

/// The element written for a keyword, and for a property, carries exactly
/// the attributes that reading it back is described by (see
/// [`keyword_attrs`] and [`property_attrs`]), in that order, each escaped.
pub proof fn law_elements_write_their_attributes(k: KeywordView, id: Seq<char>, p: PropertyView)
    ensures
        crate::writer::keyword_element(k) == "<FITSKeyword"@ + attrs_text(keyword_attrs(k)) + "/>"@,
        crate::writer::property_element(id, p) == "<Property"@ + attrs_text(property_attrs(id, p)) + "/>"@,
{
    lemma_keyword_element_attrs(k);
    lemma_property_element_attrs(id, p);
}

} // verus!
