//! The [`Property`] record for XISF `<Property>` elements, and the
//! id-ordered [`PropertyMap`] that holds them.

use vstd::prelude::*;

use crate::keyword::{chars_equal, same_text};
use crate::text::chars_of;
use crate::value::IntoText;

verus! {

/// A single XISF `<Property>`: its `type`, value text, and the optional
/// `comment` and `format` attributes, all preserved verbatim so a property
/// round-trips unchanged.
///
/// Unlike FITS keywords, XISF property values are *not* FITS-formatted: they
/// are stored raw, without any quote layer.
#[derive(Debug, Clone, PartialEq, Eq)]
pub struct Property {
    /// The XISF `type` attribute (e.g. `String`, `Float32`, `TimePoint`),
    /// kept verbatim.
    pub type_: String,
    /// The raw value text (from the `value` attribute, or the element's child
    /// text for the long `String` form).
    pub value: String,
    /// The `comment` attribute (empty when absent).
    pub comment: String,
    /// The `format` attribute (empty when absent).
    pub format: String,
}

/// The mathematical meaning of a [`Property`].
pub struct PropertyView {
    pub type_: Seq<char>,
    pub value: Seq<char>,
    pub comment: Seq<char>,
    pub format: Seq<char>,
}

impl View for Property {
    type V = PropertyView;

    open spec fn view(&self) -> PropertyView {
        PropertyView {
            type_: self.type_@,
            value: self.value@,
            comment: self.comment@,
            format: self.format@,
        }
    }
}

/// `String`, the default XISF property type, as characters.
pub open spec fn string_type() -> Seq<char> {
    seq!['S', 't', 'r', 'i', 'n', 'g']
}

/// The property every new entry starts from: type `String`, everything else
/// empty.
pub open spec fn default_property() -> PropertyView {
    PropertyView {
        type_: string_type(),
        value: Seq::empty(),
        comment: Seq::empty(),
        format: Seq::empty(),
    }
}

impl Default for Property {
    fn default() -> (p: Property)
        ensures
            p@ == default_property(),
    {
        let mut t = String::new();
        crate::text::push_char(&mut t, 'S');
        crate::text::push_char(&mut t, 't');
        crate::text::push_char(&mut t, 'r');
        crate::text::push_char(&mut t, 'i');
        crate::text::push_char(&mut t, 'n');
        crate::text::push_char(&mut t, 'g');
        assert(t@ =~= string_type());
        Property { type_: t, value: String::new(), comment: String::new(), format: String::new() }
    }
}

impl Property {
    /// Create a property of the given XISF type with a raw value.
    pub fn new(type_: impl IntoText, value: impl IntoText) -> (p: Self)
        ensures
            p@ == (PropertyView {
                type_: type_.text_spec(),
                value: value.text_spec(),
                comment: Seq::empty(),
                format: Seq::empty(),
            }),
    {
        let d = Property::default();
        Property { type_: type_.into_text(), value: value.into_text(), ..d }
    }

    /// A copy of this property.
    pub fn duplicate(&self) -> (r: Self)
        ensures
            r@ == self@,
    {
        Property {
            type_: self.type_.clone(),
            value: self.value.clone(),
            comment: self.comment.clone(),
            format: self.format.clone(),
        }
    }

    /// Whether both properties carry the same type, value, comment and format.
    pub fn same(&self, other: &Property) -> (r: bool)
        ensures
            r == (self@ == other@),
    {
        same_text(&self.type_, &other.type_) && same_text(&self.value, &other.value) && same_text(
            &self.comment,
            &other.comment,
        ) && same_text(&self.format, &other.format)
    }
}

/// Strict lexicographic order of character sequences, by code point (the
/// order of `String`'s `Ord`, which compares UTF-8 bytes).
pub open spec fn lex_lt(a: Seq<char>, b: Seq<char>) -> bool
    decreases a.len(),
{
    if a.len() == 0 {
        b.len() > 0
    } else if b.len() == 0 {
        false
    } else if a[0] != b[0] {
        (a[0] as u32) < (b[0] as u32)
    } else {
        lex_lt(a.drop_first(), b.drop_first())
    }
}

pub proof fn lemma_lex_irreflexive(a: Seq<char>)
    ensures
        !lex_lt(a, a),
    decreases a.len(),
{
    if a.len() > 0 {
        lemma_lex_irreflexive(a.drop_first());
    }
}

pub proof fn lemma_lex_transitive(a: Seq<char>, b: Seq<char>, c: Seq<char>)
    requires
        lex_lt(a, b),
        lex_lt(b, c),
    ensures
        lex_lt(a, c),
    decreases a.len(),
{
    vstd::utf8::char_u32_cast(a[0], a[0] as u32);
    if a.len() > 0 && b.len() > 0 && c.len() > 0 {
        if a[0] == b[0] && b[0] == c[0] {
            lemma_lex_transitive(a.drop_first(), b.drop_first(), c.drop_first());
        }
        if a[0] != c[0] && (a[0] as u32) == (c[0] as u32) {
            vstd::utf8::char_u32_cast(c[0], c[0] as u32);
        }
    }
}

pub proof fn lemma_lex_total(a: Seq<char>, b: Seq<char>)
    ensures
        a == b || lex_lt(a, b) || lex_lt(b, a),
    decreases a.len(),
{
    if a.len() > 0 && b.len() > 0 {
        if a[0] == b[0] {
            lemma_lex_total(a.drop_first(), b.drop_first());
            if a.drop_first() == b.drop_first() {
                assert(a =~= seq![a[0]] + a.drop_first());
                assert(b =~= seq![b[0]] + b.drop_first());
            }
        } else if (a[0] as u32) == (b[0] as u32) {
            vstd::utf8::char_u32_cast(a[0], a[0] as u32);
            vstd::utf8::char_u32_cast(b[0], b[0] as u32);
        }
    } else if a.len() == 0 && b.len() == 0 {
        assert(a =~= b);
    }
}

/// Executable [`lex_lt`].
pub fn lex_less(a: &[char], b: &[char]) -> (r: bool)
    ensures
        r == lex_lt(a@, b@),
{
    let mut i: usize = 0;
    assert(a@.skip(0) =~= a@);
    assert(b@.skip(0) =~= b@);
    while i < a.len() && i < b.len() && a[i] == b[i]
        invariant
            0 <= i <= a@.len(),
            i <= b@.len(),
            lex_lt(a@, b@) == lex_lt(a@.skip(i as int), b@.skip(i as int)),
        decreases a.len() - i,
    {
        assert(a@.skip(i as int).drop_first() =~= a@.skip(i + 1));
        assert(b@.skip(i as int).drop_first() =~= b@.skip(i + 1));
        i += 1;
    }
    if i == a.len() {
        i < b.len()
    } else if i == b.len() {
        false
    } else {
        assert(a@.skip(i as int)[0] == a@[i as int]);
        assert(b@.skip(i as int)[0] == b@[i as int]);
        (a[i] as u32) < (b[i] as u32)
    }
}

/// Ids strictly increase along `es`.
pub open spec fn strictly_sorted(es: Seq<(Seq<char>, PropertyView)>) -> bool {
    forall|i: int, j: int| 0 <= i < j < es.len() ==> lex_lt(#[trigger] es[i].0, #[trigger] es[j].0)
}

/// Whether some entry of `es` has id `k`.
pub open spec fn has_key(es: Seq<(Seq<char>, PropertyView)>, k: Seq<char>) -> bool {
    exists|i: int| 0 <= i < es.len() && #[trigger] es[i].0 == k
}

/// The map from each id of `es` to its property.
pub open spec fn map_of(es: Seq<(Seq<char>, PropertyView)>) -> Map<Seq<char>, PropertyView> {
    Map::new(
        |k: Seq<char>| has_key(es, k),
        |k: Seq<char>| es[key_index(es, k)].1,
    )
}

/// The position of an entry with id `k` in `es` (when there is one).
pub open spec fn key_index(es: Seq<(Seq<char>, PropertyView)>, k: Seq<char>) -> int {
    choose|i: int| 0 <= i < es.len() && #[trigger] es[i].0 == k
}

proof fn lemma_sorted_distinct(es: Seq<(Seq<char>, PropertyView)>, i: int, j: int)
    requires
        strictly_sorted(es),
        0 <= i < es.len(),
        0 <= j < es.len(),
        i != j,
    ensures
        es[i].0 != es[j].0,
{
    if i < j {
        assert(lex_lt(es[i].0, es[j].0));
        lemma_lex_irreflexive(es[i].0);
    } else {
        assert(lex_lt(es[j].0, es[i].0));
        lemma_lex_irreflexive(es[j].0);
    }
}

/// Each entry of a sorted sequence is found in its map.
pub proof fn lemma_map_of_entry(es: Seq<(Seq<char>, PropertyView)>, i: int)
    requires
        strictly_sorted(es),
        0 <= i < es.len(),
    ensures
        map_of(es).contains_key(es[i].0),
        map_of(es)[es[i].0] == es[i].1,
{
    let k = es[i].0;
    assert(has_key(es, k));
    let j = key_index(es, k);
    assert(0 <= j < es.len() && es[j].0 == k);
    if j != i {
        lemma_sorted_distinct(es, i, j);
    }
}

/// The map of a sorted sequence has as many entries as the sequence.
pub proof fn lemma_map_of_len(es: Seq<(Seq<char>, PropertyView)>)
    requires
        strictly_sorted(es),
    ensures
        map_of(es).len() == es.len(),
{
    let keys = es.map_values(|e: (Seq<char>, PropertyView)| e.0);
    assert forall|i: int, j: int|
        0 <= i < keys.len() && 0 <= j < keys.len() && i != j implies keys[i] != keys[j] by {
        lemma_sorted_distinct(es, i, j);
    }
    keys.unique_seq_to_set();
    assert forall|k: Seq<char>| #[trigger] map_of(es).dom().contains(k) == keys.to_set().contains(k) by {
        if has_key(es, k) {
            let i = choose|i: int| 0 <= i < es.len() && #[trigger] es[i].0 == k;
            assert(keys[i] == k);
        }
        if keys.contains(k) {
            let i = choose|i: int| 0 <= i < keys.len() && keys[i] == k;
            assert(es[i].0 == k);
        }
    }
    assert(map_of(es).dom() =~= keys.to_set());
}

/// Removing entry `i` removes its id from the map.
pub proof fn lemma_map_of_remove(es: Seq<(Seq<char>, PropertyView)>, i: int)
    requires
        strictly_sorted(es),
        0 <= i < es.len(),
    ensures
        strictly_sorted(es.remove(i)),
        map_of(es.remove(i)) == map_of(es).remove(es[i].0),
{
    let r = es.remove(i);
    assert forall|a: int, b: int| 0 <= a < b < r.len() implies lex_lt(
        #[trigger] r[a].0,
        #[trigger] r[b].0,
    ) by {
        let a2 = if a < i { a } else { a + 1 };
        let b2 = if b < i { b } else { b + 1 };
        assert(r[a] == es[a2] && r[b] == es[b2]);
    }
    assert forall|k: Seq<char>| #[trigger] has_key(r, k) == (has_key(es, k) && k != es[i].0) by {
        if has_key(r, k) {
            let j = choose|j: int| 0 <= j < r.len() && #[trigger] r[j].0 == k;
            let j2 = if j < i { j } else { j + 1 };
            assert(es[j2].0 == k);
            lemma_sorted_distinct(es, i, j2);
        }
        if has_key(es, k) && k != es[i].0 {
            let j = choose|j: int| 0 <= j < es.len() && #[trigger] es[j].0 == k;
            if j < i {
                assert(r[j].0 == k);
            } else {
                assert(r[j - 1].0 == k);
            }
        }
    }
    assert forall|k: Seq<char>| #[trigger] has_key(r, k) implies map_of(r)[k] == map_of(es)[k] by {
        let j = choose|j: int| 0 <= j < r.len() && #[trigger] r[j].0 == k;
        let j2 = if j < i { j } else { j + 1 };
        assert(r[j] == es[j2]);
        lemma_map_of_entry(r, j);
        lemma_map_of_entry(es, j2);
    }
    assert(map_of(r) =~= map_of(es).remove(es[i].0));
}

/// Inserting an entry at its sorted position adds its id to the map.
pub proof fn lemma_map_of_insert(es: Seq<(Seq<char>, PropertyView)>, i: int, e: (Seq<char>, PropertyView))
    requires
        strictly_sorted(es),
        0 <= i <= es.len(),
        forall|j: int| 0 <= j < i ==> lex_lt(#[trigger] es[j].0, e.0),
        forall|j: int| i <= j < es.len() ==> lex_lt(e.0, #[trigger] es[j].0),
    ensures
        strictly_sorted(es.insert(i, e)),
        map_of(es.insert(i, e)) == map_of(es).insert(e.0, e.1),
{
    let r = es.insert(i, e);
    assert forall|a: int, b: int| 0 <= a < b < r.len() implies lex_lt(
        #[trigger] r[a].0,
        #[trigger] r[b].0,
    ) by {
        if a < i && b < i {
            assert(r[a] == es[a] && r[b] == es[b]);
        } else if a < i && b == i {
            assert(r[a] == es[a] && r[b] == e);
        } else if a < i {
            assert(r[a] == es[a] && r[b] == es[b - 1]);
        } else if a == i {
            assert(r[a] == e && r[b] == es[b - 1]);
        } else {
            assert(r[a] == es[a - 1] && r[b] == es[b - 1]);
        }
    }
    assert forall|k: Seq<char>| #[trigger] has_key(r, k) == (has_key(es, k) || k == e.0) by {
        if has_key(r, k) {
            let j = choose|j: int| 0 <= j < r.len() && #[trigger] r[j].0 == k;
            if j < i {
                assert(es[j].0 == k);
            } else if j > i {
                assert(es[j - 1].0 == k);
            }
        }
        if k == e.0 {
            assert(r[i].0 == k);
        } else if has_key(es, k) {
            let j = choose|j: int| 0 <= j < es.len() && #[trigger] es[j].0 == k;
            if j < i {
                assert(r[j].0 == k);
            } else {
                assert(r[j + 1].0 == k);
            }
        }
    }
    assert forall|k: Seq<char>| #[trigger] has_key(r, k) implies map_of(r)[k] == map_of(es).insert(e.0, e.1)[k] by {
        let j = choose|j: int| 0 <= j < r.len() && #[trigger] r[j].0 == k;
        lemma_map_of_entry(r, j);
        if j < i {
            lemma_map_of_entry(es, j);
            lemma_lex_irreflexive(k);
        } else if j > i {
            lemma_map_of_entry(es, j - 1);
            lemma_lex_irreflexive(k);
        }
    }
    assert(map_of(r) =~= map_of(es).insert(e.0, e.1));
}

/// Replacing the property of entry `i` updates the map at its id.
pub proof fn lemma_map_of_update(es: Seq<(Seq<char>, PropertyView)>, i: int, p: PropertyView)
    requires
        strictly_sorted(es),
        0 <= i < es.len(),
    ensures
        strictly_sorted(es.update(i, (es[i].0, p))),
        map_of(es.update(i, (es[i].0, p))) == map_of(es).insert(es[i].0, p),
{
    let r = es.update(i, (es[i].0, p));
    assert forall|a: int, b: int| 0 <= a < b < r.len() implies lex_lt(
        #[trigger] r[a].0,
        #[trigger] r[b].0,
    ) by {
        assert(r[a].0 == es[a].0 && r[b].0 == es[b].0);
    }
    assert forall|k: Seq<char>| #[trigger] has_key(r, k) == has_key(es, k) by {
        if has_key(r, k) {
            let j = choose|j: int| 0 <= j < r.len() && #[trigger] r[j].0 == k;
            assert(es[j].0 == k);
        }
        if has_key(es, k) {
            let j = choose|j: int| 0 <= j < es.len() && #[trigger] es[j].0 == k;
            assert(r[j].0 == k);
        }
    }
    assert forall|k: Seq<char>| #[trigger] has_key(r, k) implies map_of(r)[k] == map_of(es).insert(es[i].0, p)[k] by {
        let j = choose|j: int| 0 <= j < r.len() && #[trigger] r[j].0 == k;
        lemma_map_of_entry(r, j);
        lemma_map_of_entry(es, j);
        if j != i {
            lemma_sorted_distinct(es, i, j);
        }
    }
    assert(map_of(r) =~= map_of(es).insert(es[i].0, p));
}

/// Extending a sorted prefix by its next entry inserts that entry in the
/// map.
pub proof fn lemma_map_of_prefix(es: Seq<(Seq<char>, PropertyView)>, j: int)
    requires
        strictly_sorted(es),
        0 <= j < es.len(),
    ensures
        map_of(es.take(j + 1)) == map_of(es.take(j)).insert(es[j].0, es[j].1),
        map_of(es.take(0)) == Map::<Seq<char>, PropertyView>::empty(),
{
    let a = es.take(j);
    let b = es.take(j + 1);
    assert(strictly_sorted(a));
    assert(strictly_sorted(b));
    assert forall|k: Seq<char>| #[trigger] map_of(b).contains_key(k) == map_of(a).insert(es[j].0, es[j].1).contains_key(k) by {
        if has_key(b, k) {
            let i = choose|i: int| 0 <= i < b.len() && #[trigger] b[i].0 == k;
            if i < j {
                assert(a[i].0 == k);
            }
        }
        if has_key(a, k) {
            let i = choose|i: int| 0 <= i < a.len() && #[trigger] a[i].0 == k;
            assert(b[i].0 == k);
        }
        if k == es[j].0 {
            assert(b[j].0 == k);
        }
    }
    assert forall|k: Seq<char>| #[trigger] map_of(b).contains_key(k) implies map_of(b)[k] == map_of(a).insert(
        es[j].0,
        es[j].1,
    )[k] by {
        let i = choose|i: int| 0 <= i < b.len() && #[trigger] b[i].0 == k;
        lemma_map_of_entry(b, i);
        if i < j {
            assert(a[i] == b[i]);
            lemma_map_of_entry(a, i);
            if k == es[j].0 {
                lemma_sorted_distinct(b, i, j);
            }
        }
    }
    assert(map_of(b) =~= map_of(a).insert(es[j].0, es[j].1));
    assert(map_of(es.take(0)) =~= Map::<Seq<char>, PropertyView>::empty());
}

/// The `<Property>` entries of a header, keyed by id. Iteration is ordered
/// by id (code point order), not by document order; each id occurs once.
#[derive(Debug, PartialEq, Eq)]
pub struct PropertyMap {
    entries: Vec<(String, Property)>,
}

/// An entry's view: its id and property.
pub open spec fn entry_view(e: (String, Property)) -> (Seq<char>, PropertyView) {
    (e.0@, e.1@)
}

impl PropertyMap {
    /// The entries in iteration order, as views.
    pub closed spec fn entry_views(self) -> Seq<(Seq<char>, PropertyView)> {
        self.entries@.map_values(|e: (String, Property)| entry_view(e))
    }

    /// The ids strictly increase along the entries.
    #[verifier::type_invariant]
    pub closed spec fn wf(self) -> bool {
        strictly_sorted(self.entry_views())
    }

    /// What a well-formed map guarantees about its entries.
    pub proof fn lemma_wf(&self)
        requires
            self.wf(),
        ensures
            strictly_sorted(self.entry_views()),
            self@ == map_of(self.entry_views()),
            self@.len() == self.entry_views().len(),
    {
        lemma_map_of_len(self.entry_views());
    }
}

impl View for PropertyMap {
    type V = Map<Seq<char>, PropertyView>;

    closed spec fn view(&self) -> Map<Seq<char>, PropertyView> {
        map_of(self.entry_views())
    }
}

impl PropertyMap {
    /// An empty map.
    pub fn new() -> (m: Self)
        ensures
            m@ == Map::<Seq<char>, PropertyView>::empty(),
    {
        let v: Vec<(String, Property)> = Vec::new();
        assert(v@.map_values(|e: (String, Property)| entry_view(e)) =~= Seq::empty());
        let m = PropertyMap { entries: v };
        assert(m@ =~= Map::<Seq<char>, PropertyView>::empty());
        m
    }

    /// Number of properties.
    pub fn len(&self) -> (n: usize)
        ensures
            n == self@.len(),
    {
        proof {
            use_type_invariant(self);
            self.lemma_wf();
        }
        self.entries.len()
    }

    /// Whether there is no property.
    pub fn is_empty(&self) -> (b: bool)
        ensures
            b == (self@.len() == 0),
    {
        self.len() == 0
    }

    /// The entries (id, property) in iteration order: sorted by id, and
    /// together exactly the map.
    pub fn entries(&self) -> (r: &[(String, Property)])
        ensures
            r@.map_values(|e: (String, Property)| entry_view(e)) == self.entry_views(),
            strictly_sorted(self.entry_views()),
            self@ == map_of(self.entry_views()),
    {
        proof {
            use_type_invariant(self);
        }
        self.entries.as_slice()
    }

    /// Position of `id` among the entries (`true`), or where it would be
    /// inserted (`false`).
    #[verifier::loop_isolation(false)]
    fn locate(&self, id: &[char]) -> (r: (usize, bool))
        ensures
            r.0 <= self.entry_views().len(),
            r.1 ==> r.0 < self.entry_views().len() && self.entry_views()[r.0 as int].0 == id@,
            !r.1 ==> !self@.contains_key(id@),
            !r.1 ==> forall|i: int| 0 <= i < r.0 ==> lex_lt(#[trigger] self.entry_views()[i].0, id@),
            !r.1 ==> forall|i: int|
                r.0 <= i < self.entry_views().len() ==> lex_lt(id@, #[trigger] self.entry_views()[i].0),
    {
        proof {
            use_type_invariant(self);
        }
        let ghost es = self.entry_views();
        let mut i: usize = 0;
        while i < self.entries.len()
            invariant
                0 <= i <= es.len(),
                forall|j: int| 0 <= j < i ==> lex_lt(#[trigger] es[j].0, id@),
            decreases self.entries.len() - i,
        {
            let key = chars_of(self.entries[i].0.as_str());
            assert(key@ == es[i as int].0);
            if chars_equal(key.as_slice(), id) {
                return (i, true);
            }
            if !lex_less(key.as_slice(), id) {
                proof {
                    lemma_lex_total(key@, id@);
                    assert forall|j: int| i <= j < es.len() implies lex_lt(id@, #[trigger] es[j].0) by {
                        if j > i {
                            assert(lex_lt(es[i as int].0, es[j].0));
                            lemma_lex_transitive(id@, key@, es[j].0);
                        }
                    }
                    if has_key(es, id@) {
                        let j = choose|j: int| 0 <= j < es.len() && #[trigger] es[j].0 == id@;
                        lemma_lex_irreflexive(id@);
                    }
                }
                return (i, false);
            }
            i += 1;
        }
        proof {
            if has_key(es, id@) {
                let j = choose|j: int| 0 <= j < es.len() && #[trigger] es[j].0 == id@;
                lemma_lex_irreflexive(id@);
            }
        }
        (i, false)
    }

    /// The property with id `id`, if any.
    pub fn get(&self, id: &str) -> (r: Option<&Property>)
        ensures
            match r {
                Some(p) => self@.contains_key(id@) && p@ == self@[id@],
                None => !self@.contains_key(id@),
            },
    {
        proof {
            use_type_invariant(self);
        }
        let key = chars_of(id);
        let (i, found) = self.locate(key.as_slice());
        if found {
            proof {
                lemma_map_of_entry(self.entry_views(), i as int);
            }
            Some(&self.entries[i].1)
        } else {
            None
        }
    }

    /// Whether a property with id `id` exists.
    pub fn contains_key(&self, id: &str) -> (r: bool)
        ensures
            r == self@.contains_key(id@),
    {
        self.get(id).is_some()
    }

    /// Remove the property `id`; `true` if it existed.
    pub fn remove(&mut self, id: &str) -> (r: bool)
        ensures
            r == old(self)@.contains_key(id@),
            final(self)@ == old(self)@.remove(id@),
    {
        proof {
            use_type_invariant(&*self);
        }
        let key = chars_of(id);
        let (i, found) = self.locate(key.as_slice());
        if !found {
            assert(self@ =~= old(self)@.remove(id@));
            return false;
        }
        let ghost es = self.entry_views();
        let mut entries: Vec<(String, Property)> = Vec::new();
        std::mem::swap(&mut entries, &mut self.entries);
        let _ = entries.remove(i);
        proof {
            lemma_map_of_remove(es, i as int);
            assert(entries@.map_values(|e: (String, Property)| entry_view(e)) =~= es.remove(i as int));
        }
        self.entries = entries;
        true
    }

    /// Insert the property `p` under `id`, replacing any property there.
    pub fn insert(&mut self, id: String, p: Property)
        ensures
            final(self)@ == old(self)@.insert(id@, p@),
    {
        proof {
            use_type_invariant(&*self);
        }
        let key = chars_of(id.as_str());
        let (i, found) = self.locate(key.as_slice());
        let ghost es = self.entry_views();
        let ghost e = (id@, p@);
        let mut entries: Vec<(String, Property)> = Vec::new();
        std::mem::swap(&mut entries, &mut self.entries);
        if found {
            let mut slot = (id, p);
            entries.set_and_swap(i, &mut slot);
            proof {
                lemma_map_of_entry(es, i as int);
                lemma_map_of_update(es, i as int, e.1);
                assert(entries@.map_values(|e: (String, Property)| entry_view(e)) =~= es.update(
                    i as int,
                    (es[i as int].0, e.1),
                ));
            }
        } else {
            entries.insert(i, (id, p));
            proof {
                lemma_map_of_insert(es, i as int, e);
                assert(entries@.map_values(|e: (String, Property)| entry_view(e)) =~= es.insert(
                    i as int,
                    e,
                ));
            }
        }
        self.entries = entries;
    }

    /// Write `value` (and `type_`, when given) into the property `id`: an
    /// existing property keeps its other fields, a new one starts from the
    /// default property (type `String`).
    pub fn upsert(&mut self, id: String, value: String, type_: Option<String>)
        ensures
            ({
                let cur = if old(self)@.contains_key(id@) {
                    old(self)@[id@]
                } else {
                    default_property()
                };
                final(self)@ == old(self)@.insert(
                    id@,
                    PropertyView {
                        value: value@,
                        type_: match type_ {
                            Some(t) => t@,
                            None => cur.type_,
                        },
                        ..cur
                    },
                )
            }),
    {
        proof {
            use_type_invariant(&*self);
        }
        let key = chars_of(id.as_str());
        let (i, found) = self.locate(key.as_slice());
        let ghost es = self.entry_views();
        let mut entries: Vec<(String, Property)> = Vec::new();
        std::mem::swap(&mut entries, &mut self.entries);
        if found {
            let mut slot = (String::new(), Property::default());
            entries.set_and_swap(i, &mut slot);
            let (k, mut p) = slot;
            p.value = value;
            match type_ {
                Some(t) => {
                    p.type_ = t;
                },
                None => {},
            }
            let ghost pv = p@;
            let mut back = (k, p);
            entries.set_and_swap(i, &mut back);
            proof {
                lemma_map_of_entry(es, i as int);
                lemma_map_of_update(es, i as int, pv);
                assert(entries@.map_values(|e: (String, Property)| entry_view(e)) =~= es.update(
                    i as int,
                    (es[i as int].0, pv),
                ));
            }
        } else {
            let mut p = Property::default();
            p.value = value;
            match type_ {
                Some(t) => {
                    p.type_ = t;
                },
                None => {},
            }
            let ghost e = (id@, p@);
            entries.insert(i, (id, p));
            proof {
                lemma_map_of_insert(es, i as int, e);
                assert(entries@.map_values(|e: (String, Property)| entry_view(e)) =~= es.insert(
                    i as int,
                    e,
                ));
            }
        }
        self.entries = entries;
    }
}

impl Clone for PropertyMap {
    /// A copy with the same entries.
    fn clone(&self) -> (r: Self)
        ensures
            r@ == self@,
            r.entry_views() == self.entry_views(),
    {
        proof {
            use_type_invariant(self);
        }
        let ghost es = self.entry_views();
        let mut v: Vec<(String, Property)> = Vec::new();
        let mut i: usize = 0;
        while i < self.entries.len()
            invariant
                0 <= i <= es.len() == self.entries@.len(),
                es == self.entry_views(),
                v@.map_values(|e: (String, Property)| entry_view(e)) == es.take(i as int),
            decreases self.entries.len() - i,
        {
            let e = &self.entries[i];
            let k = e.0.clone();
            let p = e.1.duplicate();
            assert(es[i as int] == entry_view(self.entries@[i as int]));
            assert(entry_view((k, p)) == es[i as int]);
            let ghost old_v = v@;
            v.push((k, p));
            proof {
                let nv = v@.map_values(|e: (String, Property)| entry_view(e));
                let ov = old_v.map_values(|e: (String, Property)| entry_view(e));
                assert(ov.len() == old_v.len());
                assert(ov.len() == i);
                assert(v@ == old_v.push((k, p)));
                assert(nv.len() == i + 1);
                assert forall|j: int| 0 <= j < nv.len() implies nv[j] == es.take(i + 1)[j] by {
                    if j < i {
                        assert(v@[j] == old_v[j]);
                        assert(ov[j] == es.take(i as int)[j]);
                    }
                }
                assert(nv =~= es.take(i + 1));
            }
            i += 1;
        }
        assert(es.take(i as int) =~= es);
        PropertyMap { entries: v }
    }
}

} // verus!
