use vstd::prelude::*;
use vstd::string::StringSliceAdditionalSpecFns;
use vstd::utf8::*;

use crate::base64_text::{base64_spec, encode_standard, lemma_base64_ascii_len};
use crate::hex::{hex_digits, hex_of, lemma_hex_len};
use crate::strings::{
    byte_len, lemma_byte_len_ascii, max_string_bytes, push_char, push_str,
    str_eq,
};

verus! {

// ---------------------------------------------------------------------
// The HTML document that is encoded.
// ---------------------------------------------------------------------

/// A node of an HTML document.
pub enum HtmlNode {
    /// An introspection tag, which has no output.
    Tag,
    /// A run of text.
    Text(String),
    /// An element.
    Element(HtmlElement),
    /// A laid-out frame, already rendered as SVG.
    Frame(HtmlFrame),
}

/// An element of an HTML document: its tag, its attributes in order, and
/// its children.
pub struct HtmlElement {
    pub tag: String,
    pub attrs: Vec<(String, String)>,
    pub children: Vec<HtmlNode>,
}

/// A laid-out frame: its SVG text, and a 128-bit hash of the frame.
pub struct HtmlFrame {
    pub svg: String,
    pub hash: u128,
}

// ---------------------------------------------------------------------
// The Hast tree that it is encoded into.
// ---------------------------------------------------------------------

/// A node of a Hast tree.
#[derive(Debug)]
pub enum HastElementContent {
    Root(HastRoot),
    Text(HastText),
    Comment(HastText),
    Element(Box<HastElement>),
}

/// The root of a Hast tree.
#[derive(Debug)]
pub struct HastRoot {
    pub children: Vec<HastElementContent>,
}

/// A text or comment node.
#[derive(Debug)]
pub struct HastText {
    pub value: String,
}

/// An element node. Its properties are ordered by name, each name once.
#[derive(Debug)]
pub struct HastElement {
    pub tag_name: String,
    pub properties: Vec<(String, String)>,
    pub children: Vec<HastElementContent>,
    pub data: Option<HastElementData>,
}

/// Extra data of an element.
#[derive(Debug)]
pub struct HastElementData {
    pub hash: Option<String>,
}

/// The model of a Hast node.
pub enum HastModel {
    Root(Seq<HastModel>),
    Text(Seq<char>),
    Comment(Seq<char>),
    Element(Seq<char>, Seq<(Seq<char>, Seq<char>)>, Seq<HastModel>, Option<Option<Seq<char>>>),
}

/// Pairs of strings as pairs of character sequences.
pub open spec fn pairs_model(v: Seq<(String, String)>) -> Seq<(Seq<char>, Seq<char>)> {
    Seq::new(v.len(), |i: int| (v[i].0@, v[i].1@))
}

pub open spec fn hast_model(h: HastElementContent) -> HastModel
    decreases h,
{
    match h {
        HastElementContent::Root(r) => HastModel::Root(hasts_model(r.children@)),
        HastElementContent::Text(t) => HastModel::Text(t.value@),
        HastElementContent::Comment(t) => HastModel::Comment(t.value@),
        HastElementContent::Element(e) => HastModel::Element(
            e.tag_name@,
            pairs_model(e.properties@),
            hasts_model(e.children@),
            match e.data {
                Some(d) => Some(
                    match d.hash {
                        Some(s) => Some(s@),
                        None => None,
                    },
                ),
                None => None,
            },
        ),
    }
}

pub open spec fn hasts_model(s: Seq<HastElementContent>) -> Seq<HastModel>
    decreases s,
{
    if s.len() == 0 {
        Seq::empty()
    } else {
        hasts_model(s.drop_last()).push(hast_model(s.last()))
    }
}

impl Default for HastElementContent {
    /// An empty root.
    fn default() -> (r: HastElementContent)
        ensures
            hast_model(r) == HastModel::Root(Seq::empty()),
    {
        let r = HastElementContent::Root(HastRoot { children: Vec::new() });
        assert(hasts_model(Seq::<HastElementContent>::empty()) =~= Seq::<HastModel>::empty());
        r
    }
}

// ---------------------------------------------------------------------
// Properties: attributes collected by name, in byte order of the names.
// ---------------------------------------------------------------------

/// Byte-wise lexicographic order, the order of `str`.
pub open spec fn bytes_lt(a: Seq<u8>, b: Seq<u8>) -> bool
    decreases a.len(),
{
    if a.len() == 0 {
        b.len() > 0
    } else if b.len() == 0 {
        false
    } else if a[0] != b[0] {
        a[0] < b[0]
    } else {
        bytes_lt(a.drop_first(), b.drop_first())
    }
}

/// The order of names: that of their UTF-8 bytes.
pub open spec fn key_lt(a: Seq<char>, b: Seq<char>) -> bool {
    bytes_lt(encode_utf8(a), encode_utf8(b))
}

proof fn lemma_bytes_lt_total(a: Seq<u8>, b: Seq<u8>)
    ensures
        !bytes_lt(a, a),
        bytes_lt(a, b) ==> !bytes_lt(b, a),
        a != b ==> bytes_lt(a, b) || bytes_lt(b, a),
    decreases a.len(),
{
    if a.len() > 0 && b.len() > 0 {
        lemma_bytes_lt_total(a.drop_first(), b.drop_first());
        lemma_bytes_lt_total(a.drop_first(), a.drop_first());
        if a[0] == b[0] && a != b {
            assert(a.drop_first() != b.drop_first()) by {
                if a.drop_first() == b.drop_first() {
                    assert(a =~= seq![a[0]] + a.drop_first());
                    assert(b =~= seq![b[0]] + b.drop_first());
                }
            }
        }
    } else if a.len() > 0 {
        lemma_bytes_lt_total(a.drop_first(), a.drop_first());
    } else if b.len() == 0 {
        assert(a =~= b);
    }
}

proof fn lemma_bytes_lt_trans(a: Seq<u8>, b: Seq<u8>, c: Seq<u8>)
    requires
        bytes_lt(a, b),
        bytes_lt(b, c),
    ensures
        bytes_lt(a, c),
    decreases a.len(),
{
    if a.len() > 0 && b.len() > 0 && c.len() > 0 && a[0] == b[0] && b[0] == c[0] {
        lemma_bytes_lt_trans(a.drop_first(), b.drop_first(), c.drop_first());
    }
}

/// The order of names is a strict total order.
pub proof fn lemma_key_order(a: Seq<char>, b: Seq<char>, c: Seq<char>)
    ensures
        !key_lt(a, a),
        key_lt(a, b) ==> !key_lt(b, a),
        a != b ==> key_lt(a, b) || key_lt(b, a),
        key_lt(a, b) && key_lt(b, c) ==> key_lt(a, c),
{
    lemma_bytes_lt_total(encode_utf8(a), encode_utf8(b));
    encode_utf8_decode_utf8(a);
    encode_utf8_decode_utf8(b);
    if key_lt(a, b) && key_lt(b, c) {
        lemma_bytes_lt_trans(encode_utf8(a), encode_utf8(b), encode_utf8(c));
    }
}

/// Whether `a` comes before `b` in byte order.
fn str_lt(a: &str, b: &str) -> (r: bool)
    ensures
        r == key_lt(a@, b@),
{
    let x = a.as_bytes();
    let y = b.as_bytes();
    let ghost xs = x@;
    let ghost ys = y@;
    let mut i: usize = 0;
    assert(xs.subrange(0, xs.len() as int) =~= xs);
    assert(ys.subrange(0, ys.len() as int) =~= ys);
    while i < x.len() && i < y.len() && x[i] == y[i]
        invariant
            xs == x@,
            ys == y@,
            xs == a.spec_bytes(),
            ys == b.spec_bytes(),
            i <= xs.len(),
            i <= ys.len(),
            bytes_lt(xs, ys) == bytes_lt(xs.subrange(i as int, xs.len() as int), ys.subrange(i as int, ys.len() as int)),
        decreases xs.len() - i,
    {
        let ghost xr = xs.subrange(i as int, xs.len() as int);
        let ghost yr = ys.subrange(i as int, ys.len() as int);
        assert(xr.drop_first() =~= xs.subrange(i + 1, xs.len() as int));
        assert(yr.drop_first() =~= ys.subrange(i + 1, ys.len() as int));
        i = i + 1;
    }
    let ghost xr = xs.subrange(i as int, xs.len() as int);
    let ghost yr = ys.subrange(i as int, ys.len() as int);
    if i == x.len() {
        i < y.len()
    } else if i == y.len() {
        false
    } else {
        assert(xr[0] == xs[i as int] && yr[0] == ys[i as int]);
        x[i] < y[i]
    }
}

/// Whether names strictly increase along the properties.
pub open spec fn keys_sorted(ps: Seq<(Seq<char>, Seq<char>)>) -> bool {
    forall|i: int, j: int| 0 <= i < j < ps.len() ==> key_lt((#[trigger] ps[i]).0, (#[trigger] ps[j]).0)
}

/// Sets property `k` to `v`: an existing one with that name takes the new
/// value; otherwise it is added in order.
pub open spec fn insert_prop(ps: Seq<(Seq<char>, Seq<char>)>, k: Seq<char>, v: Seq<char>) -> Seq<(Seq<char>, Seq<char>)>
    decreases ps.len(),
{
    if ps.len() == 0 {
        seq![(k, v)]
    } else if ps.last().0 == k {
        ps.drop_last().push((k, v))
    } else if key_lt(ps.last().0, k) {
        ps.push((k, v))
    } else {
        insert_prop(ps.drop_last(), k, v).push(ps.last())
    }
}

/// The properties that a list of attributes gives: each name once, with the
/// value it was last given, in byte order of the names.
pub open spec fn props_of(attrs: Seq<(Seq<char>, Seq<char>)>) -> Seq<(Seq<char>, Seq<char>)>
    decreases attrs.len(),
{
    if attrs.len() == 0 {
        Seq::empty()
    } else {
        insert_prop(props_of(attrs.drop_last()), attrs.last().0, attrs.last().1)
    }
}

proof fn lemma_insert_prop_shape(ps: Seq<(Seq<char>, Seq<char>)>, k: Seq<char>, v: Seq<char>, p: int)
    requires
        keys_sorted(ps),
        0 <= p <= ps.len(),
        forall|j: int| p <= j < ps.len() ==> key_lt(k, #[trigger] ps[j].0),
        p > 0 ==> !key_lt(k, ps[p - 1].0),
    ensures
        insert_prop(ps, k, v) == (if p > 0 && ps[p - 1].0 == k {
            ps.update(p - 1, (k, v))
        } else {
            ps.subrange(0, p).push((k, v)) + ps.subrange(p, ps.len() as int)
        }),
    decreases ps.len(),
{
    if ps.len() == 0 {
        assert(insert_prop(ps, k, v) =~= ps.subrange(0, p).push((k, v)) + ps.subrange(p, ps.len() as int));
    } else {
        let last = ps.last();
        lemma_key_order(k, last.0, k);
        if last.0 == k {
            assert(p == ps.len());
            assert(insert_prop(ps, k, v) =~= ps.update(p - 1, (k, v)));
        } else if key_lt(last.0, k) {
            assert(p == ps.len());
            assert(insert_prop(ps, k, v) =~= ps.subrange(0, p).push((k, v)) + ps.subrange(p, ps.len() as int));
        } else {
            assert(key_lt(k, last.0));
            assert(p < ps.len());
            let init = ps.drop_last();
            assert forall|i: int, j: int| 0 <= i < j < init.len() implies key_lt((#[trigger] init[i]).0, (#[trigger] init[j]).0) by {
                assert(init[i] == ps[i] && init[j] == ps[j]);
            }
            lemma_insert_prop_shape(init, k, v, p);
            if p > 0 && ps[p - 1].0 == k {
                assert(init[p - 1] == ps[p - 1]);
                assert(insert_prop(ps, k, v) =~= ps.update(p - 1, (k, v)));
            } else {
                assert(insert_prop(ps, k, v) =~= ps.subrange(0, p).push((k, v)) + ps.subrange(p, ps.len() as int));
            }
        }
    }
}

proof fn lemma_insert_prop_sorted(ps: Seq<(Seq<char>, Seq<char>)>, k: Seq<char>, v: Seq<char>, p: int)
    requires
        keys_sorted(ps),
        0 <= p <= ps.len(),
        forall|j: int| p <= j < ps.len() ==> key_lt(k, #[trigger] ps[j].0),
        p > 0 ==> !key_lt(k, ps[p - 1].0),
    ensures
        keys_sorted(insert_prop(ps, k, v)),
{
    lemma_insert_prop_shape(ps, k, v, p);
    let t = insert_prop(ps, k, v);
    if p > 0 && ps[p - 1].0 == k {
        assert forall|i: int, j: int| 0 <= i < j < t.len() implies key_lt((#[trigger] t[i]).0, (#[trigger] t[j]).0) by {
            assert(t[i].0 == ps[i].0 && t[j].0 == ps[j].0);
        }
    } else {
        if p > 0 {
            lemma_key_order(k, ps[p - 1].0, k);
            assert(key_lt(ps[p - 1].0, k));
        }
        assert forall|i: int| 0 <= i < t.len() implies #[trigger] t[i] == (if i < p {
            ps[i]
        } else if i == p {
            (k, v)
        } else {
            ps[i - 1]
        }) by {}
        assert forall|i: int, j: int| 0 <= i < j < t.len() implies key_lt((#[trigger] t[i]).0, (#[trigger] t[j]).0) by {
            assert(t[i] == (if i < p { ps[i] } else if i == p { (k, v) } else { ps[i - 1] }));
            assert(t[j] == (if j < p { ps[j] } else if j == p { (k, v) } else { ps[j - 1] }));
            if i < p && j == p {
                if i < p - 1 {
                    lemma_key_order(ps[i].0, ps[p - 1].0, k);
                }
            } else if i < p && j > p {
                if i < j - 1 {
                    assert(key_lt(ps[i].0, ps[j - 1].0));
                }
            }
        }
    }
}

/// The value that attribute `k` was last given, if any.
pub open spec fn last_value(attrs: Seq<(Seq<char>, Seq<char>)>, k: Seq<char>) -> Option<Seq<char>>
    decreases attrs.len(),
{
    if attrs.len() == 0 {
        None
    } else if attrs.last().0 == k {
        Some(attrs.last().1)
    } else {
        last_value(attrs.drop_last(), k)
    }
}

/// The number of leading properties whose names do not come after `k`.
pub open spec fn prop_point(ps: Seq<(Seq<char>, Seq<char>)>, k: Seq<char>) -> int
    decreases ps.len(),
{
    if ps.len() == 0 {
        0
    } else if !key_lt(k, ps.last().0) {
        ps.len() as int
    } else {
        prop_point(ps.drop_last(), k)
    }
}

proof fn lemma_prop_point(ps: Seq<(Seq<char>, Seq<char>)>, k: Seq<char>)
    ensures
        0 <= prop_point(ps, k) <= ps.len(),
        forall|j: int| prop_point(ps, k) <= j < ps.len() ==> key_lt(k, #[trigger] ps[j].0),
        prop_point(ps, k) > 0 ==> !key_lt(k, ps[prop_point(ps, k) - 1].0),
    decreases ps.len(),
{
    if ps.len() > 0 && key_lt(k, ps.last().0) {
        let init = ps.drop_last();
        lemma_prop_point(init, k);
        assert forall|j: int| prop_point(ps, k) <= j < ps.len() implies key_lt(k, #[trigger] ps[j].0) by {
            if j < ps.len() - 1 {
                assert(ps[j] == init[j]);
            }
        }
    }
}

/// Collecting attributes into properties keeps each name once, ordered by
/// name, with the value it was last given.
pub proof fn lemma_props_of(attrs: Seq<(Seq<char>, Seq<char>)>)
    ensures
        keys_sorted(props_of(attrs)),
        forall|i: int| 0 <= i < props_of(attrs).len() ==> last_value(attrs, (#[trigger] props_of(attrs)[i]).0)
            == Some(props_of(attrs)[i].1),
        forall|k: Seq<char>| #[trigger] last_value(attrs, k) is Some ==> exists|i: int|
            0 <= i < props_of(attrs).len() && (#[trigger] props_of(attrs)[i]).0 == k,
    decreases attrs.len(),
{
    if attrs.len() > 0 {
        let init = attrs.drop_last();
        let (k, v) = attrs.last();
        lemma_props_of(init);
        let ps = props_of(init);
        let p = prop_point(ps, k);
        lemma_prop_point(ps, k);
        lemma_insert_prop_shape(ps, k, v, p);
        lemma_insert_prop_sorted(ps, k, v, p);
        let t = props_of(attrs);
        assert(t == insert_prop(ps, k, v));
        if p > 0 && ps[p - 1].0 == k {
            assert(t == ps.update(p - 1, (k, v)));
            assert forall|i: int| 0 <= i < t.len() implies last_value(attrs, (#[trigger] t[i]).0) == Some(t[i].1) by {
                if i != p - 1 {
                    assert(t[i] == ps[i]);
                    assert(ps[i].0 != k) by {
                        lemma_key_order(ps[i].0, k, k);
                        if i < p - 1 {
                            assert(key_lt(ps[i].0, ps[p - 1].0));
                        } else {
                            assert(key_lt(ps[p - 1].0, ps[i].0));
                        }
                    }
                }
            }
            assert forall|q: Seq<char>| #[trigger] last_value(attrs, q) is Some implies exists|i: int|
                0 <= i < t.len() && (#[trigger] t[i]).0 == q by {
                if q == k {
                    assert(t[p - 1].0 == q);
                } else {
                    assert(last_value(init, q) is Some);
                    let i = choose|i: int| 0 <= i < ps.len() && (#[trigger] ps[i]).0 == q;
                    assert(t[i].0 == q);
                }
            }
        } else {
            assert(t == ps.subrange(0, p).push((k, v)) + ps.subrange(p, ps.len() as int));
            assert forall|i: int| 0 <= i < t.len() implies #[trigger] t[i] == (if i < p {
                ps[i]
            } else if i == p {
                (k, v)
            } else {
                ps[i - 1]
            }) by {}
            assert forall|i: int| 0 <= i < t.len() implies last_value(attrs, (#[trigger] t[i]).0) == Some(t[i].1) by {
                assert(t[i] == (if i < p { ps[i] } else if i == p { (k, v) } else { ps[i - 1] }));
                if i < p {
                    lemma_key_order(ps[i].0, k, k);
                    if i < p - 1 {
                        lemma_key_order(ps[i].0, ps[p - 1].0, k);
                        lemma_key_order(k, ps[p - 1].0, k);
                    } else {
                        lemma_key_order(k, ps[p - 1].0, k);
                    }
                    assert(ps[i].0 != k);
                } else if i > p {
                    lemma_key_order(k, ps[i - 1].0, k);
                    assert(ps[i - 1].0 != k);
                }
            }
            assert forall|q: Seq<char>| #[trigger] last_value(attrs, q) is Some implies exists|i: int|
                0 <= i < t.len() && (#[trigger] t[i]).0 == q by {
                if q == k {
                    assert(t[p].0 == q);
                } else {
                    assert(last_value(init, q) is Some);
                    let i = choose|i: int| 0 <= i < ps.len() && (#[trigger] ps[i]).0 == q;
                    if i < p {
                        assert(t[i].0 == q);
                    } else {
                        assert(t[i + 1].0 == q);
                    }
                }
            }
        }
    }
}

/// Sets a property in a list ordered by name.
fn insert_prop_vec(ps: &mut Vec<(String, String)>, k: String, v: String)
    requires
        keys_sorted(pairs_model(old(ps)@)),
    ensures
        keys_sorted(pairs_model(final(ps)@)),
        pairs_model(final(ps)@) == insert_prop(pairs_model(old(ps)@), k@, v@),
{
    let ghost before = pairs_model(ps@);
    let mut p = ps.len();
    while p > 0 && str_lt(k.as_str(), ps[p - 1].0.as_str())
        invariant
            p <= ps@.len(),
            before == pairs_model(ps@),
            forall|j: int| p <= j < ps@.len() ==> key_lt(k@, #[trigger] before[j].0),
        decreases p,
    {
        p = p - 1;
    }
    proof {
        lemma_insert_prop_shape(before, k@, v@, p as int);
        lemma_insert_prop_sorted(before, k@, v@, p as int);
    }
    if p > 0 && str_eq(ps[p - 1].0.as_str(), k.as_str()) {
        ps.set(p - 1, (k, v));
        assert(pairs_model(ps@) =~= before.update(p - 1, (k@, v@)));
    } else {
        ps.insert(p, (k, v));
        assert(pairs_model(ps@) =~= before.subrange(0, p as int).push((k@, v@)) + before.subrange(p as int, before.len() as int));
    }
}

/// Collects attributes into properties.
fn collect_props(attrs: &Vec<(String, String)>) -> (r: Vec<(String, String)>)
    ensures
        pairs_model(r@) == props_of(pairs_model(attrs@)),
        keys_sorted(pairs_model(r@)),
{
    let ghost am = pairs_model(attrs@);
    let mut r: Vec<(String, String)> = Vec::new();
    assert(pairs_model(r@) =~= Seq::<(Seq<char>, Seq<char>)>::empty());
    assert(am.subrange(0, 0) =~= Seq::<(Seq<char>, Seq<char>)>::empty());
    let mut i: usize = 0;
    while i < attrs.len()
        invariant
            i <= attrs@.len(),
            am == pairs_model(attrs@),
            pairs_model(r@) == props_of(am.subrange(0, i as int)),
            keys_sorted(pairs_model(r@)),
        decreases attrs@.len() - i,
    {
        let (k, v) = &attrs[i];
        assert(am.subrange(0, i + 1).drop_last() =~= am.subrange(0, i as int));
        assert(am.subrange(0, i + 1).last() == (k@, v@));
        insert_prop_vec(&mut r, k.clone(), v.clone());
        i = i + 1;
    }
    assert(am.subrange(0, am.len() as int) =~= am);
    r
}

// ---------------------------------------------------------------------
// Frames: an image whose source is the SVG as a base64 data URL.
// ---------------------------------------------------------------------

/// `s` with each occurrence of `from` replaced by `to`, scanning from the
/// start and not overlapping.
pub open spec fn replace_all(s: Seq<char>, from: Seq<char>, to: Seq<char>) -> Seq<char>
    decreases s.len(),
{
    if from.len() == 0 || s.len() < from.len() {
        s
    } else if s.subrange(0, from.len() as int) == from {
        to + replace_all(s.subrange(from.len() as int, s.len() as int), from, to)
    } else {
        seq![s[0]] + replace_all(s.drop_first(), from, to)
    }
}

/// `str::replace`: replaces all matches of `from` with `to`, which the
/// documentation describes as matches found from the start, without
/// overlap. The result must fit in a string.
#[verifier::external_body]
fn str_replace(s: &str, from: &str, to: &str) -> (r: String)
    requires
        from@.len() > 0,
        byte_len(replace_all(s@, from@, to@)) <= max_string_bytes(),
    ensures
        r@ == replace_all(s@, from@, to@),
{
    s.replace(from, to)
}

/// The SVG of a frame as it is embedded: visible overflow on the root.
pub open spec fn frame_svg(svg: Seq<char>) -> Seq<char> {
    replace_all(svg, "<svg class"@, "<svg style=\"overflow: visible;\" class"@)
}

/// The hexadecimal digits of `n`, padded with zeros to at least `w`.
pub open spec fn hex_padded(n: nat, w: nat) -> Seq<char> {
    let h = hex_of(n);
    if h.len() < w {
        Seq::new((w - h.len()) as nat, |i: int| '0') + h
    } else {
        h
    }
}

/// The data of a frame's image: a cheap hash of the frame.
pub open spec fn frame_hash(hash: u128) -> Seq<char> {
    "siphash128_13:"@ + hex_padded(hash as nat, 16)
}

/// The source of a frame's image.
pub open spec fn frame_src(svg: Seq<char>) -> Seq<char> {
    "data:image/svg+xml;base64,"@ + base64_spec(encode_utf8(frame_svg(svg)), true)
}

/// The image element that a frame becomes.
pub open spec fn frame_hast(f: HtmlFrame) -> HastModel {
    HastModel::Element(
        "img"@,
        seq![("class"@, "typst-frame"@), ("data-typst-doc"@, "1"@), ("src"@, frame_src(f.svg@))],
        Seq::empty(),
        Some(Some(frame_hash(f.hash))),
    )
}

/// Whether a frame's image source fits in a string.
pub open spec fn frame_fits(f: HtmlFrame) -> bool {
    (byte_len(frame_svg(f.svg@)) + 2) / 3 * 4 + 26 <= max_string_bytes()
}

/// Writes `hash` as at least 16 lower-case hexadecimal digits.
fn write_hash(hash: u128) -> (r: String)
    ensures
        r@ == frame_hash(hash),
{
    let digits = hex_digits(hash);
    let mut out = String::from_str("siphash128_13:");
    proof {
        reveal_strlit("siphash128_13:");
        lemma_hex_len(hash as nat);
    }
    let ghost start = out@;
    let mut pad: usize = 0;
    let width: usize = if digits.len() < 16 {
        16 - digits.len()
    } else {
        0
    };
    while pad < width
        invariant
            pad <= width,
            width <= 16,
            start.len() == 14,
            out@ == start + Seq::new(pad as nat, |i: int| '0'),
            forall|i: int| 0 <= i < out@.len() ==> (#[trigger] out@[i] as u32) < 128,
        decreases width - pad,
    {
        proof {
            lemma_byte_len_ascii(out@.push('0'));
        }
        push_char(&mut out, '0');
        pad = pad + 1;
        assert(out@ =~= start + Seq::new(pad as nat, |i: int| '0'));
    }
    let ghost padded = out@;
    let mut i: usize = 0;
    while i < digits.len()
        invariant
            i <= digits@.len(),
            digits@ == hex_of(hash as nat),
            digits@.len() <= 32,
            padded.len() <= 30,
            out@ == padded + digits@.subrange(0, i as int),
            forall|j: int| 0 <= j < out@.len() ==> (#[trigger] out@[j] as u32) < 128,
            forall|j: int| 0 <= j < digits@.len() ==> (#[trigger] digits@[j] as u32) < 128,
        decreases digits@.len() - i,
    {
        proof {
            lemma_byte_len_ascii(out@.push(digits@[i as int]));
        }
        push_char(&mut out, digits[i]);
        i = i + 1;
        assert(out@ =~= padded + digits@.subrange(0, i as int));
    }
    assert(digits@.subrange(0, digits@.len() as int) =~= digits@);
    assert(out@ =~= "siphash128_13:"@ + hex_padded(hash as nat, 16));
    out
}

/// Writes a frame as an image whose source is its SVG as a base64 data URL,
/// with the frame's hash as its data.
fn write_frame(frame: &HtmlFrame, buf: &mut Vec<HastElementContent>)
    requires
        frame_fits(*frame),
    ensures
        hasts_model(final(buf)@) == hasts_model(old(buf)@).push(frame_hast(*frame)),
{
    let from = "<svg class";
    let to = "<svg style=\"overflow: visible;\" class";
    proof {
        reveal_strlit("<svg class");
        let n = byte_len(frame_svg(frame.svg@));
        assert(n <= (n + 2) / 3 * 4) by (nonlinear_arith);
    }
    let svg = str_replace(frame.svg.as_str(), from, to);
    let bytes = svg.as_str().as_bytes();
    proof {
        lemma_base64_ascii_len(bytes@, true);
        let n = byte_len(frame_svg(frame.svg@));
        assert((bytes@.len() + 2) / 3 * 4 <= isize::MAX);
    }
    let b64 = encode_standard(bytes);
    let mut src = String::from_str("data:image/svg+xml;base64,");
    proof {
        reveal_strlit("data:image/svg+xml;base64,");
        lemma_byte_len_ascii(src@ + b64@);
    }
    push_str(&mut src, b64.as_str());
    let mut properties: Vec<(String, String)> = Vec::new();
    properties.push((String::from_str("class"), String::from_str("typst-frame")));
    properties.push((String::from_str("data-typst-doc"), String::from_str("1")));
    properties.push((String::from_str("src"), src));
    let hash = write_hash(frame.hash);
    assert(pairs_model(properties@) =~= seq![("class"@, "typst-frame"@), ("data-typst-doc"@, "1"@), ("src"@, frame_src(frame.svg@))]);
    let e = HastElementContent::Element(
        Box::new(
            HastElement {
                tag_name: String::from_str("img"),
                properties,
                children: Vec::new(),
                data: Some(HastElementData { hash: Some(hash) }),
            },
        ),
    );
    assert(hasts_model(Seq::<HastElementContent>::empty()) =~= Seq::<HastModel>::empty());
    assert(svg@ == frame_svg(frame.svg@));
    assert(bytes@ == encode_utf8(frame_svg(frame.svg@)));
    assert(hast_model(e) == frame_hast(*frame));
    buf.push(e);
    assert(buf@.drop_last() =~= old(buf)@);
}

// ---------------------------------------------------------------------
// Nodes and elements.
// ---------------------------------------------------------------------

/// The Hast nodes that an HTML node becomes: none for a tag, a text node
/// for text, an element for an element, an image for a frame.
pub open spec fn node_hast(n: HtmlNode) -> Seq<HastModel>
    decreases n,
{
    match n {
        HtmlNode::Tag => Seq::empty(),
        HtmlNode::Text(t) => seq![HastModel::Text(t@)],
        HtmlNode::Element(e) => seq![element_hast(e, e.tag@)],
        HtmlNode::Frame(f) => seq![frame_hast(f)],
    }
}

/// The Hast nodes that a sequence of HTML nodes becomes, in order.
pub open spec fn nodes_hast(ns: Seq<HtmlNode>) -> Seq<HastModel>
    decreases ns,
{
    if ns.len() == 0 {
        Seq::empty()
    } else {
        nodes_hast(ns.drop_last()) + node_hast(ns.last())
    }
}

/// The Hast element that an HTML element becomes under tag name `tag`: its
/// attributes as properties, its children encoded in order, no data.
pub open spec fn element_hast(e: HtmlElement, tag: Seq<char>) -> HastModel
    decreases e,
{
    HastModel::Element(tag, props_of(pairs_model(e.attrs@)), nodes_hast(e.children@), None)
}

/// Whether every frame in a node fits.
pub open spec fn node_fits(n: HtmlNode) -> bool
    decreases n,
{
    match n {
        HtmlNode::Element(e) => element_fits(e),
        HtmlNode::Frame(f) => frame_fits(f),
        _ => true,
    }
}

/// Whether every frame in an element fits.
pub open spec fn element_fits(e: HtmlElement) -> bool
    decreases e,
{
    forall|i: int| 0 <= i < e.children@.len() ==> node_fits(#[trigger] e.children@[i])
}

/// Encodes an HTML node, appending what it becomes.
fn write_node(node: &HtmlNode, buf: &mut Vec<HastElementContent>)
    requires
        node_fits(*node),
    ensures
        hasts_model(final(buf)@) == hasts_model(old(buf)@) + node_hast(*node),
    decreases node, 2int,
{
    match node {
        HtmlNode::Tag => {
            assert(hasts_model(buf@) + Seq::<HastModel>::empty() =~= hasts_model(buf@));
        },
        HtmlNode::Text(text) => {
            let t = write_text(text);
            buf.push(t);
            assert(buf@.drop_last() =~= old(buf)@);
            assert(hasts_model(buf@) =~= hasts_model(old(buf)@) + node_hast(*node));
        },
        HtmlNode::Element(element) => {
            let e = write_element(element);
            buf.push(e);
            assert(buf@.drop_last() =~= old(buf)@);
            assert(hasts_model(buf@) =~= hasts_model(old(buf)@) + node_hast(*node));
        },
        HtmlNode::Frame(frame) => {
            write_frame(frame, buf);
            assert(hasts_model(buf@) =~= hasts_model(old(buf)@) + node_hast(*node));
        },
    }
}

/// Encodes plain text.
fn write_text(text: &String) -> (r: HastElementContent)
    ensures
        hast_model(r) == HastModel::Text(text@),
{
    HastElementContent::Text(HastText { value: text.clone() })
}

/// Encodes an element under its own tag name.
fn write_element(element: &HtmlElement) -> (r: HastElementContent)
    requires
        element_fits(*element),
    ensures
        hast_model(r) == element_hast(*element, element.tag@),
    decreases element, 1int,
{
    write_element_with_tag(element, element.tag.as_str())
}

/// Encodes an element under the tag name `tag`.
fn write_element_with_tag(element: &HtmlElement, tag: &str) -> (r: HastElementContent)
    requires
        element_fits(*element),
    ensures
        hast_model(r) == element_hast(*element, tag@),
    decreases element, 0int,
{
    let properties = collect_props(&element.attrs);
    let mut buf: Vec<HastElementContent> = Vec::new();
    let ghost kids = element.children@;
    assert(hasts_model(buf@) =~= Seq::<HastModel>::empty());
    assert(kids.subrange(0, 0) =~= Seq::<HtmlNode>::empty());
    let mut i: usize = 0;
    while i < element.children.len()
        invariant
            i <= kids.len(),
            kids == element.children@,
            element_fits(*element),
            hasts_model(buf@) == nodes_hast(kids.subrange(0, i as int)),
        decreases kids.len() - i,
    {
        assert(kids.subrange(0, i + 1).drop_last() =~= kids.subrange(0, i as int));
        assert(kids.subrange(0, i + 1).last() == kids[i as int]);
        assert(node_fits(kids[i as int]));
        write_node(&element.children[i], &mut buf);
        i = i + 1;
    }
    assert(kids.subrange(0, kids.len() as int) =~= kids);
    let e = HastElementContent::Element(
        Box::new(HastElement { tag_name: String::from_str(tag), properties, children: buf, data: None }),
    );
    e
}

/// Encodes an HTML document, given its root element, into a Hast tree.
pub fn hast(root: &HtmlElement) -> (r: HastElementContent)
    requires
        element_fits(*root),
    ensures
        hast_model(r) == element_hast(*root, root.tag@),
        hast_model(r) is Element,
        hast_model(r)->Element_1 == props_of(pairs_model(root.attrs@)),
        forall|i: int| 0 <= i < root.children@.len() && (#[trigger] root.children@[i]) is Element ==> exists|j: int|
            0 <= j < hast_model(r)->Element_2.len() && #[trigger] is_element_with(
                hast_model(r)->Element_2[j],
                (root.children@[i]->Element_0).tag@,
                props_of(pairs_model((root.children@[i]->Element_0).attrs@)),
                nodes_hast((root.children@[i]->Element_0).children@),
            ),
{
    let r = write_element(root);
    assert forall|i: int| 0 <= i < root.children@.len() && (#[trigger] root.children@[i]) is Element implies exists|j: int|
        0 <= j < hast_model(r)->Element_2.len() && #[trigger] is_element_with(
            hast_model(r)->Element_2[j],
            (root.children@[i]->Element_0).tag@,
            props_of(pairs_model((root.children@[i]->Element_0).attrs@)),
            nodes_hast((root.children@[i]->Element_0).children@),
        ) by {
        lemma_hast_keeps_child_attributes(*root, i);
    }
    r
}

/// Whether a Hast node is the element with tag `tag` whose properties are
/// `props` and whose children are `kids`, with no data.
pub open spec fn is_element_with(h: HastModel, tag: Seq<char>, props: Seq<(Seq<char>, Seq<char>)>, kids: Seq<HastModel>) -> bool {
    h == HastModel::Element(tag, props, kids, None)
}

/// Every element among a list of HTML nodes comes out of the encoding, at
/// some position, as a Hast element with its own tag, its own children
/// encoded, and its attributes as properties: one per attribute name,
/// holding the value that the name was last given.
pub proof fn lemma_child_elements_keep_attributes(ns: Seq<HtmlNode>, i: int)
    requires
        0 <= i < ns.len(),
        ns[i] is Element,
    ensures
        exists|j: int|
            0 <= j < nodes_hast(ns).len() && #[trigger] is_element_with(
                nodes_hast(ns)[j],
                (ns[i]->Element_0).tag@,
                props_of(pairs_model((ns[i]->Element_0).attrs@)),
                nodes_hast((ns[i]->Element_0).children@),
            ),
        forall|k: Seq<char>| #[trigger] last_value(pairs_model((ns[i]->Element_0).attrs@), k) is Some ==> exists|p: int|
            0 <= p < props_of(pairs_model((ns[i]->Element_0).attrs@)).len()
                && props_of(pairs_model((ns[i]->Element_0).attrs@))[p] == (
                k,
                last_value(pairs_model((ns[i]->Element_0).attrs@), k)->Some_0,
            ),
    decreases ns.len(),
{
    let c = ns[i]->Element_0;
    let a = pairs_model(c.attrs@);
    lemma_props_of(a);
    assert forall|k: Seq<char>| #[trigger] last_value(a, k) is Some implies exists|p: int|
        0 <= p < props_of(a).len() && props_of(a)[p] == (k, last_value(a, k)->Some_0) by {
        let p = choose|p: int| 0 <= p < props_of(a).len() && (#[trigger] props_of(a)[p]).0 == k;
        assert(last_value(a, props_of(a)[p].0) == Some(props_of(a)[p].1));
    }
    let init = ns.drop_last();
    if i < ns.len() - 1 {
        assert(init[i] == ns[i]);
        lemma_child_elements_keep_attributes(init, i);
        let j = choose|j: int|
            0 <= j < nodes_hast(init).len() && #[trigger] is_element_with(
                nodes_hast(init)[j],
                c.tag@,
                props_of(a),
                nodes_hast(c.children@),
            );
        assert(nodes_hast(ns) == nodes_hast(init) + node_hast(ns.last()));
        assert(nodes_hast(ns)[j] == nodes_hast(init)[j]);
    } else {
        let j = nodes_hast(init).len() as int;
        assert(node_hast(ns.last()) == seq![element_hast(c, c.tag@)]);
        assert(nodes_hast(ns) == nodes_hast(init) + node_hast(ns.last()));
        assert(nodes_hast(ns)[j] == element_hast(c, c.tag@));
        assert(is_element_with(nodes_hast(ns)[j], c.tag@, props_of(a), nodes_hast(c.children@)));
    }
}

/// The encoding of an element keeps every element child's attributes: the
/// Hast tree of `e` has, among its children, the element that each element
/// child of `e` becomes, with that child's attributes as its properties.
pub proof fn lemma_hast_keeps_child_attributes(e: HtmlElement, i: int)
    requires
        0 <= i < e.children@.len(),
        e.children@[i] is Element,
    ensures
        element_hast(e, e.tag@) is Element,
        exists|j: int|
            0 <= j < element_hast(e, e.tag@)->Element_2.len() && #[trigger] is_element_with(
                element_hast(e, e.tag@)->Element_2[j],
                (e.children@[i]->Element_0).tag@,
                props_of(pairs_model((e.children@[i]->Element_0).attrs@)),
                nodes_hast((e.children@[i]->Element_0).children@),
            ),
{
    lemma_child_elements_keep_attributes(e.children@, i);
    let kids = nodes_hast(e.children@);
    assert(element_hast(e, e.tag@) == HastModel::Element(e.tag@, props_of(pairs_model(e.attrs@)), kids, None));
    let c = e.children@[i]->Element_0;
    let j = choose|j: int|
        0 <= j < kids.len() && #[trigger] is_element_with(
            kids[j],
            c.tag@,
            props_of(pairs_model(c.attrs@)),
            nodes_hast(c.children@),
        );
    assert(element_hast(e, e.tag@)->Element_2 == kids);
    assert(0 <= j < element_hast(e, e.tag@)->Element_2.len() && is_element_with(
        element_hast(e, e.tag@)->Element_2[j],
        c.tag@,
        props_of(pairs_model(c.attrs@)),
        nodes_hast(c.children@),
    ));
}

} // verus!
