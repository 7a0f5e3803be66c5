use vstd::prelude::*;

use crate::glyph::{decimal, digit_char, lemma_decimal_ascii};
use crate::strings::{byte_len, lemma_byte_len_ascii, lemma_byte_len_concat, max_string_bytes, push_char, push_str, str_chars};

verus! {

/// An item of the semantic layer, as the walk over a page reads it. Its
/// placement has already been written out as text: `attrs` is the rest of
/// an element's opening tag (from its first attribute after those the walk
/// writes, up to and including `>`). Texts are already escaped for where
/// they stand: `content` and `label` as element text and attribute value,
/// `escaped_href` as an attribute value.
#[derive(Debug)]
pub enum SemaNode {
    /// A group, or a transformed item: its children in order.
    Group { children: Vec<SemaNode> },
    /// An item with a label.
    Labelled { label: String, child: Box<SemaNode> },
    /// A run of text.
    Text { attrs: String, content: String },
    /// A hint of content; a line break when `newline`.
    ContentHint { newline: bool, attrs: String, content: String },
    /// A link to `href`.
    Link { href: String, escaped_href: String, attrs: String },
    /// Raw HTML of a given size.
    RawHtml { attrs: String, html: String },
    /// An item with nothing to say: an image, a path, a paint.
    Nothing,
}

/// Whether a string has room to be wrapped in a few more characters.
pub open spec fn has_room(s: Seq<char>) -> bool {
    byte_len(s) + 1024 <= max_string_bytes()
}

/// Whether every text that the walk wraps into a longer piece has room.
pub open spec fn sizes_ok(n: SemaNode) -> bool
    decreases n,
{
    match n {
        SemaNode::Group { children } => sizes_ok_seq(children@),
        SemaNode::Labelled { label, child } => has_room(label@) && sizes_ok(*child),
        SemaNode::Text { attrs, content } => has_room(attrs@),
        SemaNode::Link { href, escaped_href, attrs } => has_room(href@) && has_room(escaped_href@),
        _ => true,
    }
}

/// [`sizes_ok`] of every item of a sequence.
pub open spec fn sizes_ok_seq(cs: Seq<SemaNode>) -> bool
    decreases cs,
{
    if cs.len() == 0 {
        true
    } else {
        sizes_ok_seq(cs.subrange(0, cs.len() - 1)) && sizes_ok(cs[cs.len() - 1])
    }
}

/// The number of texts in an item.
pub open spec fn text_count(n: SemaNode) -> nat
    decreases n,
{
    match n {
        SemaNode::Group { children } => text_count_seq(children@),
        SemaNode::Labelled { label, child } => text_count(*child),
        SemaNode::Text { .. } => 1,
        _ => 0,
    }
}

/// The number of texts in a sequence of items.
pub open spec fn text_count_seq(cs: Seq<SemaNode>) -> nat
    decreases cs,
{
    if cs.len() == 0 {
        0
    } else {
        text_count_seq(cs.subrange(0, cs.len() - 1)) + text_count(cs[cs.len() - 1])
    }
}

/// The opening of a group.
pub open spec fn group_open() -> Seq<char> {
    "<span class=\"typst-content-group\">"@
}

/// The closing of a span.
pub open spec fn span_close() -> Seq<char> {
    "</span>"@
}

/// The opening of a labelled group.
pub open spec fn label_open(label: Seq<char>) -> Seq<char> {
    "<span class=\"typst-content-group\" data-typst-label=\""@ + label + "\" >"@
}

/// The opening of the text numbered `id`.
pub open spec fn text_open(id: nat, attrs: Seq<char>) -> Seq<char> {
    "<span class=\"typst-content-text\" data-text-id=\""@ + decimal(id) + "\""@ + attrs
}

/// The start of a line-break hint.
pub open spec fn br_hint_open() -> Seq<char> {
    "<br class=\"typst-content-hint\""@
}

/// The start of a content hint.
pub open spec fn span_hint_open() -> Seq<char> {
    "<span class=\"typst-content-hint\""@
}

/// The start of a link to `target`.
pub open spec fn link_open(target: Seq<char>) -> Seq<char> {
    "<a class=\"typst-content-link\" href=\""@ + target + "\""@
}

/// The handler of a link into the document: it runs `code`.
pub open spec fn onclick(code: Seq<char>) -> Seq<char> {
    " onclick=\""@ + code + "; return false\""@
}

/// The closing of a link.
pub open spec fn link_close() -> Seq<char> {
    "</a>"@
}

/// The start of raw HTML.
pub open spec fn html_open() -> Seq<char> {
    "<span class=\"typst-content-html\""@
}

/// The prefix of a link into the document: `@typst:`.
pub open spec fn typst_prefix() -> Seq<char> {
    seq!['@', 't', 'y', 'p', 's', 't', ':']
}

/// Whether a link points into the document.
pub open spec fn is_typst_href(s: Seq<char>) -> bool {
    s.len() >= 7 && s.subrange(0, 7) == typst_prefix()
}

/// A link with every leading `@typst:` removed.
pub open spec fn trim_typst(s: Seq<char>) -> Seq<char>
    decreases s.len(),
{
    if is_typst_href(s) {
        trim_typst(s.subrange(7, s.len() as int))
    } else {
        s
    }
}

/// `s` as a piece when the layer is heavy, nothing otherwise.
pub open spec fn heavy_piece(heavy: bool, s: Seq<char>) -> Seq<Seq<char>> {
    if heavy {
        seq![s]
    } else {
        Seq::empty()
    }
}

/// The fallbacks (before, after) as plain values.
pub open spec fn fb_model(v: Seq<(String, String)>) -> Seq<(Seq<char>, Seq<char>)> {
    Seq::new(v.len(), |i: int| (v[i].0@, v[i].1@))
}

/// Pieces of HTML as plain values.
pub open spec fn pieces_model(v: Seq<String>) -> Seq<Seq<char>> {
    Seq::new(v.len(), |i: int| v[i]@)
}

/// What the walk over an item writes, the fallbacks left and the next
/// text number. Texts are numbered in the order met, and each takes the
/// first fallback left, written around it when the layer is heavy.
pub open spec fn node_pieces(n: SemaNode, fb: Seq<(Seq<char>, Seq<char>)>, dfn: nat, heavy: bool) -> (
    Seq<Seq<char>>,
    Seq<(Seq<char>, Seq<char>)>,
    nat,
)
    decreases n,
{
    match n {
        SemaNode::Group { children } => {
            let r = seq_pieces(children@, fb, dfn, heavy);
            (seq![group_open()] + r.0 + seq![span_close()], r.1, r.2)
        },
        SemaNode::Labelled { label, child } => {
            let r = node_pieces(*child, fb, dfn, heavy);
            (seq![Seq::<char>::empty(), label_open(label@)] + r.0 + seq![span_close()], r.1, r.2)
        },
        SemaNode::Text { attrs, content } => (
            heavy_piece(heavy, fb[0].0) + seq![text_open(dfn, attrs@), content@, span_close()] + heavy_piece(
                heavy,
                fb[0].1,
            ),
            fb.drop_first(),
            dfn + 1,
        ),
        SemaNode::ContentHint { newline, attrs, content } => (
            if newline {
                seq![br_hint_open(), attrs@]
            } else {
                seq![span_hint_open(), attrs@, content@, span_close()]
            },
            fb,
            dfn,
        ),
        SemaNode::Link { href, escaped_href, attrs } => (
            if is_typst_href(href@) {
                seq![link_open("#"@), onclick(trim_typst(href@)), attrs@, link_close()]
            } else {
                seq![link_open(escaped_href@), attrs@, link_close()]
            },
            fb,
            dfn,
        ),
        SemaNode::RawHtml { attrs, html } => (seq![html_open(), attrs@, html@, span_close()], fb, dfn),
        SemaNode::Nothing => (Seq::empty(), fb, dfn),
    }
}

/// What the walk over a sequence of items writes, in order.
pub open spec fn seq_pieces(cs: Seq<SemaNode>, fb: Seq<(Seq<char>, Seq<char>)>, dfn: nat, heavy: bool) -> (
    Seq<Seq<char>>,
    Seq<(Seq<char>, Seq<char>)>,
    nat,
)
    decreases cs,
{
    if cs.len() == 0 {
        (Seq::empty(), fb, dfn)
    } else {
        let r0 = seq_pieces(cs.subrange(0, cs.len() - 1), fb, dfn, heavy);
        let r1 = node_pieces(cs[cs.len() - 1], r0.1, r0.2, heavy);
        (r0.0 + r1.0, r1.1, r1.2)
    }
}

/// A string's bytes are at most four per character.
proof fn lemma_byte_len_le4(s: Seq<char>)
    ensures
        byte_len(s) <= 4 * s.len(),
    decreases s.len(),
{
    if s.len() > 0 {
        lemma_byte_len_le4(s.drop_first());
    }
}

/// `10` to the power `k`.
spec fn pow10(k: nat) -> nat
    decreases k,
{
    if k == 0 {
        1
    } else {
        10 * pow10((k - 1) as nat)
    }
}

proof fn lemma_decimal_len(n: nat, k: nat)
    requires
        n < pow10(k),
        k >= 1,
    ensures
        decimal(n).len() <= k,
    decreases k,
{
    if n >= 10 {
        assert(k > 1) by {
            if k == 1 {
                assert(pow10(1) == 10 * pow10(0));
            }
        }
        assert(n / 10 < pow10((k - 1) as nat)) by (nonlinear_arith)
            requires
                n < pow10(k),
                pow10(k) == 10 * pow10((k - 1) as nat),
        ;
        lemma_decimal_len(n / 10, (k - 1) as nat);
    }
}

/// The decimal text of a number, as `format!("{}", n)` writes it.
fn usize_to_decimal(n: usize) -> (r: String)
    ensures
        r@ == decimal(n as nat),
        r@.len() <= 20,
        byte_len(r@) == r@.len(),
    decreases n,
{
    proof {
        assert(pow10(20) == 100000000000000000000) by {
            reveal_with_fuel(pow10, 21);
        }
        lemma_decimal_len(n as nat, 20);
    }
    let mut s = if n >= 10 {
        usize_to_decimal(n / 10)
    } else {
        String::new()
    };
    let d = (n % 10) as u8;
    let c = (48u8 + d) as char;
    assert(c == digit_char((n % 10) as nat));
    proof {
        let t = s@.push(c);
        assert forall|i: int| 0 <= i < t.len() implies (#[trigger] t[i] as u32) < 128 by {
            if i < s@.len() {
                lemma_decimal_ascii((n / 10) as nat, i);
                assert(t[i] == s@[i]);
            }
        }
        lemma_byte_len_ascii(t);
    }
    push_char(&mut s, c);
    assert(n < 10 ==> s@ =~= seq![digit_char(n as nat)]);
    s
}

/// `a` followed by `b`.
fn cat(a: &str, b: &str) -> (r: String)
    requires
        byte_len(a@) + byte_len(b@) <= max_string_bytes(),
    ensures
        r@ == a@ + b@,
{
    let mut r = a.to_owned();
    proof {
        lemma_byte_len_concat(a@, b@);
    }
    push_str(&mut r, b);
    r
}

/// The handler of a link into the document, if `href` is one.
fn typst_handler(href: &String) -> (r: Option<String>)
    requires
        has_room(href@),
    ensures
        match r {
            Some(h) => is_typst_href(href@) && h@ == onclick(trim_typst(href@)),
            None => !is_typst_href(href@),
        },
{
    let h = str_chars(href.as_str());
    let ghost hs = h@;
    let mut i: usize = 0;
    assert(hs.subrange(0, hs.len() as int) =~= hs);
    loop
        invariant
            hs == h@,
            hs == href@,
            i <= hs.len(),
            trim_typst(hs) == trim_typst(hs.subrange(i as int, hs.len() as int)),
            i > 0 ==> is_typst_href(hs),
            i == 0 ==> hs.subrange(i as int, hs.len() as int) == hs,
        ensures
            i <= hs.len(),
            trim_typst(hs) == trim_typst(hs.subrange(i as int, hs.len() as int)),
            i > 0 ==> is_typst_href(hs),
            i == 0 ==> hs.subrange(i as int, hs.len() as int) == hs,
            !is_typst_href(hs.subrange(i as int, hs.len() as int)),
        decreases hs.len() - i,
    {
        let ghost rest = hs.subrange(i as int, hs.len() as int);
        let found = h.len() - i >= 7 && h[i] == '@' && h[i + 1] == 't' && h[i + 2] == 'y' && h[i + 3] == 'p'
            && h[i + 4] == 's' && h[i + 5] == 't' && h[i + 6] == ':';
        proof {
            if found {
                assert(rest.subrange(0, 7) =~= typst_prefix());
                assert(rest.subrange(7, rest.len() as int) =~= hs.subrange(i + 7, hs.len() as int));
            } else if rest.len() >= 7 {
                assert(rest.subrange(0, 7)[0] == rest[0]);
                if rest.subrange(0, 7) == typst_prefix() {
                    assert(rest[0] == h@[i as int]);
                    assert(rest[1] == h@[i + 1]);
                    assert(rest[2] == h@[i + 2]);
                    assert(rest[3] == h@[i + 3]);
                    assert(rest[4] == h@[i + 4]);
                    assert(rest[5] == h@[i + 5]);
                    assert(rest[6] == h@[i + 6]);
                    assert(rest.subrange(0, 7)[1] == rest[1]);
                    assert(rest.subrange(0, 7)[2] == rest[2]);
                    assert(rest.subrange(0, 7)[3] == rest[3]);
                    assert(rest.subrange(0, 7)[4] == rest[4]);
                    assert(rest.subrange(0, 7)[5] == rest[5]);
                    assert(rest.subrange(0, 7)[6] == rest[6]);
                }
            }
        }
        if !found {
            break;
        }
        i = i + 7;
    }
    let ghost rest = hs.subrange(i as int, hs.len() as int);
    assert(!is_typst_href(rest));
    assert(trim_typst(hs) == rest);
    if i == 0 {
        return None;
    }
    let mut code = String::new();
    let mut j: usize = i;
    proof {
        assert(hs =~= hs.subrange(0, i as int) + rest);
        lemma_byte_len_concat(hs.subrange(0, i as int), rest);
        assert(hs.subrange(i as int, i as int) =~= code@);
    }
    while j < h.len()
        invariant
            hs == h@,
            hs == href@,
            i <= j <= hs.len(),
            rest == hs.subrange(i as int, hs.len() as int),
            byte_len(rest) <= byte_len(hs),
            code@ == hs.subrange(i as int, j as int),
            has_room(hs),
        decreases hs.len() - j,
    {
        proof {
            let p = hs.subrange(i as int, j as int + 1);
            assert(rest =~= p + hs.subrange(j as int + 1, hs.len() as int));
            lemma_byte_len_concat(p, hs.subrange(j as int + 1, hs.len() as int));
            assert(code@.push(h@[j as int]) =~= p);
        }
        push_char(&mut code, h[j]);
        j = j + 1;
    }
    assert(code@ =~= rest);
    proof {
        reveal_strlit(" onclick=\"");
        reveal_strlit("; return false\"");
        lemma_byte_len_le4(" onclick=\""@);
        lemma_byte_len_le4("; return false\""@);
        lemma_byte_len_concat(" onclick=\""@, code@);
    }
    let a = cat(" onclick=\"", code.as_str());
    let r = cat(a.as_str(), "; return false\"");
    Some(r)
}

/// Whether the texts of `n` have room and there is a fallback and a number
/// for each.
pub open spec fn walk_ok(n: SemaNode, fb_len: nat, dfn: nat) -> bool {
    &&& sizes_ok(n)
    &&& text_count(n) <= fb_len
    &&& dfn + text_count(n) <= usize::MAX
}

proof fn lemma_seq_prefix(cs: Seq<SemaNode>, k: int)
    requires
        0 <= k < cs.len(),
    ensures
        text_count_seq(cs.subrange(0, k + 1)) == text_count_seq(cs.subrange(0, k)) + text_count(cs[k]),
        text_count_seq(cs.subrange(0, k + 1)) <= text_count_seq(cs),
        sizes_ok_seq(cs) ==> sizes_ok(cs[k]),
    decreases cs.len() - k,
{
    assert(cs.subrange(0, k + 1).subrange(0, k) =~= cs.subrange(0, k));
    assert(cs.subrange(0, k + 1)[k] == cs[k]);
    if k + 1 == cs.len() {
        assert(cs.subrange(0, k + 1) =~= cs);
    } else {
        lemma_seq_prefix(cs, k + 1);
        if sizes_ok_seq(cs) {
            lemma_sizes_prefix(cs, k + 1);
        }
    }
}

proof fn lemma_sizes_prefix(cs: Seq<SemaNode>, k: int)
    requires
        0 <= k <= cs.len(),
        sizes_ok_seq(cs),
    ensures
        sizes_ok_seq(cs.subrange(0, k)),
        k < cs.len() ==> sizes_ok(cs[k]),
    decreases cs.len() - k,
{
    if k == cs.len() {
        assert(cs.subrange(0, k) =~= cs);
    } else {
        lemma_sizes_prefix(cs, k + 1);
        assert(cs.subrange(0, k + 1).subrange(0, k) =~= cs.subrange(0, k));
        assert(cs.subrange(0, k + 1)[k] == cs[k]);
    }
}

/// Writes the semantic layer of an item into `out`: groups, labels, texts
/// with their fallbacks, content hints, links and raw HTML, in document
/// order. `fallbacks` gives up its first entry to each text, and `dfn`
/// numbers the texts.
pub fn semantics_pieces(
    node: &SemaNode,
    fallbacks: &mut Vec<(String, String)>,
    dfn: &mut usize,
    heavy: bool,
    out: &mut Vec<String>,
)
    requires
        walk_ok(*node, old(fallbacks)@.len(), *old(dfn) as nat),
    ensures
        pieces_model(final(out)@) == pieces_model(old(out)@) + node_pieces(
            *node,
            fb_model(old(fallbacks)@),
            *old(dfn) as nat,
            heavy,
        ).0,
        fb_model(final(fallbacks)@) == node_pieces(*node, fb_model(old(fallbacks)@), *old(dfn) as nat, heavy).1,
        *final(dfn) as nat == node_pieces(*node, fb_model(old(fallbacks)@), *old(dfn) as nat, heavy).2,
        fb_model(final(fallbacks)@) == fb_model(old(fallbacks)@).subrange(
            text_count(*node) as int,
            old(fallbacks)@.len() as int,
        ),
        *final(dfn) == *old(dfn) + text_count(*node),
    decreases node,
{
    let ghost o0 = pieces_model(out@);
    let ghost f0 = fb_model(fallbacks@);
    let ghost d0 = *dfn as nat;
    match node {
        SemaNode::Group { children } => {
            out.push("<span class=\"typst-content-group\">".to_owned());
            assert(pieces_model(out@) =~= o0 + seq![group_open()]);
            let mut k: usize = 0;
            assert(children@.subrange(0, 0) =~= Seq::<SemaNode>::empty());
            assert(f0.subrange(0, f0.len() as int) =~= f0);
            while k < children.len()
                invariant
                    *node == (SemaNode::Group { children: *children }),
                    k <= children@.len(),
                    f0.len() == old(fallbacks)@.len(),
                    sizes_ok_seq(children@),
                    text_count_seq(children@) <= f0.len(),
                    d0 + text_count_seq(children@) <= usize::MAX,
                    pieces_model(out@) == o0 + seq![group_open()] + seq_pieces(
                        children@.subrange(0, k as int),
                        f0,
                        d0,
                        heavy,
                    ).0,
                    fb_model(fallbacks@) == seq_pieces(children@.subrange(0, k as int), f0, d0, heavy).1,
                    *dfn as nat == seq_pieces(children@.subrange(0, k as int), f0, d0, heavy).2,
                    fb_model(fallbacks@) == f0.subrange(
                        text_count_seq(children@.subrange(0, k as int)) as int,
                        f0.len() as int,
                    ),
                    *dfn == d0 + text_count_seq(children@.subrange(0, k as int)),
                    fallbacks@.len() == f0.len() - text_count_seq(children@.subrange(0, k as int)),
                decreases children@.len() - k,
            {
                proof {
                    lemma_seq_prefix(children@, k as int);
                }
                let ghost ob = pieces_model(out@);
                let ghost fb = fb_model(fallbacks@);
                let ghost db = *dfn as nat;
                proof {
                    assert((*node)->children == *children);
                    assert(decreases_to!(*node => (*node)->children));
                    assert(decreases_to!((*node)->children => (*node)->children@));
                    assert(decreases_to!((*node)->children@ => (*node)->children@[k as int]));
                }
                semantics_pieces(&children[k], fallbacks, dfn, heavy, out);
                proof {
                    let pre = children@.subrange(0, k as int);
                    let nxt = children@.subrange(0, k as int + 1);
                    assert(nxt.subrange(0, k as int) =~= pre);
                    assert(nxt[k as int] == children@[k as int]);
                    assert(fb.subrange(text_count(children@[k as int]) as int, fb.len() as int) =~= f0.subrange(
                        text_count_seq(nxt) as int,
                        f0.len() as int,
                    ));
                }
                k = k + 1;
            }
            assert(children@.subrange(0, children@.len() as int) =~= children@);
            let ghost inner = pieces_model(out@);
            out.push("</span>".to_owned());
            assert(pieces_model(out@) =~= inner + seq![span_close()]);
        },
        SemaNode::Labelled { label, child } => {
            out.push(String::new());
            proof {
                reveal_strlit("<span class=\"typst-content-group\" data-typst-label=\"");
                reveal_strlit("\" >");
                lemma_byte_len_le4("<span class=\"typst-content-group\" data-typst-label=\""@);
                lemma_byte_len_le4("\" >"@);
                lemma_byte_len_concat("<span class=\"typst-content-group\" data-typst-label=\""@, label@);
            }
            let a = cat("<span class=\"typst-content-group\" data-typst-label=\"", label.as_str());
            let open = cat(a.as_str(), "\" >");
            out.push(open);
            assert(pieces_model(out@) =~= o0 + seq![Seq::<char>::empty(), label_open(label@)]);
            let ghost mid = pieces_model(out@);
            semantics_pieces(&**child, fallbacks, dfn, heavy, out);
            let ghost inner = pieces_model(out@);
            out.push("</span>".to_owned());
            assert(pieces_model(out@) =~= inner + seq![span_close()]);
        },
        SemaNode::Text { attrs, content } => {
            let text_id = *dfn;
            *dfn = *dfn + 1;
            let (prepend, append) = fallbacks.remove(0);
            assert(fb_model(fallbacks@) =~= f0.drop_first());
            assert(f0.drop_first() =~= f0.subrange(1, f0.len() as int));
            if heavy {
                out.push(prepend);
            }
            let ghost o1 = pieces_model(out@);
            assert(o1 =~= o0 + heavy_piece(heavy, f0[0].0));
            let id = usize_to_decimal(text_id);
            proof {
                reveal_strlit("<span class=\"typst-content-text\" data-text-id=\"");
                reveal_strlit("\"");
                lemma_byte_len_le4("<span class=\"typst-content-text\" data-text-id=\""@);
                lemma_byte_len_le4("\""@);
                lemma_byte_len_concat("<span class=\"typst-content-text\" data-text-id=\""@, id@);
                lemma_byte_len_concat("<span class=\"typst-content-text\" data-text-id=\""@ + id@, "\""@);
            }
            let a = cat("<span class=\"typst-content-text\" data-text-id=\"", id.as_str());
            let b = cat(a.as_str(), "\"");
            let open = cat(b.as_str(), attrs.as_str());
            out.push(open);
            out.push(content.clone());
            out.push("</span>".to_owned());
            if heavy {
                out.push(append);
            }
            assert(pieces_model(out@) =~= o1 + seq![text_open(d0, attrs@), content@, span_close()]
                + heavy_piece(heavy, f0[0].1));
        },
        SemaNode::ContentHint { newline, attrs, content } => {
            if *newline {
                out.push("<br class=\"typst-content-hint\"".to_owned());
                out.push(attrs.clone());
                assert(pieces_model(out@) =~= o0 + seq![br_hint_open(), attrs@]);
            } else {
                out.push("<span class=\"typst-content-hint\"".to_owned());
                out.push(attrs.clone());
                out.push(content.clone());
                out.push("</span>".to_owned());
                assert(pieces_model(out@) =~= o0 + seq![span_hint_open(), attrs@, content@, span_close()]);
            }
            assert(f0.subrange(0, f0.len() as int) =~= f0);
        },
        SemaNode::Link { href, escaped_href, attrs } => {
            proof {
                reveal_strlit("<a class=\"typst-content-link\" href=\"");
                reveal_strlit("\"");
                reveal_strlit("#");
                lemma_byte_len_le4("<a class=\"typst-content-link\" href=\""@);
                lemma_byte_len_le4("\""@);
                lemma_byte_len_le4("#"@);
            }
            match typst_handler(href) {
                Some(handler) => {
                    proof {
                        lemma_byte_len_concat("<a class=\"typst-content-link\" href=\""@, "#"@);
                    }
                    let a = cat("<a class=\"typst-content-link\" href=\"", "#");
                    let open = cat(a.as_str(), "\"");
                    out.push(open);
                    out.push(handler);
                    out.push(attrs.clone());
                    out.push("</a>".to_owned());
                    assert(pieces_model(out@) =~= o0 + seq![
                        link_open("#"@),
                        onclick(trim_typst(href@)),
                        attrs@,
                        link_close(),
                    ]);
                },
                None => {
                    proof {
                        lemma_byte_len_concat("<a class=\"typst-content-link\" href=\""@, escaped_href@);
                    }
                    let a = cat("<a class=\"typst-content-link\" href=\"", escaped_href.as_str());
                    let open = cat(a.as_str(), "\"");
                    out.push(open);
                    out.push(attrs.clone());
                    out.push("</a>".to_owned());
                    assert(pieces_model(out@) =~= o0 + seq![link_open(escaped_href@), attrs@, link_close()]);
                },
            }
            assert(f0.subrange(0, f0.len() as int) =~= f0);
        },
        SemaNode::RawHtml { attrs, html } => {
            out.push("<span class=\"typst-content-html\"".to_owned());
            out.push(attrs.clone());
            out.push(html.clone());
            out.push("</span>".to_owned());
            assert(pieces_model(out@) =~= o0 + seq![html_open(), attrs@, html@, span_close()]);
            assert(f0.subrange(0, f0.len() as int) =~= f0);
        },
        SemaNode::Nothing => {
            assert(pieces_model(out@) =~= o0 + Seq::<Seq<char>>::empty());
            assert(f0.subrange(0, f0.len() as int) =~= f0);
        },
    }
}

} // verus!
