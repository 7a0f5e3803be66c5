use vstd::prelude::*;

use crate::strings::{byte_len, lemma_byte_len_ascii, lemma_byte_len_concat, max_string_bytes, push_char, push_str};

verus! {

/// The character of a decimal digit.
pub open spec fn digit_char(d: nat) -> char {
    (48 + d) as char
}

/// The decimal text of a number, without leading zeros.
pub open spec fn decimal(n: nat) -> Seq<char>
    decreases n,
{
    if n < 10 {
        seq![digit_char(n)]
    } else {
        decimal(n / 10).push(digit_char(n % 10))
    }
}

/// The decimal text of a byte, as `format!("{}", n)` writes it.
pub fn u8_to_decimal(n: u8) -> (r: String)
    ensures
        r@ == decimal(n as nat),
{
    let mut s = String::new();
    let hundreds = n / 100;
    let tens = (n / 10) % 10;
    let ones = n % 10;
    let ch = (48 + hundreds) as char;
    let ct = (48 + tens) as char;
    let co = (48 + ones) as char;
    if n >= 100 {
        proof {
            lemma_byte_len_ascii(s@.push(ch));
        }
        push_char(&mut s, ch);
    }
    if n >= 10 {
        proof {
            assert(forall|i: int| 0 <= i < s@.len() ==> (#[trigger] s@[i] as u32) < 128);
            lemma_byte_len_ascii(s@.push(ct));
        }
        push_char(&mut s, ct);
    }
    proof {
        assert(forall|i: int| 0 <= i < s@.len() ==> (#[trigger] s@[i] as u32) < 128);
        lemma_byte_len_ascii(s@.push(co));
    }
    push_char(&mut s, co);
    proof {
        if n >= 100 {
            assert(decimal((n / 10) as nat / 10) == seq![digit_char(hundreds as nat)]);
            assert(decimal((n / 10) as nat) =~= seq![digit_char(hundreds as nat), digit_char(tens as nat)]);
        } else if n >= 10 {
            assert(decimal((n / 10) as nat) =~= seq![digit_char(tens as nat)]);
        }
        assert(s@ =~= decimal(n as nat));
    }
    s
}

/// Renders glyph definitions into SVG text.
#[derive(Debug)]
pub struct SvgGlyphBuilder {}

/// The ligature attribute of a glyph: ` data-liga-len="n"` when the glyph
/// stands for `n > 0` characters, nothing otherwise.
pub open spec fn ligature_attr(ll: u8) -> Seq<char> {
    if ll > 0 {
        seq![' ', 'd', 'a', 't', 'a', '-', 'l', 'i', 'g', 'a', '-', 'l', 'e', 'n', '=', '"']
            + decimal(ll as nat) + seq!['"']
    } else {
        Seq::empty()
    }
}

impl SvgGlyphBuilder {
    pub fn new() -> (r: SvgGlyphBuilder) {
        SvgGlyphBuilder {  }
    }

    /// The ligature attribute for a glyph of ligature length `ll`.
    pub fn render_ligature_attr(ll: u8) -> (r: String)
        ensures
            r@ == ligature_attr(ll),
    {
        if ll > 0 {
            let digits = u8_to_decimal(ll);
            let mut s = " data-liga-len=\"".to_owned();
            proof {
                reveal_strlit(" data-liga-len=\"");
                assert(" data-liga-len=\""@ =~= seq![' ', 'd', 'a', 't', 'a', '-', 'l', 'i', 'g', 'a', '-', 'l', 'e', 'n', '=', '"']);
                let full = s@ + digits@ + seq!['"'];
                assert forall|i: int| 0 <= i < full.len() implies (#[trigger] full[i] as u32) < 128 by {
                    lemma_decimal_ascii(ll as nat, i - s@.len());
                }
                lemma_byte_len_ascii(full);
                lemma_decimal_len_u8(ll as nat);
                assert forall|i: int| 0 <= i < (s@ + digits@).len() implies (#[trigger] (s@ + digits@)[i] as u32) < 128 by {
                    assert((s@ + digits@)[i] == full[i]);
                }
                lemma_byte_len_ascii(s@ + digits@);
                assert((s@ + digits@).push('"') =~= full);
            }
            push_str(&mut s, digits.as_str());
            push_char(&mut s, '"');
            assert(s@ =~= ligature_attr(ll));
            s
        } else {
            String::new()
        }
    }
}

proof fn lemma_decimal_len_u8(n: nat)
    requires
        n < 256,
    ensures
        decimal(n).len() <= 3,
{
    if n >= 10 {
        if n >= 100 {
            assert(decimal(n / 10 / 10).len() == 1);
        }
        assert(decimal(n / 10).len() <= 2);
    }
}

pub(crate) proof fn lemma_decimal_ascii(n: nat, i: int)
    ensures
        0 <= i < decimal(n).len() ==> (decimal(n)[i] as u32) < 128,
    decreases n,
{
    if n >= 10 {
        lemma_decimal_ascii(n / 10, i);
    }
}

/// A glyph as its definition is rendered.
pub enum FlatGlyphItem {
    /// A bitmap or SVG glyph, its `<image>` element already rendered with the
    /// glyph's transform.
    Image(ImageGlyphItem),
    /// An outline glyph.
    Outline(OutlineGlyphItem),
    /// A glyph with nothing to draw.
    Nothing,
}

/// An image glyph: its rendered `<image>` element and ligature length.
pub struct ImageGlyphItem {
    pub image: String,
    pub ligature_len: u8,
}

/// An outline glyph: its SVG path data and ligature length.
pub struct OutlineGlyphItem {
    pub d: String,
    pub ligature_len: u8,
}

/// The definition of an outline glyph: a path with the glyph's id.
pub open spec fn outline_symbol(id: Seq<char>, d: Seq<char>, ll: u8) -> Seq<char> {
    "<path id=\""@ + id + "\" class=\"outline_glyph\" d=\""@ + d + "\""@ + ligature_attr(ll) + "/>"@
}

/// The definition of an image glyph: a symbol with the glyph's id around
/// the image.
pub open spec fn image_symbol(id: Seq<char>, img: Seq<char>, ll: u8) -> Seq<char> {
    "<symbol overflow=\"visible\" id=\""@ + id + "\" class=\"image_glyph\""@ + ligature_attr(ll) + ">"@ + img
        + "</symbol>"@
}

/// The definition that a glyph renders to, if it has one.
pub open spec fn glyph_symbol(id: Seq<char>, item: FlatGlyphItem) -> Option<Seq<char>> {
    match item {
        FlatGlyphItem::Image(ig) => Some(image_symbol(id, ig.image@, ig.ligature_len)),
        FlatGlyphItem::Outline(og) => Some(outline_symbol(id, og.d@, og.ligature_len)),
        FlatGlyphItem::Nothing => None,
    }
}

/// Whether a glyph's definition fits in a string.
pub open spec fn glyph_fits(id: Seq<char>, item: FlatGlyphItem) -> bool {
    match item {
        FlatGlyphItem::Image(ig) => byte_len(id) + byte_len(ig.image@) + 128 <= max_string_bytes(),
        FlatGlyphItem::Outline(og) => byte_len(id) + byte_len(og.d@) + 128 <= max_string_bytes(),
        FlatGlyphItem::Nothing => true,
    }
}

proof fn lemma_ligature_attr_ascii(ll: u8)
    ensures
        byte_len(ligature_attr(ll)) == ligature_attr(ll).len(),
        ligature_attr(ll).len() <= 20,
{
    if ll > 0 {
        let full = ligature_attr(ll);
        lemma_decimal_len_u8(ll as nat);
        assert forall|i: int| 0 <= i < full.len() implies (#[trigger] full[i] as u32) < 128 by {
            lemma_decimal_ascii(ll as nat, i - 16);
        }
    }
    lemma_byte_len_ascii(ligature_attr(ll));
}

impl SvgGlyphBuilder {
    /// Renders the definition of a glyph with the given id.
    pub fn render_glyph(&mut self, glyph_id: &str, glyph_item: &FlatGlyphItem) -> (r: Option<String>)
        requires
            glyph_fits(glyph_id@, *glyph_item),
        ensures
            match r {
                Some(s) => glyph_symbol(glyph_id@, *glyph_item) == Some(s@),
                None => glyph_symbol(glyph_id@, *glyph_item) is None,
            },
    {
        Self::render_glyph_inner(glyph_id, glyph_item)
    }

    fn render_glyph_inner(glyph_id: &str, glyph_item: &FlatGlyphItem) -> (r: Option<String>)
        requires
            glyph_fits(glyph_id@, *glyph_item),
        ensures
            match r {
                Some(s) => glyph_symbol(glyph_id@, *glyph_item) == Some(s@),
                None => glyph_symbol(glyph_id@, *glyph_item) is None,
            },
    {
        match glyph_item {
            FlatGlyphItem::Image(ig) => Self::render_image_glyph(glyph_id, ig),
            FlatGlyphItem::Outline(og) => Self::render_outline_glyph(glyph_id, og),
            FlatGlyphItem::Nothing => None,
        }
    }

    /// Renders an image glyph: a symbol around its image.
    fn render_image_glyph(glyph_id: &str, ig: &ImageGlyphItem) -> (r: Option<String>)
        requires
            byte_len(glyph_id@) + byte_len(ig.image@) + 128 <= max_string_bytes(),
        ensures
            r matches Some(s) && s@ == image_symbol(glyph_id@, ig.image@, ig.ligature_len),
    {
        let li = Self::render_ligature_attr(ig.ligature_len);
        let mut s = String::from_str("<symbol overflow=\"visible\" id=\"");
        let ghost p0 = s@;
        let ghost p2 = "\" class=\"image_glyph\""@;
        let ghost p4 = ">"@;
        let ghost p6 = "</symbol>"@;
        proof {
            reveal_strlit("<symbol overflow=\"visible\" id=\"");
            reveal_strlit("\" class=\"image_glyph\"");
            reveal_strlit(">");
            reveal_strlit("</symbol>");
            lemma_byte_len_ascii(p0);
            lemma_byte_len_ascii(p2);
            lemma_byte_len_ascii(p4);
            lemma_byte_len_ascii(p6);
            lemma_ligature_attr_ascii(ig.ligature_len);
            let total = p0 + glyph_id@ + p2 + li@ + p4 + ig.image@ + p6;
            lemma_byte_len_concat(p0, glyph_id@);
            lemma_byte_len_concat(p0 + glyph_id@, p2);
            lemma_byte_len_concat(p0 + glyph_id@ + p2, li@);
            lemma_byte_len_concat(p0 + glyph_id@ + p2 + li@, p4);
            lemma_byte_len_concat(p0 + glyph_id@ + p2 + li@ + p4, ig.image@);
            lemma_byte_len_concat(p0 + glyph_id@ + p2 + li@ + p4 + ig.image@, p6);
        }
        push_str(&mut s, glyph_id);
        push_str(&mut s, "\" class=\"image_glyph\"");
        push_str(&mut s, li.as_str());
        push_str(&mut s, ">");
        push_str(&mut s, ig.image.as_str());
        push_str(&mut s, "</symbol>");
        assert(s@ =~= image_symbol(glyph_id@, ig.image@, ig.ligature_len));
        Some(s)
    }

    /// Renders an outline glyph: a path with its data. This is the usual
    /// case.
    fn render_outline_glyph(glyph_id: &str, og: &OutlineGlyphItem) -> (r: Option<String>)
        requires
            byte_len(glyph_id@) + byte_len(og.d@) + 128 <= max_string_bytes(),
        ensures
            r matches Some(s) && s@ == outline_symbol(glyph_id@, og.d@, og.ligature_len),
    {
        let li = Self::render_ligature_attr(og.ligature_len);
        let mut s = String::from_str("<path id=\"");
        let ghost p0 = s@;
        let ghost p2 = "\" class=\"outline_glyph\" d=\""@;
        let ghost p4 = "\""@;
        let ghost p6 = "/>"@;
        proof {
            reveal_strlit("<path id=\"");
            reveal_strlit("\" class=\"outline_glyph\" d=\"");
            reveal_strlit("\"");
            reveal_strlit("/>");
            lemma_byte_len_ascii(p0);
            lemma_byte_len_ascii(p2);
            lemma_byte_len_ascii(p4);
            lemma_byte_len_ascii(p6);
            lemma_ligature_attr_ascii(og.ligature_len);
            lemma_byte_len_concat(p0, glyph_id@);
            lemma_byte_len_concat(p0 + glyph_id@, p2);
            lemma_byte_len_concat(p0 + glyph_id@ + p2, og.d@);
            lemma_byte_len_concat(p0 + glyph_id@ + p2 + og.d@, p4);
            lemma_byte_len_concat(p0 + glyph_id@ + p2 + og.d@ + p4, li@);
            lemma_byte_len_concat(p0 + glyph_id@ + p2 + og.d@ + p4 + li@, p6);
        }
        push_str(&mut s, glyph_id);
        push_str(&mut s, "\" class=\"outline_glyph\" d=\"");
        push_str(&mut s, og.d.as_str());
        push_str(&mut s, "\"");
        push_str(&mut s, li.as_str());
        push_str(&mut s, "/>");
        assert(s@ =~= outline_symbol(glyph_id@, og.d@, og.ligature_len));
        Some(s)
    }
}

} // verus!
