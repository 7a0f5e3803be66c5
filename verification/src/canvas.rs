use std::marker::PhantomData;
use vstd::prelude::*;

use crate::hex::hex_digit;
use crate::strings::{lemma_byte_len_ascii, push_char};

verus! {

/// The features of a canvas export, fixed at compile time.
pub trait ExportFeature {
    /// Whether to enable tracing.
    const ENABLE_TRACING: bool;
    /// Whether to render text elements, which are selectable and searchable.
    const SHOULD_RENDER_TEXT_ELEMENT: bool;
}

/// The default features: full-fledged output with text elements.
pub struct DefaultExportFeature;

impl ExportFeature for DefaultExportFeature {
    const ENABLE_TRACING: bool = false;
    const SHOULD_RENDER_TEXT_ELEMENT: bool = true;
}

/// The task context for exporting to a canvas, parameterised by its
/// features.
pub struct CanvasTask<Feat: ExportFeature> {
    _feat_phantom: PhantomData<Feat>,
}

impl<Feat: ExportFeature> CanvasTask<Feat> {
    /// A task with the features of `Feat`.
    pub fn new() -> Self {
        CanvasTask { _feat_phantom: PhantomData }
    }
}

/// What a group of canvas elements holds: general content, or the glyphs
/// of a text.
#[derive(Debug, Clone, Copy, PartialEq, Eq, Structural)]
pub enum GroupKind {
    General,
    Text,
}

impl GroupKind {
    /// The colour in which the bounding box of a group of this kind is drawn
    /// when bounding boxes are shown: red for text, green otherwise.
    pub fn bbox_color(self) -> (r: &'static str)
        ensures
            r@ == (if self == GroupKind::Text {
                "red"@
            } else {
                "green"@
            }),
    {
        if matches!(self, GroupKind::Text) {
            "red"
        } else {
            "green"
        }
    }
}


/// A colour as four 8-bit channels: red, green, blue and alpha.
#[derive(Debug, Clone, Copy, PartialEq, Eq, Structural)]
pub struct Rgba8Item {
    pub r: u8,
    pub g: u8,
    pub b: u8,
    pub a: u8,
}

/// The two lower-case hexadecimal digits of a byte.
pub open spec fn hex2(v: u8) -> Seq<char> {
    seq![hex_digit((v / 16) as nat), hex_digit((v % 16) as nat)]
}

/// Whether both hexadecimal digits of a byte are the same.
pub open spec fn doubled(v: u8) -> bool {
    v / 16 == v % 16
}

/// The CSS text of a colour: `#rrggbbaa`, or `#rrggbb` when it is opaque,
/// shortened to `#rgb` when each channel's two digits are the same.
pub open spec fn rgba_css(c: Rgba8Item) -> Seq<char> {
    if c.a == 255 {
        if doubled(c.r) && doubled(c.g) && doubled(c.b) {
            seq!['#', hex_digit((c.r % 16) as nat), hex_digit((c.g % 16) as nat), hex_digit((c.b % 16) as nat)]
        } else {
            seq!['#'] + hex2(c.r) + hex2(c.g) + hex2(c.b)
        }
    } else {
        seq!['#'] + hex2(c.r) + hex2(c.g) + hex2(c.b) + hex2(c.a)
    }
}

/// Whether every character is ASCII.
spec fn all_ascii(s: Seq<char>) -> bool {
    forall|i: int| 0 <= i < s.len() ==> (#[trigger] s[i] as u32) < 128
}

/// The hexadecimal digit of `d`.
fn hex_char(d: u8) -> (c: char)
    requires
        d < 16,
    ensures
        c == hex_digit(d as nat),
        (c as u32) < 128,
{
    if d < 10 {
        (48u8 + d) as char
    } else {
        (87u8 + d) as char
    }
}

/// Appends an ASCII character to a short ASCII string.
fn push_ascii(s: &mut String, c: char)
    requires
        old(s)@.len() < 16,
        all_ascii(old(s)@),
        (c as u32) < 128,
    ensures
        final(s)@ == old(s)@.push(c),
        all_ascii(final(s)@),
{
    proof {
        let t = old(s)@.push(c);
        assert forall|i: int| 0 <= i < t.len() implies (#[trigger] t[i] as u32) < 128 by {
            if i < old(s)@.len() {
                assert(t[i] == old(s)@[i]);
            }
        }
        lemma_byte_len_ascii(t);
    }
    push_char(s, c);
}

/// Appends the two hexadecimal digits of a byte to a short ASCII string.
fn push_hex2(s: &mut String, v: u8)
    requires
        old(s)@.len() < 14,
        all_ascii(old(s)@),
    ensures
        final(s)@ == old(s)@ + hex2(v),
        all_ascii(final(s)@),
{
    let hi = hex_char(v / 16);
    let lo = hex_char(v % 16);
    push_ascii(s, hi);
    push_ascii(s, lo);
    assert(s@ =~= old(s)@ + hex2(v));
}

/// The CSS text of a colour.
pub fn rgba_to_css(color: Rgba8Item) -> (r: String)
    ensures
        r@ == rgba_css(color),
        css_color(r@) == Some((color.r as nat, color.g as nat, color.b as nat, color.a as nat)),
        r@.len() == 4 <==> (color.a == 255 && color.r % 17 == 0 && color.g % 17 == 0 && color.b % 17 == 0),
{
    proof {
        lemma_rgba_css_reads_back(color);
    }
    let Rgba8Item { r, g, b, a } = color;
    let mut s = String::new();
    assert(all_ascii(s@));
    push_ascii(&mut s, '#');
    if a == 255 {
        if r / 16 == r % 16 && g / 16 == g % 16 && b / 16 == b % 16 {
            push_ascii(&mut s, hex_char(r % 16));
            push_ascii(&mut s, hex_char(g % 16));
            push_ascii(&mut s, hex_char(b % 16));
            assert(s@ =~= rgba_css(color));
            return s;
        }
        push_hex2(&mut s, r);
        push_hex2(&mut s, g);
        push_hex2(&mut s, b);
        assert(s@ =~= rgba_css(color));
        return s;
    }
    push_hex2(&mut s, r);
    push_hex2(&mut s, g);
    push_hex2(&mut s, b);
    push_hex2(&mut s, a);
    assert(s@ =~= rgba_css(color));
    s
}

/// The value of a lower-case hexadecimal digit, if `c` is one.
pub open spec fn hex_value(c: char) -> Option<nat> {
    if 48 <= (c as u32) <= 57 {
        Some((c as u32 - 48) as nat)
    } else if 97 <= (c as u32) <= 102 {
        Some((c as u32 - 87) as nat)
    } else {
        None
    }
}

/// The byte written by two hexadecimal digits.
pub open spec fn hex_byte(hi: char, lo: char) -> Option<nat> {
    match (hex_value(hi), hex_value(lo)) {
        (Some(h), Some(l)) => Some(h * 16 + l),
        _ => None,
    }
}

/// The colour that a CSS hexadecimal colour denotes, as (red, green, blue,
/// alpha): `#rgb` repeats each digit, `#rrggbb` is opaque, `#rrggbbaa`
/// gives the alpha too; anything else denotes no colour.
pub open spec fn css_color(s: Seq<char>) -> Option<(nat, nat, nat, nat)> {
    if s.len() == 0 || s[0] != '#' {
        None
    } else if s.len() == 4 {
        match (hex_value(s[1]), hex_value(s[2]), hex_value(s[3])) {
            (Some(r), Some(g), Some(b)) => Some((r * 17, g * 17, b * 17, 255)),
            _ => None,
        }
    } else if s.len() == 7 {
        match (hex_byte(s[1], s[2]), hex_byte(s[3], s[4]), hex_byte(s[5], s[6])) {
            (Some(r), Some(g), Some(b)) => Some((r, g, b, 255)),
            _ => None,
        }
    } else if s.len() == 9 {
        match (hex_byte(s[1], s[2]), hex_byte(s[3], s[4]), hex_byte(s[5], s[6]), hex_byte(s[7], s[8])) {
            (Some(r), Some(g), Some(b), Some(a)) => Some((r, g, b, a)),
            _ => None,
        }
    } else {
        None
    }
}

proof fn lemma_hex_value_digit(d: nat)
    requires
        d < 16,
    ensures
        hex_value(hex_digit(d)) == Some(d),
{
    if d < 10 {
        assert(((48 + d) as char) as u32 == 48 + d);
    } else {
        assert(((87 + d) as char) as u32 == 87 + d);
    }
}

proof fn lemma_hex2_byte(v: u8)
    ensures
        hex_byte(hex2(v)[0], hex2(v)[1]) == Some(v as nat),
{
    lemma_hex_value_digit((v / 16) as nat);
    lemma_hex_value_digit((v % 16) as nat);
}

proof fn lemma_doubled(v: u8)
    ensures
        doubled(v) <==> v % 17 == 0,
        doubled(v) ==> (v % 16) * 17 == v,
{
    assert(doubled(v) <==> v % 17 == 0) by (bit_vector);
    assert(v / 16 == v % 16 ==> (v % 16) * 17 == v) by (bit_vector);
}

/// The CSS text of a colour, read back as a colour, is exactly that
/// colour; it takes the short form `#rgb` exactly when the colour is opaque
/// and every channel is a multiple of 17, the form `#rrggbb` when it is
/// opaque otherwise, and the long form `#rrggbbaa` when it is not opaque.
pub proof fn lemma_rgba_css_reads_back(c: Rgba8Item)
    ensures
        css_color(rgba_css(c)) == Some((c.r as nat, c.g as nat, c.b as nat, c.a as nat)),
        rgba_css(c).len() == 4 <==> (c.a == 255 && c.r % 17 == 0 && c.g % 17 == 0 && c.b % 17 == 0),
        rgba_css(c).len() == 7 <==> (c.a == 255 && !(c.r % 17 == 0 && c.g % 17 == 0 && c.b % 17 == 0)),
        rgba_css(c).len() == 9 <==> c.a != 255,
{
    lemma_doubled(c.r);
    lemma_doubled(c.g);
    lemma_doubled(c.b);
    lemma_hex2_byte(c.r);
    lemma_hex2_byte(c.g);
    lemma_hex2_byte(c.b);
    lemma_hex2_byte(c.a);
    let s = rgba_css(c);
    if c.a == 255 {
        if doubled(c.r) && doubled(c.g) && doubled(c.b) {
            lemma_hex_value_digit((c.r % 16) as nat);
            lemma_hex_value_digit((c.g % 16) as nat);
            lemma_hex_value_digit((c.b % 16) as nat);
            assert(s[1] == hex_digit((c.r % 16) as nat));
        } else {
            assert(s[1] == hex2(c.r)[0] && s[2] == hex2(c.r)[1]);
            assert(s[3] == hex2(c.g)[0] && s[4] == hex2(c.g)[1]);
            assert(s[5] == hex2(c.b)[0] && s[6] == hex2(c.b)[1]);
        }
    } else {
        assert(s[1] == hex2(c.r)[0] && s[2] == hex2(c.r)[1]);
        assert(s[3] == hex2(c.g)[0] && s[4] == hex2(c.g)[1]);
        assert(s[5] == hex2(c.b)[0] && s[6] == hex2(c.b)[1]);
        assert(s[7] == hex2(c.a)[0] && s[8] == hex2(c.a)[1]);
    }
}

} // verus!
