use base64::Engine;
use vstd::prelude::*;

use crate::strings::{byte_len, lemma_byte_len_ascii, lemma_byte_len_concat, max_string_bytes, push_str};

verus! {

/// The character of a 6-bit value in the standard base64 alphabet
/// `A-Z a-z 0-9 + /`.
pub open spec fn b64_char(v: int) -> char {
    if v < 26 {
        (65 + v) as char
    } else if v < 52 {
        (97 + v - 26) as char
    } else if v < 62 {
        (48 + v - 52) as char
    } else if v == 62 {
        '+'
    } else {
        '/'
    }
}

/// The standard base64 encoding of `b` (RFC 4648, section 4): each group of
/// three bytes becomes four characters; a final group of one or two bytes
/// becomes two or three characters, followed by `=` padding when `pad` holds.
pub open spec fn base64_spec(b: Seq<u8>, pad: bool) -> Seq<char>
    decreases b.len(),
{
    if b.len() == 0 {
        Seq::empty()
    } else if b.len() == 1 {
        seq![b64_char(b[0] as int / 4), b64_char((b[0] as int % 4) * 16)] + if pad {
            seq!['=', '=']
        } else {
            Seq::empty()
        }
    } else if b.len() == 2 {
        seq![
            b64_char(b[0] as int / 4),
            b64_char((b[0] as int % 4) * 16 + b[1] as int / 16),
            b64_char((b[1] as int % 16) * 4),
        ] + if pad {
            seq!['=']
        } else {
            Seq::empty()
        }
    } else {
        seq![
            b64_char(b[0] as int / 4),
            b64_char((b[0] as int % 4) * 16 + b[1] as int / 16),
            b64_char((b[1] as int % 16) * 4 + b[2] as int / 64),
            b64_char(b[2] as int % 64),
        ] + base64_spec(b.subrange(3, b.len() as int), pad)
    }
}

/// Base64 text is ASCII and takes at most four characters per three bytes,
/// rounded up.
pub proof fn lemma_base64_ascii_len(b: Seq<u8>, pad: bool)
    ensures
        base64_spec(b, pad).len() <= (b.len() + 2) / 3 * 4,
        forall|i: int| 0 <= i < base64_spec(b, pad).len() ==> (#[trigger] base64_spec(b, pad)[i] as u32) < 128,
    decreases b.len(),
{
    if b.len() >= 3 {
        lemma_base64_ascii_len(b.subrange(3, b.len() as int), pad);
    }
}

/// Whether the base64 text of `n` bytes fits in a string.
pub open spec fn base64_fits(n: nat) -> bool {
    (n + 2) / 3 * 4 <= isize::MAX
}

/// `base64::engine::general_purpose::STANDARD.encode`: the standard alphabet
/// with `=` padding. The crate computes the output length with checked
/// arithmetic and panics when it overflows, so the length is bounded here.
#[verifier::external_body]
pub(crate) fn encode_standard(data: &[u8]) -> (r: String)
    requires
        base64_fits(data@.len()),
    ensures
        r@ == base64_spec(data@, true),
{
    base64::engine::general_purpose::STANDARD.encode(data)
}

/// `base64::engine::general_purpose::STANDARD_NO_PAD.encode`: the standard
/// alphabet without padding.
#[verifier::external_body]
pub(crate) fn encode_standard_no_pad(data: &[u8]) -> (r: String)
    requires
        base64_fits(data@.len()),
    ensures
        r@ == base64_spec(data@, false),
{
    base64::engine::general_purpose::STANDARD_NO_PAD.encode(data)
}

/// The data URL of an image: `data:image/<format>;base64,` followed by the
/// image's bytes in standard base64.
pub open spec fn image_url(format: Seq<char>, data: Seq<u8>) -> Seq<char> {
    "data:image/"@ + format + ";base64,"@ + base64_spec(data, true)
}

/// Embeds an image's bytes, of the given format (such as `png`), as a data
/// URL.
pub fn embed_as_image_url(format: &str, data: &[u8]) -> (r: Option<String>)
    requires
        byte_len(format@) + 19 + (data@.len() + 2) / 3 * 4 <= max_string_bytes(),
    ensures
        r matches Some(u) && u@ == image_url(format@, data@),
{
    let mut url = String::from_str("data:image/");
    proof {
        reveal_strlit("data:image/");
        reveal_strlit(";base64,");
        lemma_base64_ascii_len(data@, true);
        lemma_byte_len_ascii("data:image/"@);
        lemma_byte_len_ascii(";base64,"@);
        lemma_byte_len_ascii(base64_spec(data@, true));
        lemma_byte_len_concat("data:image/"@, format@);
        lemma_byte_len_concat("data:image/"@ + format@, ";base64,"@);
        lemma_byte_len_concat("data:image/"@ + format@ + ";base64,"@, base64_spec(data@, true));
    }
    push_str(&mut url, format);
    push_str(&mut url, ";base64,");
    let b64 = encode_standard(data);
    push_str(&mut url, b64.as_str());
    Some(url)
}

} // verus!
