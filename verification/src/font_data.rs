use vstd::prelude::*;

verus! {

/// The OpenType data that `wuff` decodes a WOFF2 font into, or `None` where
/// it rejects the bytes. It depends on the bytes alone.
pub uninterp spec fn woff2_decoded(data: Seq<u8>) -> Option<Seq<u8>>;

/// The largest WOFF2 input that is decoded: below it, the running offsets
/// of a font collection's table directories, which `wuff` adds up in 32
/// bits, cannot overflow (each directory takes at most sixteen times the
/// bytes that describe it).
pub open spec fn woff2_input_limit() -> nat {
    0x0F00_0000
}

/// `wuff::decompress_woff2`: decodes a WOFF2 font into OpenType font data
/// (`None` where the crate returns an error). Nothing is claimed about which
/// bytes are accepted or what they decode to beyond [`woff2_decoded`].
/// Inputs of [`woff2_input_limit`] bytes or more are left out: for them the
/// crate's unchecked 32-bit sum of table-directory offsets may overflow.
#[verifier::external_body]
fn decompress_woff2(data: &[u8]) -> (r: Option<Vec<u8>>)
    requires
        data@.len() < woff2_input_limit(),
    ensures
        match r {
            Some(v) => woff2_decoded(data@) == Some(v@),
            None => woff2_decoded(data@) is None,
        },
{
    match wuff::decompress_woff2(data) {
        Ok(v) => Some(v),
        Err(_) => None,
    }
}

/// The signature that opens a WOFF2 font: `wOF2`.
pub open spec fn woff2_signature() -> Seq<u8> {
    seq![0x77u8, 0x4fu8, 0x46u8, 0x32u8]
}

/// Whether font data is a WOFF2 container.
pub open spec fn is_woff2(data: Seq<u8>) -> bool {
    data.len() >= 4 && data.subrange(0, 4) == woff2_signature()
}

/// The message of a WOFF2 font that cannot be decoded; `wuff`'s only error
/// is `GenericError`.
pub open spec fn woff2_error() -> Seq<char> {
    "failed to decode WOFF2 font: GenericError"@
}

/// What a decoding gives: the font data, or the error message.
pub open spec fn woff2_result(decoded: Option<Seq<u8>>) -> Result<Seq<u8>, Seq<char>> {
    match decoded {
        Some(v) => Ok(v),
        None => Err(woff2_error()),
    }
}

/// The outcome of decoding font data: other data is passed through as it
/// is; a WOFF2 font is decoded.
pub open spec fn font_data_spec(data: Seq<u8>) -> Result<Seq<u8>, Seq<char>> {
    if is_woff2(data) {
        woff2_result(woff2_decoded(data))
    } else {
        Ok(data)
    }
}

/// The model of a decoding outcome.
pub open spec fn outcome_model(r: Result<Vec<u8>, String>) -> Result<Seq<u8>, Seq<char>> {
    match r {
        Ok(v) => Ok(v@),
        Err(e) => Err(e@),
    }
}

/// Turns the result of a WOFF2 decoding into the outcome: the font data, or
/// the error message.
pub fn woff2_outcome(decoded: Option<Vec<u8>>) -> (r: Result<Vec<u8>, String>)
    ensures
        outcome_model(r) == woff2_result(
            match decoded {
                Some(v) => Some(v@),
                None => None,
            },
        ),
{
    match decoded {
        Some(v) => Ok(v),
        None => Err(String::from_str("failed to decode WOFF2 font: GenericError")),
    }
}

/// Decodes supported web font containers into OpenType font data: WOFF2
/// fonts are decoded, anything else is returned as it is.
pub fn decode_font_data(data: Vec<u8>) -> (r: Result<Vec<u8>, String>)
    requires
        is_woff2(data@) ==> data@.len() < woff2_input_limit(),
    ensures
        outcome_model(r) == font_data_spec(data@),
{
    let woff2 = data.len() >= 4 && data[0] == 0x77 && data[1] == 0x4f && data[2] == 0x46 && data[3] == 0x32;
    proof {
        if data@.len() >= 4 {
            let head = data@.subrange(0, 4);
            assert(head[0] == data@[0] && head[1] == data@[1] && head[2] == data@[2] && head[3] == data@[3]);
            if woff2 {
                assert(head =~= woff2_signature());
            }
        }
    }
    if !woff2 {
        return Ok(data);
    }
    let decoded = decompress_woff2(data.as_slice());
    woff2_outcome(decoded)
}

} // verus!
