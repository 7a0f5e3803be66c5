use reflexo_typst::font_data::{decode_font_data, woff2_outcome};

#[test]
fn plain_font_data_passes_through() {
    let ttf = vec![0u8, 1, 0, 0, 0, 9];
    assert_eq!(decode_font_data(ttf.clone()), Ok(ttf));
    assert_eq!(decode_font_data(vec![]), Ok(vec![]));
    assert_eq!(decode_font_data(b"wOF".to_vec()), Ok(b"wOF".to_vec()));
    assert_eq!(decode_font_data(b"wOFF1234".to_vec()), Ok(b"wOFF1234".to_vec()));
}

#[test]
fn broken_woff2_is_an_error() {
    assert_eq!(
        decode_font_data(b"wOF2 not really a font".to_vec()),
        Err("failed to decode WOFF2 font: GenericError".to_owned())
    );
}

#[test]
fn woff2_outcomes() {
    assert_eq!(woff2_outcome(Some(vec![1, 2, 3])), Ok(vec![1, 2, 3]));
    assert_eq!(woff2_outcome(None), Err("failed to decode WOFF2 font: GenericError".to_owned()));
}
