use reflexo_typst::canvas::{rgba_to_css, CanvasTask, DefaultExportFeature, ExportFeature, GroupKind, Rgba8Item};
use reflexo_typst::driver::DiagnosticHandler;
use reflexo_typst::export::CompileExporter;
use reflexo_typst::features::DiagnosticFormat;
use reflexo_typst::fingerprint::Fingerprint;
use reflexo_typst::glyph::{u8_to_decimal, FlatGlyphItem, ImageGlyphItem, OutlineGlyphItem, SvgGlyphBuilder};
use reflexo_typst::text_digest::{Frame, FrameItem, PagedDocument, TextExporter};
use reflexo_typst::world::{from_utf8_or_bom, FileError, FileId, FileSlot};
use reflexo_typst::hex::to_hex;
use reflexo_typst::group_order::order_group_children;
use reflexo_typst::base64_text::embed_as_image_url;

#[test]
fn svg_id_of_zero_fingerprint() {
    let fp = Fingerprint::from_u128(0);
    assert_eq!(fp.as_svg_id("p"), "pAAAAAAAAAAA");
}

#[test]
fn svg_id_encodes_low_half_little_endian() {
    let fp = Fingerprint::from_u128(1);
    assert_eq!(fp.lo, 1);
    assert_eq!(fp.hi, 0);
    assert_eq!(fp.as_svg_id(""), "AQAAAAAAAAA");
}

#[test]
fn svg_id_appends_trimmed_high_half() {
    let fp = Fingerprint::from_u128(1u128 << 64);
    assert_eq!(fp.lo, 0);
    assert_eq!(fp.hi, 1);
    assert_eq!(fp.as_svg_id("g"), "gAAAAAAAAAAAAQ");
    let fp = Fingerprint::from_u128((0x0201u128 << 64) | 0xff);
    assert_eq!(fp.as_svg_id(""), "/wAAAAAAAAAAQI");
}

#[test]
fn ligature_attribute() {
    let _ = SvgGlyphBuilder::new();
    assert_eq!(SvgGlyphBuilder::render_ligature_attr(0), "");
    assert_eq!(SvgGlyphBuilder::render_ligature_attr(3), " data-liga-len=\"3\"");
    assert_eq!(SvgGlyphBuilder::render_ligature_attr(200), " data-liga-len=\"200\"");
}

#[test]
fn decimal_digits() {
    assert_eq!(u8_to_decimal(0), "0");
    assert_eq!(u8_to_decimal(9), "9");
    assert_eq!(u8_to_decimal(10), "10");
    assert_eq!(u8_to_decimal(255), "255");
}

#[test]
fn compile_exporter_holds_one_exporter() {
    let e: CompileExporter<u32, &str> = CompileExporter::new(7);
    assert_eq!(e.compiler, 7);
    assert!(e.exporter.exporters.is_empty());
    let e = e.with_exporter("svg");
    assert_eq!(e.compiler, 7);
    assert_eq!(e.exporter.exporters, vec!["svg"]);
    let mut e = e;
    e.set_exporter("pdf");
    assert_eq!(e.exporter.exporters, vec!["pdf"]);
}

#[test]
fn full_text_digest() {
    let doc = PagedDocument {
        pages: vec![
            Frame {
                items: vec![
                    FrameItem::Text("Hello".to_owned()),
                    FrameItem::ContentHint(' '),
                    FrameItem::Group(Frame {
                        items: vec![FrameItem::Text("World".to_owned()), FrameItem::Shape],
                    }),
                    FrameItem::Image,
                ],
            },
            Frame { items: vec![FrameItem::Link, FrameItem::ContentHint('\n'), FrameItem::Text("!".to_owned())] },
        ],
    };
    assert_eq!(TextExporter {}.export(&doc), "Hello World\n!");
    assert_eq!(TextExporter {}.export(&PagedDocument { pages: vec![] }), "");
}

#[test]
fn source_text_without_bom() {
    assert_eq!(from_utf8_or_bom(b"\xef\xbb\xbfabc"), Ok("abc"));
    assert_eq!(from_utf8_or_bom(b"abc"), Ok("abc"));
    assert_eq!(from_utf8_or_bom("é".as_bytes()), Ok("é"));
    assert_eq!(from_utf8_or_bom(b"\xef\xbb\xbf"), Ok(""));
    assert_eq!(from_utf8_or_bom(b""), Ok(""));
}

#[test]
fn source_text_invalid_utf8() {
    assert_eq!(from_utf8_or_bom(&[0xff]), Err(FileError::InvalidUtf8));
    assert_eq!(from_utf8_or_bom(b"\xef\xbb"), Err(FileError::InvalidUtf8));
    assert_eq!(from_utf8_or_bom(b"\xef\xbb\xbf\xef\xbb"), Err(FileError::InvalidUtf8));
}

#[test]
fn file_slot_holds_its_id() {
    let slot = FileSlot { idx: FileId(4), cache: "c" };
    assert_eq!(slot.idx, FileId(4));
    assert!(FileId(1) < FileId(2));
}

#[test]
fn canvas_features_and_group_colors() {
    let _task: CanvasTask<DefaultExportFeature> = CanvasTask::new();
    assert!(DefaultExportFeature::SHOULD_RENDER_TEXT_ELEMENT);
    assert!(!DefaultExportFeature::ENABLE_TRACING);
    assert_eq!(GroupKind::Text.bbox_color(), "red");
    assert_eq!(GroupKind::General.bbox_color(), "green");
}

#[test]
fn image_data_url() {
    assert_eq!(embed_as_image_url("png", &[0, 1, 2]), Some("data:image/png;base64,AAEC".to_owned()));
    assert_eq!(embed_as_image_url("svg+xml", b"Man"), Some("data:image/svg+xml;base64,TWFu".to_owned()));
    assert_eq!(embed_as_image_url("gif", b"Ma"), Some("data:image/gif;base64,TWE=".to_owned()));
    assert_eq!(embed_as_image_url("jpg", b""), Some("data:image/jpg;base64,".to_owned()));
}

#[test]
fn hexadecimal_text() {
    assert_eq!(to_hex(0), "0");
    assert_eq!(to_hex(10), "a");
    assert_eq!(to_hex(0x1f), "1f");
    assert_eq!(to_hex(u128::MAX), "ffffffffffffffffffffffffffffffff");
}

#[test]
fn diagnostics_of_success_and_failure() {
    let h = DiagnosticHandler::new();
    assert!(matches!(h.diagnostic_format, DiagnosticFormat::Human));
    assert!(!h.should_print_status());
    let ok: Result<u8, Vec<&str>> = Ok(3);
    assert_eq!(h.report_compiled(ok, vec!["w"]), (Some(3), vec!["w"]));
    let err: Result<u8, Vec<&str>> = Err(vec!["e1", "e2"]);
    assert_eq!(h.report_compiled(err, vec!["w"]), (None, vec!["e1", "e2"]));
    let quiet: Result<u8, Vec<&str>> = Ok(1);
    assert_eq!(h.report_compiled(quiet, vec![]), (Some(1), vec![]));
}

#[test]
fn distinct_fingerprints_get_distinct_ids() {
    let ids: Vec<String> = [0u128, 1, 256, 1 << 64, (1 << 64) | 1, 1 << 72, u128::MAX]
        .iter()
        .map(|&h| Fingerprint::from_u128(h).as_svg_id("p"))
        .collect();
    for i in 0..ids.len() {
        for j in 0..i {
            assert_ne!(ids[i], ids[j]);
        }
    }
}

#[test]
fn glyph_definitions() {
    let mut b = SvgGlyphBuilder::new();
    let outline = FlatGlyphItem::Outline(OutlineGlyphItem { d: "M 0 0 L 1 1".to_owned(), ligature_len: 0 });
    assert_eq!(
        b.render_glyph("g1", &outline),
        Some("<path id=\"g1\" class=\"outline_glyph\" d=\"M 0 0 L 1 1\"/>".to_owned())
    );
    let liga = FlatGlyphItem::Outline(OutlineGlyphItem { d: "Z".to_owned(), ligature_len: 2 });
    assert_eq!(
        b.render_glyph("g2", &liga),
        Some("<path id=\"g2\" class=\"outline_glyph\" d=\"Z\" data-liga-len=\"2\"/>".to_owned())
    );
    let image = FlatGlyphItem::Image(ImageGlyphItem { image: "<image/>".to_owned(), ligature_len: 1 });
    assert_eq!(
        b.render_glyph("g3", &image),
        Some("<symbol overflow=\"visible\" id=\"g3\" class=\"image_glyph\" data-liga-len=\"1\"><image/></symbol>".to_owned())
    );
    assert_eq!(b.render_glyph("g4", &FlatGlyphItem::Nothing), None);
}

#[test]
fn colours_in_css() {
    assert_eq!(rgba_to_css(Rgba8Item { r: 0x11, g: 0x22, b: 0xff, a: 255 }), "#12f");
    assert_eq!(rgba_to_css(Rgba8Item { r: 0x12, g: 0x22, b: 0xff, a: 255 }), "#1222ff");
    assert_eq!(rgba_to_css(Rgba8Item { r: 0x11, g: 0x22, b: 0xff, a: 0x80 }), "#1122ff80");
    assert_eq!(rgba_to_css(Rgba8Item { r: 0, g: 0, b: 0, a: 0 }), "#00000000");
    assert_eq!(rgba_to_css(Rgba8Item { r: 0xab, g: 0x0c, b: 0x9d, a: 255 }), "#ab0c9d");
}

#[test]
fn group_children_put_links_last_and_the_hint_at_the_end() {
    let items = vec![(false, 1), (true, 2), (false, 3), (true, 4), (false, 5)];
    assert_eq!(order_group_children(items, Some(9)), vec![1, 3, 5, 2, 4, 9]);
    assert_eq!(order_group_children(vec![(true, 'a'), (true, 'b')], None), vec!['a', 'b']);
    assert_eq!(order_group_children(Vec::<(bool, u8)>::new(), None), Vec::<u8>::new());
}
