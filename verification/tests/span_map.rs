use reflexo_typst::fingerprint::Fingerprint;
use reflexo_typst::span_map::{
    ElementPoint, SourceNodeKind, SourceRegion, SourceSpan, SourceSpanOffset, Span2VecPass, SpanError,
    SOURCE_MAPPING_TYPE_CHAR_INDEX, SOURCE_MAPPING_TYPE_GROUP, SOURCE_MAPPING_TYPE_IMAGE,
    SOURCE_MAPPING_TYPE_PAGE, SOURCE_MAPPING_TYPE_SHAPE, SOURCE_MAPPING_TYPE_TEXT,
};
use reflexo_typst::incr::IncrDocServer;
use reflexo_typst::item_store::ItemStore;

fn fp(n: u128) -> Fingerprint {
    Fingerprint::from_u128(n)
}

fn point(kind: u32, index: u32) -> ElementPoint {
    ElementPoint { kind, index, fingerprint: String::new() }
}

fn steps(p: &[ElementPoint]) -> Vec<(u32, u32)> {
    p.iter().map(|e| (e.kind, e.index)).collect()
}

/// A document: root region 1 holds page region 2 at position 0; the page
/// holds a text of span 7 with three characters at byte offsets 0, 1, 2, an
/// image of span 9, and a group (region 3) holding a shape of span 9.
fn sample() -> Span2VecPass {
    let mut pass = Span2VecPass::new();
    pass.reset();
    let doc = pass.start();
    let page = pass.start();
    let group = pass.start();
    assert_eq!((doc, page, group), (1, 2, 3));
    pass.set_doc_region(doc);
    pass.push_span(SourceRegion { region: doc, idx: 0, kind: SourceNodeKind::Page { region: page }, item: fp(1) });
    pass.push_span(SourceRegion {
        region: page,
        idx: 0,
        kind: SourceNodeKind::Text(vec![(SourceSpan(7), 0), (SourceSpan(7), 1), (SourceSpan(7), 2)]),
        item: fp(2),
    });
    pass.push_span(SourceRegion { region: page, idx: 2, kind: SourceNodeKind::Group { region: group }, item: fp(3) });
    pass.push_span(SourceRegion { region: page, idx: 1, kind: SourceNodeKind::Image(SourceSpan(9)), item: fp(4) });
    pass.push_span(SourceRegion { region: group, idx: 0, kind: SourceNodeKind::Shape(SourceSpan(9)), item: fp(5) });
    pass
}

#[test]
fn detached_span() {
    assert!(SourceSpan::detached().is_detached());
    assert_eq!(SourceSpan::detached(), SourceSpan(1));
    assert!(!SourceSpan(7).is_detached());
}

#[test]
fn start_allocates_regions_in_order() {
    let mut pass = Span2VecPass::new();
    assert_eq!(pass.start(), 0);
    assert_eq!(pass.start(), 1);
    pass.reset();
    assert_eq!(pass.start(), 1);
    pass.set_should_attach_debug_info(true);
    assert!(pass.should_attach_debug_info());
}

#[test]
fn query_follows_page_and_text() {
    let mut pass = sample();
    let path = vec![point(SOURCE_MAPPING_TYPE_PAGE, 0), point(SOURCE_MAPPING_TYPE_TEXT, 0)];
    let r = pass.query(&path).unwrap().unwrap();
    assert_eq!(r.0, SourceSpanOffset { span: SourceSpan(7), offset: 0 });
    assert_eq!(r.1, SourceSpanOffset { span: SourceSpan(7), offset: 2 });
}

#[test]
fn query_char_index_narrows_to_one_character() {
    let mut pass = sample();
    let path = vec![
        point(SOURCE_MAPPING_TYPE_PAGE, 0),
        point(SOURCE_MAPPING_TYPE_TEXT, 0),
        point(SOURCE_MAPPING_TYPE_CHAR_INDEX, 1),
    ];
    let r = pass.query(&path).unwrap().unwrap();
    assert_eq!(r, (SourceSpanOffset { span: SourceSpan(7), offset: 1 }, SourceSpanOffset { span: SourceSpan(7), offset: 1 }));
    let path = vec![
        point(SOURCE_MAPPING_TYPE_PAGE, 0),
        point(SOURCE_MAPPING_TYPE_TEXT, 0),
        point(SOURCE_MAPPING_TYPE_CHAR_INDEX, 9),
    ];
    let r = pass.query(&path).unwrap().unwrap();
    assert_eq!(r.0.offset, 0);
    assert_eq!(r.1.offset, 2);
}

#[test]
fn query_children_are_ordered_by_position() {
    let mut pass = sample();
    let image = vec![point(SOURCE_MAPPING_TYPE_PAGE, 0), point(SOURCE_MAPPING_TYPE_IMAGE, 1)];
    let r = pass.query(&image).unwrap().unwrap();
    assert_eq!(r.0, SourceSpanOffset { span: SourceSpan(9), offset: 0 });
    let shape = vec![
        point(SOURCE_MAPPING_TYPE_PAGE, 0),
        point(SOURCE_MAPPING_TYPE_GROUP, 2),
        point(SOURCE_MAPPING_TYPE_SHAPE, 0),
    ];
    let r = pass.query(&shape).unwrap().unwrap();
    assert_eq!(r.1, SourceSpanOffset { span: SourceSpan(9), offset: 0 });
}

#[test]
fn query_errors() {
    let mut pass = sample();
    assert_eq!(pass.query(&[point(SOURCE_MAPPING_TYPE_PAGE, 5)]), Err(SpanError::NotFound));
    assert_eq!(pass.query(&[point(SOURCE_MAPPING_TYPE_GROUP, 0)]), Err(SpanError::NodeTypeMismatch));
    assert_eq!(
        pass.query(&[point(SOURCE_MAPPING_TYPE_PAGE, 0), point(SOURCE_MAPPING_TYPE_SHAPE, 1)]),
        Err(SpanError::NodeTypeMismatch)
    );
    let wrong_fg = ElementPoint { kind: SOURCE_MAPPING_TYPE_PAGE, index: 0, fingerprint: "zzz".to_owned() };
    assert_eq!(pass.query(&[wrong_fg]), Err(SpanError::FingerprintMismatch));
    let id = fp(1).as_svg_id("");
    let right_fg = ElementPoint { kind: SOURCE_MAPPING_TYPE_PAGE, index: 0, fingerprint: format!("x{id}y") };
    assert_eq!(pass.query(&[right_fg]), Ok(None));
    assert_eq!(pass.query(&[]), Ok(None));
}

#[test]
fn query_without_document() {
    let mut pass = sample();
    pass.set_doc_region(0);
    assert_eq!(pass.query(&[]), Err(SpanError::DocNotInitialized));
    assert!(matches!(
        pass.query_element_paths(SourceSpanOffset { span: SourceSpan(7), offset: 0 }),
        Err(SpanError::DocNotInitialized)
    ));
}

#[test]
fn element_paths_pick_the_character_at_the_offset() {
    let mut pass = sample();
    let paths = pass.query_element_paths(SourceSpanOffset { span: SourceSpan(7), offset: 1 }).unwrap();
    assert_eq!(paths.len(), 1);
    assert_eq!(
        steps(&paths[0]),
        vec![(SOURCE_MAPPING_TYPE_PAGE, 0), (SOURCE_MAPPING_TYPE_TEXT, 0), (SOURCE_MAPPING_TYPE_CHAR_INDEX, 1)]
    );
    assert!(paths[0].iter().all(|p| p.fingerprint.is_empty()));
    let last = pass.query_element_paths(SourceSpanOffset { span: SourceSpan(7), offset: 500 }).unwrap();
    assert_eq!(steps(&last[0]), vec![(4, 0), (0, 0), (5, 2)]);
}

#[test]
fn element_paths_lead_back_to_the_span() {
    let mut pass = sample();
    let paths = pass.query_element_paths(SourceSpanOffset { span: SourceSpan(9), offset: 0 }).unwrap();
    assert_eq!(paths.len(), 2);
    assert_eq!(steps(&paths[0]), vec![(SOURCE_MAPPING_TYPE_PAGE, 0), (SOURCE_MAPPING_TYPE_IMAGE, 1)]);
    assert_eq!(
        steps(&paths[1]),
        vec![(SOURCE_MAPPING_TYPE_PAGE, 0), (SOURCE_MAPPING_TYPE_GROUP, 2), (SOURCE_MAPPING_TYPE_SHAPE, 0)]
    );
    for p in &paths {
        let (a, b) = pass.query(p).unwrap().unwrap();
        assert_eq!(a.span, SourceSpan(9));
        assert_eq!(b.span, SourceSpan(9));
    }
    let text = pass.query_element_paths(SourceSpanOffset { span: SourceSpan(7), offset: 2 }).unwrap();
    for p in &text {
        let (a, b) = pass.query(p).unwrap().unwrap();
        assert_eq!((a.span, b.span), (SourceSpan(7), SourceSpan(7)));
        assert_eq!(a.offset, 2);
    }
}

#[test]
fn element_paths_of_unknown_span_are_empty() {
    let mut pass = sample();
    let paths = pass.query_element_paths(SourceSpanOffset { span: SourceSpan(42), offset: 0 }).unwrap();
    assert!(paths.is_empty());
}

#[test]
fn element_paths_report_a_missing_parent() {
    let mut pass = sample();
    pass.push_span(SourceRegion { region: 8, idx: 0, kind: SourceNodeKind::Char((SourceSpan(11), 0)), item: fp(6) });
    assert!(matches!(
        pass.query_element_paths(SourceSpanOffset { span: SourceSpan(11), offset: 0 }),
        Err(SpanError::ParentNotFound(8))
    ));
}

#[test]
fn element_paths_through_a_group_of_the_root() {
    let mut pass = sample();
    pass.push_span(SourceRegion { region: 1, idx: 1, kind: SourceNodeKind::Group { region: 6 }, item: fp(7) });
    pass.push_span(SourceRegion { region: 6, idx: 0, kind: SourceNodeKind::Char((SourceSpan(12), 3)), item: fp(8) });
    let paths = pass.query_element_paths(SourceSpanOffset { span: SourceSpan(12), offset: 0 }).unwrap();
    assert_eq!(paths.len(), 1);
    assert_eq!(steps(&paths[0]), vec![(SOURCE_MAPPING_TYPE_GROUP, 1), (SOURCE_MAPPING_TYPE_TEXT, 0)]);
    let (a, _) = pass.query(&paths[0]).unwrap().unwrap();
    assert_eq!(a, SourceSpanOffset { span: SourceSpan(12), offset: 3 });
}

#[test]
fn collected_spans_are_frozen_by_the_first_query() {
    let mut pass = sample();
    assert_eq!(pass.query(&[point(SOURCE_MAPPING_TYPE_PAGE, 0)]), Ok(None));
    // Elements recorded after the first query are not seen by later queries.
    pass.push_span(SourceRegion { region: 2, idx: 3, kind: SourceNodeKind::Image(SourceSpan(20)), item: fp(9) });
    assert_eq!(
        pass.query(&[point(SOURCE_MAPPING_TYPE_PAGE, 0), point(SOURCE_MAPPING_TYPE_IMAGE, 3)]),
        Err(SpanError::NotFound)
    );
}

#[test]
fn incremental_server_frames_its_blobs() {
    let mut server = IncrDocServer::new();
    assert_eq!(server.pack_current(b"m"), None);
    server.set_should_attach_debug_info(true);
    assert!(server.spans.should_attach_debug_info());
    server.begin_delta();
    assert_eq!(server.pack_delta(b"xyz"), b"diff-v1,xyz".to_vec());
    assert_eq!(server.pack_current(b"m"), Some(b"new,m".to_vec()));
    assert_eq!(server.pack_delta(b""), b"diff-v1,".to_vec());
}

#[test]
fn incremental_server_resolves_spans() {
    let mut server = IncrDocServer { spans: sample(), items: ItemStore::new(), has_pages: true };
    let paths = server.resolve_element_paths_by_span(SourceSpanOffset { span: SourceSpan(9), offset: 0 }).unwrap();
    assert_eq!(paths.len(), 2);
    let (a, b) = server.resolve_span_by_element_path(&paths[1]).unwrap().unwrap();
    assert_eq!((a.span, b.span), (SourceSpan(9), SourceSpan(9)));
}

#[test]
fn query_into_an_empty_page() {
    let mut pass = sample();
    pass.push_span(SourceRegion { region: 1, idx: 1, kind: SourceNodeKind::Page { region: 9 }, item: fp(10) });
    assert_eq!(pass.query(&[point(SOURCE_MAPPING_TYPE_PAGE, 1)]), Err(SpanError::RegionNotFound));
}

#[test]
fn element_paths_after_setting_the_root() {
    let s = SourceSpan::detached();
    let mut p = Span2VecPass::new();
    p.reset();
    p.set_doc_region(1);
    p.push_span(SourceRegion { region: 2, idx: 1, kind: SourceNodeKind::Shape(s), item: fp(2) });
    p.push_span(SourceRegion { region: 2, idx: 0, kind: SourceNodeKind::Group { region: 3 }, item: fp(3) });
    p.push_span(SourceRegion { region: 1, idx: 0, kind: SourceNodeKind::Page { region: 2 }, item: fp(1) });
    let paths = p.query_element_paths(SourceSpanOffset { span: s, offset: 0 }).unwrap();
    assert_eq!(paths.len(), 1);
    assert_eq!(steps(&paths[0]), vec![(SOURCE_MAPPING_TYPE_PAGE, 0), (SOURCE_MAPPING_TYPE_SHAPE, 1)]);
    assert!(paths[0].iter().all(|e| e.fingerprint.is_empty()));
}

#[test]
fn element_paths_without_root_after_reset() {
    let mut p = sample();
    p.reset();
    p.push_span(SourceRegion { region: 2, idx: 0, kind: SourceNodeKind::Group { region: 3 }, item: fp(3) });
    p.push_span(SourceRegion { region: 3, idx: 0, kind: SourceNodeKind::Group { region: 2 }, item: fp(4) });
    assert_eq!(p.start(), 1);
    assert_eq!(p.start(), 2);
    assert_eq!(p.query(&[]), Err(SpanError::DocNotInitialized));
    assert!(matches!(
        p.query_element_paths(SourceSpanOffset { span: SourceSpan(7), offset: 0 }),
        Err(SpanError::DocNotInitialized)
    ));
}

#[test]
fn incremental_server_sets_its_root() {
    let mut server = IncrDocServer::new();
    assert!(!server.has_pages);
    server.set_doc_region(4);
    assert_eq!(server.spans.doc_region(), 4);
    server.begin_delta();
    assert_eq!(server.spans.doc_region(), 0);
}

#[test]
fn incremental_server_starts_empty() {
    let mut server = IncrDocServer::new();
    assert_eq!(server.pack_current(b"m"), None);
    assert_eq!(server.spans.doc_region(), 0);
    assert_eq!(server.spans.start(), 0);
    assert!(!server.spans.should_attach_debug_info());
}
