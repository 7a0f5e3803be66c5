use reflexo_typst::sema_walk::{semantics_pieces, SemaNode};

fn s(x: &str) -> String {
    x.to_string()
}

fn text(attrs: &str, content: &str) -> SemaNode {
    SemaNode::Text { attrs: s(attrs), content: s(content) }
}

#[test]
fn walk_numbers_texts_and_takes_fallbacks_in_order() {
    let page = SemaNode::Group {
        children: vec![
            text(" style=\"a\">", "Hello"),
            SemaNode::Labelled { label: s("lbl"), child: Box::new(text(" style=\"b\">", "World")) },
            SemaNode::Nothing,
        ],
    };
    let mut fallbacks = vec![(s("<p1>"), s("<a1>")), (s("<p2>"), s("<a2>")), (s("<p3>"), s("<a3>"))];
    let mut dfn = 5usize;
    let mut out = vec![s("start")];
    semantics_pieces(&page, &mut fallbacks, &mut dfn, true, &mut out);
    assert_eq!(dfn, 7);
    assert_eq!(fallbacks, vec![(s("<p3>"), s("<a3>"))]);
    assert_eq!(
        out,
        vec![
            s("start"),
            s("<span class=\"typst-content-group\">"),
            s("<p1>"),
            s("<span class=\"typst-content-text\" data-text-id=\"5\" style=\"a\">"),
            s("Hello"),
            s("</span>"),
            s("<a1>"),
            s(""),
            s("<span class=\"typst-content-group\" data-typst-label=\"lbl\" >"),
            s("<p2>"),
            s("<span class=\"typst-content-text\" data-text-id=\"6\" style=\"b\">"),
            s("World"),
            s("</span>"),
            s("<a2>"),
            s("</span>"),
            s("</span>"),
        ]
    );
}

#[test]
fn light_walk_leaves_fallbacks_out() {
    let mut fallbacks = vec![(s("<p>"), s("<a>"))];
    let mut dfn = 0usize;
    let mut out = vec![];
    semantics_pieces(&text(">", "x"), &mut fallbacks, &mut dfn, false, &mut out);
    assert_eq!(out, vec![s("<span class=\"typst-content-text\" data-text-id=\"0\">"), s("x"), s("</span>")]);
    assert!(fallbacks.is_empty());
    assert_eq!(dfn, 1);
}

#[test]
fn links_into_the_document_run_their_code() {
    let mut fb = vec![];
    let mut dfn = 0usize;
    let mut out = vec![];
    let link = SemaNode::Link { href: s("@typst:@typst:go(1)"), escaped_href: s("@typst:@typst:go(1)"), attrs: s(" style=\"s\">") };
    semantics_pieces(&link, &mut fb, &mut dfn, true, &mut out);
    assert_eq!(
        out,
        vec![
            s("<a class=\"typst-content-link\" href=\"#\""),
            s(" onclick=\"go(1); return false\""),
            s(" style=\"s\">"),
            s("</a>"),
        ]
    );
    let mut out = vec![];
    let link = SemaNode::Link { href: s("https://a.b/?x&y"), escaped_href: s("https://a.b/?x&amp;y"), attrs: s(">") };
    semantics_pieces(&link, &mut fb, &mut dfn, true, &mut out);
    assert_eq!(out, vec![s("<a class=\"typst-content-link\" href=\"https://a.b/?x&amp;y\""), s(">"), s("</a>")]);
}

#[test]
fn hints_and_raw_html() {
    let mut fb = vec![];
    let mut dfn = 0usize;
    let mut out = vec![];
    let br = SemaNode::ContentHint { newline: true, attrs: s(" style=\"x\">"), content: s("\n") };
    semantics_pieces(&br, &mut fb, &mut dfn, false, &mut out);
    let hint = SemaNode::ContentHint { newline: false, attrs: s(">"), content: s("&lt;") };
    semantics_pieces(&hint, &mut fb, &mut dfn, false, &mut out);
    let html = SemaNode::RawHtml { attrs: s(">"), html: s("<b>b</b>") };
    semantics_pieces(&html, &mut fb, &mut dfn, false, &mut out);
    assert_eq!(
        out,
        vec![
            s("<br class=\"typst-content-hint\""),
            s(" style=\"x\">"),
            s("<span class=\"typst-content-hint\""),
            s(">"),
            s("&lt;"),
            s("</span>"),
            s("<span class=\"typst-content-html\""),
            s(">"),
            s("<b>b</b>"),
            s("</span>"),
        ]
    );
    assert_eq!(dfn, 0);
}
