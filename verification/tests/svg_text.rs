use std::sync::Arc;

use reflexo_typst::minify::{minify, minify_one};
use reflexo_typst::svg_text::{generate_text, SvgText, SvgTextNode};
use reflexo_typst::svg_text::SvgTextBuilder;

fn node(attributes: Vec<(&'static str, &str)>, content: Vec<SvgText>) -> SvgText {
    SvgText::Content(Arc::new(SvgTextNode {
        attributes: attributes.into_iter().map(|(k, v)| (k, v.to_owned())).collect(),
        content,
    }))
}

fn plain(s: &str) -> SvgText {
    SvgText::Plain(s.to_owned())
}

#[test]
fn estimated_len_of_plain_text_is_its_byte_length() {
    assert_eq!(plain("abc").estimated_len(), 3);
    assert_eq!(plain("é").estimated_len(), 2);
    assert_eq!(plain("").estimated_len(), 0);
}

#[test]
fn estimated_len_of_node_is_exact() {
    let n = node(vec![("class", "x")], vec![plain("hi")]);
    assert_eq!(n.estimated_len(), 19);
    let mut out = String::new();
    n.write_string_io(&mut out);
    assert_eq!(out, "<g class=\"x\">hi</g>");
    assert_eq!(out.len(), n.estimated_len());
}

#[test]
fn estimate_matches_output_on_nested_nodes() {
    let inner = node(vec![("transform", "scale(2)"), ("fill", "red")], vec![plain("é"), plain("x")]);
    let outer = node(vec![("transform", "translate(1,2)")], vec![inner, plain("tail")]);
    let mut out = String::from("pre");
    outer.write_string_io(&mut out);
    assert_eq!(
        out,
        "pre<g transform=\"translate(1,2)\"><g transform=\"scale(2)\" fill=\"red\">éx</g>tail</g>"
    );
    assert_eq!(out.len() - 3, outer.estimated_len());
}

#[test]
fn node_estimated_len_matches_text_estimated_len() {
    let n = SvgTextNode { attributes: vec![("id", "a".to_owned())], content: vec![] };
    assert_eq!(n.estimated_len(), 3 + 4 + 3 + 4);
    let mut out = String::new();
    n.write_string_io(&mut out);
    assert_eq!(out, "<g id=\"a\"></g>");
}

#[test]
fn generate_text_concatenates_in_order() {
    let list = vec![plain("a"), node(vec![("class", "x")], vec![plain("hi")]), plain("b")];
    assert_eq!(generate_text(list), "a<g class=\"x\">hi</g>b");
    assert_eq!(generate_text(vec![]), "");
}

#[test]
fn join_is_generate_text() {
    let list = vec![plain("<svg>"), node(vec![], vec![]), plain("</svg>")];
    assert_eq!(SvgText::join(list), "<svg><g></g></svg>");
}

#[test]
fn minify_folds_transform_chain() {
    let inner = node(vec![("transform", "scale(2)"), ("class", "t")], vec![plain("x")]);
    let outer = node(vec![("transform", "translate(1,2)")], vec![inner]);
    let out = minify(vec![outer]);
    assert_eq!(generate_text(out), "<g transform=\"translate(1,2), scale(2)\" class=\"t\">x</g>");
}

#[test]
fn minify_folds_repeatedly() {
    let c = node(vec![("transform", "c")], vec![plain("z")]);
    let b = node(vec![("transform", "b")], vec![c]);
    let a = node(vec![("transform", "a")], vec![b]);
    let out = minify(vec![a]);
    assert_eq!(generate_text(out), "<g transform=\"a, b, c\">z</g>");
}

#[test]
fn minify_leaves_other_groups() {
    let two_children = node(vec![("transform", "a")], vec![node(vec![], vec![]), plain("x")]);
    let plain_child = node(vec![("transform", "a")], vec![plain("x")]);
    let other_attr = node(vec![("class", "a")], vec![node(vec![], vec![])]);
    let before = vec![two_children, plain_child, other_attr];
    let expected = generate_text(before.iter().map(|t| t.deep_clone()).collect());
    let out = minify(before);
    assert_eq!(generate_text(out), expected);
}

#[test]
fn minify_one_reports_change() {
    let mut t = node(vec![("transform", "a")], vec![node(vec![("transform", "b")], vec![])]);
    assert!(minify_one(&mut t));
    let mut s = String::new();
    t.write_string_io(&mut s);
    assert_eq!(s, "<g transform=\"a, b\"></g>");
    assert!(!minify_one(&mut t));
    let mut p = plain("x");
    assert!(!minify_one(&mut p));
}

#[test]
fn minify_twice_is_minify_once() {
    let inner = node(vec![("transform", "s")], vec![node(vec![("transform", "t")], vec![plain("q")])]);
    let doc = vec![node(vec![("id", "r")], vec![inner])];
    let once = minify(doc);
    let once_text = generate_text(once.iter().map(|t| t.deep_clone()).collect());
    let twice = minify(once);
    assert_eq!(generate_text(twice), once_text);
    assert_eq!(once_text, "<g id=\"r\"><g transform=\"s, t\">q</g></g>");
}

#[test]
fn minify_never_grows_the_estimate() {
    let inner = node(vec![("transform", "scale(2)"), ("class", "t")], vec![plain("x")]);
    let outer = node(vec![("transform", "translate(1,2)")], vec![inner]);
    let before = outer.estimated_len();
    let out = minify(vec![outer]);
    assert!(out[0].estimated_len() <= before);
}

#[test]
fn builder_content_hint_and_debug_info() {
    let mut b = SvgTextBuilder { attributes: vec![], content: vec![] };
    b.render_content_hint('\n');
    b.attach_debug_info(false, 255);
    assert_eq!(b.attributes.len(), 2);
    b.attach_debug_info(true, 0xbeef);
    let n = b.into_node();
    assert_eq!(
        n.attributes,
        vec![
            ("class", "typst-content-hint".to_owned()),
            ("data-hint", "a".to_owned()),
            ("data-span", "beef".to_owned()),
        ]
    );
    let mut out = String::new();
    n.write_string_io(&mut out);
    assert_eq!(out, "<g class=\"typst-content-hint\" data-hint=\"a\" data-span=\"beef\"></g>");
}
