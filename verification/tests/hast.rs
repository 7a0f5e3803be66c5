use base64::Engine;
use reflexo_typst::hast::{hast, HastElementContent, HtmlElement, HtmlFrame, HtmlNode};

fn pairs(v: &[(&str, &str)]) -> Vec<(String, String)> {
    v.iter().map(|(k, v)| (k.to_string(), v.to_string())).collect()
}

fn element(e: &HastElementContent) -> &reflexo_typst::hast::HastElement {
    match e {
        HastElementContent::Element(e) => e,
        _ => panic!("expected an element"),
    }
}

#[test]
fn attributes_become_properties_ordered_by_name() {
    let root = HtmlElement {
        tag: "div".to_owned(),
        attrs: pairs(&[("id", "x"), ("class", "a"), ("id", "y"), ("aria-label", "l")]),
        children: vec![],
    };
    let h = hast(&root);
    let e = element(&h);
    assert_eq!(e.tag_name, "div");
    assert_eq!(e.properties, pairs(&[("aria-label", "l"), ("class", "a"), ("id", "y")]));
    assert!(e.children.is_empty());
    assert!(e.data.is_none());
}

#[test]
fn children_are_encoded_in_order_without_tags() {
    let inner = HtmlElement { tag: "span".to_owned(), attrs: vec![], children: vec![HtmlNode::Text("b".to_owned())] };
    let root = HtmlElement {
        tag: "p".to_owned(),
        attrs: vec![],
        children: vec![HtmlNode::Text("a".to_owned()), HtmlNode::Tag, HtmlNode::Element(inner)],
    };
    let h = hast(&root);
    let e = element(&h);
    assert_eq!(e.children.len(), 2);
    match &e.children[0] {
        HastElementContent::Text(t) => assert_eq!(t.value, "a"),
        _ => panic!("expected text"),
    }
    let span = element(&e.children[1]);
    assert_eq!(span.tag_name, "span");
    match &span.children[0] {
        HastElementContent::Text(t) => assert_eq!(t.value, "b"),
        _ => panic!("expected text"),
    }
}

#[test]
fn frames_become_images_with_data_urls() {
    let svg = "<svg class=\"c\"><svg class=\"d\"/></svg>".to_owned();
    let root = HtmlElement {
        tag: "body".to_owned(),
        attrs: vec![],
        children: vec![HtmlNode::Frame(HtmlFrame { svg, hash: 255 })],
    };
    let h = hast(&root);
    let img = element(&element(&h).children[0]);
    assert_eq!(img.tag_name, "img");
    let fixed = "<svg style=\"overflow: visible;\" class=\"c\"><svg style=\"overflow: visible;\" class=\"d\"/></svg>";
    let src = format!(
        "data:image/svg+xml;base64,{}",
        base64::engine::general_purpose::STANDARD.encode(fixed.as_bytes())
    );
    assert_eq!(img.properties, pairs(&[("class", "typst-frame"), ("data-typst-doc", "1"), ("src", &src)]));
    assert!(img.children.is_empty());
    let data = img.data.as_ref().unwrap();
    assert_eq!(data.hash.as_deref(), Some("siphash128_13:00000000000000ff"));
}

#[test]
fn frame_hash_is_at_least_sixteen_hex_digits() {
    let root = HtmlElement {
        tag: "body".to_owned(),
        attrs: vec![],
        children: vec![
            HtmlNode::Frame(HtmlFrame { svg: String::new(), hash: 0 }),
            HtmlNode::Frame(HtmlFrame { svg: String::new(), hash: u128::MAX }),
        ],
    };
    let h = hast(&root);
    let e = element(&h);
    let hash = |i: usize| element(&e.children[i]).data.as_ref().unwrap().hash.clone().unwrap();
    assert_eq!(hash(0), "siphash128_13:0000000000000000");
    assert_eq!(hash(1), format!("siphash128_13:{:016x}", u128::MAX));
    assert_eq!(element(&e.children[0]).properties[2].1, "data:image/svg+xml;base64,");
}

#[test]
fn default_root_is_empty() {
    match HastElementContent::default() {
        HastElementContent::Root(r) => assert!(r.children.is_empty()),
        _ => panic!("expected a root"),
    }
}
