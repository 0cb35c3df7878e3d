use base64::Engine;

use svg_report::xml::{expand_base64_svgs, normalize_markup, MarkupError};

fn b64(s: &str) -> String {
    base64::prelude::BASE64_STANDARD.encode(s.as_bytes())
}

fn data_uri(s: &str) -> String {
    format!("data:image/svg+xml;base64,{}", b64(s))
}

/// Walk a parsed tree and count image elements whose href carries a base64
/// data URI.
fn count_b64_images(e: &xmltree::Element) -> usize {
    let mut n = 0;
    if e.name == "image" {
        if let Some(h) = e.attributes.get("href") {
            if h.starts_with("data:image/svg+xml;base64,") {
                n += 1;
            }
        }
    }
    for c in &e.children {
        if let xmltree::XMLNode::Element(ce) = c {
            n += count_b64_images(ce);
        }
    }
    n
}

#[test]
fn no_refs_is_noop() {
    let input = r#"<svg width="10" height="10"><g id="a"><rect x="1" y="2"/><text>hi</text></g></svg>"#;
    let out = expand_base64_svgs(input).unwrap();
    let before = xmltree::Element::parse(std::io::Cursor::new(input.as_bytes())).unwrap();
    let after = xmltree::Element::parse(std::io::Cursor::new(out.as_bytes())).unwrap();
    assert_eq!(before, after);
}

#[test]
fn plain_image_href_is_kept() {
    let input = r#"<svg><image href="other.png" width="5"/></svg>"#;
    let out = expand_base64_svgs(input).unwrap();
    let before = xmltree::Element::parse(std::io::Cursor::new(input.as_bytes())).unwrap();
    let after = xmltree::Element::parse(std::io::Cursor::new(out.as_bytes())).unwrap();
    assert_eq!(before, after);
}

#[test]
fn valid_payload_is_inlined() {
    let inner = r#"<svg viewBox="0 0 4 4"><circle r="2"/></svg>"#;
    let input = format!(r#"<svg><image width="9" href="{}"/></svg>"#, data_uri(inner));
    let out = expand_base64_svgs(&input).unwrap();
    let root = xmltree::Element::parse(std::io::Cursor::new(out.as_bytes())).unwrap();
    // the image element is gone; its replacement is an svg element
    assert_eq!(count_b64_images(&root), 0);
    let replacement = root
        .children
        .iter()
        .find_map(|c| match c {
            xmltree::XMLNode::Element(e) => Some(e),
            _ => None,
        })
        .unwrap();
    assert_eq!(replacement.name, "svg");
    // no href remains
    assert!(replacement.attributes.get("href").is_none());
    // outer attribute kept, inner attribute carried over
    assert_eq!(replacement.attributes.get("width").map(String::as_str), Some("9"));
    assert_eq!(
        replacement.attributes.get("viewBox").map(String::as_str),
        Some("0 0 4 4")
    );
    // the inner document's children are now the replacement's children
    let inner_child = replacement
        .children
        .iter()
        .find_map(|c| match c {
            xmltree::XMLNode::Element(e) => Some(e),
            _ => None,
        })
        .unwrap();
    assert_eq!(inner_child.name, "circle");
}

#[test]
fn outer_attribute_wins_on_collision() {
    let inner = r#"<svg width="77"><rect/></svg>"#;
    let input = format!(r#"<svg><image width="9" href="{}"/></svg>"#, data_uri(inner));
    let out = expand_base64_svgs(&input).unwrap();
    let root = xmltree::Element::parse(std::io::Cursor::new(out.as_bytes())).unwrap();
    let replacement = root
        .children
        .iter()
        .find_map(|c| match c {
            xmltree::XMLNode::Element(e) => Some(e),
            _ => None,
        })
        .unwrap();
    assert_eq!(replacement.attributes.get("width").map(String::as_str), Some("9"));
}

#[test]
fn inner_attrs_can_be_left_out() {
    let inner = r#"<svg viewBox="0 0 4 4"><rect/></svg>"#;
    let input = format!(r#"<svg><image href="{}"/></svg>"#, data_uri(inner));
    let out = normalize_markup(&input, false).unwrap();
    let root = xmltree::Element::parse(std::io::Cursor::new(out.as_bytes())).unwrap();
    let replacement = root
        .children
        .iter()
        .find_map(|c| match c {
            xmltree::XMLNode::Element(e) => Some(e),
            _ => None,
        })
        .unwrap();
    assert!(replacement.attributes.get("viewBox").is_none());
}

#[test]
fn invalid_base64_is_preserved() {
    let input = r#"<svg><image href="data:image/svg+xml;base64,@@not-base64@@"/></svg>"#;
    let out = expand_base64_svgs(input).unwrap();
    let before = xmltree::Element::parse(std::io::Cursor::new(input.as_bytes())).unwrap();
    let after = xmltree::Element::parse(std::io::Cursor::new(out.as_bytes())).unwrap();
    assert_eq!(before, after);
}

#[test]
fn non_utf8_payload_is_preserved() {
    // 0xFF 0xFE ... is not valid UTF-8
    let payload = base64::prelude::BASE64_STANDARD.encode([0xFFu8, 0xFE, 0x00, 0x9F]);
    let input = format!(
        r#"<svg><image href="data:image/svg+xml;base64,{}"/></svg>"#,
        payload
    );
    let out = expand_base64_svgs(&input).unwrap();
    let before = xmltree::Element::parse(std::io::Cursor::new(input.as_bytes())).unwrap();
    let after = xmltree::Element::parse(std::io::Cursor::new(out.as_bytes())).unwrap();
    assert_eq!(before, after);
}

#[test]
fn unparseable_payload_is_fatal() {
    let input = format!(
        r#"<svg><image href="{}"/></svg>"#,
        data_uri("<svg><unclosed></svg>")
    );
    assert_eq!(expand_base64_svgs(&input), Err(MarkupError::Parse));
}

#[test]
fn malformed_markup_is_fatal() {
    assert_eq!(expand_base64_svgs("<svg><oops</svg>"), Err(MarkupError::Parse));
}

#[test]
fn nested_payloads_are_resolved() {
    let innermost = r#"<svg><rect id="deep"/></svg>"#;
    let middle = format!(r#"<svg><image href="{}"/></svg>"#, data_uri(innermost));
    let input = format!(r#"<svg><image href="{}"/></svg>"#, data_uri(&middle));
    let out = expand_base64_svgs(&input).unwrap();
    let root = xmltree::Element::parse(std::io::Cursor::new(out.as_bytes())).unwrap();
    assert_eq!(count_b64_images(&root), 0);
    assert!(out.contains("deep"));
}
