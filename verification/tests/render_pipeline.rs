use svg_report::render::{render_svg_to_pdf, RenderError};
use svg_report::xml::MarkupError;

#[test]
fn render_simple_markup_to_page_bytes() {
    let svg = r#"<svg xmlns="http://www.w3.org/2000/svg" width="100" height="50"><rect width="100" height="50" fill="blue"/></svg>"#;
    let bytes = render_svg_to_pdf(svg).unwrap();
    assert!(lopdf::Document::load_mem(&bytes).is_ok());
}

#[test]
fn render_rejects_malformed_markup() {
    assert!(matches!(
        render_svg_to_pdf("<svg><broken"),
        Err(RenderError::Markup(MarkupError::Parse))
    ));
}

#[test]
fn render_reports_renderer_refusal() {
    // well-formed markup that is not a vector-graphics document
    assert!(matches!(
        render_svg_to_pdf("<report><page/></report>"),
        Err(RenderError::Render)
    ));
}
