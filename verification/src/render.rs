//! Rendering one normalized markup document to one page-format buffer.

use vstd::prelude::*;

use vstd::string::StringSliceAdditionalSpecFns;

use crate::xml::{expand_base64_svgs, max_embed_depth, norm_elem, xml_emitted, xml_parsed,
    MarkupError};

verus! {

/// Why markup could not be turned into a page.
#[derive(Clone, Copy, PartialEq, Eq, Structural, Debug)]
pub enum RenderError {
    /// Normalization failed (see `MarkupError`).
    Markup(MarkupError),
    /// The renderer declined the normalized markup.
    Render,
}

/// Relies on svg2pdf (its markup parser and converter, with default page
/// and conversion options, system fonts loaded): the result depends on the
/// machine's fonts, so nothing is stated beyond the outcome's shape.
#[verifier::external_body]
fn render_markup(svg: &str) -> (r: Option<Vec<u8>>) {
    let mut options = svg2pdf::usvg::Options::default();
    options.fontdb_mut().load_system_fonts();
    let tree = match svg2pdf::usvg::Tree::from_str(svg, &options) {
        Ok(t) => t,
        Err(_) => return None,
    };
    match svg2pdf::to_pdf(
        &tree,
        svg2pdf::ConversionOptions::default(),
        svg2pdf::PageOptions::default(),
    ) {
        Ok(b) => Some(b),
        Err(_) => None,
    }
}

/// Normalize markup (inlining embedded base64 payloads) and render it to
/// one page-format buffer. The normalization stage is exact: it fails with
/// `Markup(e)` exactly when `normalize_markup` would fail with `e`. The
/// rendering stage is the renderer's decision; `Render` reports its
/// refusal.
pub fn render_svg_to_pdf(svg_content: &str) -> (r: Result<Vec<u8>, RenderError>)
    ensures
        ({
            let parsed = xml_parsed(svg_content.spec_bytes());
            let normalized = norm_elem(parsed->0, true, max_embed_depth());
            match r {
                Result::Ok(_) => parsed is Some && normalized is Some && xml_emitted(
                    normalized->0,
                ) is Some,
                Result::Err(RenderError::Markup(MarkupError::Parse)) => parsed is None
                    || normalized is None,
                Result::Err(RenderError::Markup(MarkupError::Emit)) => parsed is Some
                    && normalized is Some && xml_emitted(normalized->0) is None,
                Result::Err(RenderError::Render) => parsed is Some && normalized is Some
                    && xml_emitted(normalized->0) is Some,
            }
        }),
{
    match expand_base64_svgs(svg_content) {
        Result::Err(e) => Result::Err(RenderError::Markup(e)),
        Result::Ok(expanded) => {
            match render_markup(expanded.as_str()) {
                Option::Some(bytes) => Result::Ok(bytes),
                Option::None => Result::Err(RenderError::Render),
            }
        },
    }
}

} // verus!
