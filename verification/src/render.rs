//! Rendering of entry content, behind a trusted boundary.
//!
//! Rendering is an opaque, deterministic, possibly failing function of the
//! content and the language hint alone; its result is only named here, never
//! described, so everything downstream is proved for whatever it returns.

use vstd::prelude::*;

verus! {

/// What the highlighter produces for this content under this language hint,
/// or `None` when it fails. Deterministic: the same inputs always yield the
/// same value.
pub uninterp spec fn render_result(content: Seq<char>, lang: Option<Seq<char>>) -> Option<
    Seq<char>,
>;

/// An optional owned language hint, as the spec sees it.
pub open spec fn hint_of(h: Option<String>) -> Option<Seq<char>> {
    match h {
        Some(s) => Some(s@),
        None => None,
    }
}

/// An optional borrowed language hint, as the spec sees it.
pub open spec fn hint_ref_view(h: Option<&str>) -> Option<Seq<char>> {
    match h {
        Some(s) => Some(s@),
        None => None,
    }
}

/// Relies on syntect (SyntaxSet::load_defaults_newlines, find_syntax_by_token,
/// find_syntax_plain_text, ThemeSet::load_defaults and
/// html::highlighted_html_for_string): highlighting over the bundled syntax
/// and theme dumps is a deterministic function of the content and the hint,
/// and may fail.
#[verifier::external_body]
pub(crate) fn render(content: &str, lang: Option<&str>) -> (r: Option<String>)
    ensures
        (match r {
            Some(v) => render_result(content@, hint_ref_view(lang)) == Some(v@),
            None => render_result(content@, hint_ref_view(lang)) is None,
        }),
{
    let syntaxes = syntect::parsing::SyntaxSet::load_defaults_newlines();
    let themes = syntect::highlighting::ThemeSet::load_defaults();
    let syntax = match lang {
        Some(token) => match syntaxes.find_syntax_by_token(token) {
            Some(s) => s,
            None => syntaxes.find_syntax_plain_text(),
        },
        None => syntaxes.find_syntax_plain_text(),
    };
    let theme = &themes.themes["base16-ocean.dark"];
    match syntect::html::highlighted_html_for_string(content, &syntaxes, syntax, theme) {
        Ok(html) => Some(html),
        Err(_) => None,
    }
}

} // verus!
