//! HTML generation for parsed pages.
use vstd::prelude::*;

verus! {

use crate::md::{Html, ParsedFile};

/// What the CommonMark converter returns for a body; it renders every
/// input.
pub uninterp spec fn comrak_html_of(s: Seq<char>) -> Seq<char>;

/// Relies on `comrak::markdown_to_html` with default options: it always
/// returns, and the result depends on the input characters alone.
#[verifier::external_body]
fn comrak_to_html(body: &str) -> (r: String)
    ensures
        r@ == comrak_html_of(body@),
{
    comrak::markdown_to_html(body, &comrak::Options::default())
}

/// Descriptive metadata attached to a generated page.
#[derive(Debug, PartialEq, Eq)]
pub struct GeneratedFileMeta {
    pub title: String,
    pub description: String,
}

/// One rendered page: its HTML, the path of the source it came from, and
/// its metadata.
#[derive(Debug, PartialEq, Eq)]
pub struct GeneratedFile {
    pub contents: Html,
    pub original_md_path: String,
    pub meta: GeneratedFileMeta,
}

/// Renders one parsed page to HTML. The title and description carried here
/// are fixed placeholders; the index takes its titles from frontmatter
/// instead.
pub fn generate_html(file: &ParsedFile) -> (r: GeneratedFile)
    ensures
        r.contents@ == comrak_html_of(file@.contents.body),
        r.original_md_path@ == file@.meta.path,
{
    GeneratedFile {
        contents: Html(comrak_to_html(file.contents.body.as_str())),
        original_md_path: file.meta.path.clone(),
        meta: GeneratedFileMeta { title: "title".to_owned(), description: "desc".to_owned() },
    }
}

} // verus!
