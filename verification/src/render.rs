//! The boundary to the GFM markdown engine.
use vstd::prelude::*;

verus! {

use crate::md::PipelineError;

/// What the GFM converter returns for a body: its HTML, or nothing when
/// the engine rejects the input.
pub uninterp spec fn gfm_html_of(s: Seq<char>) -> Option<Seq<char>>;

/// Relies on `markdown::to_html_with_options` with `Options::gfm()`: the
/// result depends on the input characters alone; a rejected input yields
/// an error, whose display text is passed along.
#[verifier::external_body]
fn gfm_to_html(input: &str) -> (r: Result<String, String>)
    ensures
        (r is Ok) == (gfm_html_of(input@) is Some),
        r matches Ok(h) ==> gfm_html_of(input@) == Some(h@),
{
    match markdown::to_html_with_options(input, &markdown::Options::gfm()) {
        Ok(h) => Ok(h),
        Err(e) => Err(format!("{}", e)),
    }
}

/// Converts one markdown body to HTML under the GFM dialect, surfacing the
/// engine's rejection as a `Render` error rather than a panic.
pub fn generate_html_from_md(input_md: &str) -> (r: Result<String, PipelineError>)
    ensures
        (r is Ok) == (gfm_html_of(input_md@) is Some),
        r matches Ok(h) ==> gfm_html_of(input_md@) == Some(h@),
        r matches Err(e) ==> e is Render,
{
    match gfm_to_html(input_md) {
        Ok(h) => Ok(h),
        Err(m) => Err(PipelineError::Render(m)),
    }
}

} // verus!
