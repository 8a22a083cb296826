//! Reading one case worth of text into a normalized document.
use vstd::prelude::*;

use crate::text;

verus! {

/// Raw case material as it was read, with the name it was read under.
#[derive(Debug, Clone, PartialEq, Eq)]
pub struct IngestRequest {
    pub source_name: String,
    pub contents: String,
}

/// Normalized case material.
#[derive(Debug, Clone, PartialEq, Eq)]
pub struct CaseDocument {
    pub source_name: String,
    pub contents: String,
    pub line_count: usize,
}

#[derive(Debug, Clone, PartialEq, Eq)]
pub enum IngestError {
    /// The input held nothing but white space.
    EmptyInput,
}

impl IngestError {
    /// The message this error is reported with.
    pub fn message(&self) -> (s: &'static str)
        ensures
            s@ == "input was empty after normalization"@,
    {
        "input was empty after normalization"
    }
}

/// The text a document is built from: CR LF pairs turned into LF, then trimmed.
pub open spec fn normalized_contents(raw: Seq<char>) -> Seq<char> {
    text::trim(text::crlf_to_lf(raw))
}

/// Normalizes line endings, trims the text and counts its lines; fails when nothing
/// but white space was read.
pub fn ingest(request: IngestRequest) -> (r: Result<CaseDocument, IngestError>)
    ensures
        r is Err <==> normalized_contents(request.contents@).len() == 0,
        r matches Err(e) ==> e == IngestError::EmptyInput,
        r matches Ok(d) ==> {
            &&& d.source_name@ == request.source_name@
            &&& d.contents@ == normalized_contents(request.contents@)
            &&& d.line_count == text::lines(d.contents@).len()
            &&& d.contents@.len() > 0
            &&& text::trim(d.contents@) == d.contents@
            &&& d.line_count >= 1
        },
{
    let raw = text::chars_of(request.contents.as_str());
    let normalized = text::replace_crlf(&raw);
    let trimmed = text::trimmed(&normalized);
    if trimmed.len() == 0 {
        return Err(IngestError::EmptyInput);
    }
    proof {
        text::lemma_trim_idempotent(text::crlf_to_lf(raw@));
        text::lemma_lines_nonempty(trimmed@);
    }
    let lines = text::split_lines(&trimmed);
    assert(text::views(lines@).len() == lines.len());
    let contents = text::string_of(&trimmed);
    Ok(CaseDocument { source_name: request.source_name, contents, line_count: lines.len() })
}

} // verus!
