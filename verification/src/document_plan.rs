//! Anchors of analysis units in a document.
use vstd::prelude::*;

verus! {

/// Where an occurrence stands: the document, its text version, the
/// character range and the hash of the text.
#[derive(Debug, Clone, PartialEq, Eq)]
pub struct OccurrenceAnchor {
    pub document_id: String,
    pub text_version: String,
    pub char_range: [usize; 2],
    pub text_sha256: String,
}

/// A unit of analysis: its id, its anchor, and the ranges of its context and source.
#[derive(Debug, Clone, PartialEq, Eq)]
pub struct AnalysisUnit {
    pub id: String,
    pub anchor: OccurrenceAnchor,
    pub context_range: [usize; 2],
    pub source_range: [usize; 2],
}

} // verus!
