//! The dictionary data carried from the database to the reader.
use vstd::prelude::*;

verus! {

#[derive(Debug, Clone, PartialEq, Eq, Hash)]
pub struct PosTag {
    pub major: String,
    pub sub1: String,
    pub sub2: String,
    pub sub3: String,
}

#[derive(Debug, Clone, PartialEq, Eq)]
pub struct DictionaryEntryRef {
    pub entry_key: String,
    pub dict_name: String,
    pub headword: String,
    pub matched_form: String,
    pub match_type: String,
    pub readings: Vec<String>,
}

#[derive(Debug)]
pub struct DictEntry {
    pub entry_key: String,
    pub dict_name: String,
    pub headword: String,
    pub reading: Option<String>,
    pub is_preferred: bool,
    pub definition_html: String,
    pub style_profile: String,
    pub content_blocks: Vec<DictionaryContentBlock>,
    pub match_type: String,
    pub links: Vec<DictionaryLink>,
    pub occurrence_id: String,
    pub source_record_index: usize,
    pub entry_kind: String,
    pub header: DictionaryOccurrenceHeader,
    pub senses: Vec<DictionarySense>,
    pub sections: Vec<DictionarySection>,
    pub adapter_diagnostics: DictionaryAdapterDiagnostics,
    pub match_evidence: Option<DictionaryMatchEvidence>,
    pub raw_definition: Option<String>,
}

#[derive(Debug, Clone, Default, PartialEq, Eq)]
pub struct DictionaryOccurrenceHeader {
    pub display_form: String,
    pub canonical_form: Option<String>,
    pub reading: Option<String>,
    pub historical_reading: Option<String>,
    pub pronunciations: Vec<DictionaryPronunciation>,
    pub scoped_forms: Vec<DictionaryForm>,
    pub pos_tags: Vec<DictionaryTag>,
    pub usage_tags: Vec<DictionaryTag>,
    pub origin: Option<String>,
    pub short_note: Option<String>,
}

#[derive(Debug, Clone, Default, PartialEq, Eq)]
pub struct DictionaryPronunciation {
    pub system: String,
    pub label: String,
    pub value: String,
}

#[derive(Debug, Clone, Default, PartialEq, Eq)]
pub struct DictionaryForm {
    pub form: String,
    pub reading: Option<String>,
    pub kind: String,
}

#[derive(Debug, Clone, Default, PartialEq, Eq)]
pub struct DictionaryTag {
    pub kind: String,
    pub label: String,
}

#[derive(Debug, Clone, Default, PartialEq, Eq)]
pub struct DictionaryText {
    pub lang: String,
    pub qualifier: Option<String>,
    pub html: String,
}

/// One clause of a gloss group; a semicolon belongs to the clause after it.
#[derive(Debug, Clone, Default, PartialEq, Eq)]
pub struct DictionaryGlossClause {
    pub separator: Option<String>,
    pub qualifier: Option<String>,
    pub leading_tags: Vec<DictionaryTag>,
    pub text: DictionaryText,
    pub trailing_tags: Vec<DictionaryTag>,
}

/// A group of explanations inside one sense, opened by a Japanese scope.
#[derive(Debug, Clone, Default, PartialEq, Eq)]
pub struct DictionaryGlossGroup {
    pub heading: Option<String>,
    pub clauses: Vec<DictionaryGlossClause>,
}

#[derive(Debug, Clone, Default, PartialEq, Eq)]
pub struct DictionaryExample {
    pub source: DictionaryText,
    pub translation: Option<DictionaryText>,
    pub note: Option<DictionaryText>,
}

#[derive(Debug, Default, PartialEq, Eq)]
pub struct DictionarySense {
    pub sense_id: String,
    pub marker: Option<String>,
    pub heading: Option<String>,
    pub glosses: Vec<DictionaryText>,
    pub gloss_groups: Vec<DictionaryGlossGroup>,
    pub definitions: Vec<DictionaryText>,
    pub tags: Vec<DictionaryTag>,
    pub examples: Vec<DictionaryExample>,
    pub notes: Vec<DictionaryText>,
    pub relations: Vec<DictionaryLink>,
    pub children: Vec<DictionarySense>,
}

#[derive(Debug, Default, PartialEq, Eq)]
pub struct DictionarySectionItem {
    pub label: Option<String>,
    pub label_html: Option<String>,
    pub reading: Option<String>,
    pub content: Vec<DictionaryText>,
    pub tags: Vec<DictionaryTag>,
    pub examples: Vec<DictionaryExample>,
    pub senses: Vec<DictionarySense>,
    pub relations: Vec<DictionaryLink>,
}

#[derive(Debug, Default, PartialEq, Eq)]
pub struct DictionarySection {
    pub kind: String,
    pub label: Option<String>,
    pub items: Vec<DictionarySectionItem>,
}

#[derive(Debug, Clone, Default, PartialEq, Eq)]
pub struct DictionaryAdapterDiagnostics {
    pub coverage: String,
    pub warnings: Vec<String>,
    pub omitted: Vec<String>,
}

#[derive(Debug, Clone, Default, PartialEq, Eq)]
pub struct DictionaryMatchEvidence {
    pub kind: String,
    pub query_form: String,
    pub matched_form: Option<String>,
    pub requested_reading: Option<String>,
    pub reading_match: String,
    pub pos_match: String,
    pub dictionary_local: bool,
    pub penalties: Vec<String>,
    pub score: i32,
}

#[derive(Debug, Clone)]
pub struct DictionaryContentBlock {
    pub kind: String,
    pub label: Option<String>,
    pub html: String,
}

#[derive(Debug, Clone, PartialEq, Eq)]
pub struct DictionaryLink {
    pub target: String,
    pub label: String,
    pub relation: String,
}

#[derive(Debug, Clone, Default, PartialEq, Eq)]
pub struct DictionaryFormAvailability {
    pub dictionary_name: String,
    pub available: bool,
}

#[derive(Debug, Clone, Default, PartialEq, Eq)]
pub struct DictionaryFormGroup {
    pub form_id: String,
    pub display_form: String,
    pub normalized_form: String,
    pub readings: Vec<String>,
    pub evidence: Vec<String>,
    pub score: i32,
    pub variants: Vec<DictionaryFormVariant>,
    pub dictionaries: Vec<DictionaryFormAvailability>,
}

/// One original spelling kept inside a normalised group, with its own evidence.
#[derive(Debug, Clone, Default, PartialEq, Eq)]
pub struct DictionaryFormVariant {
    pub surface_form: String,
    pub readings: Vec<String>,
    pub evidence: Vec<String>,
    pub score: i32,
    pub dictionary_names: Vec<String>,
}

#[derive(Debug)]
pub struct DictionaryLookup {
    pub query: String,
    pub observed_form: Option<String>,
    pub reading: Option<String>,
    pub pos: Option<PosTag>,
    pub selected_form_id: Option<String>,
    pub mode: String,
    pub forms: Vec<DictionaryFormGroup>,
    pub dictionary_names: Vec<String>,
    pub entries: Vec<DictEntry>,
    pub timing: Option<DictionaryLookupTiming>,
}

/// End-to-end timings of a hover lookup, for diagnostics only.
#[derive(Debug, Clone, Copy, Default, PartialEq, Eq)]
pub struct DictionaryLookupTiming {
    pub resource_wait_ms: u64,
    pub service_ms: u64,
    pub redirect_ms: u64,
    pub sqlite_ms: u64,
    pub definition_ms: u64,
    pub presentation_ms: u64,
    pub definition_cache_hits: usize,
    pub definition_cache_misses: usize,
    pub entries: usize,
}

/// The local dictionaries the reader can show and order.
#[derive(Debug, Clone)]
pub struct DictionarySettings {
    pub available_dictionaries: Vec<String>,
    pub default_dictionary: Option<String>,
    pub dictionary_order: Vec<String>,
}

/// What a dictionary database holds.
#[derive(Debug, Clone)]
pub struct DictionaryStats {
    pub file_name: String,
    pub source_name: String,
    pub entry_count: usize,
    pub alias_count: usize,
    pub form_count: usize,
    pub reading_count: usize,
    pub definition_block_count: usize,
    pub schema_version: u32,
}

} // verus!
