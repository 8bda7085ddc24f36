//! Dictionary-specific adaptation of raw definitions into the structured model.
use vstd::prelude::*;
use crate::dictionary::adapters::common::finished;
use crate::dictionary::adapters::daijirin::contains_seq;
use crate::dictionary::adapters::daijirin_text::opt_str;
use crate::html::{element_view, ElementView, HtmlElement};
use crate::text::chars_of;
use crate::token::strings_view;
use crate::dictionary::model::{
    DictionaryAdapterDiagnostics, DictionaryContentBlock, DictionaryLink,
    DictionaryOccurrenceHeader, DictionarySection, DictionarySense,
};

pub mod common;
pub mod crown;
pub mod daijirin;
pub mod daijirin_adapt;
pub mod daijirin_groups;
pub mod daijirin_header;
pub mod daijirin_links;
pub mod daijirin_notes;
pub mod daijirin_senses;
pub mod daijirin_text;
pub mod section_view;
pub mod shogakukan;
pub mod shogakukan_gloss;
pub mod shogakukan_senses;
pub mod shogakukan_text;
pub mod shogakukan_tree;

verus! {

/// One entry occurrence read out of a raw dictionary record.
#[derive(Debug)]
pub struct AdaptedOccurrence {
    pub source_record_index: usize,
    pub occurrence_suffix: String,
    pub entry_kind: String,
    pub header: DictionaryOccurrenceHeader,
    pub senses: Vec<DictionarySense>,
    pub sections: Vec<DictionarySection>,
    pub links: Vec<DictionaryLink>,
    pub definition_html: String,
    pub style_profile: String,
    pub content_blocks: Vec<DictionaryContentBlock>,
    pub diagnostics: DictionaryAdapterDiagnostics,
}

/// The dictionary family a dictionary's name belongs to.
pub open spec fn family_of(dict_name: Seq<char>) -> int {
    if contains_seq(dict_name, "大辞林"@) {
        0
    } else if contains_seq(dict_name, "小学館"@) || contains_seq(dict_name, "小学馆"@) {
        1
    } else if contains_seq(dict_name, "CROWN"@) || contains_seq(dict_name, "Crown"@) {
        2
    } else {
        3
    }
}

/// What the adapter of a dictionary's family makes of a definition parsed
/// into `root`: the 大辞林, 小学館 or CROWN reading, else the generic fallback.
pub open spec fn adapted_by_family(
    dict_name: Seq<char>,
    root: ElementView,
    indexed: Seq<char>,
    raw: Seq<char>,
    structured: Option<Seq<char>>,
    definition: Seq<char>,
    ja: spec_fn(Seq<char>) -> bool,
    r: Seq<AdaptedOccurrence>,
) -> bool {
    let family = family_of(dict_name);
    if family == 0 {
        r.len() == 1 && exists|o: AdaptedOccurrence|
            daijirin_adapt::adapted(root, indexed, raw, structured, definition, o) && #[trigger] finished(o, "daijirin"@, definition, r[0])
    } else if family == 1 {
        shogakukan::shogakukan_adapted(root, indexed, structured, definition, ja, r)
    } else if family == 2 {
        r.len() == 1 && exists|o: AdaptedOccurrence|
            crown::adapted(root, indexed, raw, structured, o) && #[trigger] finished(o, "crown"@, definition, r[0])
    } else {
        r.len() == 1 && shogakukan::is_fallback(r[0], "generic"@, indexed, structured, definition, "unknown"@)
    }
}

fn name_contains(s: &str, pat: &str) -> (b: bool)
    ensures
        b == contains_seq(s@, pat@),
{
    crate::import::epub::find_pattern(chars_of(s).as_slice(), chars_of(pat).as_slice()).is_some()
}

/// Reads a definition, already parsed into `root`, with the adapter of the
/// dictionary it comes from; whether a text is Japanese is asked of `judge`.
pub fn adapt<F: Fn(&str) -> bool>(
    dict_name: &str,
    root: &HtmlElement,
    indexed_headword: &str,
    raw_headword: &str,
    structured_reading: Option<&str>,
    definition: &str,
    judge: &F,
) -> (r: Vec<AdaptedOccurrence>)
    requires
        exists|ja: spec_fn(Seq<char>) -> bool| shogakukan_gloss::judges(judge, ja),
    ensures
        adapted_by_family(
            dict_name@,
            element_view(*root),
            indexed_headword@,
            raw_headword@,
            opt_str(structured_reading),
            definition@,
            shogakukan::judgement(judge),
            r@,
        ),
{
    if name_contains(dict_name, "大辞林") {
        daijirin_adapt::adapt(root, indexed_headword, raw_headword, structured_reading, definition)
    } else if name_contains(dict_name, "小学館") || name_contains(dict_name, "小学馆") {
        shogakukan::adapt(root, indexed_headword, raw_headword, structured_reading, definition, judge)
    } else if name_contains(dict_name, "CROWN") || name_contains(dict_name, "Crown") {
        crown::adapt(root, indexed_headword, raw_headword, structured_reading, definition)
    } else {
        let mut out: Vec<AdaptedOccurrence> = Vec::new();
        out.push(common::fallback("generic", indexed_headword, structured_reading, definition, "unknown"));
        proof {
            assert(strings_view(out@[0].diagnostics.warnings@) =~= seq![common::fallback_warning()]);
        }
        out
    }
}

} // verus!
