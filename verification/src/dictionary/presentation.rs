//! What the reader shows of a dictionary definition.
use vstd::prelude::*;
use crate::dictionary::adapters::{adapt, adapted_by_family};
use crate::dictionary::adapters::daijirin_text::opt_str;
use crate::dictionary::adapters::shogakukan::judgement;
use crate::dictionary::adapters::shogakukan_gloss::judges;
use crate::html::{element_view, HtmlElement};

pub use crate::dictionary::adapters::AdaptedOccurrence as DictionaryPresentation;

verus! {

/// The occurrences a dictionary's definition, parsed into `root`, is shown as.
pub fn present<F: Fn(&str) -> bool>(
    dict_name: &str,
    root: &HtmlElement,
    indexed_headword: &str,
    raw_headword: &str,
    structured_reading: Option<&str>,
    definition: &str,
    judge: &F,
) -> (r: Vec<DictionaryPresentation>)
    requires
        exists|ja: spec_fn(Seq<char>) -> bool| judges(judge, ja),
    ensures
        adapted_by_family(
            dict_name@,
            element_view(*root),
            indexed_headword@,
            raw_headword@,
            opt_str(structured_reading),
            definition@,
            judgement(judge),
            r@,
        ),
{
    adapt(dict_name, root, indexed_headword, raw_headword, structured_reading, definition, judge)
}

} // verus!
