//! Where the analysis resources live.
use vstd::prelude::*;

verus! {

/// The resource locations of an installation: the two dictionaries of the
/// analyser, the dictionary sources and databases, and the provider files.
#[derive(Debug, Clone, PartialEq, Eq)]
pub struct ResourcePaths {
    pub cwj: String,
    pub csj: String,
    pub dictionary_sources: String,
    pub dictionaries: String,
    pub provider_config: String,
    pub provider_script: String,
}

} // verus!
