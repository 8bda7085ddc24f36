use vstd::prelude::*;

pub mod analysis;
pub mod analysis_cache;
pub mod analysis_progress;
pub mod cache;
pub mod cli;
pub mod coverage_audit;
pub mod dictionary;
pub mod document;
pub mod document_plan;
pub mod document_session;
pub mod export;
pub mod expression_catalog;
pub mod expression_verify;
pub mod ffi;
pub mod grammar_catalog;
pub mod grammar_review;
pub mod html;
pub mod import;
pub mod sort;
pub mod token;
pub mod text;

verus! {
}
