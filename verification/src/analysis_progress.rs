//! Progress reports of a running analysis.
use vstd::prelude::*;

verus! {

/// The analysis was cancelled before it finished.
#[derive(Debug, Clone, Copy, PartialEq, Eq)]
pub struct AnalysisCancelled;

impl AnalysisCancelled {
    /// `分析已取消`.
    pub fn message(&self) -> (m: String)
        ensures
            m@ == seq!['分', '析', '已', '取', '消'],
    {
        let chars: Vec<char> = vec!['分', '析', '已', '取', '消'];
        let m = crate::text::string_from_chars(&chars);
        assert(chars@ =~= seq!['分', '析', '已', '取', '消']);
        m
    }
}

#[derive(Debug, Clone, Copy, PartialEq, Eq, Structural)]
pub enum AnalysisPhase {
    Preparing,
    Tokenizing,
    Chunking,
    GrammarMatching,
    DictionaryMatching,
    ProfileScoring,
    ExpressionMatching,
    RecordingExposure,
    Completed,
}

#[derive(Debug, Clone, PartialEq)]
pub struct AnalysisProgress {
    pub phase: AnalysisPhase,
    pub completed: usize,
    pub total: usize,
    pub percent: u8,
    pub message: String,
}

impl AnalysisProgress {
    /// A phase without item counts; the percentage is capped at 100.
    pub fn stage(phase: AnalysisPhase, percent: u8, message: String) -> (r: Self)
        ensures
            r.phase == phase,
            r.completed == 0,
            r.total == 0,
            r.percent == (if percent <= 100 { percent } else { 100 }),
            r.message == message,
    {
        AnalysisProgress {
            phase,
            completed: 0,
            total: 0,
            percent: if percent <= 100 { percent } else { 100 },
            message,
        }
    }

    /// A phase with `completed` of `total` items done; the percentage is capped at 100.
    pub fn counted(phase: AnalysisPhase, completed: usize, total: usize, percent: u8, message: String) -> (r: Self)
        ensures
            r.phase == phase,
            r.completed == completed,
            r.total == total,
            r.percent == (if percent <= 100 { percent } else { 100 }),
            r.message == message,
    {
        AnalysisProgress {
            phase,
            completed,
            total,
            percent: if percent <= 100 { percent } else { 100 },
            message,
        }
    }
}

} // verus!
