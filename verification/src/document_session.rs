//! The stages an analysis unit goes through.
use vstd::prelude::*;

verus! {

/// The progress of one analysis unit.
#[derive(Debug, Clone, Copy, PartialEq, Eq, Structural)]
pub enum UnitStage {
    Pending,
    Analyzing,
    Basic,
    Enriching,
    Complete,
    Failed,
}

} // verus!
