//! The handle of the C interface.
use vstd::prelude::*;

verus! {

/// The opaque engine handle handed to C callers.
#[derive(Debug)]
pub struct KotoclipEngine;

} // verus!
