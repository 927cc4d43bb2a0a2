//! Perspective inference engines.
use vstd::prelude::*;

verus! {

/// The placeholder inference engine that only reports its input size.
#[derive(Debug, Default, Clone, Copy)]
pub struct StubPerspectiveInference;

} // verus!
