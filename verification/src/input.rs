//! Input device vocabulary.
use vstd::prelude::*;

verus! {

/// The kind of device that produced a pointer sample.
#[derive(Debug, Clone, Copy, PartialEq, Eq, Structural)]
pub enum PointerKind {
    Mouse,
    Pen,
    Touch,
}

} // verus!
