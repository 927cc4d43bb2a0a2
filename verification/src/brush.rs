//! Brush library rules.
use vstd::prelude::*;

use crate::text::{trim, trimmed};

verus! {

/// Why a brush cannot be added to a library.
#[derive(Debug, Clone, Copy, PartialEq, Eq, Structural)]
pub enum BrushError {
    EmptyBrushId,
}

/// A brush id must contain something other than whitespace.
pub fn check_brush_id(id: &str) -> (r: Result<(), BrushError>)
    ensures
        r is Ok <==> trimmed(id@).len() > 0,
        r is Err ==> r == Err::<(), BrushError>(BrushError::EmptyBrushId),
{
    let t = trim(id);
    if t.as_str().unicode_len() == 0 {
        return Err(BrushError::EmptyBrushId);
    }
    Ok(())
}

} // verus!
