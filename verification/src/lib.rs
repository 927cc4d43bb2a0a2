//! Verified core of an AI-native drawing system: the layered document and
//! its ownership rules, raster tracing primitives, document history, reveal
//! and camera animation planning, editable path structure, asset decoding,
//! reference stacking, package headers and the knowledge vocabulary.
use vstd::prelude::*;

pub mod ai;
pub mod animation;
pub mod brush;
pub mod document;
pub mod history;
mod ids;
pub mod input;
pub mod knowledge;
pub mod ordered;
pub mod path;
pub mod perspective;
pub mod projection;
pub mod raster;
pub mod reference;
pub mod storage;
pub mod text;
pub mod trace;

verus! {

} // verus!
