//! Canvas topologies for flat and 360-degree documents.
use vstd::prelude::*;

verus! {

/// How the canvas edges connect.
#[derive(Debug, Clone, Copy, PartialEq, Eq, Structural)]
pub enum CanvasTopology {
    Flat,
    Cylindrical360,
    Spherical360x180,
}

/// The equirectangular 360x180 canvas mapping.
#[derive(Debug, Clone, Copy, Default, PartialEq, Eq, Structural)]
pub struct SphericalProjection;

} // verus!
