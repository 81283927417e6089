//! Synchronization core of a voxel world: bit-packed block and vertex
//! encodings, a run-length chunk codec, a tagged binary packet format, and
//! the server-side chunk lifecycle decisions.

use vstd::prelude::*;

pub mod assets;
pub mod network;
pub mod server;
pub mod voxel;
pub mod wire;
pub mod world;

verus! {

/// One of the six axis-aligned face directions of a voxel.
#[derive(Debug, Clone, Copy, PartialEq, Eq, Structural)]
pub enum Direction {
    /// Negative Z
    North,
    /// Positive Z
    South,
    /// Positive X
    East,
    /// Negative X
    West,
    /// Positive Y
    Top,
    /// Negative Y
    Bottom,
}

} // verus!
