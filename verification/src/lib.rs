//! An unbounded, chunk-backed two-dimensional grid: a sparse spatial store
//! addressed by signed global coordinates, internally partitioned into
//! fixed-extent dense tiles ("chunks") held in a hash map keyed by chunk
//! coordinate. On top of the store sits a cellular-automaton stepping engine
//! that advances every live chunk one generation per call, materializing new
//! neighboring chunks so that growing patterns are not clipped.

use vstd::prelude::*;

pub mod chunk;
pub mod grid;
pub mod automata;

pub use crate::chunk::{Chunk, ChunkSparse};
pub use crate::grid::{compose, decompose, ExGrid, ExGridSparse};
pub use crate::automata::{Automata, AutomataSparse, Expansion, Expansion4, Expansion8};

verus! {

/// Largest chunk extent the library accepts. Chosen so that `extent * extent`
/// (the cell count of one chunk) fits comfortably in `usize` on every target,
/// and so that composing a chunk coordinate with an extent never overflows `i64`.
pub const MAX_EXTENT: usize = 46340;

/// A coordinate addressing one cell of the conceptual infinite grid.
#[derive(Debug, Clone, Copy, PartialEq, Eq, Structural)]
pub struct GlobalPos {
    pub x: i64,
    pub y: i64,
}

/// A coordinate identifying one chunk in the tiling of the infinite grid.
#[derive(Debug, Clone, Copy, PartialEq, Eq, Structural)]
pub struct ChunkPos {
    pub x: i32,
    pub y: i32,
}

/// An offset into a chunk's dense cell array, in `[0, extent)` per axis.
#[derive(Debug, Clone, Copy, PartialEq, Eq, Structural)]
pub struct LocalPos {
    pub x: usize,
    pub y: usize,
}

impl GlobalPos {
    pub fn new(x: i64, y: i64) -> (r: Self)
        ensures
            r == (GlobalPos { x, y }),
    {
        GlobalPos { x, y }
    }
}

impl ChunkPos {
    pub fn new(x: i32, y: i32) -> (r: Self)
        ensures
            r == (ChunkPos { x, y }),
    {
        ChunkPos { x, y }
    }
}

impl LocalPos {
    pub fn new(x: usize, y: usize) -> (r: Self)
        ensures
            r == (LocalPos { x, y }),
    {
        LocalPos { x, y }
    }
}

} // verus!
