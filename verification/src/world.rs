//! The in-memory world: the set of loaded chunks, keyed by chunk coordinate.

use vstd::prelude::*;

pub mod chunk;

use chunk::Chunk;

verus! {

/// The set of currently loaded chunks. At most one chunk exists per
/// coordinate pair; [`Chunks::wf`] states that invariant.
pub struct Chunks {
    pub chunks: Vec<Chunk>,
}

impl Chunks {
    /// No two loaded chunks share a coordinate pair.
    pub open spec fn wf(&self) -> bool {
        forall|i: int, j: int|
            0 <= i < j < self.chunks@.len() ==> !((#[trigger] self.chunks@[i]).x
                == (#[trigger] self.chunks@[j]).x && self.chunks@[i].y == self.chunks@[j].y)
    }

    /// True when a chunk with the given coordinates is loaded.
    pub open spec fn has_coord(&self, x: i64, y: i64) -> bool {
        exists|i: int|
            0 <= i < self.chunks@.len() && (#[trigger] self.chunks@[i]).x == x
                && self.chunks@[i].y == y
    }

    pub fn get_chunk(&self, x: i64, y: i64) -> (r: Option<&Chunk>)
        ensures
            r matches Some(c) ==> c.x == x && c.y == y && self.chunks@.contains(*c),
            r is None ==> !self.has_coord(x, y),
    {
        let n: usize = self.chunks.len();
        let mut i: usize = 0;
        while i < n
            invariant
                n == self.chunks@.len(),
                0 <= i <= n,
                forall|j: int|
                    0 <= j < i ==> !((#[trigger] self.chunks@[j]).x == x && self.chunks@[j].y
                        == y),
            decreases n - i,
        {
            let c = &self.chunks[i];
            if c.x == x && c.y == y {
                return Some(c);
            }
            i = i + 1;
        }
        None
    }
}

impl Default for Chunks {
    fn default() -> (r: Chunks)
        ensures
            r.chunks@.len() == 0,
    {
        Chunks { chunks: Vec::new() }
    }
}

} // verus!
