//! Bit-packed mesh vertices and the data that describes a block's material.

use vstd::prelude::*;

verus! {

/// The x coordinate stored in a packed vertex word: bits 31 to 27.
pub open spec fn vertex_x(data: u32) -> u32 {
    data >> 27
}

/// The y coordinate stored in a packed vertex word: bits 26 to 22.
pub open spec fn vertex_y(data: u32) -> u32 {
    (data & 0x7c00000) >> 22
}

/// The z coordinate stored in a packed vertex word: bits 21 to 17.
pub open spec fn vertex_z(data: u32) -> u32 {
    (data & 0x3e0000) >> 17
}

/// A mesh vertex, compressed into a single 32-bit word: bits 31 to 27 hold x,
/// 26 to 22 hold y, 21 to 17 hold z, 16 to 14 the texture index and 13 to 10
/// the atlas index.
#[derive(Debug, Copy, Clone, PartialEq, Eq, Structural)]
pub struct VoxelVertex {
    data: u32,
}

impl VoxelVertex {
    /// The packed 32-bit word of the vertex.
    pub closed spec fn word(&self) -> u32 {
        self.data
    }

    /// Vertex data is compressed into a single 32 bit unsigned integer to
    /// save video memory. The texture and atlas indices are masked to their
    /// field widths; the coordinates must fit their five bits.
    pub fn new(x: u32, y: u32, z: u32, texture_index: u32, atlas_index: u32) -> (r: VoxelVertex)
        requires
            x < 32,
            y < 32,
            z < 32,
        ensures
            vertex_x(r.word()) == x,
            vertex_y(r.word()) == y,
            vertex_z(r.word()) == z,
    {
        let data: u32 = (x << 27) | ((y << 22) & 0x7c00000) | ((z << 17) & 0x3e0000) | ((
        texture_index & 0x7) << 14) | ((atlas_index & 0xF) << 10);
        proof {
            assert(vertex_x(data) == x && vertex_y(data) == y && vertex_z(data) == z)
                by (bit_vector)
                requires
                    x < 32,
                    y < 32,
                    z < 32,
                    data == (x << 27) | ((y << 22) & 0x7c00000) | ((z << 17) & 0x3e0000) | ((
                    texture_index & 0x7) << 14) | ((atlas_index & 0xF) << 10),
            ;
        }
        VoxelVertex { data }
    }

    pub fn x(&self) -> (r: u32)
        ensures
            r == vertex_x(self.word()),
    {
        self.data >> 27
    }

    pub fn y(&self) -> (r: u32)
        ensures
            r == vertex_y(self.word()),
    {
        (self.data & 0x7c00000) >> 22
    }

    pub fn z(&self) -> (r: u32)
        ensures
            r == vertex_z(self.word()),
    {
        (self.data & 0x3e0000) >> 17
    }
}

/// How a block behaves and looks; one entry of the material registry that is
/// loaded from content files by the embedding application.
#[derive(Debug, Clone)]
pub struct BlockDescription {
    pub solid: bool,
    pub texture: BlockTextureDescription,
}

/// The texture name used for each face of a block.
#[derive(Debug, Clone)]
pub struct BlockTextureDescription {
    pub top: String,
    pub bottom: String,
    pub north: String,
    pub west: String,
    pub east: String,
    pub south: String,
}

} // verus!
