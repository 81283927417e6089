//! Blocks, chunks and the run-length chunk codec.
//!
//! A block packs its local coordinates and solidity into one 16-bit word and
//! carries its material identifier as an opaque string. A chunk is exactly
//! 4096 blocks in canonical order: x varies fastest, then y, then z, so the
//! block at flat index `i` sits at `(i % 16, (i / 16) % 16, i / 256)`.
//! Compression coalesces consecutive equal-identifier runs; decompression
//! replays them, re-deriving each block's coordinates from its flat index.

use vstd::prelude::*;

use crate::assets::Identifier;

verus! {

/// The packed 16-bit block word: bits 15 to 11 hold x, 10 to 6 hold y,
/// 5 to 1 hold z, and bit 0 is the solid flag.
pub open spec fn pack_block(x: u16, y: u16, z: u16, solid: bool) -> u16 {
    (x << 11) | ((y << 6) & 0x7c0) | ((z << 1) & 0x3e) | (if solid {
        1u16
    } else {
        0u16
    })
}

/// The x coordinate stored in a packed block word.
pub open spec fn block_x(data: u16) -> u8 {
    (data >> 11) as u8
}

/// The y coordinate stored in a packed block word.
pub open spec fn block_y(data: u16) -> u8 {
    ((data & 0x7c0) >> 6) as u8
}

/// The z coordinate stored in a packed block word.
pub open spec fn block_z(data: u16) -> u8 {
    ((data & 0x3e) >> 1) as u8
}

/// True when the solid bit of a packed block word is clear.
pub open spec fn block_transparent(data: u16) -> bool {
    (data & 0x1) == 0
}

/// Packing coordinates below 32 and unpacking them is the identity, and the
/// solid flag is read back unchanged.
pub proof fn lemma_block_pack_unpack(x: u16, y: u16, z: u16, solid: bool)
    requires
        x < 32,
        y < 32,
        z < 32,
    ensures
        block_x(pack_block(x, y, z, solid)) == x,
        block_y(pack_block(x, y, z, solid)) == y,
        block_z(pack_block(x, y, z, solid)) == z,
        block_transparent(pack_block(x, y, z, solid)) == !solid,
{
    let s: u16 = if solid {
        1u16
    } else {
        0u16
    };
    let data: u16 = (x << 11) | ((y << 6) & 0x7c0) | ((z << 1) & 0x3e) | s;
    assert(((data >> 11) as u8) == x && (((data & 0x7c0) >> 6) as u8) == y && (((data & 0x3e) >> 1)
        as u8) == z && ((data & 0x1) == 0 <==> s == 0)) by (bit_vector)
        requires
            x < 32,
            y < 32,
            z < 32,
            s == 0 || s == 1,
            data == (x << 11) | ((y << 6) & 0x7c0) | ((z << 1) & 0x3e) | s,
    ;
}

/// A single voxel: the packed coordinate word and the material identifier.
#[derive(Debug, Clone, PartialEq)]
pub struct Block {
    pub data: u16,
    pub id: String,
}

impl Block {
    pub fn new(x: u16, y: u16, z: u16, id: Identifier, solid: bool) -> (r: Block)
        requires
            x < 32,
            y < 32,
            z < 32,
        ensures
            r.data == pack_block(x, y, z, solid),
            r.id@ == id.text(),
            block_x(r.data) == x,
            block_y(r.data) == y,
            block_z(r.data) == z,
            block_transparent(r.data) == !solid,
    {
        proof {
            lemma_block_pack_unpack(x, y, z, solid);
        }
        Block {
            data: (x << 11) | ((y << 6) & 0x7c0) | ((z << 1) & 0x3e) | (if solid {
                1u16
            } else {
                0u16
            }),
            id: id.to_string(),
        }
    }

    pub fn x(&self) -> (r: u8)
        ensures
            r == block_x(self.data),
    {
        (self.data >> 11) as u8
    }

    pub fn y(&self) -> (r: u8)
        ensures
            r == block_y(self.data),
    {
        ((self.data & 0x7c0) >> 6) as u8
    }

    pub fn z(&self) -> (r: u8)
        ensures
            r == block_z(self.data),
    {
        ((self.data & 0x3e) >> 1) as u8
    }

    pub fn transparent(&self) -> (r: bool)
        ensures
            r == block_transparent(self.data),
    {
        (self.data & 0x1) == 0
    }
}

/// Data structure used to represent one run of a compressed chunk: a material
/// identifier and how many consecutive blocks carry it.
#[derive(Debug, Clone, PartialEq)]
pub struct BlockGroup {
    pub id: String,
    pub count: u32,
}

/// The mathematical image of a [`BlockGroup`].
#[verifier::ext_equal]
pub struct BlockGroupV {
    pub id: Seq<char>,
    pub count: u32,
}

impl View for BlockGroup {
    type V = BlockGroupV;

    open spec fn view(&self) -> BlockGroupV {
        BlockGroupV { id: self.id@, count: self.count }
    }
}

/// Rejection of a group list whose counts do not describe a whole chunk.
#[derive(Debug, Clone, Copy, PartialEq, Eq, Structural)]
pub enum ChunkError {
    /// The group counts do not sum to exactly 4096.
    CountMismatch,
}

/// Sum of the `count` fields of a group list.
pub open spec fn group_total(groups: Seq<BlockGroup>) -> int
    decreases groups.len(),
{
    if groups.len() == 0 {
        0
    } else {
        group_total(groups.drop_last()) + groups.last().count
    }
}

/// The identifier repeated `n` times.
pub open spec fn repeat_id(id: Seq<char>, n: nat) -> Seq<Seq<char>> {
    Seq::new(n, |j: int| id)
}

/// The identifier column that a group list stands for: each group's
/// identifier repeated `count` times, in order.
pub open spec fn expand_groups(groups: Seq<BlockGroup>) -> Seq<Seq<char>>
    decreases groups.len(),
{
    if groups.len() == 0 {
        Seq::empty()
    } else {
        expand_groups(groups.drop_last()) + repeat_id(
            groups.last().id@,
            groups.last().count as nat,
        )
    }
}

/// The identifiers of a block sequence, in order.
pub open spec fn ids_of(blocks: Seq<Block>) -> Seq<Seq<char>> {
    blocks.map_values(|b: Block| b.id@)
}

/// No two adjacent groups carry the same identifier.
pub open spec fn runs_maximal(groups: Seq<BlockGroup>) -> bool {
    forall|i: int|
        0 <= i && i + 1 < groups.len() ==> (#[trigger] groups[i]).id@ != groups[i + 1].id@
}

/// Every group stands for at least one block.
pub open spec fn counts_positive(groups: Seq<BlockGroup>) -> bool {
    forall|i: int| 0 <= i < groups.len() ==> (#[trigger] groups[i]).count >= 1
}

/// Appending a group extends the expansion by that group's run and the total
/// by its count.
pub proof fn lemma_group_push(groups: Seq<BlockGroup>, g: BlockGroup)
    ensures
        expand_groups(groups.push(g)) =~= expand_groups(groups) + repeat_id(g.id@, g.count as nat),
        group_total(groups.push(g)) == group_total(groups) + g.count,
{
    assert(groups.push(g).drop_last() =~= groups);
    assert(groups.push(g).last() == g);
}

/// The running total over a prefix never exceeds the total of the whole list.
pub proof fn lemma_group_total_prefix(groups: Seq<BlockGroup>, k: int)
    requires
        0 <= k <= groups.len(),
    ensures
        group_total(groups) >= group_total(groups.take(k)),
        k < groups.len() ==> group_total(groups) >= group_total(groups.take(k)) + groups[k].count,
    decreases groups.len() - k,
{
    if k == groups.len() {
        assert(groups.take(k) =~= groups);
    } else {
        assert(groups.take(k + 1).drop_last() =~= groups.take(k));
        assert(groups.take(k + 1).last() == groups[k]);
        lemma_group_total_prefix(groups, k + 1);
    }
}

/// The packed word of the block at flat index `i` of a freshly generated or
/// decompressed chunk: canonical coordinates, solid.
pub open spec fn canonical_data(i: int) -> u16 {
    pack_block((i % 16) as u16, ((i / 16) % 16) as u16, (i / 256) as u16, true)
}

/// An ordered cubic container of exactly 4096 blocks plus its chunk-grid
/// coordinates. World coordinate = chunk coordinate times 16.
#[derive(Debug, Clone, PartialEq)]
pub struct Chunk {
    pub blocks: Vec<Block>,
    pub x: i64,
    pub y: i64,
}

/// Computes the packed block word for flat index `i` of a chunk in canonical
/// order.
fn pack_flat_index(i: usize) -> (data: u16)
    requires
        i < 4096,
    ensures
        data == canonical_data(i as int),
        block_transparent(data) == false,
{
    let xc: u16 = (i % 16) as u16;
    let yc: u16 = ((i / 16) % 16) as u16;
    let zc: u16 = (i / 256) as u16;
    proof {
        lemma_block_pack_unpack(xc, yc, zc, true);
    }
    (xc << 11) | ((yc << 6) & 0x7c0) | ((zc << 1) & 0x3e) | 1u16
}

/// The canonical flat index of local coordinates.
pub open spec fn flat_index(x: u16, y: u16, z: u16) -> int {
    z * 256 + y * 16 + x
}

impl Chunk {
    /// A well-formed chunk: exactly 4096 blocks whose packed words carry the
    /// canonical coordinates for their flat index, all solid.
    pub open spec fn wf(&self) -> bool {
        &&& self.blocks@.len() == 4096
        &&& forall|i: int|
            0 <= i < 4096 ==> (#[trigger] self.blocks@[i]).data == canonical_data(i)
    }

    /// Generate a new chunk at given position, deterministically filled with
    /// the flat default material.
    pub fn new(x: i64, y: i64) -> (r: Chunk)
        ensures
            r.x == x,
            r.y == y,
            r.wf(),
            forall|i: int| 0 <= i < 4096 ==> (#[trigger] r.blocks@[i]).id@ == "base:stone"@,
    {
        let mut blocks: Vec<Block> = Vec::new();
        let mut i: usize = 0;
        while i < 4096
            invariant
                0 <= i <= 4096,
                blocks@.len() == i,
                forall|j: int|
                    0 <= j < i ==> (#[trigger] blocks@[j]).data == canonical_data(j),
                forall|j: int| 0 <= j < i ==> (#[trigger] blocks@[j]).id@ == "base:stone"@,
            decreases 4096 - i,
        {
            let data: u16 = pack_flat_index(i);
            let id: String = Identifier::new("base", "stone").to_string();
            proof {
                lemma_stone_text();
            }
            blocks.push(Block { data, id });
            i = i + 1;
        }
        Chunk { blocks, x, y }
    }

    /// Compress a chunk in a smaller data structure: the maximal run-length
    /// grouping of its identifier column.
    pub fn compress(&self) -> (r: Vec<BlockGroup>)
        requires
            1 <= self.blocks@.len() <= u32::MAX,
        ensures
            expand_groups(r@) =~= ids_of(self.blocks@),
            group_total(r@) == self.blocks@.len(),
            runs_maximal(r@),
            counts_positive(r@),
    {
        let mut groups: Vec<BlockGroup> = Vec::new();
        let mut group_id: String = self.blocks[0].id.clone();
        let mut group_count: u32 = 0;
        let n: usize = self.blocks.len();
        let mut i: usize = 0;
        while i < n
            invariant
                n == self.blocks@.len(),
                1 <= n <= u32::MAX,
                0 <= i <= n,
                group_count <= i,
                expand_groups(groups@) + repeat_id(group_id@, group_count as nat) =~= ids_of(
                    self.blocks@,
                ).take(i as int),
                group_total(groups@) + group_count == i,
                runs_maximal(groups@),
                counts_positive(groups@),
                groups@.len() > 0 ==> groups@.last().id@ != group_id@,
                i == 0 ==> groups@.len() == 0 && group_count == 0 && group_id@
                    == self.blocks@[0].id@,
                i > 0 ==> group_count >= 1,
            decreases n - i,
        {
            proof {
                assert(ids_of(self.blocks@).take(i as int + 1) =~= ids_of(self.blocks@).take(
                    i as int,
                ).push(self.blocks@[i as int].id@));
            }
            if self.blocks[i].id == group_id {
                group_count = group_count + 1;
                proof {
                    assert(repeat_id(group_id@, group_count as nat) =~= repeat_id(
                        group_id@,
                        (group_count - 1) as nat,
                    ).push(group_id@));
                    assert(expand_groups(groups@) + repeat_id(group_id@, group_count as nat)
                        =~= ids_of(self.blocks@).take(i as int + 1));
                }
            } else {
                let finished = BlockGroup { id: group_id, count: group_count };
                proof {
                    lemma_group_push(groups@, finished);
                }
                groups.push(finished);
                group_id = self.blocks[i].id.clone();
                group_count = 1;
                proof {
                    assert(repeat_id(group_id@, 1nat) =~= Seq::empty().push(group_id@));
                    assert(expand_groups(groups@) + repeat_id(group_id@, 1nat) =~= (
                    expand_groups(groups@) + Seq::<Seq<char>>::empty()).push(group_id@));
                    assert(expand_groups(groups@) + Seq::<Seq<char>>::empty() =~= expand_groups(
                        groups@,
                    ));
                    assert(expand_groups(groups@) + repeat_id(group_id@, 1nat) =~= ids_of(
                        self.blocks@,
                    ).take(i as int + 1));
                }
            }
            i = i + 1;
        }
        let last_group = BlockGroup { id: group_id, count: group_count };
        proof {
            lemma_group_push(groups@, last_group);
        }
        groups.push(last_group);
        proof {
            assert(ids_of(self.blocks@).take(n as int) =~= ids_of(self.blocks@));
            assert(expand_groups(groups@) =~= ids_of(self.blocks@));
        }
        groups
    }

    /// Decompress a chunk from a vector of groups, re-deriving each block's
    /// coordinates from its flat index and marking every block solid. Only
    /// the identifier crosses the wire, so solidity per identifier is left to
    /// the material registry, an external collaborator. A group list whose
    /// counts do not sum to exactly 4096 is rejected.
    pub fn decompress(groups: &Vec<BlockGroup>, x: i64, y: i64) -> (r: Result<Chunk, ChunkError>)
        ensures
            (r matches Ok(_)) <==> group_total(groups@) == 4096,
            (r matches Err(e) ==> e == ChunkError::CountMismatch && group_total(groups@) != 4096),
            r matches Ok(c) ==> ({
                &&& c.x == x
                &&& c.y == y
                &&& c.wf()
                &&& forall|i: int|
                    0 <= i < 4096 ==> (#[trigger] c.blocks@[i]).id@ == expand_groups(groups@)[i]
            }),
    {
        let mut blocks: Vec<Block> = Vec::new();
        let ng: usize = groups.len();
        let mut g: usize = 0;
        while g < ng
            invariant
                ng == groups@.len(),
                0 <= g <= ng,
                blocks@.len() <= 4096,
                blocks@.len() == group_total(groups@.take(g as int)),
                expand_groups(groups@.take(g as int)).len() == blocks@.len(),
                forall|j: int|
                    0 <= j < blocks@.len() ==> (#[trigger] blocks@[j]).data == canonical_data(j),
                forall|j: int|
                    0 <= j < blocks@.len() ==> (#[trigger] blocks@[j]).id@ == expand_groups(
                        groups@.take(g as int),
                    )[j],
            decreases ng - g,
        {
            let count: u32 = groups[g].count;
            let start: usize = blocks.len();
            proof {
                lemma_group_total_prefix(groups@, g as int);
                assert(groups@.take(g as int + 1).drop_last() =~= groups@.take(g as int));
                assert(groups@.take(g as int + 1).last() == groups@[g as int]);
            }
            if count as usize > 4096 - start {
                return Err(ChunkError::CountMismatch);
            }
            let mut j: u32 = 0;
            while j < count
                invariant
                    j <= count,
                    start + count <= 4096,
                    blocks@.len() == start + j,
                    count == groups@[g as int].count,
                    0 <= g < groups@.len(),
                    forall|k: int|
                        0 <= k < blocks@.len() ==> (#[trigger] blocks@[k]).data == canonical_data(
                            k,
                        ),
                    forall|k: int|
                        0 <= k < start ==> (#[trigger] blocks@[k]).id@ == expand_groups(
                            groups@.take(g as int),
                        )[k],
                    forall|k: int|
                        start <= k < blocks@.len() ==> (#[trigger] blocks@[k]).id@
                            == groups@[g as int].id@,
                decreases count - j,
            {
                let idx: usize = blocks.len();
                let data: u16 = pack_flat_index(idx);
                blocks.push(Block { data, id: groups[g].id.clone() });
                j = j + 1;
            }
            proof {
                assert(expand_groups(groups@.take(g as int + 1)) =~= expand_groups(
                    groups@.take(g as int),
                ) + repeat_id(groups@[g as int].id@, count as nat));
            }
            g = g + 1;
        }
        proof {
            assert(groups@.take(ng as int) =~= groups@);
        }
        if blocks.len() != 4096 {
            return Err(ChunkError::CountMismatch);
        }
        Ok(Chunk { blocks, x, y })
    }

    pub fn get_block(&self, x: u16, y: u16, z: u16) -> (r: Option<&Block>)
        ensures
            r matches Some(b) ==> 0 <= flat_index(x, y, z) < self.blocks@.len() && *b
                == self.blocks@[flat_index(x, y, z)],
            r is None ==> flat_index(x, y, z) >= self.blocks@.len(),
    {
        let i: usize = (z as usize) * 256 + (y as usize) * 16 + (x as usize);
        if i < self.blocks.len() {
            Some(&self.blocks[i])
        } else {
            None
        }
    }
}

/// The text of the default material identifier, joined from its two halves.
pub proof fn lemma_stone_text()
    ensures
        "base"@ + seq![':'] + "stone"@ =~= "base:stone"@,
{
    reveal_strlit("base");
    reveal_strlit("stone");
    reveal_strlit("base:stone");
}

/// Round trip: replaying any grouping whose expansion is a well-formed
/// chunk's identifier column reproduces that chunk's blocks, identifier and
/// packed word alike. The grouping that `compress` returns and the block list
/// that `decompress` accepts satisfy exactly these premises.
pub proof fn lemma_compress_decompress_round_trip(c: Chunk, groups: Seq<BlockGroup>, d: Chunk)
    requires
        c.wf(),
        expand_groups(groups) =~= ids_of(c.blocks@),
        d.blocks@.len() == 4096,
        forall|i: int| 0 <= i < 4096 ==> (#[trigger] d.blocks@[i]).data == canonical_data(i),
        forall|i: int|
            0 <= i < 4096 ==> (#[trigger] d.blocks@[i]).id@ == expand_groups(groups)[i],
    ensures
        forall|i: int|
            0 <= i < 4096 ==> (#[trigger] d.blocks@[i]).data == c.blocks@[i].data
                && d.blocks@[i].id@ == c.blocks@[i].id@,
{
    assert forall|i: int| 0 <= i < 4096 implies (#[trigger] d.blocks@[i]).data
        == c.blocks@[i].data && d.blocks@[i].id@ == c.blocks@[i].id@ by {
        assert(ids_of(c.blocks@)[i] == c.blocks@[i].id@);
    }
}

/// The expansion of a group list has exactly `group_total` elements.
pub proof fn lemma_expand_len(groups: Seq<BlockGroup>)
    ensures
        expand_groups(groups).len() == group_total(groups),
    decreases groups.len(),
{
    if groups.len() == 0 {
    } else {
        lemma_expand_len(groups.drop_last());
    }
}

/// A maximal grouping whose expansion is a uniform, non-empty identifier
/// column is a single group carrying that identifier and the whole count.
pub proof fn lemma_uniform_groups(groups: Seq<BlockGroup>, id: Seq<char>, n: int)
    requires
        n > 0,
        group_total(groups) == n,
        expand_groups(groups).len() == n,
        forall|m: int| 0 <= m < n ==> expand_groups(groups)[m] == id,
        runs_maximal(groups),
        counts_positive(groups),
    ensures
        groups.len() == 1,
        groups[0].id@ == id,
        groups[0].count == n,
{
    lemma_groups_uniform_ids(groups, id);
    if groups.len() == 0 {
        assert(false);
    } else if groups.len() >= 2 {
        assert(groups[groups.len() - 2].id@ != groups[groups.len() - 1].id@);
        assert(false);
    }
    assert(groups.drop_last() =~= Seq::<BlockGroup>::empty());
    assert(group_total(Seq::<BlockGroup>::empty()) == 0);
    assert(groups.last() == groups[0]);
    assert(group_total(groups) == groups[0].count);
}

/// Every group of a grouping with positive counts and a uniform expansion
/// carries the uniform identifier.
proof fn lemma_groups_uniform_ids(groups: Seq<BlockGroup>, id: Seq<char>)
    requires
        forall|m: int|
            0 <= m < expand_groups(groups).len() ==> #[trigger] expand_groups(groups)[m] == id,
        counts_positive(groups),
    ensures
        forall|k: int| 0 <= k < groups.len() ==> (#[trigger] groups[k]).id@ == id,
    decreases groups.len(),
{
    if groups.len() == 0 {
    } else {
        let front = groups.drop_last();
        let last = groups.last();
        lemma_expand_len(groups);
        lemma_expand_len(front);
        assert(last.count >= 1);
        assert(expand_groups(groups)[expand_groups(groups).len() - 1] == last.id@) by {
            assert(expand_groups(groups) == expand_groups(front) + repeat_id(
                last.id@,
                last.count as nat,
            ));
        }
        assert(last.id@ == id);
        assert forall|m: int|
            0 <= m < expand_groups(front).len() implies #[trigger] expand_groups(front)[m]
            == id by {
            assert(expand_groups(groups) == expand_groups(front) + repeat_id(
                last.id@,
                last.count as nat,
            ));
            assert(expand_groups(groups)[m] == expand_groups(front)[m]);
            assert(expand_groups(groups)[m] == id);
        }
        assert(counts_positive(front)) by {
            assert(forall|k: int| 0 <= k < front.len() ==> front[k] == #[trigger] groups[k]);
        }
        lemma_groups_uniform_ids(front, id);
        assert forall|k: int| 0 <= k < groups.len() implies (#[trigger] groups[k]).id@ == id by {
            if k < groups.len() - 1 {
                assert(front[k] == groups[k]);
            }
        }
    }
}

} // verus!
