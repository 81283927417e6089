use yave::assets::Identifier;
use yave::world::chunk::{Block, BlockGroup, Chunk, ChunkError};
use yave::world::Chunks;

fn mixed_chunk() -> Chunk {
    let mut blocks = Vec::new();
    for i in 0u16..4096 {
        let z = i / 256;
        let y = (i / 16) % 16;
        let x = i % 16;
        let id = if i < 100 {
            Identifier::new("base", "grass")
        } else if i < 101 {
            Identifier::new("base", "dirt")
        } else if i % 2048 < 1024 {
            Identifier::new("base", "stone")
        } else {
            Identifier::new("base", "gravel")
        };
        blocks.push(Block::new(x, y, z, id, true));
    }
    Chunk { blocks, x: 3, y: -7 }
}

#[test]
fn chunk_new_is_canonical() {
    let c = Chunk::new(2, -1);
    assert_eq!(c.x, 2);
    assert_eq!(c.y, -1);
    assert_eq!(c.blocks.len(), 4096);
    for (i, b) in c.blocks.iter().enumerate() {
        assert_eq!(b.x() as usize, i % 16);
        assert_eq!(b.y() as usize, (i / 16) % 16);
        assert_eq!(b.z() as usize, i / 256);
        assert_eq!(b.id, "base:stone");
        assert!(!b.transparent());
    }
}

#[test]
fn compress_uniform_chunk_single_group() {
    let c = Chunk::new(2, -1);
    let groups = c.compress();
    assert_eq!(groups.len(), 1);
    assert_eq!(groups[0].id, "base:stone");
    assert_eq!(groups[0].count, 4096);
}

#[test]
fn compress_counts_sum_to_chunk_size() {
    let groups = mixed_chunk().compress();
    let total: u64 = groups.iter().map(|g| g.count as u64).sum();
    assert_eq!(total, 4096);
}

#[test]
fn compress_runs_are_maximal() {
    let groups = mixed_chunk().compress();
    assert!(groups.len() > 1);
    for w in groups.windows(2) {
        assert_ne!(w[0].id, w[1].id);
    }
    for g in groups.iter() {
        assert!(g.count >= 1);
    }
}

#[test]
fn compress_decompress_round_trip() {
    let c = mixed_chunk();
    let groups = c.compress();
    let d = Chunk::decompress(&groups, c.x, c.y).unwrap();
    assert_eq!(d.x, c.x);
    assert_eq!(d.y, c.y);
    assert_eq!(d.blocks, c.blocks);
}

#[test]
fn decompress_single_group_scenario() {
    let groups = vec![BlockGroup { id: String::from("base:stone"), count: 4096 }];
    let d = Chunk::decompress(&groups, 2, -1).unwrap();
    assert_eq!(d.x, 2);
    assert_eq!(d.y, -1);
    assert_eq!(d.blocks.len(), 4096);
    let first = &d.blocks[0];
    assert_eq!((first.x(), first.y(), first.z()), (0, 0, 0));
    let last = &d.blocks[4095];
    assert_eq!((last.x(), last.y(), last.z()), (15, 15, 15));
    assert_eq!(first.id, "base:stone");
}

#[test]
fn decompress_rejects_wrong_totals() {
    let short = vec![BlockGroup { id: String::from("base:stone"), count: 4095 }];
    assert_eq!(Chunk::decompress(&short, 0, 0), Err(ChunkError::CountMismatch));

    let long = vec![
        BlockGroup { id: String::from("base:stone"), count: 4096 },
        BlockGroup { id: String::from("base:dirt"), count: 1 },
    ];
    assert_eq!(Chunk::decompress(&long, 0, 0), Err(ChunkError::CountMismatch));

    let empty: Vec<BlockGroup> = Vec::new();
    assert_eq!(Chunk::decompress(&empty, 0, 0), Err(ChunkError::CountMismatch));
}

#[test]
fn get_block_reads_canonical_positions() {
    let c = Chunk::new(0, 0);
    let b = c.get_block(3, 5, 9).unwrap();
    assert_eq!((b.x(), b.y(), b.z()), (3, 5, 9));
    // An index past the backing sequence is handled without crashing.
    assert!(c.get_block(200, 200, 200).is_none());
}

#[test]
fn chunks_lookup_by_coordinate() {
    let mut set = Chunks::default();
    assert!(set.get_chunk(0, 0).is_none());
    set.chunks.push(Chunk::new(1, 0));
    set.chunks.push(Chunk::new(-4, 9));
    assert_eq!(set.get_chunk(1, 0).unwrap().x, 1);
    assert_eq!(set.get_chunk(-4, 9).unwrap().y, 9);
    assert!(set.get_chunk(2, 2).is_none());
}
