use yave::assets::Identifier;
use yave::voxel::VoxelVertex;
use yave::world::chunk::Block;

#[test]
pub fn block_voxel_vertex() {
    let vertex = VoxelVertex::new(5, 4, 1, 3, 5);

    assert_eq!(vertex.x(), 5);
    assert_eq!(vertex.y(), 4);
    assert_eq!(vertex.z(), 1);
}

#[test]
pub fn block_encoding() {
    let block = Block::new(4, 2, 7, Identifier::new("base", "grass"), true);

    assert_eq!(block.x(), 4);
    assert_eq!(block.y(), 2);
    assert_eq!(block.z(), 7);
}

#[test]
fn block_encoding_all_coordinates() {
    for x in 0u16..16 {
        for y in 0u16..16 {
            for z in 0u16..16 {
                for solid in [false, true] {
                    let b = Block::new(x, y, z, Identifier::new("base", "stone"), solid);
                    assert_eq!(b.x() as u16, x);
                    assert_eq!(b.y() as u16, y);
                    assert_eq!(b.z() as u16, z);
                    assert_eq!(b.transparent(), !solid);
                }
            }
        }
    }
}

#[test]
fn block_identifier_text() {
    let b = Block::new(0, 0, 0, Identifier::new("base", "grass"), true);
    assert_eq!(b.id, "base:grass");
    assert_eq!(Identifier::new("mods", "copper_ore").to_string(), "mods:copper_ore");
}

#[test]
fn block_solid_bit() {
    let solid = Block::new(1, 2, 3, Identifier::new("base", "stone"), true);
    let empty = Block::new(1, 2, 3, Identifier::new("base", "air"), false);
    assert!(!solid.transparent());
    assert!(empty.transparent());
    assert_eq!(solid.data & 1, 1);
    assert_eq!(empty.data & 1, 0);
}
