use yave::voxel::VoxelVertex;

#[test]
pub fn voxel_voxel_vertex() {
    let vertex = VoxelVertex::new(5, 4, 1, 3, 5);

    assert_eq!(vertex.x(), 5);
    assert_eq!(vertex.y(), 4);
    assert_eq!(vertex.z(), 1);
}

#[test]
fn voxel_vertex_boundaries() {
    let vertex = VoxelVertex::new(31, 0, 31, 7, 15);
    assert_eq!(vertex.x(), 31);
    assert_eq!(vertex.y(), 0);
    assert_eq!(vertex.z(), 31);

    // Index fields beyond their width are masked, not smeared over the
    // coordinates.
    let masked = VoxelVertex::new(1, 2, 3, 0xFF, 0xFF);
    assert_eq!(masked.x(), 1);
    assert_eq!(masked.y(), 2);
    assert_eq!(masked.z(), 3);
}
