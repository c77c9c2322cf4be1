use voxel_world::chunk::Chunk;
use voxel_world::chunk_manager::ChunkManager;
use voxel_world::coords::split_axis;
use voxel_world::coords::CHUNK_SIZE;
use voxel_world::coords::CHUNK_VOLUME;
use voxel_world::coords::MAX_CHUNK_COORD;
use voxel_world::coords::MIN_CHUNK_COORD;

#[test]
fn chunk_constants() {
    assert_eq!(CHUNK_SIZE, 16);
    assert_eq!(CHUNK_VOLUME, 4096);
}

#[test]
fn split_of_negative_coordinates_floors() {
    assert_eq!(ChunkManager::get_chunk_and_block_coords(-1, -16, 16), (-1, -1, 1, 15, 0, 0));
}

#[test]
fn split_examples() {
    assert_eq!(split_axis(-1), (-1, 15));
    assert_eq!(split_axis(-16), (-1, 0));
    assert_eq!(split_axis(16), (1, 0));
    assert_eq!(split_axis(0), (0, 0));
    assert_eq!(split_axis(15), (0, 15));
    assert_eq!(split_axis(-17), (-2, 15));
}

#[test]
fn split_at_the_ends_of_the_range() {
    assert_eq!(split_axis(i32::MIN), (MIN_CHUNK_COORD, 0));
    assert_eq!(split_axis(i32::MAX), (MAX_CHUNK_COORD, 15));
}

#[test]
fn split_is_a_decomposition() {
    for w in -1000..1000 {
        let (chunk, local) = split_axis(w);
        assert!(local < 16);
        assert_eq!(chunk * 16 + local as i32, w);
        assert_eq!(chunk, w.div_euclid(16));
        assert_eq!(local as i32, w.rem_euclid(16));
    }
}

#[test]
fn global_coords_invert_the_split() {
    for w in [-33, -32, -17, -1, 0, 1, 15, 16, 31, 100] {
        let split = ChunkManager::get_chunk_and_block_coords(w, w + 5, w - 7);
        assert_eq!(ChunkManager::get_global_coords(split), (w, w + 5, w - 7));
    }
    assert_eq!(ChunkManager::get_global_coords((-1, 2, 0, 15, 0, 3)), (-1, 32, 3));
}

#[test]
fn index_is_y_major_then_z_then_x() {
    assert_eq!(Chunk::coords_to_index(0, 0, 0), 0);
    assert_eq!(Chunk::coords_to_index(1, 0, 0), 1);
    assert_eq!(Chunk::coords_to_index(0, 0, 1), 16);
    assert_eq!(Chunk::coords_to_index(0, 1, 0), 256);
    assert_eq!(Chunk::coords_to_index(1, 2, 3), 561);
    assert_eq!(Chunk::coords_to_index(15, 15, 15), 4095);
}

#[test]
fn index_is_a_bijection() {
    let mut seen = vec![false; 4096];
    for y in 0..16 {
        for z in 0..16 {
            for x in 0..16 {
                let i = Chunk::coords_to_index(x, y, z);
                assert!(!seen[i]);
                seen[i] = true;
            }
        }
    }
    assert!(seen.iter().all(|s| *s));
}
