use voxel_world::block::BlockID;
use voxel_world::chunk::Chunk;
use voxel_world::chunk::Neighbours;
use voxel_world::chunk_manager::ChunkManager;

const DIRECTIONS: [(i32, i32, i32); 6] =
    [(1, 0, 0), (-1, 0, 0), (0, 1, 0), (0, -1, 0), (0, 0, 1), (0, 0, -1)];

/// A world of one empty chunk at the origin about which nothing is stale.
fn clean_world() -> ChunkManager {
    let mut world = ChunkManager::new();
    assert!(world.load_chunk(0, 0, 0, Chunk::empty()));
    world.set_block(5, 5, 5, BlockID::Air);
    world.rebuild_dirty_chunks(&complete_uvs());
    let chunk = world.chunk(0, 0, 0).unwrap();
    assert!(!chunk.dirty());
    assert!(chunk.dirty_neighbours().is_empty());
    world
}

fn marks_after(x: i32, y: i32, z: i32) -> Vec<(i32, i32, i32)> {
    let mut world = clean_world();
    world.set_block(x, y, z, BlockID::Dirt);
    let chunk = world.chunk(0, 0, 0).unwrap();
    assert!(chunk.dirty());
    chunk.dirty_neighbours().to_vec()
}

fn complete_uvs() -> voxel_world::block_texture_sides::UvMap {
    let mut uvs = voxel_world::block_texture_sides::UvMap::new();
    for n in 1..=8 {
        uvs.insert(
            BlockID::from_index(n),
            voxel_world::block_texture_sides::BlockFaces::All(voxel_world::shapes::UVCoords {
                left: 0,
                bottom: 0,
                right: 16,
                top: 16,
            }),
        );
    }
    uvs
}

#[test]
fn empty_chunk_is_air_and_not_dirty() {
    let chunk = Chunk::empty();
    for y in 0..16 {
        for z in 0..16 {
            for x in 0..16 {
                assert_eq!(chunk.get_block(x, y, z), BlockID::Air);
            }
        }
    }
    assert!(!chunk.dirty());
    assert_eq!(chunk.vertices_drawn(), 0);
    assert!(chunk.mesh().is_empty());
    assert_eq!(chunk.vao(), 0);
    assert_eq!(chunk.vbo(), 0);
    for (dx, dy, dz) in DIRECTIONS {
        assert!(chunk.dirty_neighbours().contains(dx, dy, dz));
    }
}

#[test]
fn full_chunk_holds_one_kind_and_is_dirty() {
    let chunk = Chunk::full_of_block(BlockID::Obsidian);
    for y in 0..16 {
        for z in 0..16 {
            for x in 0..16 {
                assert_eq!(chunk.get_block(x, y, z), BlockID::Obsidian);
            }
        }
    }
    assert!(chunk.dirty());
    assert_eq!(chunk.vertices_drawn(), 0);
    assert_eq!(chunk.dirty_neighbours().to_vec().len(), 6);
}

#[test]
fn random_chunk_has_no_air_and_several_kinds() {
    let chunk = Chunk::random();
    let mut kinds = [false; 9];
    for y in 0..16 {
        for z in 0..16 {
            for x in 0..16 {
                let b = chunk.get_block(x, y, z);
                assert!(!b.is_air());
                kinds[b.index() as usize] = true;
            }
        }
    }
    assert!(kinds.iter().filter(|k| **k).count() >= 2);
    assert!(chunk.dirty());
    assert_eq!(chunk.dirty_neighbours().to_vec().len(), 6);
    assert_eq!(chunk.vertices_drawn(), 0);
}

#[test]
fn all_neighbours_are_the_six_directions() {
    let all = Chunk::all_neighbours();
    for (dx, dy, dz) in DIRECTIONS {
        assert!(all.contains(dx, dy, dz));
    }
    assert!(!all.contains(0, 0, 0));
    assert!(!all.contains(1, 1, 0));
    assert_eq!(all.to_vec(), DIRECTIONS.to_vec());
}

#[test]
fn set_then_get_returns_the_block() {
    let mut chunk = Chunk::empty();
    chunk.set_block(3, 4, 5, BlockID::Cobblestone);
    assert_eq!(chunk.get_block(3, 4, 5), BlockID::Cobblestone);
    assert_eq!(chunk.get_block(4, 3, 5), BlockID::Air);
    assert_eq!(chunk.get_block(5, 4, 3), BlockID::Air);
    chunk.set_block(3, 4, 5, BlockID::Air);
    assert_eq!(chunk.get_block(3, 4, 5), BlockID::Air);
}

#[test]
fn set_block_marks_the_chunk_dirty() {
    let mut chunk = Chunk::empty();
    assert!(!chunk.dirty());
    chunk.set_block(5, 5, 5, BlockID::Dirt);
    assert!(chunk.dirty());
}

#[test]
fn set_block_on_low_x_marks_the_neighbour_at_minus_x() {
    assert_eq!(marks_after(0, 5, 5), vec![(-1, 0, 0)]);
}

#[test]
fn set_block_on_high_x_marks_the_neighbour_at_plus_x() {
    assert_eq!(marks_after(15, 5, 5), vec![(1, 0, 0)]);
}

#[test]
fn set_block_inside_marks_no_neighbour() {
    assert!(marks_after(5, 5, 5).is_empty());
    assert!(marks_after(1, 14, 1).is_empty());
}

#[test]
fn set_block_on_the_other_boundaries() {
    assert_eq!(marks_after(5, 0, 5), vec![(0, -1, 0)]);
    assert_eq!(marks_after(5, 15, 5), vec![(0, 1, 0)]);
    assert_eq!(marks_after(5, 5, 0), vec![(0, 0, -1)]);
    assert_eq!(marks_after(5, 5, 15), vec![(0, 0, 1)]);
}

#[test]
fn set_block_in_a_corner_marks_three_neighbours() {
    assert_eq!(marks_after(0, 15, 0), vec![(-1, 0, 0), (0, 1, 0), (0, 0, -1)]);
}

#[test]
fn marks_accumulate() {
    let mut world = clean_world();
    world.set_block(0, 5, 5, BlockID::Dirt);
    world.set_block(5, 5, 15, BlockID::Dirt);
    world.set_block(5, 5, 5, BlockID::Dirt);
    let marks = world.chunk(0, 0, 0).unwrap().dirty_neighbours().to_vec();
    assert_eq!(marks, vec![(-1, 0, 0), (0, 0, 1)]);
}

#[test]
fn a_new_chunk_keeps_its_marks_when_a_block_is_set() {
    let mut chunk = Chunk::empty();
    chunk.set_block(5, 5, 5, BlockID::Dirt);
    assert_eq!(chunk.dirty_neighbours().to_vec().len(), 6);
}

#[test]
fn set_buffers_records_the_handles() {
    let mut chunk = Chunk::full_of_block(BlockID::Dirt);
    chunk.set_buffers(7, 9);
    assert_eq!(chunk.vao(), 7);
    assert_eq!(chunk.vbo(), 9);
    assert!(chunk.dirty());
    assert_eq!(chunk.get_block(0, 0, 0), BlockID::Dirt);
}

#[test]
fn neighbours_insert_contains_clear() {
    let mut set = Neighbours::new();
    assert!(set.is_empty());
    assert!(set.insert(0, 1, 0));
    assert!(!set.insert(0, 1, 0));
    assert!(set.contains(0, 1, 0));
    assert!(!set.contains(0, -1, 0));
    assert!(!set.is_empty());
    assert!(set.insert(0, 0, -1));
    assert_eq!(set.to_vec(), vec![(0, 1, 0), (0, 0, -1)]);
    set.clear();
    assert!(set.is_empty());
    assert!(set.to_vec().is_empty());
}

#[test]
fn neighbours_ignore_what_is_no_unit_direction() {
    let mut set = Neighbours::new();
    assert!(!set.insert(0, 0, 0));
    assert!(!set.insert(2, 0, 0));
    assert!(!set.insert(1, 1, 0));
    assert!(set.is_empty());
    assert!(!set.contains(2, 0, 0));
}
