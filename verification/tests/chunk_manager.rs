use voxel_world::block::BlockID;
use voxel_world::block_texture_sides::BlockFaces;
use voxel_world::block_texture_sides::UvMap;
use voxel_world::chunk::Chunk;
use voxel_world::chunk_manager::ChunkManager;
use voxel_world::chunk_manager::DrawCall;
use voxel_world::shapes::UVCoords;

fn uvs() -> UvMap {
    let mut uvs = UvMap::new();
    for n in 1..=8 {
        let rect = UVCoords { left: 16 * n, bottom: 0, right: 16 * n + 16, top: 16 };
        uvs.insert(BlockID::from_index(n), BlockFaces::All(rect));
    }
    uvs
}

fn world_of_empty_chunks(coords: &[(i32, i32, i32)]) -> ChunkManager {
    let mut world = ChunkManager::new();
    for (x, y, z) in coords {
        assert!(world.load_chunk(*x, *y, *z, Chunk::empty()));
    }
    world
}

fn sorted(mut v: Vec<(i32, i32, i32)>) -> Vec<(i32, i32, i32)> {
    v.sort();
    v
}

#[test]
fn a_new_world_has_no_chunks() {
    let world = ChunkManager::new();
    assert!(world.chunk_coords().is_empty());
    assert_eq!(world.get_block(0, 0, 0), None);
    assert!(world.chunk(0, 0, 0).is_none());
    assert!(world.render_loaded_chunks().is_empty());
}

#[test]
fn get_block_of_an_unloaded_chunk_is_none_not_air() {
    let world = world_of_empty_chunks(&[(0, 0, 0)]);
    assert_eq!(world.get_block(0, 0, 0), Some(BlockID::Air));
    assert_eq!(world.get_block(15, 15, 15), Some(BlockID::Air));
    assert_eq!(world.get_block(16, 0, 0), None);
    assert_eq!(world.get_block(-1, 0, 0), None);
    assert_eq!(world.get_block(0, -1, 0), None);
}

#[test]
fn set_block_then_get_block_round_trip() {
    let mut world = world_of_empty_chunks(&[(0, 0, 0), (-1, -1, -1)]);
    for kind in 1..=8 {
        let block = BlockID::from_index(kind);
        world.set_block(3, 7, 11, block);
        assert_eq!(world.get_block(3, 7, 11), Some(block));
        world.set_block(-1, -16, -9, block);
        assert_eq!(world.get_block(-1, -16, -9), Some(block));
    }
    world.set_block(3, 7, 11, BlockID::Air);
    assert_eq!(world.get_block(3, 7, 11), Some(BlockID::Air));
    assert_eq!(world.get_block(-1, -16, -9), Some(BlockID::Debug2));
}

#[test]
fn set_block_changes_no_other_block() {
    let mut world = world_of_empty_chunks(&[(0, 0, 0)]);
    world.set_block(3, 7, 11, BlockID::Dirt);
    for y in 0..16 {
        for z in 0..16 {
            for x in 0..16 {
                let expected = if (x, y, z) == (3, 7, 11) { BlockID::Dirt } else { BlockID::Air };
                assert_eq!(world.get_block(x, y, z), Some(expected));
            }
        }
    }
}

#[test]
fn set_block_in_an_unloaded_chunk_does_nothing() {
    let mut world = world_of_empty_chunks(&[(0, 0, 0)]);
    world.set_block(16, 0, 0, BlockID::Dirt);
    world.set_block(-1, 0, 0, BlockID::Dirt);
    assert_eq!(world.get_block(16, 0, 0), None);
    assert_eq!(world.get_block(-1, 0, 0), None);
    assert_eq!(world.chunk_coords(), vec![(0, 0, 0)]);
    assert!(!world.chunk(0, 0, 0).unwrap().dirty());
}

#[test]
fn negative_world_coordinates_fall_into_negative_chunks() {
    let mut world = world_of_empty_chunks(&[(-1, 0, 0)]);
    world.set_block(-1, 0, 0, BlockID::Obsidian);
    assert_eq!(world.chunk(-1, 0, 0).unwrap().get_block(15, 0, 0), BlockID::Obsidian);
    world.set_block(-16, 3, 4, BlockID::Dirt);
    assert_eq!(world.chunk(-1, 0, 0).unwrap().get_block(0, 3, 4), BlockID::Dirt);
}

#[test]
fn load_chunk_refuses_what_no_coordinate_reaches() {
    let mut world = ChunkManager::new();
    assert!(!world.load_chunk(134217728, 0, 0, Chunk::empty()));
    assert!(!world.load_chunk(0, -134217729, 0, Chunk::empty()));
    assert!(!world.load_chunk(0, 0, i32::MAX, Chunk::empty()));
    assert!(world.chunk_coords().is_empty());
    assert!(world.load_chunk(134217727, -134217728, 0, Chunk::empty()));
    assert_eq!(world.chunk_coords(), vec![(134217727, -134217728, 0)]);
    assert_eq!(world.get_block(i32::MAX, i32::MIN, 0), Some(BlockID::Air));
}

#[test]
fn load_chunk_replaces_a_loaded_chunk() {
    let mut world = world_of_empty_chunks(&[(1, 2, 3)]);
    assert!(world.load_chunk(1, 2, 3, Chunk::full_of_block(BlockID::Dirt)));
    assert_eq!(world.chunk_coords(), vec![(1, 2, 3)]);
    assert_eq!(world.get_block(16, 32, 48), Some(BlockID::Dirt));
}

#[test]
fn chunk_coords_lists_each_chunk_once() {
    let coords = [(0, 0, 0), (1, 0, 0), (0, -1, 0), (-5, 7, 9), (1, 1, 1)];
    let world = world_of_empty_chunks(&coords);
    assert_eq!(sorted(world.chunk_coords()), sorted(coords.to_vec()));
}

#[test]
fn set_buffers_of_a_loaded_chunk() {
    let mut world = world_of_empty_chunks(&[(0, 0, 0)]);
    assert!(world.set_buffers(0, 0, 0, 3, 4));
    assert!(!world.set_buffers(1, 0, 0, 5, 6));
    assert!(!world.set_buffers(i32::MAX, 0, 0, 5, 6));
    let chunk = world.chunk(0, 0, 0).unwrap();
    assert_eq!((chunk.vao(), chunk.vbo()), (3, 4));
    assert!(!chunk.dirty());
}

#[test]
fn preload_loads_eight_random_chunks() {
    let mut world = world_of_empty_chunks(&[(5, 5, 5), (0, 0, 0)]);
    world.preload_some_chunks();
    let mut expected = vec![(5, 5, 5)];
    for y in 0..2 {
        for z in 0..2 {
            for x in 0..2 {
                expected.push((x, y, z));
                let chunk = world.chunk(x, y, z).unwrap();
                assert!(chunk.dirty());
                assert!(!chunk.get_block(0, 0, 0).is_air());
                assert!(!chunk.get_block(15, 15, 15).is_air());
            }
        }
    }
    assert_eq!(sorted(world.chunk_coords()), sorted(expected));
    assert_eq!(world.get_block(80, 80, 80), Some(BlockID::Air));
}

#[test]
fn a_lone_block_shows_all_its_faces() {
    let mut world = world_of_empty_chunks(&[(0, 0, 0)]);
    world.set_block(5, 5, 5, BlockID::Dirt);
    assert_eq!(world.get_active_sides_of_block(5, 5, 5), [true; 6]);
}

#[test]
fn an_opaque_neighbour_hides_the_face_towards_it() {
    let mut world = world_of_empty_chunks(&[(0, 0, 0)]);
    world.set_block(5, 5, 5, BlockID::Dirt);
    world.set_block(6, 5, 5, BlockID::Cobblestone);
    assert_eq!(world.get_active_sides_of_block(5, 5, 5), [false, true, true, true, true, true]);
    world.set_block(4, 5, 5, BlockID::Cobblestone);
    assert_eq!(world.get_active_sides_of_block(5, 5, 5), [false, false, true, true, true, true]);
    world.set_block(5, 6, 5, BlockID::Cobblestone);
    assert_eq!(world.get_active_sides_of_block(5, 5, 5), [false, false, false, true, true, true]);
    world.set_block(5, 4, 5, BlockID::Cobblestone);
    assert_eq!(world.get_active_sides_of_block(5, 5, 5), [false, false, false, false, true, true]);
    world.set_block(5, 5, 6, BlockID::Cobblestone);
    assert_eq!(world.get_active_sides_of_block(5, 5, 5), [false, false, false, false, false, true]);
    world.set_block(5, 5, 4, BlockID::Cobblestone);
    assert_eq!(world.get_active_sides_of_block(5, 5, 5), [false; 6]);
}

#[test]
fn an_enclosed_block_shows_no_face() {
    let mut world = world_of_empty_chunks(&[(0, 0, 0)]);
    for y in 4..7 {
        for z in 4..7 {
            for x in 4..7 {
                world.set_block(x, y, z, BlockID::Obsidian);
            }
        }
    }
    assert_eq!(world.get_active_sides_of_block(5, 5, 5), [false; 6]);
    assert_eq!(world.get_active_sides_of_block(4, 5, 5), [false, true, false, false, false, false]);
}

#[test]
fn a_transparent_neighbour_hides_nothing() {
    let mut world = world_of_empty_chunks(&[(0, 0, 0)]);
    for y in 4..7 {
        for z in 4..7 {
            for x in 4..7 {
                world.set_block(x, y, z, BlockID::Obsidian);
            }
        }
    }
    world.set_block(5, 6, 5, BlockID::OakLeaves);
    assert_eq!(world.get_active_sides_of_block(5, 5, 5), [false, false, true, false, false, false]);
}

#[test]
fn a_face_towards_an_unloaded_chunk_is_shown() {
    let world_with = |loaded: &[(i32, i32, i32)]| {
        let mut world = world_of_empty_chunks(loaded);
        world.set_block(15, 5, 5, BlockID::Dirt);
        world
    };
    let alone = world_with(&[(0, 0, 0)]);
    assert_eq!(alone.get_active_sides_of_block(15, 5, 5), [true; 6]);
    let mut beside = world_with(&[(0, 0, 0), (1, 0, 0)]);
    assert_eq!(beside.get_active_sides_of_block(15, 5, 5), [true; 6]);
    beside.set_block(16, 5, 5, BlockID::Dirt);
    assert_eq!(beside.get_active_sides_of_block(15, 5, 5), [false, true, true, true, true, true]);
}

#[test]
fn sides_at_the_end_of_the_coordinate_range() {
    let mut world = ChunkManager::new();
    assert!(world.load_chunk(134217727, 134217727, 134217727, Chunk::full_of_block(BlockID::Dirt)));
    let m = i32::MAX;
    assert_eq!(world.get_active_sides_of_block(m, m, m), [true, false, true, false, true, false]);
}

#[test]
fn render_skips_chunks_without_vertices() {
    let mut world = world_of_empty_chunks(&[(0, 0, 0), (2, -3, 4)]);
    world.set_block(32, -48, 64, BlockID::Dirt);
    world.set_buffers(2, -3, 4, 11, 12);
    world.rebuild_dirty_chunks(&uvs());
    let calls = world.render_loaded_chunks();
    assert_eq!(
        calls,
        vec![DrawCall { chunk: (2, -3, 4), vao: 11, vertices: 36, translation: (32, -48, 64) }]
    );
}
