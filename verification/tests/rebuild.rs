use voxel_world::block::BlockID;
use voxel_world::block_texture_sides::BlockFaces;
use voxel_world::block_texture_sides::UvMap;
use voxel_world::chunk::Chunk;
use voxel_world::chunk_manager::ChunkManager;
use voxel_world::shapes::unit_cube_array;
use voxel_world::shapes::UVCoords;

fn rect(n: u32) -> UVCoords {
    UVCoords { left: 16 * n, bottom: 0, right: 16 * n + 16, top: 16 }
}

fn uvs() -> UvMap {
    let mut uvs = UvMap::new();
    for n in 1..=8 {
        uvs.insert(BlockID::from_index(n), BlockFaces::All(rect(n)));
    }
    uvs.insert(
        BlockID::GrassBlock,
        BlockFaces::Sides { sides: rect(20), top: rect(21), bottom: rect(22) },
    );
    uvs
}

fn sorted(mut v: Vec<(i32, i32, i32)>) -> Vec<(i32, i32, i32)> {
    v.sort();
    v
}

fn world_of_empty_chunks(coords: &[(i32, i32, i32)]) -> ChunkManager {
    let mut world = ChunkManager::new();
    for (x, y, z) in coords {
        assert!(world.load_chunk(*x, *y, *z, Chunk::empty()));
    }
    world
}

#[test]
fn a_lone_block_has_a_mesh_of_thirty_six_vertices() {
    let mut world = world_of_empty_chunks(&[(0, 0, 0)]);
    world.set_block(1, 2, 3, BlockID::Dirt);
    assert_eq!(world.rebuild_dirty_chunks(&uvs()), vec![(0, 0, 0)]);
    let chunk = world.chunk(0, 0, 0).unwrap();
    assert_eq!(chunk.vertices_drawn(), 36);
    assert_eq!(*chunk.mesh(), unit_cube_array(1, 2, 3, [rect(1); 6], [true; 6]));
    assert!(!chunk.dirty());
    assert!(chunk.dirty_neighbours().is_empty());
}

#[test]
fn mesh_positions_are_local_to_the_chunk() {
    let mut world = world_of_empty_chunks(&[(-2, 3, 1)]);
    world.set_block(-32 + 1, 48 + 2, 16 + 3, BlockID::Dirt);
    world.rebuild_dirty_chunks(&uvs());
    let chunk = world.chunk(-2, 3, 1).unwrap();
    assert_eq!(*chunk.mesh(), unit_cube_array(1, 2, 3, [rect(1); 6], [true; 6]));
}

#[test]
fn blocks_are_meshed_in_storage_order() {
    let mut world = world_of_empty_chunks(&[(0, 0, 0)]);
    world.set_block(0, 1, 0, BlockID::Dirt);
    world.set_block(0, 0, 1, BlockID::Cobblestone);
    world.set_block(1, 0, 0, BlockID::Obsidian);
    world.set_block(5, 0, 0, BlockID::Dirt);
    world.rebuild_dirty_chunks(&uvs());
    let mut expected = unit_cube_array(1, 0, 0, [rect(4); 6], [true; 6]);
    expected.extend(unit_cube_array(5, 0, 0, [rect(1); 6], [true; 6]));
    expected.extend(unit_cube_array(0, 0, 1, [rect(3); 6], [true; 6]));
    expected.extend(unit_cube_array(0, 1, 0, [rect(1); 6], [true; 6]));
    assert_eq!(*world.chunk(0, 0, 0).unwrap().mesh(), expected);
}

#[test]
fn hidden_faces_are_left_out_of_the_mesh() {
    let mut world = world_of_empty_chunks(&[(0, 0, 0)]);
    world.set_block(5, 5, 5, BlockID::Dirt);
    world.set_block(6, 5, 5, BlockID::Dirt);
    world.rebuild_dirty_chunks(&uvs());
    let mut expected =
        unit_cube_array(5, 5, 5, [rect(1); 6], [false, true, true, true, true, true]);
    expected.extend(unit_cube_array(6, 5, 5, [rect(1); 6], [true, false, true, true, true, true]));
    let chunk = world.chunk(0, 0, 0).unwrap();
    assert_eq!(*chunk.mesh(), expected);
    assert_eq!(chunk.vertices_drawn(), 60);
}

#[test]
fn grass_takes_its_top_bottom_and_side_rectangles() {
    let mut world = world_of_empty_chunks(&[(0, 0, 0)]);
    world.set_block(2, 2, 2, BlockID::GrassBlock);
    world.rebuild_dirty_chunks(&uvs());
    let faces = [rect(20), rect(20), rect(21), rect(22), rect(20), rect(20)];
    assert_eq!(*world.chunk(0, 0, 0).unwrap().mesh(), unit_cube_array(2, 2, 2, faces, [true; 6]));
}

#[test]
fn a_full_chunk_alone_shows_its_surface() {
    let mut world = ChunkManager::new();
    world.load_chunk(0, 0, 0, Chunk::full_of_block(BlockID::Cobblestone));
    world.rebuild_dirty_chunks(&uvs());
    assert_eq!(world.chunk(0, 0, 0).unwrap().vertices_drawn(), 6 * 6 * 256);
}

#[test]
fn a_full_chunk_between_full_chunks_shows_nothing() {
    let mut world = ChunkManager::new();
    let around = [(0, 0, 0), (1, 0, 0), (-1, 0, 0), (0, 1, 0), (0, -1, 0), (0, 0, 1), (0, 0, -1)];
    for (x, y, z) in around {
        world.load_chunk(x, y, z, Chunk::full_of_block(BlockID::Cobblestone));
    }
    assert_eq!(sorted(world.rebuild_dirty_chunks(&uvs())), sorted(around.to_vec()));
    assert_eq!(world.chunk(0, 0, 0).unwrap().vertices_drawn(), 0);
    assert!(world.chunk(0, 0, 0).unwrap().mesh().is_empty());
    assert_eq!(world.chunk(1, 0, 0).unwrap().vertices_drawn(), 6 * 5 * 256);
}

#[test]
fn leaves_do_not_hide_their_neighbours() {
    let mut world = world_of_empty_chunks(&[(0, 0, 0)]);
    world.set_block(5, 5, 5, BlockID::Dirt);
    world.set_block(5, 6, 5, BlockID::OakLeaves);
    world.rebuild_dirty_chunks(&uvs());
    // The dirt shows six faces, the leaves five: the dirt hides their bottom.
    assert_eq!(world.chunk(0, 0, 0).unwrap().vertices_drawn(), 6 * 11);
}

#[test]
fn rebuilding_twice_changes_nothing_the_second_time() {
    let mut world = world_of_empty_chunks(&[(0, 0, 0), (1, 0, 0)]);
    world.set_block(15, 3, 3, BlockID::Dirt);
    world.set_block(20, 3, 3, BlockID::Dirt);
    let first = world.rebuild_dirty_chunks(&uvs());
    assert_eq!(sorted(first), vec![(0, 0, 0), (1, 0, 0)]);
    let counts: Vec<u32> =
        [(0, 0, 0), (1, 0, 0)].iter().map(|c| world.chunk(c.0, c.1, c.2).unwrap().vertices_drawn()).collect();
    let meshes: Vec<_> =
        [(0, 0, 0), (1, 0, 0)].iter().map(|c| world.chunk(c.0, c.1, c.2).unwrap().mesh().clone()).collect();
    assert_eq!(counts, vec![36, 36]);
    let second = world.rebuild_dirty_chunks(&uvs());
    assert!(second.is_empty());
    for (i, c) in [(0, 0, 0), (1, 0, 0)].iter().enumerate() {
        let chunk = world.chunk(c.0, c.1, c.2).unwrap();
        assert_eq!(chunk.vertices_drawn(), counts[i]);
        assert_eq!(*chunk.mesh(), meshes[i]);
        assert!(!chunk.dirty());
        assert!(chunk.dirty_neighbours().is_empty());
    }
}

#[test]
fn a_change_inside_a_chunk_rebuilds_that_chunk_only() {
    let mut world = world_of_empty_chunks(&[(0, 0, 0), (1, 0, 0), (0, 1, 0)]);
    world.rebuild_dirty_chunks(&uvs());
    world.set_block(5, 5, 5, BlockID::Dirt);
    assert_eq!(world.rebuild_dirty_chunks(&uvs()), vec![(0, 0, 0)]);
}

#[test]
fn a_change_on_a_boundary_rebuilds_the_neighbour_too() {
    let mut world = world_of_empty_chunks(&[(0, 0, 0), (1, 0, 0), (0, 1, 0)]);
    world.set_block(16, 5, 5, BlockID::Dirt);
    world.rebuild_dirty_chunks(&uvs());
    assert_eq!(world.chunk(1, 0, 0).unwrap().vertices_drawn(), 36);
    world.set_block(15, 5, 5, BlockID::Dirt);
    let renewed = world.rebuild_dirty_chunks(&uvs());
    assert_eq!(sorted(renewed), vec![(0, 0, 0), (1, 0, 0)]);
    // Each of the two blocks now hides one face of the other.
    assert_eq!(world.chunk(0, 0, 0).unwrap().vertices_drawn(), 30);
    assert_eq!(world.chunk(1, 0, 0).unwrap().vertices_drawn(), 30);
}

#[test]
fn a_change_on_a_boundary_towards_an_unloaded_chunk() {
    let mut world = world_of_empty_chunks(&[(0, 0, 0)]);
    world.set_block(0, 0, 0, BlockID::Dirt);
    assert_eq!(world.rebuild_dirty_chunks(&uvs()), vec![(0, 0, 0)]);
    assert_eq!(world.chunk(0, 0, 0).unwrap().vertices_drawn(), 36);
    assert_eq!(world.chunk_coords(), vec![(0, 0, 0)]);
}

#[test]
fn an_untouched_chunk_without_neighbours_is_not_rebuilt() {
    let mut world = world_of_empty_chunks(&[(0, 0, 0)]);
    assert!(world.rebuild_dirty_chunks(&uvs()).is_empty());
    assert_eq!(world.chunk(0, 0, 0).unwrap().dirty_neighbours().to_vec().len(), 6);
}

#[test]
fn new_chunks_mark_each_other_stale() {
    let mut world = world_of_empty_chunks(&[(0, 0, 0), (0, 0, 1), (9, 9, 9)]);
    assert_eq!(sorted(world.rebuild_dirty_chunks(&uvs())), vec![(0, 0, 0), (0, 0, 1)]);
    assert!(world.chunk(0, 0, 0).unwrap().dirty_neighbours().is_empty());
    assert!(world.rebuild_dirty_chunks(&uvs()).is_empty());
}

#[test]
fn removing_a_block_empties_the_mesh() {
    let mut world = world_of_empty_chunks(&[(0, 0, 0)]);
    world.set_block(5, 5, 5, BlockID::Dirt);
    world.rebuild_dirty_chunks(&uvs());
    world.set_block(5, 5, 5, BlockID::Air);
    assert!(world.chunk(0, 0, 0).unwrap().dirty());
    assert_eq!(world.chunk(0, 0, 0).unwrap().vertices_drawn(), 36);
    world.rebuild_dirty_chunks(&uvs());
    assert_eq!(world.chunk(0, 0, 0).unwrap().vertices_drawn(), 0);
    assert!(world.render_loaded_chunks().is_empty());
}

#[test]
fn rebuilding_changes_no_block() {
    let mut world = ChunkManager::new();
    world.preload_some_chunks();
    let before: Vec<_> = (0..32).map(|i| world.get_block(i, 31 - i, (7 * i) % 32)).collect();
    assert_eq!(world.rebuild_dirty_chunks(&uvs()).len(), 8);
    let after: Vec<_> = (0..32).map(|i| world.get_block(i, 31 - i, (7 * i) % 32)).collect();
    assert_eq!(before, after);
    // Eight full chunks in a cube show the surface of the cube.
    let total: u32 =
        world.render_loaded_chunks().iter().map(|call| call.vertices).sum();
    assert!(total >= 6 * 6 * 32 * 32);
}

#[test]
fn incremental_rebuilds_agree_with_a_rebuild_from_scratch() {
    let coords = [(0, 0, 0), (1, 0, 0), (0, 1, 0), (0, 0, 1), (1, 1, 1), (-1, 0, 0)];
    let edits: Vec<(i32, i32, i32, BlockID)> = vec![
        (15, 5, 5, BlockID::Dirt),
        (16, 5, 5, BlockID::Cobblestone),
        (0, 15, 0, BlockID::Obsidian),
        (0, 16, 0, BlockID::OakLeaves),
        (-1, 0, 0, BlockID::Dirt),
        (0, 0, 0, BlockID::Dirt),
        (5, 5, 15, BlockID::GrassBlock),
        (5, 5, 16, BlockID::OakLog),
        (15, 5, 5, BlockID::Air),
        (16, 16, 16, BlockID::Debug),
        (8, 8, 8, BlockID::Debug2),
        (0, 15, 0, BlockID::Air),
    ];
    let mut world = world_of_empty_chunks(&coords);
    for (step, (x, y, z, block)) in edits.iter().enumerate() {
        world.set_block(*x, *y, *z, *block);
        if step % 2 == 1 {
            world.rebuild_dirty_chunks(&uvs());
        }
        // After every rebuild the meshes are those of a world that was
        // built afresh with the same blocks.
        if step % 2 == 1 {
            let mut fresh = ChunkManager::new();
            for (cx, cy, cz) in coords {
                fresh.load_chunk(cx, cy, cz, Chunk::full_of_block(BlockID::Air));
            }
            for (x, y, z, block) in &edits[..=step] {
                fresh.set_block(*x, *y, *z, *block);
            }
            assert_eq!(fresh.rebuild_dirty_chunks(&uvs()).len(), coords.len());
            for (cx, cy, cz) in coords {
                let a = world.chunk(cx, cy, cz).unwrap();
                let b = fresh.chunk(cx, cy, cz).unwrap();
                assert_eq!(a.mesh(), b.mesh(), "chunk {cx} {cy} {cz} after edit {step}");
                assert_eq!(a.vertices_drawn(), b.vertices_drawn());
            }
        }
    }
}
