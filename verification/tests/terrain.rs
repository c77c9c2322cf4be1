use voxel_world::block::BlockID;
use voxel_world::chunk::Chunk;
use voxel_world::chunk_manager::ChunkManager;
use voxel_world::terrain::grows_tree;
use voxel_world::terrain::COLUMNS;

fn small_world() -> ChunkManager {
    let mut world = ChunkManager::new();
    for x in -1..=1 {
        for y in 0..=2 {
            for z in -1..=1 {
                world.load_chunk(x, y, z, Chunk::empty());
            }
        }
    }
    world
}

/// What a tree on the block at the origin of the offsets writes at an offset.
fn tree_block(dx: i32, dy: i32, dz: i32) -> Option<BlockID> {
    let centre = dx == 0 && dz == 0;
    if centre && (1..=5).contains(&dy) {
        Some(BlockID::OakLog)
    } else if (3..=4).contains(&dy) && dx.abs() <= 2 && dz.abs() <= 2 {
        Some(BlockID::OakLeaves)
    } else if dy == 5 && dx.abs() <= 1 && dz.abs() <= 1 {
        Some(BlockID::OakLeaves)
    } else if dy == 6 && dx.abs() + dz.abs() <= 1 {
        Some(BlockID::OakLeaves)
    } else {
        None
    }
}

#[test]
fn a_column_is_grass_on_dirt_on_cobblestone() {
    let mut world = small_world();
    world.write_column(3, 10, -4, false);
    assert_eq!(world.get_block(3, 11, -4), Some(BlockID::Air));
    assert_eq!(world.get_block(3, 10, -4), Some(BlockID::GrassBlock));
    assert_eq!(world.get_block(3, 9, -4), Some(BlockID::Dirt));
    assert_eq!(world.get_block(3, 8, -4), Some(BlockID::Dirt));
    assert_eq!(world.get_block(3, 7, -4), Some(BlockID::Cobblestone));
    assert_eq!(world.get_block(3, 6, -4), Some(BlockID::Air));
    assert_eq!(world.get_block(4, 10, -4), Some(BlockID::Air));
}

#[test]
fn a_tree_has_a_trunk_and_leaves_around_it() {
    let mut world = small_world();
    world.write_column(0, 20, 0, true);
    for dy in -4..=8 {
        for dx in -3..=3 {
            for dz in -3..=3 {
                let expected = if dx == 0 && dz == 0 && (-3..=0).contains(&dy) {
                    [BlockID::Cobblestone, BlockID::Dirt, BlockID::Dirt, BlockID::GrassBlock]
                        [(dy + 3) as usize]
                } else {
                    tree_block(dx, dy, dz).unwrap_or(BlockID::Air)
                };
                assert_eq!(world.get_block(dx, 20 + dy, dz), Some(expected), "{dx} {dy} {dz}");
            }
        }
    }
}

#[test]
fn a_tree_has_sixty_six_blocks() {
    let mut world = small_world();
    world.write_column(0, 20, 0, true);
    let mut logs = 0;
    let mut leaves = 0;
    for y in 0..48 {
        for x in -16..32 {
            for z in -16..32 {
                match world.get_block(x, y, z) {
                    Some(BlockID::OakLog) => logs += 1,
                    Some(BlockID::OakLeaves) => leaves += 1,
                    _ => {}
                }
            }
        }
    }
    assert_eq!((logs, leaves), (5, 24 + 24 + 8 + 5));
}

#[test]
fn what_falls_into_an_unloaded_chunk_is_not_written() {
    let mut world = ChunkManager::new();
    world.load_chunk(0, 1, 0, Chunk::empty());
    world.write_column(0, 17, 0, true);
    assert_eq!(world.get_block(0, 17, 0), Some(BlockID::GrassBlock));
    assert_eq!(world.get_block(0, 16, 0), Some(BlockID::Dirt));
    assert_eq!(world.get_block(0, 15, 0), None);
    assert_eq!(world.get_block(-1, 20, 0), None);
    assert_eq!(world.get_block(1, 20, 0), Some(BlockID::OakLeaves));
    assert_eq!(world.chunk_coords(), vec![(0, 1, 0)]);
}

#[test]
fn a_column_at_the_end_of_the_coordinate_range() {
    let mut world = ChunkManager::new();
    world.load_chunk(0, 134217727, 0, Chunk::empty());
    world.load_chunk(0, -134217728, 0, Chunk::empty());
    world.write_column(0, i32::MAX - 2, 0, true);
    assert_eq!(world.get_block(0, i32::MAX - 2, 0), Some(BlockID::GrassBlock));
    assert_eq!(world.get_block(0, i32::MAX, 0), Some(BlockID::OakLog));
    world.write_column(0, i32::MIN + 1, 0, false);
    assert_eq!(world.get_block(0, i32::MIN + 1, 0), Some(BlockID::GrassBlock));
    assert_eq!(world.get_block(0, i32::MIN, 0), Some(BlockID::Dirt));
}

#[test]
fn later_columns_write_over_earlier_ones() {
    let mut world = small_world();
    world.write_column(0, 20, 0, true);
    world.write_column(1, 24, 0, false);
    assert_eq!(world.get_block(1, 24, 0), Some(BlockID::GrassBlock));
    assert_eq!(world.get_block(1, 23, 0), Some(BlockID::Dirt));
    assert_eq!(world.get_block(1, 21, 0), Some(BlockID::Cobblestone));
    assert_eq!(world.get_block(1, 25, 0), Some(BlockID::OakLeaves));
}

#[test]
fn writing_marks_the_chunks_stale() {
    let mut world = small_world();
    world.write_column(0, 20, 0, false);
    assert!(world.chunk(0, 1, 0).unwrap().dirty());
    assert!(!world.chunk(0, 0, 0).unwrap().dirty());
    assert!(!world.chunk(1, 1, 0).unwrap().dirty());
}

#[test]
fn the_region_is_twenty_one_chunks_wide_and_sixteen_high() {
    let mut world = ChunkManager::new();
    world.load_chunk(50, 50, 50, Chunk::full_of_block(BlockID::Dirt));
    world.load_chunk(0, 0, 0, Chunk::full_of_block(BlockID::Dirt));
    world.load_region();
    assert_eq!(world.chunk_coords().len(), 21 * 21 * 16 + 1);
    assert_eq!(world.get_block(0, 0, 0), Some(BlockID::Air));
    assert_eq!(world.get_block(800, 800, 800), Some(BlockID::Dirt));
    assert!(world.chunk(-10, 0, -10).is_some());
    assert!(world.chunk(10, 15, 10).is_some());
    assert!(world.chunk(11, 0, 0).is_none());
    assert!(world.chunk(0, 16, 0).is_none());
    assert!(world.chunk(0, -1, 0).is_none());
}

#[test]
fn columns_are_numbered_along_x_first() {
    let mut world = ChunkManager::new();
    world.load_region();
    let heights = vec![5; 321];
    let mut trees = vec![false; 321];
    trees[1] = true;
    world.generate(&heights, &trees);
    assert_eq!(world.get_block(-160, 5, -160), Some(BlockID::GrassBlock));
    assert_eq!(world.get_block(-160, 5, -159), Some(BlockID::GrassBlock));
    assert_eq!(world.get_block(-160, 6, -159), Some(BlockID::OakLog));
    assert_eq!(world.get_block(-160, 5, 159), Some(BlockID::GrassBlock));
    assert_eq!(world.get_block(-159, 5, -160), Some(BlockID::GrassBlock));
    assert_eq!(world.get_block(-159, 5, -159), Some(BlockID::Air));
}

#[test]
fn as_many_columns_as_there_are_heights_and_decisions() {
    let mut world = ChunkManager::new();
    world.load_region();
    world.generate(&vec![5; 10], &vec![false; 3]);
    assert_eq!(world.get_block(-160, 5, -158), Some(BlockID::GrassBlock));
    assert_eq!(world.get_block(-160, 5, -157), Some(BlockID::Air));
    world.generate(&vec![7; 2], &vec![false; 30]);
    assert_eq!(world.get_block(-160, 7, -159), Some(BlockID::GrassBlock));
    assert_eq!(world.get_block(-160, 7, -158), Some(BlockID::Air));
}

#[test]
fn one_draw_in_a_hundred_grows_a_tree() {
    assert!(grows_tree(0));
    assert!(grows_tree(100));
    assert!(grows_tree(4294967200));
    assert!(!grows_tree(1));
    assert!(!grows_tree(99));
    assert!(!grows_tree(u32::MAX));
}

#[test]
fn simplex_fills_the_region_with_a_surface_and_some_trees() {
    assert_eq!(COLUMNS, 320 * 320);
    let mut world = ChunkManager::new();
    let heights: Vec<i32> = (0..COLUMNS).map(|_| 20).collect();
    world.simplex(&heights);
    assert_eq!(world.chunk_coords().len(), 21 * 21 * 16);
    let mut trunks = 0;
    for x in -160..160 {
        for z in -160..160 {
            assert_eq!(world.get_block(x, 20, z), Some(BlockID::GrassBlock));
            assert_eq!(world.get_block(x, 19, z), Some(BlockID::Dirt));
            assert_eq!(world.get_block(x, 18, z), Some(BlockID::Dirt));
            assert_eq!(world.get_block(x, 17, z), Some(BlockID::Cobblestone));
            assert_eq!(world.get_block(x, 16, z), Some(BlockID::Air));
            if world.get_block(x, 21, z) == Some(BlockID::OakLog) {
                trunks += 1;
            }
        }
    }
    assert!(trunks > 0);
    assert!(trunks < COLUMNS / 10);
}
