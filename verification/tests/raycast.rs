use std::cell::RefCell;
use voxel_world::block::BlockID;
use voxel_world::chunk::Chunk;
use voxel_world::chunk_manager::ChunkManager;
use voxel_world::raycast::raycast;
use voxel_world::raycast::raycast_blocks;
use voxel_world::raycast::UNIT;

const HALF: i64 = UNIT / 2;

/// A grid with exactly one solid block, at the origin.
fn one_block(x: i32, y: i32, z: i32) -> Option<(i32, i32, i32)> {
    if (x, y, z) == (0, 0, 0) {
        Some((x, y, z))
    } else {
        None
    }
}

/// The cells that a ray looks at, in order, in a grid that holds nothing.
fn cells(origin: (i64, i64, i64), direction: (i32, i32, i32), distance: i64) -> Vec<(i32, i32, i32)> {
    let seen = RefCell::new(Vec::new());
    let hit = raycast(
        |x: i32, y: i32, z: i32| -> Option<()> {
            seen.borrow_mut().push((x, y, z));
            None
        },
        origin,
        direction,
        distance,
    );
    assert!(hit.is_none());
    seen.into_inner()
}

#[test]
fn unit_is_sixteen_fractional_bits() {
    assert_eq!(UNIT, 65536);
}

#[test]
fn ray_along_z_hits_the_block_at_the_origin() {
    let hit = raycast(one_block, (HALF, HALF, -2 * UNIT), (0, 0, UNIT as i32), 400 * UNIT);
    assert_eq!(hit, Some(((0, 0, 0), (0, 0, -1))));
}

#[test]
fn ray_that_is_too_short_misses() {
    let hit = raycast(one_block, (HALF, HALF, -2 * UNIT), (0, 0, UNIT as i32), UNIT);
    assert_eq!(hit, None);
}

#[test]
fn ray_that_just_reaches_the_block_hits() {
    let origin = (HALF, HALF, -2 * UNIT);
    assert_eq!(raycast(one_block, origin, (0, 0, UNIT as i32), 2 * UNIT - 1), None);
    assert_eq!(
        raycast(one_block, origin, (0, 0, UNIT as i32), 2 * UNIT),
        Some(((0, 0, 0), (0, 0, -1)))
    );
}

#[test]
fn ray_against_each_face() {
    let far = 10 * UNIT;
    let u = UNIT as i32;
    let cases = [
        ((-3 * UNIT, HALF, HALF), (u, 0, 0), (-1, 0, 0)),
        ((3 * UNIT, HALF, HALF), (-u, 0, 0), (1, 0, 0)),
        ((HALF, -3 * UNIT, HALF), (0, u, 0), (0, -1, 0)),
        ((HALF, 3 * UNIT, HALF), (0, -u, 0), (0, 1, 0)),
        ((HALF, HALF, -3 * UNIT), (0, 0, u), (0, 0, -1)),
        ((HALF, HALF, 3 * UNIT), (0, 0, -u), (0, 0, 1)),
    ];
    for (origin, direction, normal) in cases {
        assert_eq!(raycast(one_block, origin, direction, far), Some(((0, 0, 0), normal)));
    }
}

#[test]
fn ray_from_inside_a_block_hits_it_without_a_normal() {
    let hit = raycast(one_block, (HALF, HALF, HALF), (UNIT as i32, 0, 0), 5 * UNIT);
    assert_eq!(hit, Some(((0, 0, 0), (0, 0, 0))));
    let hit = raycast(one_block, (HALF, HALF, HALF), (UNIT as i32, 0, 0), 0);
    assert_eq!(hit, Some(((0, 0, 0), (0, 0, 0))));
}

#[test]
fn ray_with_a_negative_distance_looks_at_nothing() {
    assert!(cells((HALF, HALF, HALF), (UNIT as i32, 0, 0), -1).is_empty());
    assert_eq!(raycast(one_block, (HALF, HALF, HALF), (UNIT as i32, 0, 0), -1), None);
}

#[test]
fn ray_without_direction_looks_at_its_own_cell_only() {
    assert_eq!(cells((HALF, HALF, HALF), (0, 0, 0), 100 * UNIT), vec![(0, 0, 0)]);
    assert_eq!(cells((-HALF, 3 * UNIT + 1, -1), (0, 0, 0), 100 * UNIT), vec![(-1, 3, -1)]);
}

#[test]
fn ray_visits_every_cell_along_an_axis() {
    let got = cells((HALF, HALF, HALF), (UNIT as i32, 0, 0), 3 * UNIT);
    assert_eq!(got, vec![(0, 0, 0), (1, 0, 0), (2, 0, 0), (3, 0, 0)]);
    let got = cells((HALF, HALF, HALF), (0, -(UNIT as i32), 0), 2 * UNIT);
    assert_eq!(got, vec![(0, 0, 0), (0, -1, 0), (0, -2, 0)]);
}

#[test]
fn ray_through_a_corner_steps_along_x_then_z_then_y() {
    let u = UNIT as i32;
    let got = cells((HALF, HALF, HALF), (u, u, u), HALF);
    assert_eq!(got, vec![(0, 0, 0), (1, 0, 0), (1, 0, 1), (1, 1, 1)]);
    let got = cells((HALF, HALF, HALF), (-u, -u, -u), HALF);
    assert_eq!(got, vec![(0, 0, 0), (-1, 0, 0), (-1, 0, -1), (-1, -1, -1)]);
}

#[test]
fn ray_through_an_edge_steps_along_z_before_y() {
    let u = UNIT as i32;
    let got = cells((HALF, HALF, HALF), (0, u, u), HALF);
    assert_eq!(got, vec![(0, 0, 0), (0, 0, 1), (0, 1, 1)]);
    let got = cells((HALF, HALF, HALF), (u, u, 0), HALF);
    assert_eq!(got, vec![(0, 0, 0), (1, 0, 0), (1, 1, 0)]);
}

#[test]
fn ray_steps_along_the_axis_whose_boundary_comes_first() {
    // Direction (2, 1, 0): two steps along x for each along y.
    let got = cells((HALF, HALF, HALF), (2 * UNIT as i32, UNIT as i32, 0), UNIT);
    assert_eq!(got, vec![(0, 0, 0), (1, 0, 0), (1, 1, 0), (2, 1, 0)]);
}

#[test]
fn ray_from_a_boundary_going_down_enters_the_cell_below_at_once() {
    let got = cells((HALF, UNIT, HALF), (0, -(UNIT as i32), 0), 0);
    assert_eq!(got, vec![(0, 1, 0), (0, 0, 0)]);
    let got = cells((HALF, UNIT, HALF), (0, UNIT as i32, 0), 0);
    assert_eq!(got, vec![(0, 1, 0)]);
}

#[test]
fn ray_from_negative_coordinates() {
    let got = cells((-HALF, -HALF, -HALF), (UNIT as i32, 0, 0), UNIT);
    assert_eq!(got, vec![(-1, -1, -1), (0, -1, -1)]);
}

#[test]
fn ray_stops_at_the_end_of_the_grid() {
    let edge = i32::MAX as i64 * UNIT + HALF;
    let got = cells((edge, 0, 0), (UNIT as i32, 0, 0), 10 * UNIT);
    assert_eq!(got, vec![(i32::MAX, 0, 0)]);
    assert!(cells((edge + UNIT, 0, 0), (-(UNIT as i32), 0, 0), 10 * UNIT).is_empty());
}

#[test]
fn ray_normal_is_against_the_last_step() {
    let occupied = |x: i32, y: i32, z: i32| if y == 2 { Some((x, y, z)) } else { None };
    let hit = raycast(occupied, (HALF, HALF, HALF), (UNIT as i32, 3 * UNIT as i32, 0), 10 * UNIT);
    assert_eq!(hit, Some(((1, 2, 0), (0, -1, 0))));
    let occupied = |x: i32, y: i32, z: i32| if x == 1 { Some((x, y, z)) } else { None };
    let hit = raycast(occupied, (HALF, HALF, HALF), (UNIT as i32, 3 * UNIT as i32, 0), 10 * UNIT);
    assert_eq!(hit, Some(((1, 1, 0), (-1, 0, 0))));
    assert_eq!(
        cells((HALF, HALF, HALF), (UNIT as i32, 3 * UNIT as i32, 0), HALF),
        vec![(0, 0, 0), (0, 1, 0), (1, 1, 0), (1, 2, 0)]
    );
}

#[test]
fn ray_returns_what_the_occupancy_test_returns() {
    let hit = raycast(
        |x: i32, _y: i32, _z: i32| if x == 3 { Some("wall") } else { None },
        (HALF, HALF, HALF),
        (UNIT as i32, 0, 0),
        10 * UNIT,
    );
    assert_eq!(hit, Some(("wall", (-1, 0, 0))));
}

#[test]
fn ray_through_the_blocks_of_a_world() {
    let mut world = ChunkManager::new();
    world.load_chunk(0, 0, 0, Chunk::empty());
    world.set_block(0, 0, 0, BlockID::Dirt);
    let hit = raycast_blocks(&world, (HALF, HALF, 10 * UNIT), (0, 0, -(UNIT as i32)), 400 * UNIT);
    assert_eq!(hit, Some(((0, 0, 0), (0, 0, 1))));
    let hit = raycast_blocks(&world, (HALF, HALF, 10 * UNIT), (0, 0, -(UNIT as i32)), 9 * UNIT - 1);
    assert_eq!(hit, None);
    let hit = raycast_blocks(&world, (HALF, HALF, 10 * UNIT), (0, 0, UNIT as i32), 400 * UNIT);
    assert_eq!(hit, None);
}

#[test]
fn ray_hits_nothing_in_unloaded_chunks_and_passes_through_air() {
    let mut world = ChunkManager::new();
    world.load_chunk(0, 0, 0, Chunk::empty());
    world.load_chunk(2, 0, 0, Chunk::empty());
    world.set_block(40, 0, 0, BlockID::OakLeaves);
    let hit = raycast_blocks(&world, (HALF, HALF, HALF), (UNIT as i32, 0, 0), 400 * UNIT);
    assert_eq!(hit, Some(((40, 0, 0), (-1, 0, 0))));
}

fn world_with_a_wall() -> ChunkManager {
    let mut world = ChunkManager::new();
    world.load_chunk(0, 0, 0, Chunk::empty());
    world.set_block(5, 0, 0, BlockID::Cobblestone);
    world.set_block(6, 0, 0, BlockID::Cobblestone);
    world
}

#[test]
fn dig_removes_the_first_block_along_the_ray() {
    let mut world = world_with_a_wall();
    let dug = voxel_world::raycast::dig(&mut world, (HALF, HALF, HALF), (UNIT as i32, 0, 0), 9 * UNIT);
    assert_eq!(dug, Some((5, 0, 0)));
    assert_eq!(world.get_block(5, 0, 0), Some(BlockID::Air));
    assert_eq!(world.get_block(6, 0, 0), Some(BlockID::Cobblestone));
    assert!(world.chunk(0, 0, 0).unwrap().dirty());
}

#[test]
fn build_puts_a_block_in_front_of_the_first_block_along_the_ray() {
    let mut world = world_with_a_wall();
    let built = voxel_world::raycast::build(
        &mut world,
        (HALF, HALF, HALF),
        (UNIT as i32, 0, 0),
        9 * UNIT,
        BlockID::Debug2,
    );
    assert_eq!(built, Some((4, 0, 0)));
    assert_eq!(world.get_block(4, 0, 0), Some(BlockID::Debug2));
    assert_eq!(world.get_block(5, 0, 0), Some(BlockID::Cobblestone));
    let built = voxel_world::raycast::build(
        &mut world,
        (6 * UNIT + HALF, 9 * UNIT, HALF),
        (0, -(UNIT as i32), 0),
        20 * UNIT,
        BlockID::Dirt,
    );
    assert_eq!(built, Some((6, 1, 0)));
    assert_eq!(world.get_block(6, 1, 0), Some(BlockID::Dirt));
}

#[test]
fn build_from_inside_a_block_replaces_it() {
    let mut world = world_with_a_wall();
    let built = voxel_world::raycast::build(
        &mut world,
        (5 * UNIT + HALF, HALF, HALF),
        (UNIT as i32, 0, 0),
        9 * UNIT,
        BlockID::Obsidian,
    );
    assert_eq!(built, Some((5, 0, 0)));
    assert_eq!(world.get_block(5, 0, 0), Some(BlockID::Obsidian));
}

#[test]
fn dig_and_build_change_nothing_when_the_ray_meets_no_block() {
    let mut world = world_with_a_wall();
    let origin = (HALF, HALF, HALF);
    assert_eq!(voxel_world::raycast::dig(&mut world, origin, (UNIT as i32, 0, 0), 4 * UNIT), None);
    assert_eq!(
        voxel_world::raycast::build(&mut world, origin, (0, UNIT as i32, 0), 400 * UNIT, BlockID::Dirt),
        None
    );
    for x in 0..16 {
        for y in 0..16 {
            let expected = if y == 0 && (x == 5 || x == 6) { BlockID::Cobblestone } else { BlockID::Air };
            assert_eq!(world.get_block(x, y, 0), Some(expected));
        }
    }
}
