use micro_voxels::util::IVec3;
use micro_voxels::world::brick_pool::HEIGHT_SAMPLES;
use micro_voxels::world::chunk::ChunkPos;
use micro_voxels::world::world_renderer::{WorldRenderer, WORLD_CHUNKS};

fn pos(x: i32, y: i32, z: i32) -> ChunkPos {
    ChunkPos(IVec3 { x, y, z })
}

#[test]
fn new_world_is_empty() {
    let world = WorldRenderer::new();
    assert_eq!(world.chunk_grid().len(), WORLD_CHUNKS);
    assert!(world.chunk_grid().iter().all(|c| c.bricks.iter().all(|&b| b == 0)));
    assert_eq!(world.brick_pool.len(), 1);
}

#[test]
fn load_chunk_goes_to_its_wrapped_slot() {
    let mut world = WorldRenderer::new();
    let heights = vec![8u32; HEIGHT_SAMPLES];
    world.load_chunk(pos(0, 0, 0), &heights);
    // (0 + 4, 0, 0 + 4) -> 4 * 8 + 4
    assert_eq!(world.chunk_grid()[36].bricks[0], 1);
    world.load_chunk(pos(-4, 0, -4), &heights);
    assert_eq!(world.chunk_grid()[0].bricks[0], 1);
    // 12 wraps to 12 + 4 = 16 -> 0 along x; -9 + 4 = -5 -> 3 along z
    world.load_chunk(pos(12, 7, -9), &heights);
    assert_eq!(world.chunk_grid()[3 * 8].bricks[0], 1);
    assert_eq!(world.chunk_grid()[1].bricks[0], 0);
}

#[test]
fn unload_chunk_empties_its_slot_but_keeps_bricks() {
    let mut world = WorldRenderer::new();
    let heights = vec![8u32; HEIGHT_SAMPLES];
    world.load_chunk(pos(1, 0, 2), &heights);
    let slot = (2 + 4) * 8 + (1 + 4);
    assert_eq!(world.chunk_grid()[slot].bricks[0], 1);
    world.unload_chunk(pos(1, 0, 2));
    assert!(world.chunk_grid()[slot].bricks.iter().all(|&b| b == 0));
    assert_eq!(world.brick_pool.len(), 2);
}

#[test]
fn centred_square_fills_every_slot_once() {
    let mut world = WorldRenderer::new();
    let heights = vec![8u32; HEIGHT_SAMPLES];
    for x in -4..4 {
        for z in -4..4 {
            world.load_chunk(pos(x, 0, z), &heights);
        }
    }
    assert!(world.chunk_grid().iter().all(|c| c.bricks[0] == 1));
}

#[test]
fn update_reports_and_clears_dirty_flags() {
    let mut world = WorldRenderer::new();
    assert_eq!(world.update(), (false, false));
    let heights = vec![2u32; HEIGHT_SAMPLES];
    world.load_chunk(pos(0, 0, 0), &heights);
    assert_eq!(world.update(), (true, true));
    assert_eq!(world.update(), (false, false));
    world.unload_chunk(pos(0, 0, 0));
    assert_eq!(world.update(), (true, false));
}

#[test]
fn slots_are_shared_only_by_whole_world_shifts() {
    let mut world = WorldRenderer::new();
    let heights = vec![8u32; HEIGHT_SAMPLES];
    // (1, 0, 2) and (9, 5, -6) differ by 8 along x and -8 along z: same slot
    world.load_chunk(pos(9, 5, -6), &heights);
    let slot = (2 + 4) * 8 + (1 + 4);
    assert_eq!(world.chunk_grid()[slot].bricks[0], 1);
    // (2, 0, 2) differs by 1 along x: a different slot
    world.unload_chunk(pos(2, 0, 2));
    assert_eq!(world.chunk_grid()[slot].bricks[0], 1);
    world.unload_chunk(pos(1, 0, 2));
    assert_eq!(world.chunk_grid()[slot].bricks[0], 0);
    assert_eq!(world.brick_pool().len(), 2);
}
