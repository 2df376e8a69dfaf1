use micro_voxels::world::brick::Brick;
use micro_voxels::world::brick_pool::{BrickPool, HEIGHT_SAMPLES};

fn expected_brick(heights: &[u32], bx: usize, bz: usize) -> Brick {
    let mut voxels = [0u32; 512];
    let mut mask = [0u32; 16];
    for x in 0..8 {
        for y in 0..8 {
            for z in 0..8 {
                let column = heights[(bz * 8 + z) * 64 + bx * 8 + x];
                if (y as u32) < column {
                    let i = z * 64 + y * 8 + x;
                    voxels[i] = 1;
                    mask[i / 32] |= 1 << (i % 32);
                }
            }
        }
    }
    Brick { voxels, occupancy_mask: mask }
}

#[test]
fn new_pool_holds_only_the_empty_brick() {
    let pool = BrickPool::new();
    assert_eq!(pool.len(), 1);
    assert!(!pool.is_empty());
    assert_eq!(pool.as_slice()[0], Brick::default());
}

#[test]
fn flat_terrain_at_zero_uses_the_empty_brick() {
    let mut pool = BrickPool::new();
    let heights = vec![0u32; HEIGHT_SAMPLES];
    let chunk = pool.gen_test_chunk(&heights);
    assert!(chunk.bricks.iter().all(|&b| b == 0));
    assert_eq!(pool.len(), 1);
    assert!(pool.update());
    assert!(!pool.update());
}

#[test]
fn full_terrain_shares_one_full_brick() {
    let mut pool = BrickPool::new();
    let heights = vec![8u32; HEIGHT_SAMPLES];
    let chunk = pool.gen_test_chunk(&heights);
    for s in 0..512 {
        let bottom = (s / 8) % 8 == 0;
        assert_eq!(chunk.bricks[s], if bottom { 1 } else { 0 });
    }
    assert!(chunk.brick_mask.iter().all(|&w| w == 0));
    assert_eq!(pool.len(), 2);
    let full = pool.as_slice()[1];
    assert!(full.voxels.iter().all(|&v| v == 1));
    assert!(full.occupancy_mask.iter().all(|&w| w == u32::MAX));
}

#[test]
fn generated_chunk_refers_to_its_bricks() {
    let mut pool = BrickPool::new();
    let heights: Vec<u32> = (0..HEIGHT_SAMPLES).map(|i| ((i % 64) + (i / 64) * 3) as u32 % 10).collect();
    let chunk = pool.gen_test_chunk(&heights);
    for bx in 0..8 {
        for bz in 0..8 {
            let index = chunk.bricks[bz * 64 + bx] as usize;
            assert_eq!(pool.as_slice()[index], expected_brick(&heights, bx, bz));
        }
    }
    // a second chunk with the same terrain adds no new brick
    let before = pool.len();
    let again = pool.gen_test_chunk(&heights);
    assert_eq!(pool.len(), before);
    assert_eq!(again.bricks, chunk.bricks);
}

#[test]
fn half_height_brick_occupancy() {
    let mut pool = BrickPool::new();
    let heights = vec![4u32; HEIGHT_SAMPLES];
    let chunk = pool.gen_test_chunk(&heights);
    let brick = pool.as_slice()[chunk.bricks[0] as usize];
    // y < 4 is solid: in each z layer of 64 voxels, the first 32 are solid
    for w in 0..16 {
        assert_eq!(brick.occupancy_mask[w], if w % 2 == 0 { u32::MAX } else { 0 });
    }
    assert_eq!(brick.voxels[3 * 8 + 5], 1);
    assert_eq!(brick.voxels[4 * 8 + 5], 0);
}


#[test]
fn pool_never_stores_a_brick_twice() {
    let mut pool = BrickPool::new();
    let heights: Vec<u32> = (0..HEIGHT_SAMPLES).map(|i| ((i / 8) % 5) as u32).collect();
    pool.gen_test_chunk(&heights);
    pool.gen_test_chunk(&heights);
    let bricks = pool.as_slice();
    assert!(bricks.len() > 1);
    for i in 0..bricks.len() {
        for j in 0..bricks.len() {
            if i != j {
                assert_ne!(bricks[i], bricks[j]);
            }
        }
    }
}
