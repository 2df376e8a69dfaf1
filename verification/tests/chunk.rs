use micro_voxels::world::brick::Brick;
use micro_voxels::world::chunk::{Chunk, BRICKS_PER_CHUNK, BRICK_MASK_WORDS};

#[test]
fn empty_chunk_is_all_zero() {
    let c = Chunk::new_from_empty();
    assert!(c.bricks.iter().all(|&b| b == 0));
    assert!(c.brick_mask.iter().all(|&w| w == 0));
    assert_eq!(BRICKS_PER_CHUNK, 512);
    assert_eq!(BRICK_MASK_WORDS, 16);
}

#[test]
fn full_chunk_refers_to_brick_one() {
    let c = Chunk::new_from_full();
    assert!(c.bricks.iter().all(|&b| b == 1));
    assert!(c.brick_mask.iter().all(|&w| w == u32::MAX));
}

#[test]
fn rebuild_metadata_sets_bits_of_used_slots() {
    let mut c = Chunk::new_from_empty();
    c.bricks[0] = 5;
    c.bricks[33] = 2;
    c.bricks[511] = 9;
    c.brick_mask[3] = 0xdead_beef;
    c.rebuild_metadata();
    assert_eq!(c.brick_mask[0], 1);
    assert_eq!(c.brick_mask[1], 2);
    assert_eq!(c.brick_mask[3], 0);
    assert_eq!(c.brick_mask[15], 1 << 31);
    assert_eq!(c.bricks[33], 2);
}

#[test]
fn rebuild_metadata_of_full_chunk_keeps_full_mask() {
    let mut c = Chunk::new_from_full();
    c.rebuild_metadata();
    assert!(c.brick_mask.iter().all(|&w| w == u32::MAX));
}

#[test]
fn rebuild_metadata_twice_is_rebuild_once() {
    let mut c = Chunk::new_from_empty();
    for i in (0..512).step_by(7) {
        c.bricks[i] = i as u32;
    }
    c.rebuild_metadata();
    let once = c.brick_mask;
    c.rebuild_metadata();
    assert_eq!(once, c.brick_mask);
    // slot 0 holds brick index 0, the empty brick
    assert_eq!(c.brick_mask[0] & 1, 0);
    assert_eq!((c.brick_mask[0] >> 7) & 1, 1);
}

#[test]
fn empty_brick_index_is_zero() {
    assert_eq!(Brick::EMPTY, 0);
}
