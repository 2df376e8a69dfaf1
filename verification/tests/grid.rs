use micro_voxels::util::constants::{brick_size, chunk_size, world_size, world_size_half};
use micro_voxels::util::{flatten, IVec3, ResultExt, UVec3};
use micro_voxels::world::world::World;

#[test]
fn flatten_is_x_fastest_z_slowest() {
    let size = UVec3 { x: 8, y: 8, z: 8 };
    assert_eq!(flatten(0, 0, 0, size), 0);
    assert_eq!(flatten(1, 0, 0, size), 1);
    assert_eq!(flatten(0, 1, 0, size), 8);
    assert_eq!(flatten(0, 0, 1, size), 64);
    assert_eq!(flatten(1, 2, 3, size), 209);
    assert_eq!(flatten(7, 7, 7, size), 511);
}

#[test]
fn flatten_with_flat_world_size() {
    let size = world_size();
    assert_eq!(size, UVec3 { x: 8, y: 1, z: 8 });
    assert_eq!(flatten(3, 0, 5, size), 43);
    assert_eq!(flatten(7, 0, 7, size), 63);
}

#[test]
fn constant_sizes() {
    assert_eq!(chunk_size(), UVec3 { x: 8, y: 8, z: 8 });
    assert_eq!(brick_size(), UVec3 { x: 8, y: 8, z: 8 });
    assert_eq!(world_size_half(), UVec3 { x: 4, y: 1, z: 4 });
    assert_eq!(World::world_size(), IVec3 { x: 8, y: 1, z: 8 });
    assert_eq!(World::world_size_half(), IVec3 { x: 4, y: 1, z: 4 });
}

#[test]
fn unwrap_or_abort_gives_the_value() {
    let r: Result<u32, String> = Ok(7);
    assert_eq!(r.unwrap_or_abort("never"), 7);
}
