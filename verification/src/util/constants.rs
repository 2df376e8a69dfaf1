use vstd::prelude::*;

use crate::util::UVec3;

verus! {

/// How many chunks are loaded at a time, along each axis.
#[verifier::allow_in_spec]
pub fn world_size() -> UVec3
    returns
        (UVec3 { x: 8, y: 1, z: 8 }),
{
    UVec3 { x: 8, y: 1, z: 8 }
}

/// How many bricks are in a chunk, along each axis.
#[verifier::allow_in_spec]
pub fn chunk_size() -> UVec3
    returns
        (UVec3 { x: 8, y: 8, z: 8 }),
{
    UVec3 { x: 8, y: 8, z: 8 }
}

/// How many voxels are in a brick, along each axis.
#[verifier::allow_in_spec]
pub fn brick_size() -> UVec3
    returns
        (UVec3 { x: 8, y: 8, z: 8 }),
{
    UVec3 { x: 8, y: 8, z: 8 }
}

/// Half of the loaded world, used to centre chunk coordinates on the grid.
#[verifier::allow_in_spec]
pub fn world_size_half() -> UVec3
    returns
        (UVec3 { x: 4, y: 1, z: 4 }),
{
    UVec3 { x: 4, y: 1, z: 4 }
}

} // verus!
