use vstd::prelude::*;

use crate::util::IVec3;

verus! {

/// The loaded region of the world.
pub struct World;

impl World {
    /// Number of chunks loaded along each axis.
    #[verifier::allow_in_spec]
    pub fn world_size() -> IVec3
        returns
            (IVec3 { x: 8, y: 1, z: 8 }),
    {
        IVec3 { x: 8, y: 1, z: 8 }
    }

    /// Half of `world_size`, the offset that centres chunk coordinates.
    #[verifier::allow_in_spec]
    pub fn world_size_half() -> IVec3
        returns
            (IVec3 { x: 4, y: 1, z: 4 }),
    {
        IVec3 { x: 4, y: 1, z: 4 }
    }
}

} // verus!
