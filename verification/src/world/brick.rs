use vstd::prelude::*;

verus! {

/// Number of voxels in a brick.
pub const VOXELS_PER_BRICK: usize = 512;

/// Number of 32-bit words in a brick's occupancy mask (two per z-layer).
pub const OCCUPANCY_WORDS: usize = 16;

/// An 8x8x8 block of voxels together with its occupancy bitmask.
#[derive(Clone, Copy, Debug)]
pub struct Brick {
    pub voxels: [u32; VOXELS_PER_BRICK],
    pub occupancy_mask: [u32; OCCUPANCY_WORDS],
}

impl Brick {
    /// Index of the brick slot that always holds the empty brick.
    pub const EMPTY: usize = 0;

    /// Whether every voxel and every mask word of the brick is zero.
    pub open spec fn is_zero(self) -> bool {
        &&& forall|i: int| 0 <= i < VOXELS_PER_BRICK ==> #[trigger] self.voxels@[i] == 0
        &&& forall|i: int| 0 <= i < OCCUPANCY_WORDS ==> #[trigger] self.occupancy_mask@[i] == 0
    }

    /// Two bricks are equal when their voxels and masks agree.
    pub open spec fn same_as(self, other: Brick) -> bool {
        self.voxels@ == other.voxels@ && self.occupancy_mask@ == other.occupancy_mask@
    }
}

impl Default for Brick {
    fn default() -> (r: Self)
        ensures
            r.is_zero(),
    {
        let voxels = [0u32; VOXELS_PER_BRICK];
        let occupancy_mask = [0u32; OCCUPANCY_WORDS];
        proof {
            vstd::array::axiom_spec_array_fill_for_copy_type::<u32, VOXELS_PER_BRICK>(0u32);
            vstd::array::axiom_spec_array_fill_for_copy_type::<u32, OCCUPANCY_WORDS>(0u32);
        }
        Brick { voxels, occupancy_mask }
    }
}

impl PartialEq for Brick {
    fn eq(&self, other: &Self) -> (r: bool) {
        let mut i: usize = 0;
        while i < VOXELS_PER_BRICK
            invariant
                0 <= i <= VOXELS_PER_BRICK,
                forall|j: int| 0 <= j < i ==> self.voxels@[j] == other.voxels@[j],
            decreases VOXELS_PER_BRICK - i,
        {
            if self.voxels[i] != other.voxels[i] {
                return false;
            }
            i = i + 1;
        }
        let mut k: usize = 0;
        while k < OCCUPANCY_WORDS
            invariant
                0 <= k <= OCCUPANCY_WORDS,
                forall|j: int| 0 <= j < k ==> self.occupancy_mask@[j] == other.occupancy_mask@[j],
            decreases OCCUPANCY_WORDS - k,
        {
            if self.occupancy_mask[k] != other.occupancy_mask[k] {
                return false;
            }
            k = k + 1;
        }
        assert(self.voxels@ =~= other.voxels@);
        assert(self.occupancy_mask@ =~= other.occupancy_mask@);
        true
    }
}

impl vstd::std_specs::cmp::PartialEqSpecImpl for Brick {
    open spec fn obeys_eq_spec() -> bool {
        true
    }

    open spec fn eq_spec(&self, other: &Brick) -> bool {
        self.same_as(*other)
    }
}

} // verus!
