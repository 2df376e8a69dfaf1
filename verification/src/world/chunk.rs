use vstd::prelude::*;

use crate::util::{
    lemma_bit_of_max, lemma_bit_of_or, lemma_bit_of_zero, lemma_word_from_bits, mask_bit, IVec3,
};
use crate::world::brick::Brick;

verus! {

/// Position of a chunk in chunk coordinates.
pub struct ChunkPos(pub IVec3);

/// Number of brick slots in a chunk (8 x 8 x 8).
pub const BRICKS_PER_CHUNK: usize = 512;

/// Number of 32-bit words in a chunk's brick mask.
pub const BRICK_MASK_WORDS: usize = 16;

/// A chunk: for each brick slot the index of its brick in the brick pool, and
/// a bitmask with one bit per slot telling whether the slot holds a brick.
#[derive(Clone, Copy, Debug)]
pub struct Chunk {
    pub bricks: [u32; BRICKS_PER_CHUNK],
    pub brick_mask: [u32; BRICK_MASK_WORDS],
}


impl Chunk {
    /// The brick mask has a set bit exactly for the slots that hold a brick
    /// other than the empty one.
    pub open spec fn mask_matches_bricks(self) -> bool {
        forall|slot: int|
            0 <= slot < BRICKS_PER_CHUNK ==> (#[trigger] mask_bit(self.brick_mask@, slot)
                <==> self.bricks@[slot] != Brick::EMPTY as u32)
    }

    /// A chunk whose every slot refers to brick 1, with every mask bit set.
    pub fn new_from_full() -> (r: Self)
        ensures
            forall|i: int| 0 <= i < BRICKS_PER_CHUNK ==> #[trigger] r.bricks@[i] == 1,
            forall|i: int| 0 <= i < BRICK_MASK_WORDS ==> #[trigger] r.brick_mask@[i] == u32::MAX,
            r.mask_matches_bricks(),
    {
        let r = Chunk { bricks: [1u32; BRICKS_PER_CHUNK], brick_mask: [u32::MAX; BRICK_MASK_WORDS] };
        proof {
            assert forall|s: int| 0 <= s < BRICKS_PER_CHUNK implies (#[trigger] mask_bit(
                r.brick_mask@,
                s,
            ) <==> r.bricks@[s] != Brick::EMPTY as u32) by {
                lemma_bit_of_max((s % 32) as u32);
            }
        }
        r
    }

    /// A chunk whose every slot refers to the empty brick, with an empty mask.
    pub fn new_from_empty() -> (r: Self)
        ensures
            forall|i: int| 0 <= i < BRICKS_PER_CHUNK ==> #[trigger] r.bricks@[i] == 0,
            forall|i: int| 0 <= i < BRICK_MASK_WORDS ==> #[trigger] r.brick_mask@[i] == 0,
            r.mask_matches_bricks(),
    {
        let r = Chunk { bricks: [0u32; BRICKS_PER_CHUNK], brick_mask: [0u32; BRICK_MASK_WORDS] };
        proof {
            assert forall|s: int| 0 <= s < BRICKS_PER_CHUNK implies (#[trigger] mask_bit(
                r.brick_mask@,
                s,
            ) <==> r.bricks@[s] != Brick::EMPTY as u32) by {
                lemma_bit_of_zero((s % 32) as u32);
            }
        }
        r
    }

    /// Recomputes the brick mask from the brick slots.
    pub fn rebuild_metadata(&mut self)
        ensures
            final(self).bricks@ == old(self).bricks@,
            final(self).mask_matches_bricks(),
            forall|s: int|
                0 <= s < BRICKS_PER_CHUNK ==> (#[trigger] mask_bit(final(self).brick_mask@, s)
                    <==> final(self).bricks@[s] != 0u32),
    {
        self.brick_mask = [0u32; BRICK_MASK_WORDS];
        proof {
            assert forall|s: int| 0 <= s < BRICKS_PER_CHUNK implies !#[trigger] mask_bit(
                self.brick_mask@,
                s,
            ) by {
                lemma_bit_of_zero((s % 32) as u32);
            }
        }
        let mut slot: usize = 0;
        while slot < BRICKS_PER_CHUNK
            invariant
                0 <= slot <= BRICKS_PER_CHUNK,
                self.bricks@ == old(self).bricks@,
                forall|s: int|
                    0 <= s < BRICKS_PER_CHUNK ==> (#[trigger] mask_bit(self.brick_mask@, s) <==> (s
                        < slot && self.bricks@[s] != 0)),
            decreases BRICKS_PER_CHUNK - slot,
        {
            if self.bricks[slot] != Brick::EMPTY as u32 {
                let w = slot / 32;
                let b = (slot % 32) as u32;
                let ghost old_mask = self.brick_mask@;
                self.brick_mask[w] = self.brick_mask[w] | (1u32 << b);
                proof {
                    assert forall|s: int| 0 <= s < BRICKS_PER_CHUNK implies (#[trigger] mask_bit(
                        self.brick_mask@,
                        s,
                    ) <==> (s < slot + 1 && self.bricks@[s] != 0)) by {
                        let c = (s % 32) as u32;
                        if s / 32 == w as int {
                            lemma_bit_of_or(old_mask[w as int], b, c);
                            assert(mask_bit(old_mask, s) <==> (s < slot && self.bricks@[s] != 0));
                        } else {
                            assert(self.brick_mask@[s / 32] == old_mask[s / 32]);
                            assert(mask_bit(old_mask, s) <==> (s < slot && self.bricks@[s] != 0));
                        }
                    }
                }
            }
            slot = slot + 1;
        }
    }
}

/// In a chunk with consistent metadata (as `rebuild_metadata` leaves it),
/// bit `s % 32` of mask word `s / 32` is set exactly when slot `s` refers to
/// a brick other than the empty brick 0, for every one of the 512 slots and
/// every 32-bit brick index.
pub proof fn law_mask_bit_set_iff_slot_not_empty(c: Chunk)
    requires
        c.mask_matches_bricks(),
    ensures
        forall|s: int|
            0 <= s < BRICKS_PER_CHUNK ==> (((c.brick_mask@[s / 32] >> ((s % 32) as u32)) & 1u32
                == 1u32) <==> #[trigger] c.bricks@[s] != 0u32),
{
    assert forall|s: int| 0 <= s < BRICKS_PER_CHUNK implies (((c.brick_mask@[s / 32] >> ((s
        % 32) as u32)) & 1u32 == 1u32) <==> #[trigger] c.bricks@[s] != 0u32) by {
        assert(mask_bit(c.brick_mask@, s) <==> c.bricks@[s] != Brick::EMPTY as u32);
    }
}

/// The brick mask is a function of the brick slots: two chunks with the same
/// slots and consistent masks have the same mask. In particular rebuilding
/// the metadata of a chunk whose mask is already consistent changes nothing,
/// and rebuilding twice is the same as rebuilding once.
pub proof fn law_mask_determined_by_bricks(a: Chunk, b: Chunk)
    requires
        a.bricks@ == b.bricks@,
        a.mask_matches_bricks(),
        b.mask_matches_bricks(),
    ensures
        a.brick_mask == b.brick_mask,
{
    assert forall|w: int| 0 <= w < BRICK_MASK_WORDS implies a.brick_mask@[w] == b.brick_mask@[w] by {
        let x = a.brick_mask@[w];
        let y = b.brick_mask@[w];
        assert forall|c: u32| c < 32 implies (x >> c) & 1u32 == (y >> c) & 1u32 by {
            let s = w * 32 + c;
            assert(s / 32 == w && s % 32 == c);
            assert(mask_bit(a.brick_mask@, s) == mask_bit(b.brick_mask@, s));
            assert((x >> c) & 1u32 == 0u32 || (x >> c) & 1u32 == 1u32) by (bit_vector);
            assert((y >> c) & 1u32 == 0u32 || (y >> c) & 1u32 == 1u32) by (bit_vector);
        }
        lemma_word_from_bits(x, y);
    }
    assert(a.brick_mask =~= b.brick_mask);
}

} // verus!
