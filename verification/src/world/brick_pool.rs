use vstd::prelude::*;

use crate::util::bit_set::{
    lemma_leading_ones_all_true, max_bits, word_bits_len, word_bits_words, WordBits,
};
use crate::util::constants::chunk_size;
use crate::util::{flat_index, flatten};
use crate::util::free_list::{
    first_match_at, lemma_least_match_exists, lemma_lookup_is_first, lemma_lookup_some,
    lemma_push_new_wf, lookup, matches_at, push_found, push_model, push_new, push_ok, FreeList,
    FreeListModel,
};
use crate::util::bit_set::lemma_leading_ones_bounded;
use crate::world::chunk::{Chunk, BRICKS_PER_CHUNK, BRICK_MASK_WORDS};
use crate::util::{lemma_bit_of_or, lemma_bit_of_zero, lemma_word_from_bits, mask_bit};
use crate::world::brick::{Brick, OCCUPANCY_WORDS, VOXELS_PER_BRICK};

verus! {

/// Number of terrain height samples for one chunk: one per voxel column,
/// 64 columns along x times 64 along z.
pub const HEIGHT_SAMPLES: usize = 4096;

/// The terrain height of the column under voxel `i` of brick `(bx, bz)`.
/// Voxel `i` sits at `x = i % 8`, `y = (i / 8) % 8`, `z = i / 64`; its column
/// is sample `(bz * 8 + z) * 64 + bx * 8 + x`.
pub open spec fn column_height(heights: Seq<u32>, bx: int, bz: int, i: int) -> int {
    heights[(bz * 8 + i / 64) * 64 + bx * 8 + i % 8] as int
}

/// Voxel `i` of brick `(bx, bz)` is solid when it lies below its column's height.
pub open spec fn voxel_filled(heights: Seq<u32>, bx: int, bz: int, i: int) -> bool {
    (i / 8) % 8 < column_height(heights, bx, bz, i)
}

/// `b` is the brick generated at `(bx, bz)`: each voxel is 1 when solid and
/// 0 otherwise, and occupancy bit `i` is set exactly for the solid voxels.
pub open spec fn is_generated_brick(b: Brick, heights: Seq<u32>, bx: int, bz: int) -> bool {
    forall|i: int|
        0 <= i < VOXELS_PER_BRICK ==> {
            &&& #[trigger] b.voxels@[i] == (if voxel_filled(heights, bx, bz, i) {
                1u32
            } else {
                0u32
            })
            &&& (mask_bit(b.occupancy_mask@, i) <==> voxel_filled(heights, bx, bz, i))
        }
}

/// Two bricks that satisfy `is_generated_brick` for the same place are equal.
pub proof fn lemma_generated_brick_unique(b1: Brick, b2: Brick, heights: Seq<u32>, bx: int, bz: int)
    requires
        is_generated_brick(b1, heights, bx, bz),
        is_generated_brick(b2, heights, bx, bz),
    ensures
        b1 == b2,
{
    assert(b1.voxels@ =~= b2.voxels@) by {
        assert forall|i: int| 0 <= i < VOXELS_PER_BRICK implies b1.voxels@[i] == b2.voxels@[i] by {
            assert(b1.voxels@[i] == b2.voxels@[i]);
        }
    }
    assert(b1.occupancy_mask@ =~= b2.occupancy_mask@) by {
        assert forall|w: int| 0 <= w < OCCUPANCY_WORDS implies b1.occupancy_mask@[w]
            == b2.occupancy_mask@[w] by {
            let x = b1.occupancy_mask@[w];
            let y = b2.occupancy_mask@[w];
            assert forall|c: u32| c < 32 implies (x >> c) & 1u32 == (y >> c) & 1u32 by {
                let i = w * 32 + c;
                assert(i / 32 == w && i % 32 == c);
                assert(0 <= i < VOXELS_PER_BRICK);
                assert(b1.voxels@[i] == b2.voxels@[i]);
                assert(mask_bit(b1.occupancy_mask@, i) == mask_bit(b2.occupancy_mask@, i));
                lemma_low_bit_is_bit(x, c);
                lemma_low_bit_is_bit(y, c);
            }
            lemma_word_from_bits(x, y);
        }
    }
    assert(b1.voxels =~= b2.voxels);
    assert(b1.occupancy_mask =~= b2.occupancy_mask);
}

proof fn lemma_low_bit_is_bit(x: u32, c: u32)
    ensures
        (x >> c) & 1u32 == 0u32 || (x >> c) & 1u32 == 1u32,
{
    assert((x >> c) & 1u32 == 0u32 || (x >> c) & 1u32 == 1u32) by (bit_vector);
}

/// Builds the brick at `(bx, bz)` of a chunk from the terrain heights.
fn generate_brick(heights: &Vec<u32>, bx: usize, bz: usize) -> (b: Brick)
    requires
        heights@.len() == HEIGHT_SAMPLES,
        bx < 8,
        bz < 8,
    ensures
        is_generated_brick(b, heights@, bx as int, bz as int),
{
    let mut voxels = [0u32; VOXELS_PER_BRICK];
    let mut occupancy = WordBits::zeroed(VOXELS_PER_BRICK);
    proof {
        assert forall|j: int| 0 <= j < VOXELS_PER_BRICK implies !#[trigger] mask_bit(
            word_bits_words(occupancy),
            j,
        ) by {
            lemma_bit_of_zero((j % 32) as u32);
        }
    }
    let mut i: usize = 0;
    while i < VOXELS_PER_BRICK
        invariant
            0 <= i <= VOXELS_PER_BRICK,
            heights@.len() == HEIGHT_SAMPLES,
            bx < 8,
            bz < 8,
            word_bits_len(occupancy) == VOXELS_PER_BRICK,
            word_bits_words(occupancy).len() == OCCUPANCY_WORDS,
            forall|j: int|
                0 <= j < VOXELS_PER_BRICK ==> #[trigger] voxels@[j] == (if j < i && voxel_filled(
                    heights@,
                    bx as int,
                    bz as int,
                    j,
                ) {
                    1u32
                } else {
                    0u32
                }),
            forall|j: int|
                0 <= j < VOXELS_PER_BRICK ==> (#[trigger] mask_bit(word_bits_words(occupancy), j)
                    <==> (j < i && voxel_filled(heights@, bx as int, bz as int, j))),
        decreases VOXELS_PER_BRICK - i,
    {
        let x = i % 8;
        let y = (i / 8) % 8;
        let z = i / 64;
        let world_x = bx * 8 + x;
        let world_z = bz * 8 + z;
        if (y as u32) < heights[world_z * 64 + world_x] {
            voxels[i] = 1;
            let ghost before = word_bits_words(occupancy);
            occupancy.set(i, true);
            proof {
                let w = i as int / 32;
                let b = (i % 32) as u32;
                assert forall|j: int| 0 <= j < VOXELS_PER_BRICK implies (#[trigger] mask_bit(
                    word_bits_words(occupancy),
                    j,
                ) <==> (j < i + 1 && voxel_filled(heights@, bx as int, bz as int, j))) by {
                    let c = (j % 32) as u32;
                    if j / 32 == w {
                        lemma_bit_of_or(before[w], b, c);
                        assert(mask_bit(before, j) <==> (j < i && voxel_filled(
                            heights@,
                            bx as int,
                            bz as int,
                            j,
                        )));
                    } else {
                        assert(word_bits_words(occupancy)[j / 32] == before[j / 32]);
                        assert(mask_bit(before, j) <==> (j < i && voxel_filled(
                            heights@,
                            bx as int,
                            bz as int,
                            j,
                        )));
                    }
                }
            }
        }
        i = i + 1;
    }
    let words = occupancy.raw_words();
    let mut occupancy_mask = [0u32; OCCUPANCY_WORDS];
    let mut k: usize = 0;
    while k < OCCUPANCY_WORDS
        invariant
            0 <= k <= OCCUPANCY_WORDS,
            words@.len() == OCCUPANCY_WORDS,
            forall|j: int| 0 <= j < k ==> #[trigger] occupancy_mask@[j] == words@[j],
        decreases OCCUPANCY_WORDS - k,
    {
        occupancy_mask[k] = words[k];
        k = k + 1;
    }
    assert(occupancy_mask@ =~= words@);
    Brick { voxels, occupancy_mask }
}

/// The value of voxel `i` of brick `(bx, bz)`: 1 when solid, 0 otherwise.
pub open spec fn voxel_value(heights: Seq<u32>, bx: int, bz: int, i: int) -> u32 {
    if voxel_filled(heights, bx, bz, i) {
        1u32
    } else {
        0u32
    }
}

/// The voxels of brick `(bx, bz)` with the first `n` filled in, the rest 0.
pub open spec fn voxel_array(heights: Seq<u32>, bx: int, bz: int, n: nat) -> [u32; VOXELS_PER_BRICK]
    decreases n,
{
    if n == 0 {
        vstd::array::spec_array_fill_for_copy_type::<u32, VOXELS_PER_BRICK>(0u32)
    } else {
        vstd::array::spec_array_update(
            voxel_array(heights, bx, bz, (n - 1) as nat),
            n - 1,
            voxel_value(heights, bx, bz, n - 1),
        )
    }
}

/// Occupancy word `w` of brick `(bx, bz)` with its low `c` bits filled in:
/// bit `b` is set when voxel `32 * w + b` is solid.
pub open spec fn mask_word(heights: Seq<u32>, bx: int, bz: int, w: int, c: nat) -> u32
    decreases c,
{
    if c == 0 {
        0u32
    } else {
        mask_word(heights, bx, bz, w, (c - 1) as nat) | if voxel_filled(
            heights,
            bx,
            bz,
            32 * w + c - 1,
        ) {
            1u32 << ((c - 1) as u32)
        } else {
            0u32
        }
    }
}

/// The occupancy words of brick `(bx, bz)` with the first `n` filled in.
pub open spec fn mask_array(heights: Seq<u32>, bx: int, bz: int, n: nat) -> [u32; OCCUPANCY_WORDS]
    decreases n,
{
    if n == 0 {
        vstd::array::spec_array_fill_for_copy_type::<u32, OCCUPANCY_WORDS>(0u32)
    } else {
        vstd::array::spec_array_update(
            mask_array(heights, bx, bz, (n - 1) as nat),
            n - 1,
            mask_word(heights, bx, bz, n - 1, 32),
        )
    }
}

/// The brick generated `k`-th by `gen_test_chunk`: bricks are generated for
/// `bx` in `0..8` and, within each, `bz` in `0..8`, so `bx = k / 8`, `bz = k % 8`.
pub open spec fn generated_brick(heights: Seq<u32>, k: int) -> Brick {
    Brick {
        voxels: voxel_array(heights, k / 8, k % 8, VOXELS_PER_BRICK as nat),
        occupancy_mask: mask_array(heights, k / 8, k % 8, OCCUPANCY_WORDS as nat),
    }
}

proof fn lemma_voxel_array(heights: Seq<u32>, bx: int, bz: int, n: nat)
    requires
        n <= VOXELS_PER_BRICK,
    ensures
        forall|i: int|
            0 <= i < VOXELS_PER_BRICK ==> #[trigger] voxel_array(heights, bx, bz, n)@[i] == if i < n {
                voxel_value(heights, bx, bz, i)
            } else {
                0u32
            },
    decreases n,
{
    broadcast use vstd::array::group_array_axioms;

    if n > 0 {
        lemma_voxel_array(heights, bx, bz, (n - 1) as nat);
        let prev = voxel_array(heights, bx, bz, (n - 1) as nat);
        assert(voxel_array(heights, bx, bz, n)@ == prev@.update(
            n - 1,
            voxel_value(heights, bx, bz, n - 1),
        ));
    } else {
        vstd::array::axiom_spec_array_fill_for_copy_type::<u32, VOXELS_PER_BRICK>(0u32);
    }
}

proof fn lemma_or_zero(x: u32)
    ensures
        x | 0u32 == x,
{
    assert(x | 0u32 == x) by (bit_vector);
}

proof fn lemma_mask_word(heights: Seq<u32>, bx: int, bz: int, w: int, c: nat)
    requires
        c <= 32,
    ensures
        forall|b: u32|
            b < 32 ==> ((#[trigger] (mask_word(heights, bx, bz, w, c) >> b) & 1u32 == 1u32) <==> (b < c
                && voxel_filled(heights, bx, bz, 32 * w + b))),
    decreases c,
{
    if c == 0 {
        assert forall|b: u32| b < 32 implies !((#[trigger] (mask_word(heights, bx, bz, w, c) >> b) & 1u32
            == 1u32)) by {
            lemma_bit_of_zero(b);
        }
    } else {
        lemma_mask_word(heights, bx, bz, w, (c - 1) as nat);
        let prev = mask_word(heights, bx, bz, w, (c - 1) as nat);
        let top = (c - 1) as u32;
        assert forall|b: u32| b < 32 implies ((#[trigger] (mask_word(heights, bx, bz, w, c) >> b) & 1u32
            == 1u32) <==> (b < c && voxel_filled(heights, bx, bz, 32 * w + b))) by {
            if voxel_filled(heights, bx, bz, 32 * w + c - 1) {
                lemma_bit_of_or(prev, top, b);
            } else {
                lemma_or_zero(prev);
            }
        }
    }
}

proof fn lemma_mask_array(heights: Seq<u32>, bx: int, bz: int, n: nat)
    requires
        n <= OCCUPANCY_WORDS,
    ensures
        forall|w: int|
            0 <= w < n ==> #[trigger] mask_array(heights, bx, bz, n)@[w] == mask_word(
                heights,
                bx,
                bz,
                w,
                32,
            ),
    decreases n,
{
    broadcast use vstd::array::group_array_axioms;

    if n > 0 {
        lemma_mask_array(heights, bx, bz, (n - 1) as nat);
        let prev = mask_array(heights, bx, bz, (n - 1) as nat);
        assert(mask_array(heights, bx, bz, n)@ == prev@.update(
            n - 1,
            mask_word(heights, bx, bz, n - 1, 32),
        ));
    }
}

/// The brick `generated_brick` names is the one generated at its place.
pub proof fn lemma_generated_brick_is_generated(heights: Seq<u32>, k: int)
    ensures
        is_generated_brick(generated_brick(heights, k), heights, k / 8, k % 8),
{
    let bx = k / 8;
    let bz = k % 8;
    let b = generated_brick(heights, k);
    lemma_voxel_array(heights, bx, bz, VOXELS_PER_BRICK as nat);
    lemma_mask_array(heights, bx, bz, OCCUPANCY_WORDS as nat);
    assert forall|i: int| 0 <= i < VOXELS_PER_BRICK implies {
        &&& #[trigger] b.voxels@[i] == (if voxel_filled(heights, bx, bz, i) {
            1u32
        } else {
            0u32
        })
        &&& (mask_bit(b.occupancy_mask@, i) <==> voxel_filled(heights, bx, bz, i))
    } by {
        let w = i / 32;
        let c = (i % 32) as u32;
        assert(b.occupancy_mask@[w] == mask_word(heights, bx, bz, w, 32));
        lemma_mask_word(heights, bx, bz, w, 32);
        assert(32 * w + c == i);
        assert(((mask_word(heights, bx, bz, w, 32) >> c) & 1u32 == 1u32) <==> voxel_filled(
            heights,
            bx,
            bz,
            32 * w + c,
        ));
    }
}

/// In every generated brick the occupancy bit of a voxel is set exactly when
/// the voxel is non-zero (bits and voxels share the x-fastest order).
pub proof fn law_generated_occupancy_matches_voxels(heights: Seq<u32>, k: int)
    ensures
        forall|i: int|
            0 <= i < VOXELS_PER_BRICK ==> (mask_bit(generated_brick(heights, k).occupancy_mask@, i)
                <==> #[trigger] generated_brick(heights, k).voxels@[i] != 0),
{
    lemma_generated_brick_is_generated(heights, k);
}

/// A brick whose columns all have height 0 is the empty brick.
pub proof fn law_bare_ground_is_empty_brick(heights: Seq<u32>, k: int)
    requires
        forall|i: int|
            0 <= i < VOXELS_PER_BRICK ==> #[trigger] column_height(heights, k / 8, k % 8, i) == 0,
    ensures
        generated_brick(heights, k).is_zero(),
{
    lemma_generated_brick_is_generated(heights, k);
    let b = generated_brick(heights, k);
    assert forall|i: int| 0 <= i < VOXELS_PER_BRICK implies #[trigger] b.voxels@[i] == 0 by {
        assert(column_height(heights, k / 8, k % 8, i) == 0);
    }
    assert forall|w: int| 0 <= w < OCCUPANCY_WORDS implies #[trigger] b.occupancy_mask@[w] == 0 by {
        let x = b.occupancy_mask@[w];
        assert forall|c: u32| c < 32 implies (x >> c) & 1u32 == (0u32 >> c) & 1u32 by {
            let i = w * 32 + c;
            assert(i / 32 == w && i % 32 == c);
            assert(0 <= i < VOXELS_PER_BRICK);
            assert(column_height(heights, k / 8, k % 8, i) == 0);
            assert(b.voxels@[i] == 0u32);
            lemma_low_bit_is_bit(x, c);
            lemma_bit_of_zero(c);
            assert((0u32 >> c) & 1u32 == 0u32) by (bit_vector);
        }
        lemma_word_from_bits(x, 0u32);
    }
}

/// The free list after pushing the first `k` generated bricks into `m`, and
/// the slot indices those pushes returned, in order.
pub open spec fn push_generated(m: FreeListModel<Brick>, heights: Seq<u32>, k: nat) -> (
    FreeListModel<Brick>,
    Seq<int>,
)
    decreases k,
{
    if k == 0 {
        (m, Seq::<int>::empty())
    } else {
        let (before, ids) = push_generated(m, heights, (k - 1) as nat);
        let (after, id) = push_model(before, generated_brick(heights, k - 1));
        (after, ids.push(id))
    }
}

/// The generation order of the brick in chunk slot `s`: slot
/// `s = bz * 64 + by * 8 + bx` holds brick `bx * 8 + bz`.
pub open spec fn generation_order(s: int) -> int {
    (s % 8) * 8 + s / 64
}

/// Slot `s` lies in the bottom layer of bricks (`by == 0`), the only layer
/// `gen_test_chunk` fills.
pub open spec fn in_bottom_layer(s: int) -> bool {
    (s / 8) % 8 == 0
}

/// `c` is the chunk `gen_test_chunk` returns when it starts from the free
/// list `m`: each bottom-layer slot holds the index that the push of its
/// brick returned (as a `u32`), every other slot the empty brick, and the
/// brick mask is clear.
pub open spec fn is_generated_chunk(c: Chunk, m: FreeListModel<Brick>, heights: Seq<u32>) -> bool {
    &&& forall|s: int|
        0 <= s < BRICKS_PER_CHUNK ==> #[trigger] c.bricks@[s] == if in_bottom_layer(s) {
            push_generated(m, heights, 64).1[generation_order(s)] as u32
        } else {
            0u32
        }
    &&& forall|w: int| 0 <= w < BRICK_MASK_WORDS ==> #[trigger] c.brick_mask@[w] == 0
}

/// The free list of a brick pool: every slot in use and counted, new bricks
/// appended after the last slot, slot 0 holding the empty brick, and no
/// brick stored twice.
pub open spec fn pool_shape(m: FreeListModel<Brick>) -> bool {
    &&& m.wf()
    &&& m.slots.len() >= 1
    &&& m.next == m.slots.len()
    &&& m.greatest == m.slots.len() - 1
    &&& forall|i: int| 0 <= i < m.reserved.len() ==> #[trigger] m.reserved[i]
    &&& m.slots[0].is_zero()
    &&& forall|i: int, j: int|
        0 <= i < m.slots.len() && 0 <= j < m.slots.len() && i != j ==> #[trigger] m.slots[i]
            != #[trigger] m.slots[j]
}

/// How many of the first `n` generated bricks equal `b`.
pub open spec fn times_generated(heights: Seq<u32>, b: Brick, n: nat) -> nat
    decreases n,
{
    if n == 0 {
        0
    } else {
        times_generated(heights, b, (n - 1) as nat) + if generated_brick(heights, n - 1) == b {
            1nat
        } else {
            0nat
        }
    }
}

proof fn lemma_times_generated_bounds(heights: Seq<u32>, b: Brick, n: nat, m: nat)
    requires
        n <= m,
    ensures
        times_generated(heights, b, n) <= times_generated(heights, b, m),
        times_generated(heights, b, n) <= n,
    decreases m,
{
    if n < m {
        lemma_times_generated_bounds(heights, b, n, (m - 1) as nat);
    } else if n > 0 {
        lemma_times_generated_bounds(heights, b, (n - 1) as nat, (n - 1) as nat);
    }
}

proof fn lemma_times_generated_zero(heights: Seq<u32>, b: Brick, n: nat)
    requires
        forall|k: int| 0 <= k < n ==> #[trigger] generated_brick(heights, k) != b,
    ensures
        times_generated(heights, b, n) == 0,
    decreases n,
{
    if n > 0 {
        lemma_times_generated_zero(heights, b, (n - 1) as nat);
    }
}

proof fn lemma_push_model_grows<T: PartialEq>(m: FreeListModel<T>, d: T)
    requires
        m.next >= 0,
    ensures
        push_model(m, d).0.slots.len() >= m.slots.len(),
        push_model(m, d).0.next >= 0,
{
    match lookup(m, d) {
        Some(i) => {},
        None => {
            lemma_leading_ones_bounded(push_new(m, d).0.reserved);
            if m.next < m.slots.len() {
                assert(push_new(m, d).0.slots.len() == m.slots.len());
            } else {
                assert(push_new(m, d).0.slots.len() == m.slots.len() + 1);
            }
        },
    }
}

proof fn lemma_push_generated_next(m: FreeListModel<Brick>, heights: Seq<u32>, k: nat)
    requires
        m.next >= 0,
    ensures
        push_generated(m, heights, k).0.next >= 0,
    decreases k,
{
    if k > 0 {
        lemma_push_generated_next(m, heights, (k - 1) as nat);
        lemma_push_model_grows(
            push_generated(m, heights, (k - 1) as nat).0,
            generated_brick(heights, k - 1),
        );
    }
}

proof fn lemma_push_generated_grows(m: FreeListModel<Brick>, heights: Seq<u32>, k: nat, k2: nat)
    requires
        k <= k2,
        m.next >= 0,
    ensures
        push_generated(m, heights, k).0.slots.len() <= push_generated(m, heights, k2).0.slots.len(),
    decreases k2,
{
    if k < k2 {
        lemma_push_generated_grows(m, heights, k, (k2 - 1) as nat);
        lemma_push_generated_next(m, heights, (k2 - 1) as nat);
        lemma_push_model_grows(
            push_generated(m, heights, (k2 - 1) as nat).0,
            generated_brick(heights, k2 - 1),
        );
    }
}

proof fn lemma_push_generated_len(m: FreeListModel<Brick>, heights: Seq<u32>, k: nat)
    ensures
        push_generated(m, heights, k).1.len() == k,
    decreases k,
{
    if k > 0 {
        lemma_push_generated_len(m, heights, (k - 1) as nat);
    }
}

proof fn lemma_slot_decomposition(s: int)
    requires
        0 <= s < BRICKS_PER_CHUNK,
    ensures
        s == (s / 64) * 64 + ((s / 8) % 8) * 8 + s % 8,
        0 <= s % 8 < 8,
        0 <= s / 64 < 8,
        0 <= generation_order(s) < 64,
{
}

proof fn lemma_same_brick_is_equal(a: Brick, b: Brick)
    requires
        a.same_as(b),
    ensures
        a == b,
{
    assert(a.voxels =~= b.voxels);
    assert(a.occupancy_mask =~= b.occupancy_mask);
}

/// What a push does to a pool-shaped free list: a brick already stored
/// gains a reference in its slot; any other brick is appended.
proof fn lemma_push_structure(m: FreeListModel<Brick>, d: Brick)
    requires
        pool_shape(m),
    ensures
        (exists|i: int| 0 <= i < m.slots.len() && #[trigger] m.slots[i] == d) ==> {
            &&& lookup(m, d) is Some
            &&& 0 <= lookup(m, d)->0 < m.slots.len()
            &&& m.slots[lookup(m, d)->0] == d
            &&& push_model(m, d) == push_found(m, lookup(m, d)->0)
        },
        !(exists|i: int| 0 <= i < m.slots.len() && #[trigger] m.slots[i] == d) ==> {
            &&& lookup(m, d) is None
            &&& push_model(m, d).1 == m.slots.len()
            &&& push_model(m, d).0.slots == m.slots.push(d)
            &&& push_model(m, d).0.rc == m.rc.push(1u32)
            &&& push_model(m, d).0.reserved == m.reserved.push(true)
        },
{
    if exists|i: int| 0 <= i < m.slots.len() && #[trigger] m.slots[i] == d {
        let i = choose|i: int| 0 <= i < m.slots.len() && #[trigger] m.slots[i] == d;
        assert(matches_at(m, d, i));
        lemma_least_match_exists(m, d, i);
        lemma_lookup_some(m, d);
        lemma_same_brick_is_equal(m.slots[lookup(m, d)->0], d);
    } else {
        if lookup(m, d) is Some {
            lemma_lookup_some(m, d);
            let k = lookup(m, d)->0;
            lemma_same_brick_is_equal(m.slots[k], d);
            assert(m.slots[k] == d);
        }
    }
}

/// Pushing into a pool-shaped free list keeps its shape, and the push does
/// not panic when the count it bumps has room and, for a new brick, the bits
/// have room for one more.
proof fn lemma_push_keeps_shape(m: FreeListModel<Brick>, d: Brick)
    requires
        pool_shape(m),
        forall|i: int| 0 <= i < m.slots.len() && #[trigger] m.slots[i] == d ==> m.rc[i] < u32::MAX,
        (forall|i: int| 0 <= i < m.slots.len() ==> #[trigger] m.slots[i] != d) ==> m.slots.len()
            < max_bits(),
    ensures
        push_ok(m, d),
        pool_shape(push_model(m, d).0),
        0 <= push_model(m, d).1 < push_model(m, d).0.slots.len(),
        push_model(m, d).0.slots[push_model(m, d).1] == d,
        push_model(m, d).0.slots.subrange(0, m.slots.len() as int) == m.slots,
{
    lemma_push_structure(m, d);
    let (m1, r) = push_model(m, d);
    if exists|i: int| 0 <= i < m.slots.len() && #[trigger] m.slots[i] == d {
        let i = lookup(m, d)->0;
        assert(m.reserved[i]);
        assert(m.slots.subrange(0, m.slots.len() as int) =~= m.slots);
        assert forall|j: int| 0 <= j < m1.slots.len() implies (#[trigger] m1.reserved[j] <==> m1.rc[j]
            > 0) by {
            assert(m.reserved[j] <==> m.rc[j] > 0);
        }
    } else {
        lemma_leading_ones_bounded(m.reserved);
        lemma_push_new_wf(m, d);
        assert forall|i: int| 0 <= i < m1.reserved.len() implies #[trigger] m1.reserved[i] by {
            if i < m.reserved.len() {
                assert(m1.reserved[i] == m.reserved[i]);
            }
        }
        lemma_leading_ones_all_true(m1.reserved);
        assert(m1.slots.subrange(0, m.slots.len() as int) =~= m.slots);
        assert forall|i: int, j: int|
            0 <= i < m1.slots.len() && 0 <= j < m1.slots.len() && i != j implies #[trigger] m1.slots[i]
            != #[trigger] m1.slots[j] by {
            if i < m.slots.len() && j < m.slots.len() {
                assert(m1.slots[i] == m.slots[i] && m1.slots[j] == m.slots[j]);
            } else if i < m.slots.len() {
                assert(m1.slots[i] == m.slots[i]);
            } else {
                assert(m1.slots[j] == m.slots[j]);
            }
        }
    }
}

/// The state of `gen_test_chunk` after it has generated and pushed its first
/// `k` bricks, starting from the free list `m0`: the pool is those pushes'
/// result and keeps its shape and its first slots; each count is its
/// starting count plus how often the brick was generated; the chunk holds the
/// returned indices of the bricks pushed so far; and each of those indices
/// names a slot holding its brick.
pub open spec fn generation_progress(
    m0: FreeListModel<Brick>,
    heights: Seq<u32>,
    k: nat,
    pool: FreeListModel<Brick>,
    chunk: Chunk,
) -> bool {
    &&& pool_shape(pool)
    &&& pool == push_generated(m0, heights, k).0
    &&& m0.slots.len() <= pool.slots.len() <= m0.slots.len() + k
    &&& pool.slots.subrange(0, m0.slots.len() as int) == m0.slots
    &&& forall|i: int|
        0 <= i < pool.slots.len() ==> #[trigger] pool.rc[i] == (if i < m0.slots.len() {
            m0.rc[i] as int
        } else {
            0
        }) + times_generated(heights, pool.slots[i], k)
    &&& forall|s: int|
        0 <= s < BRICKS_PER_CHUNK ==> #[trigger] chunk.bricks@[s] == if in_bottom_layer(s)
            && generation_order(s) < k {
            push_generated(m0, heights, k).1[generation_order(s)] as u32
        } else {
            0u32
        }
    &&& forall|w: int| 0 <= w < BRICK_MASK_WORDS ==> #[trigger] chunk.brick_mask@[w] == 0
    &&& forall|j: int|
        0 <= j < k ==> {
            let id = #[trigger] push_generated(m0, heights, k).1[j];
            &&& 0 <= id < pool.slots.len()
            &&& pool.slots[id] == generated_brick(heights, j)
        }
}

/// Before the `k`-th push of `gen_test_chunk`, the push is allowed.
proof fn lemma_generation_push_allowed(
    m0: FreeListModel<Brick>,
    heights: Seq<u32>,
    k: nat,
    pool: FreeListModel<Brick>,
)
    requires
        pool_shape(m0),
        k < 64,
        pool_shape(pool),
        pool == push_generated(m0, heights, k).0,
        m0.slots.len() <= pool.slots.len(),
        pool.slots.subrange(0, m0.slots.len() as int) == m0.slots,
        forall|i: int|
            0 <= i < pool.slots.len() ==> #[trigger] pool.rc[i] == (if i < m0.slots.len() {
                m0.rc[i] as int
            } else {
                0
            }) + times_generated(heights, pool.slots[i], k),
        pool.slots.len() <= m0.slots.len() + k,
        push_generated(m0, heights, 64).0.slots.len() <= max_bits(),
        forall|i: int|
            0 <= i < m0.slots.len() ==> #[trigger] m0.rc[i] + times_generated(heights, m0.slots[i], 64)
                <= u32::MAX,
    ensures
        forall|i: int|
            0 <= i < pool.slots.len() && #[trigger] pool.slots[i] == generated_brick(heights, k as int)
                ==> pool.rc[i] < u32::MAX,
        (forall|i: int| 0 <= i < pool.slots.len() ==> #[trigger] pool.slots[i] != generated_brick(
            heights,
            k as int,
        )) ==> pool.slots.len() < max_bits(),
{
    let d = generated_brick(heights, k as int);
    assert forall|i: int| 0 <= i < pool.slots.len() && #[trigger] pool.slots[i] == d implies pool.rc[i]
        < u32::MAX by {
        lemma_times_generated_bounds(heights, d, k, (k + 1) as nat);
        lemma_times_generated_bounds(heights, d, (k + 1) as nat, 64);
        assert(times_generated(heights, d, (k + 1) as nat) == times_generated(heights, d, k) + 1);
        if i < m0.slots.len() {
            assert(pool.slots[i] == m0.slots[i]);
        }
    }
    if forall|i: int| 0 <= i < pool.slots.len() ==> #[trigger] pool.slots[i] != d {
        lemma_push_structure(pool, d);
        assert(push_generated(m0, heights, (k + 1) as nat).0 == push_model(pool, d).0);
        lemma_push_generated_grows(m0, heights, (k + 1) as nat, 64);
    }
}

/// The `k`-th push of `gen_test_chunk` moves its progress from `k` to `k + 1`
/// for the pool part (counts, prefix, indices).
proof fn lemma_generation_step(
    m0: FreeListModel<Brick>,
    heights: Seq<u32>,
    k: nat,
    pool: FreeListModel<Brick>,
)
    requires
        k < 64,
        pool_shape(pool),
        pool == push_generated(m0, heights, k).0,
        m0.slots.len() <= pool.slots.len() <= m0.slots.len() + k,
        pool.slots.subrange(0, m0.slots.len() as int) == m0.slots,
        forall|i: int|
            0 <= i < pool.slots.len() ==> #[trigger] pool.rc[i] == (if i < m0.slots.len() {
                m0.rc[i] as int
            } else {
                0
            }) + times_generated(heights, pool.slots[i], k),
        forall|j: int|
            0 <= j < k ==> {
                let id = #[trigger] push_generated(m0, heights, k).1[j];
                &&& 0 <= id < pool.slots.len()
                &&& pool.slots[id] == generated_brick(heights, j)
            },
        forall|i: int|
            0 <= i < pool.slots.len() && #[trigger] pool.slots[i] == generated_brick(heights, k as int)
                ==> pool.rc[i] < u32::MAX,
        (forall|i: int| 0 <= i < pool.slots.len() ==> #[trigger] pool.slots[i] != generated_brick(
            heights,
            k as int,
        )) ==> pool.slots.len() < max_bits(),
    ensures
        ({
            let next = push_generated(m0, heights, (k + 1) as nat).0;
            &&& pool_shape(next)
            &&& m0.slots.len() <= next.slots.len() <= m0.slots.len() + k + 1
            &&& next.slots.subrange(0, m0.slots.len() as int) == m0.slots
            &&& forall|i: int|
                0 <= i < next.slots.len() ==> #[trigger] next.rc[i] == (if i < m0.slots.len() {
                    m0.rc[i] as int
                } else {
                    0
                }) + times_generated(heights, next.slots[i], (k + 1) as nat)
            &&& forall|j: int|
                0 <= j < k + 1 ==> {
                    let id = #[trigger] push_generated(m0, heights, (k + 1) as nat).1[j];
                    &&& 0 <= id < next.slots.len()
                    &&& next.slots[id] == generated_brick(heights, j)
                }
        }),
{
    let d = generated_brick(heights, k as int);
    lemma_push_structure(pool, d);
    lemma_push_keeps_shape(pool, d);
    lemma_push_generated_len(m0, heights, k);
    let (next, r) = push_model(pool, d);
    assert(push_generated(m0, heights, (k + 1) as nat) == (next, push_generated(
        m0,
        heights,
        k,
    ).1.push(r)));
    let ids = push_generated(m0, heights, k).1;
    assert(next.slots.subrange(0, m0.slots.len() as int) =~= m0.slots) by {
        assert forall|i: int| 0 <= i < m0.slots.len() implies next.slots[i] == m0.slots[i] by {
            assert(next.slots.subrange(0, pool.slots.len() as int)[i] == pool.slots[i]);
            assert(pool.slots.subrange(0, m0.slots.len() as int)[i] == m0.slots[i]);
        }
    }
    if exists|i: int| 0 <= i < pool.slots.len() && #[trigger] pool.slots[i] == d {
        assert forall|i: int| 0 <= i < next.slots.len() implies #[trigger] next.rc[i] == (if i
            < m0.slots.len() {
            m0.rc[i] as int
        } else {
            0
        }) + times_generated(heights, next.slots[i], (k + 1) as nat) by {
            if i != r {
                assert(pool.slots[i] != pool.slots[r]);
            }
        }
    } else {
        assert forall|j: int| 0 <= j < k implies #[trigger] generated_brick(heights, j) != d by {
            let id = ids[j];
            assert(pool.slots[id] == generated_brick(heights, j));
        }
        lemma_times_generated_zero(heights, d, k);
        assert forall|i: int| 0 <= i < next.slots.len() implies #[trigger] next.rc[i] == (if i
            < m0.slots.len() {
            m0.rc[i] as int
        } else {
            0
        }) + times_generated(heights, next.slots[i], (k + 1) as nat) by {
            if i < pool.slots.len() {
                assert(next.slots[i] == pool.slots[i]);
                assert(pool.slots[i] != d);
            }
        }
    }
    assert forall|j: int| 0 <= j < k + 1 implies {
        let id = #[trigger] push_generated(m0, heights, (k + 1) as nat).1[j];
        &&& 0 <= id < next.slots.len()
        &&& next.slots[id] == generated_brick(heights, j)
    } by {
        if j < k {
            assert(push_generated(m0, heights, (k + 1) as nat).1[j] == ids[j]);
            assert(next.slots.subrange(0, pool.slots.len() as int)[ids[j]] == pool.slots[ids[j]]);
        }
    }
}

/// The pool part of `generation_progress` after the first `k` pushes of
/// `gen_test_chunk`, when its preconditions hold.
proof fn lemma_generation_pool(m0: FreeListModel<Brick>, heights: Seq<u32>, k: nat)
    requires
        k <= 64,
        pool_shape(m0),
        push_generated(m0, heights, 64).0.slots.len() <= max_bits(),
        forall|i: int|
            0 <= i < m0.slots.len() ==> #[trigger] m0.rc[i] + times_generated(heights, m0.slots[i], 64)
                <= u32::MAX,
    ensures
        ({
            let pool = push_generated(m0, heights, k).0;
            &&& pool_shape(pool)
            &&& m0.slots.len() <= pool.slots.len() <= m0.slots.len() + k
            &&& pool.slots.subrange(0, m0.slots.len() as int) == m0.slots
            &&& forall|i: int|
                0 <= i < pool.slots.len() ==> #[trigger] pool.rc[i] == (if i < m0.slots.len() {
                    m0.rc[i] as int
                } else {
                    0
                }) + times_generated(heights, pool.slots[i], k)
            &&& forall|j: int|
                0 <= j < k ==> {
                    let id = #[trigger] push_generated(m0, heights, k).1[j];
                    &&& 0 <= id < pool.slots.len()
                    &&& pool.slots[id] == generated_brick(heights, j)
                }
        }),
    decreases k,
{
    if k == 0 {
        assert(m0.slots.subrange(0, m0.slots.len() as int) =~= m0.slots);
    } else {
        let k1 = (k - 1) as nat;
        lemma_generation_pool(m0, heights, k1);
        let pool = push_generated(m0, heights, k1).0;
        lemma_generation_push_allowed(m0, heights, k1, pool);
        lemma_generation_step(m0, heights, k1, pool);
    }
}

/// Every bottom-layer slot of a chunk built by `gen_test_chunk` names the
/// pool slot that holds the brick generated for it: slot `bz * 64 + bx`
/// holds an index into the pool after the call, and the brick stored there is
/// the one generated at `(bx, bz)`. (Indices are stored as `u32`, so this
/// holds while the pool has at most 2^32 slots.)
pub proof fn law_generated_chunk_refers_to_its_bricks(
    c: Chunk,
    m: FreeListModel<Brick>,
    heights: Seq<u32>,
    bx: int,
    bz: int,
)
    requires
        pool_shape(m),
        push_generated(m, heights, 64).0.slots.len() <= max_bits(),
        forall|i: int|
            0 <= i < m.slots.len() ==> #[trigger] m.rc[i] + times_generated(heights, m.slots[i], 64)
                <= u32::MAX,
        push_generated(m, heights, 64).0.slots.len() <= u32::MAX as int + 1,
        is_generated_chunk(c, m, heights),
        0 <= bx < 8,
        0 <= bz < 8,
    ensures
        c.bricks@[bz * 64 + bx] < push_generated(m, heights, 64).0.slots.len(),
        push_generated(m, heights, 64).0.slots[c.bricks@[bz * 64 + bx] as int] == generated_brick(
            heights,
            bx * 8 + bz,
        ),
{
    lemma_generation_pool(m, heights, 64);
    let s = bz * 64 + bx;
    assert(s / 8 == bz * 8 && s % 8 == bx && s / 64 == bz);
    assert(in_bottom_layer(s));
    assert(generation_order(s) == bx * 8 + bz);
    let id = push_generated(m, heights, 64).1[bx * 8 + bz];
    assert(0 <= id < push_generated(m, heights, 64).0.slots.len());
    assert(c.bricks@[s] == id as u32);
    assert(c.bricks@[s] == id);
}

/// The bricks of the world, deduplicated and reference counted, ready to be
/// uploaded to the GPU.
pub struct BrickPool {
    pool: FreeList<Brick>,
    is_dirty: bool,
}

impl BrickPool {
    /// The free list holding the bricks.
    pub closed spec fn bricks(&self) -> FreeListModel<Brick> {
        self.pool@
    }

    /// Whether bricks changed since the last `update`.
    pub closed spec fn dirty(&self) -> bool {
        self.is_dirty
    }

    /// The shape every brick pool keeps.
    pub open spec fn wf(&self) -> bool {
        pool_shape(self.bricks())
    }

    /// A pool holding only the empty brick, in slot 0.
    pub fn new() -> (r: Self)
        ensures
            r.wf(),
            r.bricks().slots.len() == 1,
            r.bricks().rc == seq![1u32],
            !r.dirty(),
    {
        let mut pool: FreeList<Brick> = FreeList::default();
        let empty = Brick::default();
        proof {
            assert(push_ok(pool@, empty));
            assert(pool@.reserved.insert(0, true) =~= seq![true]);
            lemma_leading_ones_all_true(seq![true]);
        }
        pool.push(empty);
        proof {
            assert(pool@.rc =~= seq![1u32]);
        }
        BrickPool { pool, is_dirty: false }
    }

    /// Generates the bottom layer of bricks of a test chunk from terrain
    /// heights (one per voxel column, `HEIGHT_SAMPLES` of them, column
    /// `(x, z)` at `z * 64 + x`), stores each brick in the pool and returns the
    /// chunk referring to them. Every other brick slot of the chunk is the
    /// empty brick, and the chunk's brick mask is left clear.
    pub fn gen_test_chunk(&mut self, heights: &Vec<u32>) -> (chunk: Chunk)
        requires
            old(self).wf(),
            heights@.len() == HEIGHT_SAMPLES,
            push_generated(old(self).bricks(), heights@, 64).0.slots.len() <= max_bits(),
            forall|i: int|
                0 <= i < old(self).bricks().slots.len() ==> #[trigger] old(self).bricks().rc[i]
                    + times_generated(heights@, old(self).bricks().slots[i], 64) <= u32::MAX,
        ensures
            final(self).wf(),
            final(self).dirty(),
            final(self).bricks() == push_generated(old(self).bricks(), heights@, 64).0,
            is_generated_chunk(chunk, old(self).bricks(), heights@),
            forall|k: int|
                0 <= k < 64 ==> {
                    let id = #[trigger] push_generated(old(self).bricks(), heights@, 64).1[k];
                    &&& 0 <= id < final(self).bricks().slots.len()
                    &&& final(self).bricks().slots[id] == generated_brick(heights@, k)
                },
            final(self).bricks().slots.subrange(0, old(self).bricks().slots.len() as int) == old(
                self,
            ).bricks().slots,
            old(self).bricks().slots.len() <= final(self).bricks().slots.len()
                <= old(self).bricks().slots.len() + 64,
            final(self).bricks().slots.len() <= u32::MAX as int + 1 ==> forall|bx: int, bz: int|
                0 <= bx < 8 && 0 <= bz < 8 ==> {
                    let id = #[trigger] chunk.bricks@[bz * 64 + bx];
                    &&& id < final(self).bricks().slots.len()
                    &&& final(self).bricks().slots[id as int] == generated_brick(heights@, bx * 8 + bz)
                },
            forall|i: int|
                0 <= i < final(self).bricks().slots.len() ==> #[trigger] final(self).bricks().rc[i]
                    == (if i < old(self).bricks().slots.len() {
                    old(self).bricks().rc[i] as int
                } else {
                    0
                }) + times_generated(heights@, final(self).bricks().slots[i], 64),
    {
        let ghost m0 = self.pool@;
        let ghost hs = heights@;
        let mut chunk = Chunk::new_from_empty();
        proof {
            assert(self.pool@.slots.subrange(0, m0.slots.len() as int) =~= m0.slots);
            assert forall|i: int| 0 <= i < self.pool@.slots.len() implies #[trigger] self.pool@.rc[i]
                == (if i < m0.slots.len() {
                m0.rc[i] as int
            } else {
                0
            }) + times_generated(hs, self.pool@.slots[i], 0) by {}
            assert forall|s: int| 0 <= s < BRICKS_PER_CHUNK implies #[trigger] chunk.bricks@[s] == if in_bottom_layer(s)
                && generation_order(s) < 0 {
                push_generated(m0, hs, 0).1[generation_order(s)] as u32
            } else {
                0u32
            } by {}
        }
        let mut bx: usize = 0;
        while bx < 8
            invariant
                0 <= bx <= 8,
                hs == heights@,
                hs.len() == HEIGHT_SAMPLES,
                pool_shape(m0),
                push_generated(m0, hs, 64).0.slots.len() <= max_bits(),
                forall|i: int|
                    0 <= i < m0.slots.len() ==> #[trigger] m0.rc[i] + times_generated(
                        hs,
                        m0.slots[i],
                        64,
                    ) <= u32::MAX,
                generation_progress(m0, hs, (bx * 8) as nat, self.pool@, chunk),
            decreases 8 - bx,
        {
            let mut bz: usize = 0;
            while bz < 8
                invariant
                    0 <= bx < 8,
                    0 <= bz <= 8,
                    hs == heights@,
                    hs.len() == HEIGHT_SAMPLES,
                    pool_shape(m0),
                    push_generated(m0, hs, 64).0.slots.len() <= max_bits(),
                    forall|i: int|
                        0 <= i < m0.slots.len() ==> #[trigger] m0.rc[i] + times_generated(
                            hs,
                            m0.slots[i],
                            64,
                        ) <= u32::MAX,
                    generation_progress(m0, hs, (bx * 8 + bz) as nat, self.pool@, chunk),
                decreases 8 - bz,
            {
                let ghost k = (bx * 8 + bz) as int;
                let ghost before = self.pool@;
                let ghost ids = push_generated(m0, hs, k as nat).1;
                proof {
                    lemma_push_generated_len(m0, hs, k as nat);
                }
                let brick = generate_brick(heights, bx, bz);
                proof {
                    assert(k / 8 == bx as int && k % 8 == bz as int);
                    lemma_generated_brick_is_generated(hs, k);
                    lemma_generated_brick_unique(
                        brick,
                        generated_brick(hs, k),
                        hs,
                        bx as int,
                        bz as int,
                    );
                    lemma_generation_push_allowed(m0, hs, k as nat, before);
                    lemma_push_keeps_shape(before, brick);
                }
                let size = chunk_size();
                assert(flat_index(bx as int, 0, bz as int, size) == bz * 64 + bx) by (nonlinear_arith)
                    requires
                        size.x == 8,
                        size.y == 8,
                ;
                let brick_index = flatten(bx as u32, 0, bz as u32, size);
                let id = self.pool.push(brick);
                let ghost old_bricks = chunk.bricks@;
                chunk.bricks[brick_index as usize] = id as u32;
                proof {
                    let after = self.pool@;
                    assert(push_generated(m0, hs, (k + 1) as nat) == (after, ids.push(id as int)));
                    let new_ids = ids.push(id as int);
                    let slot = brick_index as int;
                    assert(slot == bz * 64 + bx);
                    assert(in_bottom_layer(slot) && generation_order(slot) == k);
                    assert forall|s: int| 0 <= s < BRICKS_PER_CHUNK implies #[trigger] chunk.bricks@[s]
                        == if in_bottom_layer(s) && generation_order(s) < k + 1 {
                        new_ids[generation_order(s)] as u32
                    } else {
                        0u32
                    } by {
                        lemma_slot_decomposition(s);
                        if s == slot {
                            assert(chunk.bricks@[s] == id as u32);
                        } else {
                            assert(chunk.bricks@[s] == old_bricks[s]);
                            if in_bottom_layer(s) && generation_order(s) < k {
                                assert(new_ids[generation_order(s)] == ids[generation_order(s)]);
                            }
                        }
                    }
                    lemma_generation_step(m0, hs, k as nat, before);
                }
                bz = bz + 1;
            }
            bx = bx + 1;
        }
        self.is_dirty = true;
        proof {
            assert(is_generated_chunk(chunk, m0, hs));
            if self.pool@.slots.len() <= u32::MAX as int + 1 {
                assert forall|bx: int, bz: int| 0 <= bx < 8 && 0 <= bz < 8 implies {
                    let id = #[trigger] chunk.bricks@[bz * 64 + bx];
                    &&& id < self.pool@.slots.len()
                    &&& self.pool@.slots[id as int] == generated_brick(hs, bx * 8 + bz)
                } by {
                    law_generated_chunk_refers_to_its_bricks(chunk, m0, hs, bx, bz);
                }
            }
        }
        chunk
    }

    /// Clears the dirty flag and reports whether it was set, that is whether
    /// the pool must be uploaded again.
    pub fn update(&mut self) -> (r: bool)
        ensures
            r == old(self).dirty(),
            !final(self).dirty(),
            final(self).bricks() == old(self).bricks(),
    {
        if !self.is_dirty {
            return false;
        }
        self.is_dirty = false;
        true
    }

    /// The number of slots up to and including the greatest used one.
    pub fn len(&self) -> (r: usize)
        requires
            self.wf(),
        ensures
            r == self.bricks().greatest + 1,
            r == self.bricks().slots.len(),
    {
        self.pool.greatest_used_index() + 1
    }

    /// The largest reference count of a stored brick.
    pub fn max_ref_count(&self) -> (r: u32)
        ensures
            forall|i: int| 0 <= i < self.bricks().rc.len() ==> #[trigger] self.bricks().rc[i] <= r,
            r == 0 || exists|i: int|
                0 <= i < self.bricks().rc.len() && #[trigger] self.bricks().rc[i] == r,
    {
        let r = self.pool.max_ref_count();
        proof {
            if r != 0 {
                let j = choose|j: int| 0 <= j < self.pool@.rc.len() && #[trigger] self.pool@.rc[j] == r;
                assert(self.bricks().rc[j] == r);
            }
        }
        r
    }

    /// Whether no slot of the pool is reserved.
    pub fn is_empty(&self) -> (r: bool)
        requires
            self.wf(),
        ensures
            r == (forall|i: int|
                0 <= i < self.bricks().reserved.len() ==> !#[trigger] self.bricks().reserved[i]),
            !r,
    {
        let r = self.pool.reserved_slots().not_any();
        proof {
            assert(self.bricks().reserved[0]);
        }
        r
    }

    /// The stored bricks from slot 0 through the greatest used slot, in the
    /// order they are uploaded.
    pub fn as_slice(&self) -> (r: &[Brick])
        requires
            self.wf(),
        ensures
            r@ == self.bricks().slots,
    {
        let r = self.pool.as_slice();
        proof {
            assert(self.bricks().slots.subrange(0, self.bricks().greatest + 1) =~= self.bricks().slots);
        }
        r
    }
}

/// A brick with no solid voxel is stored as the empty brick: pushing it into
/// a pool returns slot 0 (`Brick::EMPTY`) and stores nothing new.
pub proof fn law_empty_brick_is_slot_zero(m: FreeListModel<Brick>, b: Brick)
    requires
        pool_shape(m),
        b.is_zero(),
    ensures
        push_model(m, b).1 == Brick::EMPTY as int,
        push_model(m, b).0.slots == m.slots,
{
    let z = m.slots[0];
    assert(z.voxels@ =~= b.voxels@);
    assert(z.occupancy_mask@ =~= b.occupancy_mask@);
    assert(first_match_at(m, b, 0));
    lemma_lookup_is_first(m, b, 0);
}

} // verus!
