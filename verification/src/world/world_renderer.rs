use vstd::prelude::*;

use crate::util::bit_set::max_bits;
use crate::util::constants::{world_size, world_size_half};
use crate::util::{flat_index, flatten, IVec3, UVec3};
use crate::world::brick_pool::{
    is_generated_chunk, push_generated, times_generated, BrickPool, HEIGHT_SAMPLES,
};
use crate::world::chunk::{Chunk, ChunkPos, BRICKS_PER_CHUNK, BRICK_MASK_WORDS};

verus! {

/// Number of chunks in the loaded grid (8 x 1 x 8).
pub const WORLD_CHUNKS: usize = 64;

/// The chunk grid is a torus: chunk coordinates are shifted by half the
/// world and wrapped around its size on each axis.
pub open spec fn grid_cell(coords: IVec3) -> UVec3 {
    UVec3 {
        x: ((coords.x + world_size_half().x) % (world_size().x as int)) as u32,
        y: ((coords.y + world_size_half().y) % (world_size().y as int)) as u32,
        z: ((coords.z + world_size_half().z) % (world_size().z as int)) as u32,
    }
}

/// The grid slot of the chunk at `coords`.
pub open spec fn grid_index(coords: IVec3) -> int {
    let cell = grid_cell(coords);
    flat_index(cell.x as int, cell.y as int, cell.z as int, world_size())
}

/// Shifting the coordinates by half the world does not overflow `i32`.
pub open spec fn coords_in_range(coords: IVec3) -> bool {
    &&& coords.x + 4 <= i32::MAX
    &&& coords.y + 1 <= i32::MAX
    &&& coords.z + 4 <= i32::MAX
}

/// A chunk that refers only to the empty brick.
pub open spec fn is_empty_chunk(c: Chunk) -> bool {
    &&& forall|i: int| 0 <= i < BRICKS_PER_CHUNK ==> #[trigger] c.bricks@[i] == 0
    &&& forall|i: int| 0 <= i < BRICK_MASK_WORDS ==> #[trigger] c.brick_mask@[i] == 0
}

/// Computes the grid slot of the chunk at `coords`.
fn chunk_slot(coords: &ChunkPos) -> (r: usize)
    requires
        coords_in_range(coords.0),
    ensures
        r == grid_index(coords.0),
        r < WORLD_CHUNKS,
{
    let half = world_size_half();
    let size = world_size();
    let ox = coords.0.x + half.x as i32;
    let oy = coords.0.y + half.y as i32;
    let oz = coords.0.z + half.z as i32;
    let x = match ox.checked_rem_euclid(size.x as i32) {
        Some(v) => v,
        None => 0,
    };
    let y = match oy.checked_rem_euclid(size.y as i32) {
        Some(v) => v,
        None => 0,
    };
    let z = match oz.checked_rem_euclid(size.z as i32) {
        Some(v) => v,
        None => 0,
    };
    let index = UVec3 { x: x as u32, y: y as u32, z: z as u32 };
    assert(flat_index(index.x as int, index.y as int, index.z as int, size) == index.z * 8
        + index.y * 8 + index.x) by (nonlinear_arith)
        requires
            size.x == 8,
            size.y == 1,
    ;
    flatten(index.x, index.y, index.z, size) as usize
}

/// The loaded chunks, and the brick pool their bricks live in.
pub struct WorldRenderer {
    pub brick_pool: BrickPool,
    chunk_grid: [Chunk; WORLD_CHUNKS],
    is_dirty: bool,
}

impl WorldRenderer {
    /// The chunk grid, slot by slot.
    pub closed spec fn chunks(&self) -> Seq<Chunk> {
        self.chunk_grid@
    }

    /// The brick pool.
    pub closed spec fn pool(&self) -> BrickPool {
        self.brick_pool
    }

    /// Whether the chunk grid changed since the last `update`.
    pub closed spec fn dirty(&self) -> bool {
        self.is_dirty
    }

    /// A grid of empty chunks over a pool holding only the empty brick.
    pub fn new() -> (r: Self)
        ensures
            r.pool().wf(),
            r.pool().bricks().slots.len() == 1,
            r.pool().bricks().rc == seq![1u32],
            !r.pool().dirty(),
            r.chunks().len() == WORLD_CHUNKS,
            forall|i: int| 0 <= i < WORLD_CHUNKS ==> is_empty_chunk(#[trigger] r.chunks()[i]),
            !r.dirty(),
    {
        let chunk_grid = [Chunk::new_from_empty(); WORLD_CHUNKS];
        let brick_pool = BrickPool::new();
        WorldRenderer { brick_pool, chunk_grid, is_dirty: false }
    }

    /// Generates the chunk at `coords` from terrain heights (see
    /// `BrickPool::gen_test_chunk`) and stores it in the chunk's grid slot.
    pub fn load_chunk(&mut self, coords: ChunkPos, heights: &Vec<u32>)
        requires
            coords_in_range(coords.0),
            old(self).pool().wf(),
            heights@.len() == HEIGHT_SAMPLES,
            push_generated(old(self).pool().bricks(), heights@, 64).0.slots.len() <= max_bits(),
            forall|i: int|
                0 <= i < old(self).pool().bricks().slots.len() ==> #[trigger] old(
                    self,
                ).pool().bricks().rc[i] + times_generated(
                    heights@,
                    old(self).pool().bricks().slots[i],
                    64,
                ) <= u32::MAX,
        ensures
            final(self).pool().wf(),
            final(self).pool().dirty(),
            final(self).pool().bricks() == push_generated(
                old(self).pool().bricks(),
                heights@,
                64,
            ).0,
            final(self).chunks().len() == WORLD_CHUNKS,
            is_generated_chunk(
                final(self).chunks()[grid_index(coords.0)],
                old(self).pool().bricks(),
                heights@,
            ),
            forall|i: int|
                0 <= i < WORLD_CHUNKS && i != grid_index(coords.0)
                    ==> #[trigger] final(self).chunks()[i] == old(self).chunks()[i],
            final(self).dirty(),
    {
        let slot = chunk_slot(&coords);
        let chunk = self.brick_pool.gen_test_chunk(heights);
        self.chunk_grid[slot] = chunk;
        self.is_dirty = true;
    }

    /// Replaces the chunk at `coords` with an empty chunk.
    pub fn unload_chunk(&mut self, coords: ChunkPos)
        requires
            coords_in_range(coords.0),
        ensures
            final(self).pool() == old(self).pool(),
            final(self).chunks().len() == WORLD_CHUNKS,
            is_empty_chunk(final(self).chunks()[grid_index(coords.0)]),
            forall|i: int|
                0 <= i < WORLD_CHUNKS && i != grid_index(coords.0)
                    ==> #[trigger] final(self).chunks()[i] == old(self).chunks()[i],
            final(self).dirty(),
    {
        let slot = chunk_slot(&coords);
        self.chunk_grid[slot] = Chunk::new_from_empty();
        self.is_dirty = true;
    }

    /// Clears the dirty flags of the grid and of the brick pool and reports
    /// which were set: the chunk grid must be uploaded again when the first
    /// is, the brick pool (and the bind group over it) when the second is.
    pub fn update(&mut self) -> (r: (bool, bool))
        ensures
            r.0 == old(self).dirty(),
            r.1 == old(self).pool().dirty(),
            !final(self).dirty(),
            !final(self).pool().dirty(),
            final(self).chunks() == old(self).chunks(),
            final(self).pool().bricks() == old(self).pool().bricks(),
    {
        let chunks_changed = self.is_dirty;
        if self.is_dirty {
            self.is_dirty = false;
        }
        let bricks_changed = self.brick_pool.update();
        (chunks_changed, bricks_changed)
    }

    /// The brick pool the chunks refer to.
    pub fn brick_pool(&self) -> (r: &BrickPool)
        ensures
            *r == self.pool(),
    {
        &self.brick_pool
    }

    /// The chunk grid, in slot order, as it is uploaded.
    pub fn chunk_grid(&self) -> (r: &[Chunk; WORLD_CHUNKS])
        ensures
            r@ == self.chunks(),
    {
        &self.chunk_grid
    }
}

/// Every chunk coordinate lands in a slot of the grid.
pub proof fn law_grid_index_in_range(c: IVec3)
    ensures
        0 <= grid_index(c) < WORLD_CHUNKS,
{
    let cell = grid_cell(c);
    assert(grid_index(c) == cell.z * 8 + cell.y * 8 + cell.x) by (nonlinear_arith)
        requires
            grid_index(c) == flat_index(cell.x as int, cell.y as int, cell.z as int, world_size()),
            world_size().x == 8,
            world_size().y == 1,
    ;
}

/// The grid wraps around: chunks whose coordinates differ by whole world
/// sizes along x and z (and by anything along y, the world being one chunk
/// high) share a grid slot.
pub proof fn law_grid_wraps_around(c: IVec3, d: IVec3, a: int, b: int)
    requires
        d.x == c.x + 8 * a,
        d.z == c.z + 8 * b,
    ensures
        grid_index(d) == grid_index(c),
{
    assert((d.x + 4) % 8 == (c.x + 4) % 8) by {
        vstd::arithmetic::div_mod::lemma_mod_multiples_vanish(a, c.x + 4, 8);
        assert(d.x + 4 == 8 * a + (c.x + 4));
    }
    assert((d.z + 4) % 8 == (c.z + 4) % 8) by {
        vstd::arithmetic::div_mod::lemma_mod_multiples_vanish(b, c.z + 4, 8);
        assert(d.z + 4 == 8 * b + (c.z + 4));
    }
    assert((d.y + 1) % 1 == 0 && (c.y + 1) % 1 == 0);
    assert(grid_cell(d) == grid_cell(c));
}

proof fn lemma_same_remainder(a: int, b: int)
    ensures
        (a % 8 == b % 8) <==> ((b - a) % 8 == 0),
{
    vstd::arithmetic::div_mod::lemma_fundamental_div_mod(a, 8);
    vstd::arithmetic::div_mod::lemma_fundamental_div_mod(b, 8);
    vstd::arithmetic::div_mod::lemma_fundamental_div_mod(b - a, 8);
    assert((b - a) == 8 * (b / 8 - a / 8) + (b % 8 - a % 8));
    if a % 8 == b % 8 {
        vstd::arithmetic::div_mod::lemma_mod_multiples_basic(b / 8 - a / 8, 8);
        assert((8 * (b / 8 - a / 8)) % 8 == 0) by {
            vstd::arithmetic::mul::lemma_mul_is_commutative(8, b / 8 - a / 8);
        }
    } else {
        assert((b - a) % 8 != 0) by {
            if (b - a) % 8 == 0 {
                // b - a = 8 q, and also b - a = 8 (qb - qa) + (rb - ra) with |rb - ra| < 8
                let q = (b - a) / 8;
                assert(8 * q == 8 * (b / 8 - a / 8) + (b % 8 - a % 8));
                assert(8 * (q - (b / 8 - a / 8)) == b % 8 - a % 8) by (nonlinear_arith)
                    requires
                        8 * q == 8 * (b / 8 - a / 8) + (b % 8 - a % 8),
                ;
                assert(-8 < b % 8 - a % 8 < 8);
                assert(q - (b / 8 - a / 8) == 0) by (nonlinear_arith)
                    requires
                        8 * (q - (b / 8 - a / 8)) == b % 8 - a % 8,
                        -8 < b % 8 - a % 8 < 8,
                ;
            }
        }
    }
}

/// Two chunk coordinates share a grid slot exactly when they differ by a
/// multiple of the world size (8) along x and along z; y plays no part.
pub proof fn law_grid_slot_shared_iff(c: IVec3, d: IVec3)
    ensures
        (grid_index(c) == grid_index(d)) <==> ((d.x - c.x) % 8 == 0 && (d.z - c.z) % 8 == 0),
{
    let cc = grid_cell(c);
    let dc = grid_cell(d);
    lemma_same_remainder(c.x + 4, d.x + 4);
    lemma_same_remainder(c.z + 4, d.z + 4);
    assert((d.x + 4) - (c.x + 4) == d.x - c.x);
    assert((d.z + 4) - (c.z + 4) == d.z - c.z);
    assert(0 <= (c.x + 4) % 8 < 8 && 0 <= (d.x + 4) % 8 < 8);
    assert(0 <= (c.z + 4) % 8 < 8 && 0 <= (d.z + 4) % 8 < 8);
    assert(cc.x == (c.x + 4) % 8 && dc.x == (d.x + 4) % 8);
    assert(cc.z == (c.z + 4) % 8 && dc.z == (d.z + 4) % 8);
    assert(cc.y == 0 && dc.y == 0);
    assert(grid_index(c) == cc.z * 8 + cc.x) by (nonlinear_arith)
        requires
            grid_index(c) == flat_index(cc.x as int, cc.y as int, cc.z as int, world_size()),
            world_size().x == 8,
            world_size().y == 1,
            cc.y == 0,
    ;
    assert(grid_index(d) == dc.z * 8 + dc.x) by (nonlinear_arith)
        requires
            grid_index(d) == flat_index(dc.x as int, dc.y as int, dc.z as int, world_size()),
            world_size().x == 8,
            world_size().y == 1,
            dc.y == 0,
    ;
}

/// The 8 x 8 square of chunks around the origin, `x` and `z` in `-4..4`, fills
/// the grid with one chunk per slot: `(x, y, z)` goes to slot
/// `(z + 4) * 8 + (x + 4)`.
pub proof fn law_centered_square_fills_grid(x: i32, y: i32, z: i32)
    requires
        -4 <= x < 4,
        -4 <= z < 4,
    ensures
        grid_index(IVec3 { x, y, z }) == (z + 4) * 8 + (x + 4),
{
    let c = IVec3 { x, y, z };
    let cell = grid_cell(c);
    vstd::arithmetic::div_mod::lemma_small_mod((x + 4) as nat, 8);
    vstd::arithmetic::div_mod::lemma_small_mod((z + 4) as nat, 8);
    assert(cell.x == x + 4 && cell.z == z + 4 && cell.y == 0);
    assert(flat_index(cell.x as int, cell.y as int, cell.z as int, world_size()) == (z + 4) * 8 + (x
        + 4)) by (nonlinear_arith)
        requires
            cell.x == x + 4,
            cell.z == z + 4,
            cell.y == 0,
            world_size().x == 8,
            world_size().y == 1,
    ;
}

} // verus!
