use vstd::prelude::*;

pub mod constants;
pub mod bit_set;
pub mod free_list;

verus! {

/// A vector of three unsigned integers, used for grid sizes and grid positions.
#[derive(Clone, Copy, Debug, PartialEq, Eq, Structural)]
pub struct UVec3 {
    pub x: u32,
    pub y: u32,
    pub z: u32,
}

/// A vector of three signed integers, used for chunk coordinates.
#[derive(Clone, Copy, Debug, PartialEq, Eq, Structural)]
pub struct IVec3 {
    pub x: i32,
    pub y: i32,
    pub z: i32,
}

/// The linear index of cell `(x, y, z)` in a grid of the given size, with `x`
/// varying fastest and `z` slowest.
pub open spec fn flat_index(x: int, y: int, z: int, size: UVec3) -> int {
    z * size.y * size.x + y * size.x + x
}

/// Flattens a 3D position into the linear index of a grid laid out x-first.
pub fn flatten(x: u32, y: u32, z: u32, size: UVec3) -> (r: u32)
    requires
        z * size.y <= u32::MAX,
        flat_index(x as int, y as int, z as int, size) <= u32::MAX,
    ensures
        r == flat_index(x as int, y as int, z as int, size),
{
    proof {
        lemma_flatten_terms_fit(x as int, y as int, z as int, size.x as int, size.y as int);
    }
    let zy = z * size.y;
    zy * size.x + y * size.x + x
}

/// The linear index of a cell inside the grid is a position in the grid and
/// gives the cell back: `x` is the index modulo the row length `size.x`, `y`
/// the row number modulo the rows per layer `size.y`, and `z` the layer, the
/// index divided by the layer size `size.x * size.y`.
pub proof fn law_flat_index_decomposes(x: int, y: int, z: int, size: UVec3)
    requires
        0 <= x < size.x,
        0 <= y < size.y,
        0 <= z < size.z,
    ensures
        0 <= flat_index(x, y, z, size) < size.x * size.y * size.z,
        flat_index(x, y, z, size) % (size.x as int) == x,
        (flat_index(x, y, z, size) / (size.x as int)) % (size.y as int) == y,
        flat_index(x, y, z, size) / (size.x * size.y) == z,
{
    let sx = size.x as int;
    let sy = size.y as int;
    let sz = size.z as int;
    let i = flat_index(x, y, z, size);
    assert(i == (z * sy + y) * sx + x) by (nonlinear_arith)
        requires
            i == z * sy * sx + y * sx + x,
    ;
    assert(0 <= z * sy + y) by (nonlinear_arith)
        requires
            0 <= z,
            0 <= y,
            0 < sy,
    ;
    vstd::arithmetic::div_mod::lemma_fundamental_div_mod_converse(i, sx, z * sy + y, x);
    vstd::arithmetic::div_mod::lemma_fundamental_div_mod_converse(z * sy + y, sy, z, y);
    assert(i == z * (sx * sy) + (y * sx + x) && 0 <= y * sx + x < sx * sy) by (nonlinear_arith)
        requires
            i == (z * sy + y) * sx + x,
            0 <= x < sx,
            0 <= y < sy,
    ;
    vstd::arithmetic::div_mod::lemma_fundamental_div_mod_converse(i, sx * sy, z, y * sx + x);
    assert(0 <= i < sx * sy * sz) by (nonlinear_arith)
        requires
            i == z * (sx * sy) + (y * sx + x),
            0 <= y * sx + x < sx * sy,
            0 <= z < sz,
    ;
}

/// Different cells of a grid get different linear indices.
pub proof fn law_flat_index_injective(a: UVec3, b: UVec3, size: UVec3)
    requires
        a.x < size.x,
        a.y < size.y,
        a.z < size.z,
        b.x < size.x,
        b.y < size.y,
        b.z < size.z,
        flat_index(a.x as int, a.y as int, a.z as int, size) == flat_index(
            b.x as int,
            b.y as int,
            b.z as int,
            size,
        ),
    ensures
        a == b,
{
    law_flat_index_decomposes(a.x as int, a.y as int, a.z as int, size);
    law_flat_index_decomposes(b.x as int, b.y as int, b.z as int, size);
}

proof fn lemma_flatten_terms_fit(x: int, y: int, z: int, sx: int, sy: int)
    requires
        0 <= x,
        0 <= y,
        0 <= z,
        0 <= sx,
        0 <= sy,
    ensures
        0 <= z * sy,
        z * sy <= z * sy * sx || sx == 0,
        0 <= z * sy * sx,
        0 <= y * sx,
{
    assert(0 <= z * sy) by (nonlinear_arith)
        requires
            0 <= z,
            0 <= sy,
    ;
    assert(z * sy <= z * sy * sx || sx == 0) by (nonlinear_arith)
        requires
            0 <= z * sy,
            0 <= sx,
    ;
    assert(0 <= z * sy * sx) by (nonlinear_arith)
        requires
            0 <= z * sy,
            0 <= sx,
    ;
    assert(0 <= y * sx) by (nonlinear_arith)
        requires
            0 <= y,
            0 <= sx,
    ;
}

/// Bit `slot % 32` of word `slot / 32` of a mask made of 32-bit words.
pub open spec fn mask_bit(mask: Seq<u32>, slot: int) -> bool {
    (mask[slot / 32] >> ((slot % 32) as u32)) & 1u32 == 1u32
}

/// No bit of zero is set.
pub proof fn lemma_bit_of_zero(c: u32)
    requires
        c < 32,
    ensures
        (0u32 >> c) & 1u32 != 1u32,
{
    assert((0u32 >> c) & 1u32 != 1u32) by (bit_vector)
        requires
            c < 32,
    ;
}

/// Every bit of `u32::MAX` is set.
pub proof fn lemma_bit_of_max(c: u32)
    requires
        c < 32,
    ensures
        (u32::MAX >> c) & 1u32 == 1u32,
{
    assert((0xffff_ffffu32 >> c) & 1u32 == 1u32) by (bit_vector)
        requires
            c < 32,
    ;
}

/// Setting bit `b` of a word sets that bit and keeps every other bit.
pub proof fn lemma_bit_of_or(w: u32, b: u32, c: u32)
    requires
        b < 32,
        c < 32,
    ensures
        c == b ==> ((w | (1u32 << b)) >> c) & 1u32 == 1u32,
        c != b ==> ((w | (1u32 << b)) >> c) & 1u32 == (w >> c) & 1u32,
{
    assert(c == b ==> ((w | (1u32 << b)) >> c) & 1u32 == 1u32) by (bit_vector)
        requires
            b < 32,
            c < 32,
    ;
    assert(c != b ==> ((w | (1u32 << b)) >> c) & 1u32 == (w >> c) & 1u32) by (bit_vector)
        requires
            b < 32,
            c < 32,
    ;
}

/// Two words whose bits all agree are equal.
pub proof fn lemma_word_from_bits(a: u32, b: u32)
    requires
        forall|c: u32| c < 32 ==> (a >> c) & 1u32 == (b >> c) & 1u32,
    ensures
        a == b,
{
    assert((a >> 0u32) & 1u32 == (b >> 0u32) & 1u32);
    assert((a >> 1u32) & 1u32 == (b >> 1u32) & 1u32);
    assert((a >> 2u32) & 1u32 == (b >> 2u32) & 1u32);
    assert((a >> 3u32) & 1u32 == (b >> 3u32) & 1u32);
    assert((a >> 4u32) & 1u32 == (b >> 4u32) & 1u32);
    assert((a >> 5u32) & 1u32 == (b >> 5u32) & 1u32);
    assert((a >> 6u32) & 1u32 == (b >> 6u32) & 1u32);
    assert((a >> 7u32) & 1u32 == (b >> 7u32) & 1u32);
    assert((a >> 8u32) & 1u32 == (b >> 8u32) & 1u32);
    assert((a >> 9u32) & 1u32 == (b >> 9u32) & 1u32);
    assert((a >> 10u32) & 1u32 == (b >> 10u32) & 1u32);
    assert((a >> 11u32) & 1u32 == (b >> 11u32) & 1u32);
    assert((a >> 12u32) & 1u32 == (b >> 12u32) & 1u32);
    assert((a >> 13u32) & 1u32 == (b >> 13u32) & 1u32);
    assert((a >> 14u32) & 1u32 == (b >> 14u32) & 1u32);
    assert((a >> 15u32) & 1u32 == (b >> 15u32) & 1u32);
    assert((a >> 16u32) & 1u32 == (b >> 16u32) & 1u32);
    assert((a >> 17u32) & 1u32 == (b >> 17u32) & 1u32);
    assert((a >> 18u32) & 1u32 == (b >> 18u32) & 1u32);
    assert((a >> 19u32) & 1u32 == (b >> 19u32) & 1u32);
    assert((a >> 20u32) & 1u32 == (b >> 20u32) & 1u32);
    assert((a >> 21u32) & 1u32 == (b >> 21u32) & 1u32);
    assert((a >> 22u32) & 1u32 == (b >> 22u32) & 1u32);
    assert((a >> 23u32) & 1u32 == (b >> 23u32) & 1u32);
    assert((a >> 24u32) & 1u32 == (b >> 24u32) & 1u32);
    assert((a >> 25u32) & 1u32 == (b >> 25u32) & 1u32);
    assert((a >> 26u32) & 1u32 == (b >> 26u32) & 1u32);
    assert((a >> 27u32) & 1u32 == (b >> 27u32) & 1u32);
    assert((a >> 28u32) & 1u32 == (b >> 28u32) & 1u32);
    assert((a >> 29u32) & 1u32 == (b >> 29u32) & 1u32);
    assert((a >> 30u32) & 1u32 == (b >> 30u32) & 1u32);
    assert((a >> 31u32) & 1u32 == (b >> 31u32) & 1u32);
    assert(a == b) by (bit_vector)
        requires
            (a >> 0u32) & 1u32 == (b >> 0u32) & 1u32,
            (a >> 1u32) & 1u32 == (b >> 1u32) & 1u32,
            (a >> 2u32) & 1u32 == (b >> 2u32) & 1u32,
            (a >> 3u32) & 1u32 == (b >> 3u32) & 1u32,
            (a >> 4u32) & 1u32 == (b >> 4u32) & 1u32,
            (a >> 5u32) & 1u32 == (b >> 5u32) & 1u32,
            (a >> 6u32) & 1u32 == (b >> 6u32) & 1u32,
            (a >> 7u32) & 1u32 == (b >> 7u32) & 1u32,
            (a >> 8u32) & 1u32 == (b >> 8u32) & 1u32,
            (a >> 9u32) & 1u32 == (b >> 9u32) & 1u32,
            (a >> 10u32) & 1u32 == (b >> 10u32) & 1u32,
            (a >> 11u32) & 1u32 == (b >> 11u32) & 1u32,
            (a >> 12u32) & 1u32 == (b >> 12u32) & 1u32,
            (a >> 13u32) & 1u32 == (b >> 13u32) & 1u32,
            (a >> 14u32) & 1u32 == (b >> 14u32) & 1u32,
            (a >> 15u32) & 1u32 == (b >> 15u32) & 1u32,
            (a >> 16u32) & 1u32 == (b >> 16u32) & 1u32,
            (a >> 17u32) & 1u32 == (b >> 17u32) & 1u32,
            (a >> 18u32) & 1u32 == (b >> 18u32) & 1u32,
            (a >> 19u32) & 1u32 == (b >> 19u32) & 1u32,
            (a >> 20u32) & 1u32 == (b >> 20u32) & 1u32,
            (a >> 21u32) & 1u32 == (b >> 21u32) & 1u32,
            (a >> 22u32) & 1u32 == (b >> 22u32) & 1u32,
            (a >> 23u32) & 1u32 == (b >> 23u32) & 1u32,
            (a >> 24u32) & 1u32 == (b >> 24u32) & 1u32,
            (a >> 25u32) & 1u32 == (b >> 25u32) & 1u32,
            (a >> 26u32) & 1u32 == (b >> 26u32) & 1u32,
            (a >> 27u32) & 1u32 == (b >> 27u32) & 1u32,
            (a >> 28u32) & 1u32 == (b >> 28u32) & 1u32,
            (a >> 29u32) & 1u32 == (b >> 29u32) & 1u32,
            (a >> 30u32) & 1u32 == (b >> 30u32) & 1u32,
            (a >> 31u32) & 1u32 == (b >> 31u32) & 1u32,
    ;
}

/// Unwrapping a `Result` that the caller knows to hold a value. The program
/// aborts on an error instead of unwinding, so a verified caller must rule
/// errors out.
pub trait ResultExt<T>: Sized {
    /// The result holds a value.
    spec fn is_success(&self) -> bool;

    /// The value the result holds.
    spec fn success_value(&self) -> T;

    /// The value held, for a result that holds one.
    fn unwrap_or_abort<S: Into<String> + core::fmt::Debug>(self, msg: S) -> (r: T)
        requires
            self.is_success(),
        ensures
            r == self.success_value(),
    ;
}

impl<T, E: core::fmt::Debug> ResultExt<T> for Result<T, E> {
    open spec fn is_success(&self) -> bool {
        self is Ok
    }

    open spec fn success_value(&self) -> T {
        self->Ok_0
    }

    fn unwrap_or_abort<S: Into<String> + core::fmt::Debug>(self, msg: S) -> (r: T) {
        match self {
            Ok(value) => value,
            Err(_) => {
                proof {
                    assert(false);
                }
                self.unwrap()
            }
        }
    }
}

} // verus!
