use vstd::prelude::*;

verus! {

/// Edge length, in pixels, of the square tile one compute workgroup shades.
pub const WORKGROUP_EDGE: u32 = 16;

/// The smallest number of `d`-sized tiles that cover `n`.
pub open spec fn tiles_to_cover(n: int, d: int) -> int {
    (n + d - 1) / d
}

/// The number of workgroups along x and y that cover an output texture of
/// the given size.
pub fn workgroup_counts(width: u32, height: u32) -> (r: (u32, u32))
    ensures
        r.0 == tiles_to_cover(width as int, WORKGROUP_EDGE as int),
        r.1 == tiles_to_cover(height as int, WORKGROUP_EDGE as int),
{
    (div_ceil(width, WORKGROUP_EDGE), div_ceil(height, WORKGROUP_EDGE))
}

/// `n.div_ceil(d)`.
fn div_ceil(n: u32, d: u32) -> (r: u32)
    requires
        d > 0,
    ensures
        r == tiles_to_cover(n as int, d as int),
{
    let q = n / d;
    let rem = n % d;
    proof {
        let t = n as int + d as int - 1;
        vstd::arithmetic::div_mod::lemma_fundamental_div_mod(n as int, d as int);
        assert(n as int == q * d + rem) by (nonlinear_arith)
            requires
                n as int == d * (n as int / d as int) + n as int % d as int,
                q == n as int / d as int,
                rem == n as int % d as int,
        ;
        if rem == 0 {
            assert(t == q * d + (d - 1)) by (nonlinear_arith)
                requires
                    n as int == q * d + rem,
                    rem == 0,
                    t == n as int + d as int - 1,
            ;
            vstd::arithmetic::div_mod::lemma_fundamental_div_mod_converse(t, d as int, q as int, d - 1);
        } else {
            assert(t == (q + 1) * d + (rem - 1)) by (nonlinear_arith)
                requires
                    n as int == q * d + rem,
                    t == n as int + d as int - 1,
            ;
            vstd::arithmetic::div_mod::lemma_fundamental_div_mod_converse(
                t,
                d as int,
                q + 1,
                rem - 1,
            );
            assert(q < n) by (nonlinear_arith)
                requires
                    n as int == q * d + rem,
                    rem > 0,
                    d > 0,
                    q >= 0,
            ;
        }
    }
    if rem == 0 {
        q
    } else {
        q + 1
    }
}

} // verus!
