//! The colour table and the mapping from an escape count to RGBA bytes.
use vstd::prelude::*;

verus! {

/// Number of entries in the colour table.
pub const PALETTE_SIZE: usize = 2048;

/// One colour of the table.
#[derive(Clone, Copy, Debug, PartialEq, Eq, Structural)]
pub struct Rgb {
    pub r: u8,
    pub g: u8,
    pub b: u8,
}

/// Table position of escape count `k` under budget `max`: the count scaled
/// to the table size, capped at the last entry.
pub open spec fn palette_index_of(k: nat, max: nat) -> nat {
    let i = k * 2048 / max;
    if i < 2047 {
        i
    } else {
        2047
    }
}

/// The four bytes of a pixel whose orbit got count `k`: opaque black for a
/// point that stayed bounded for the whole budget, else its table colour.
pub open spec fn pixel_bytes(k: nat, max: nat, palette: Seq<Rgb>) -> Seq<u8> {
    if k >= max {
        seq![0u8, 0u8, 0u8, 255u8]
    } else {
        let c = palette[palette_index_of(k, max) as int];
        seq![c.r, c.g, c.b, 255u8]
    }
}

/// Table position of an escape count.
pub fn palette_index(iteration: u32, max_iterations: u32) -> (r: usize)
    requires
        max_iterations > 0,
    ensures
        r == palette_index_of(iteration as nat, max_iterations as nat),
        r < PALETTE_SIZE,
{
    let scaled: u64 = iteration as u64 * 2048;
    let i: u64 = scaled / max_iterations as u64;
    if i < 2047 {
        i as usize
    } else {
        2047
    }
}

/// Every count below the budget lands inside the table without capping.
pub proof fn lemma_palette_index_in_bounds(k: nat, max: nat)
    requires
        k < max,
    ensures
        palette_index_of(k, max) == k * 2048 / max,
        palette_index_of(k, max) < PALETTE_SIZE,
{
    assert(k * 2048 < max * 2048) by (nonlinear_arith)
        requires
            k < max,
    ;
    assert(k * 2048 / max < 2048) by (nonlinear_arith)
        requires
            k * 2048 < max * 2048,
            max > 0,
    ;
    assert(k * 2048 / max <= 2047);
}

} // verus!
