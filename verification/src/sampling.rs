//! Random sources for the rows of a render.
//!
//! The rows of an image are rendered apart from each other, each with a
//! random source of its own. One seed stands for the whole render; the seed
//! of a row is derived from it and from the row's number, so that a render
//! can be repeated and no two rows draw the same stream.

use vstd::prelude::*;

verus! {

/// The seed of the random source of row `row` in a render seeded with
/// `seed`: their sum, taken modulo 2^64.
pub open spec fn spec_row_seed(seed: u64, row: usize) -> u64 {
    ((seed + row) % 0x1_0000_0000_0000_0000) as u64
}

/// The seed of the random source of row `row` in a render seeded with `seed`.
#[verifier::when_used_as_spec(spec_row_seed)]
pub fn row_seed(seed: u64, row: usize) -> (derived: u64)
    ensures
        derived == spec_row_seed(seed, row),
{
    seed.wrapping_add(row as u64)
}

/// Two rows of one render never share a seed.
pub proof fn lemma_row_seeds_differ(seed: u64, row: usize, other_row: usize)
    requires
        row != other_row,
    ensures
        row_seed(seed, row) != row_seed(seed, other_row),
{
}

} // verus!
