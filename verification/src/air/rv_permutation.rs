//! Accumulator arguments of the RISC-V trace: four parallel grand-product
//! runs for memory, registers and fetches, the LogUp range accumulator with
//! its helpers, the sorted-table and ordering constraints.

use vstd::prelude::*;

verus! {

/// Accumulator column indices within the accumulator trace (19 in all).
pub const ACCUM_MEM_0: usize = 0;
pub const ACCUM_MEM_1: usize = 1;
pub const ACCUM_MEM_2: usize = 2;
pub const ACCUM_MEM_3: usize = 3;
pub const ACCUM_REG_0: usize = 4;
pub const ACCUM_REG_1: usize = 5;
pub const ACCUM_REG_2: usize = 6;
pub const ACCUM_REG_3: usize = 7;
pub const ACCUM_FETCH_0: usize = 8;
pub const ACCUM_FETCH_1: usize = 9;
pub const ACCUM_FETCH_2: usize = 10;
pub const ACCUM_FETCH_3: usize = 11;
pub const ACCUM_RANGE: usize = 12;
pub const ACCUM_HELPER_0: usize = 13;
pub const ACCUM_HELPER_1: usize = 14;
pub const ACCUM_HELPER_2: usize = 15;
pub const ACCUM_HELPER_3: usize = 16;
pub const ACCUM_HELPER_4: usize = 17;
pub const ACCUM_HELPER_5: usize = 18;

/// The number of accumulator constraints: 12 permutation transitions (4
/// memory, 4 register, 4 fetch), 16 sorted-table constraints (4 memory, 12
/// register), 5 LogUp range constraints (the accumulator and helpers 0-3), 4
/// ordering reconstructions and 2 more LogUp helpers (4 and 5).
pub fn num_accum_constraints() -> (r: usize)
    ensures
        r == 39,
{
    12 + 16 + 5 + 4 + 2
}

/// Whether accumulator constraint `j` must also hold on the wrap-around row:
/// the permutation transitions (0-11), the LogUp range constraints (28-32)
/// and the last LogUp helpers (37 on); not the sorted-table (12-27) or
/// ordering (33-36) constraints.
pub fn is_wrap_constraint(j: usize) -> (r: bool)
    ensures
        r == (j < 12 || (28 <= j <= 32) || j >= 37),
{
    j < 12 || (j >= 28 && j <= 32) || j >= 37
}

} // verus!
