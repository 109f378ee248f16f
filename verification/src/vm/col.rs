//! Column indices of the field-native VM trace.

use vstd::prelude::*;

verus! {

pub const CLK: usize = 0;
pub const PC: usize = 1;
pub const NEXT_PC: usize = 2;

pub const OPCODE: usize = 3;
pub const OP_A: usize = 4;
pub const OP_B: usize = 5;
pub const OP_C: usize = 6;

pub const HALT: usize = 7;
pub const I_IN: usize = 8;       // i_in_pre (cursor BEFORE this row)
pub const I_OUT: usize = 9;      // i_out_pre

pub const REG_A_IDX: usize = 10;
pub const REG_A_VAL: usize = 11;
pub const REG_A_WR: usize = 12;
pub const REG_A_INV: usize = 13;
pub const REG_B_IDX: usize = 14;
pub const REG_B_VAL: usize = 15;
pub const REG_B_WR: usize = 16;
pub const REG_B_INV: usize = 17;
pub const REG_C_IDX: usize = 18;
pub const REG_C_VAL: usize = 19;
pub const REG_C_WR: usize = 20;
pub const REG_C_INV: usize = 21;

pub const MEM_ADDR: usize = 22;
pub const MEM_VAL: usize = 23;
pub const MEM_WR: usize = 24;
pub const MEM_USED: usize = 25;

/// JZ helper: 1 if REG_A_VAL == 0, else 0.
pub const JZ_IS_ZERO: usize = 26;
/// JZ helper: inverse of REG_A_VAL when nonzero, else arbitrary (we set 0).
pub const JZ_VAL_INV: usize = 27;

/// One-hot opcode selectors (11 columns).
pub const SEL_START: usize = 28;

/// Sorted register table: 3 slots × (idx, val, clk, is_write, same_idx, diff_inv).
pub const SREG_A: usize = 39;
pub const SREG_B: usize = 45;
pub const SREG_C: usize = 51;

/// Sorted memory: (addr, val, clk, is_write, used, same_addr, diff_inv).
pub const SMEM: usize = 57;

/// Program ROM table: (addr, opcode, op_a, op_b, op_c, mult).
pub const PROG: usize = 64;

/// Public input/output tables: (idx, val, mult).
pub const PUB_IN: usize = 70;
pub const PUB_OUT: usize = 73;

/// Bit decomposition of (sort-diff - 1) for range-checking the sorted
/// table's ordering. 4 transitions × 16 bits = 64 columns.
///   AB: B-vs-A inside the row (sorted register slots)
///   BC: C-vs-B inside the row
///   CA: A[i+1]-vs-C[i] across rows
///   M : sorted memory next-row vs current-row
pub const DIFF_BITS_AB: usize = 76;
pub const DIFF_BITS_BC: usize = 92;
pub const DIFF_BITS_CA: usize = 108;
pub const DIFF_BITS_M: usize = 124;

pub const NUM_COLS: usize = 140;

} // verus!
