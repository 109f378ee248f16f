//! Column indices in the flattened RISC-V trace.

use vstd::prelude::*;

verus! {

pub const CLK: usize = 0;
pub const PC: usize = 1;
pub const INSTRUCTION: usize = 2;
pub const RS1_IDX: usize = 3;
pub const RS2_IDX: usize = 4;
pub const RD_IDX: usize = 5;
pub const RS1_VAL: usize = 6;
pub const RS2_VAL: usize = 7;
pub const RD_VAL: usize = 8;
pub const IMM: usize = 9;
pub const NEXT_PC: usize = 10;
pub const MEM_ADDR: usize = 11;
pub const MEM_VAL: usize = 12;
pub const IS_LOAD: usize = 13;
pub const IS_STORE: usize = 14;
pub const BRANCH_TAKEN: usize = 15;
pub const ALU_CARRY: usize = 16;
pub const PC_CARRY: usize = 17;
pub const BITS_A_START: usize = 18;
pub const BITS_B_START: usize = 50;
pub const SHIFT_STAGE_START: usize = 82;
// ── Soundness auxiliary columns ──
pub const MEM_ADDR_CARRY: usize = 87;
pub const JALR_BIT0: usize = 88;
pub const BRANCH_DIFF_INV: usize = 89;
pub const SHIFT_CARRY_START: usize = 90; // 5 columns (90-94)
// ── Sorted memory table ──
pub const SORTED_MEM_ADDR: usize = 95;
pub const SORTED_MEM_VAL: usize = 96;
pub const SORTED_MEM_CLK: usize = 97;
pub const SORTED_MEM_IS_WRITE: usize = 98;
pub const SORTED_MEM_SAME_ADDR: usize = 99;
pub const SORTED_MEM_DIFF_INV: usize = 100;
// ── Sorted register table (3 slots per row) ──
pub const SORTED_REG_A_IDX: usize = 101;
pub const SORTED_REG_A_VAL: usize = 102;
pub const SORTED_REG_A_CLK: usize = 103;
pub const SORTED_REG_A_IS_WRITE: usize = 104;
pub const SORTED_REG_A_SAME_IDX: usize = 105;
pub const SORTED_REG_A_DIFF_INV: usize = 106;
pub const SORTED_REG_B_IDX: usize = 107;
pub const SORTED_REG_B_VAL: usize = 108;
pub const SORTED_REG_B_CLK: usize = 109;
pub const SORTED_REG_B_IS_WRITE: usize = 110;
pub const SORTED_REG_B_SAME_IDX: usize = 111;
pub const SORTED_REG_B_DIFF_INV: usize = 112;
pub const SORTED_REG_C_IDX: usize = 113;
pub const SORTED_REG_C_VAL: usize = 114;
pub const SORTED_REG_C_CLK: usize = 115;
pub const SORTED_REG_C_IS_WRITE: usize = 116;
pub const SORTED_REG_C_SAME_IDX: usize = 117;
pub const SORTED_REG_C_DIFF_INV: usize = 118;
// ── Program table (fixed ROM + multiplicities) ──
pub const PROG_ADDR: usize = 119;
pub const PROG_INSTR: usize = 120;
pub const PROG_MULT: usize = 121;
// ── Range check limbs (8 values × 2 limbs) ──
pub const LIMB_START: usize = 122; // 16 columns (122-137)
pub const RANGE_TABLE_VAL: usize = 138;
pub const RANGE_MULT: usize = 139;
// ── Instruction bit decomposition (32 bits) ──
pub const INSTR_BIT_START: usize = 140; // 32 columns (140-171)
// ── Register index inverses (for x0 constraints) ──
pub const RS1_IDX_INV: usize = 172;
pub const RS2_IDX_INV: usize = 173;
// ── Ordering diff limbs (sorted table enforcement) ──
pub const ORDERING_MEM_LO: usize = 174;
pub const ORDERING_MEM_HI: usize = 175;
pub const ORDERING_REG_A_LO: usize = 176;
pub const ORDERING_REG_A_HI: usize = 177;
pub const ORDERING_REG_B_LO: usize = 178;
pub const ORDERING_REG_B_HI: usize = 179;
pub const ORDERING_REG_C_LO: usize = 180;
pub const ORDERING_REG_C_HI: usize = 181;
// ── Halting flag ──
pub const IS_HALTED: usize = 182;
// ── Output table (addr, val, multiplicity) ──
pub const OUTPUT_ADDR: usize = 183;
pub const OUTPUT_VAL: usize = 184;
pub const OUTPUT_MULT: usize = 185;
// ── Opcode selectors ──
pub const OPCODE_SEL_START: usize = 186;
pub const NUM_FIXED: usize = 186;

} // verus!
