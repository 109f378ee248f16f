//! Deterministic RV32I CPU with trace generation.

use vstd::prelude::*;

use crate::decode::{decode, decoded, Instruction};
use crate::field::{bb_inv, inv};
use crate::memory::{
    half_at, half_bytes, in_bounds, put_half, put_word, reads, word_at, word_bytes, wrap, writes,
    Memory,
};
use crate::trace::{bits_of, decompose_bits, zeros, ExecutionTrace, TraceRow};

verus! {

/// Memory layout constants.
pub const INPUT_TAPE_ADDR: u32 = 0x0020_0000;
pub const OUTPUT_TAPE_ADDR: u32 = 0x0030_0000;
pub const STACK_TOP: u32 = 0x00F0_0000;

/// Why the CPU stopped.
#[derive(Debug, Clone, Copy, PartialEq, Eq, Structural)]
pub enum HaltReason {
    Ecall,
    Ebreak,
    InvalidInstruction(u32),
    CycleLimitReached,
}

/// Opcode class for selector polynomials.
#[derive(Debug, Clone, Copy, PartialEq, Eq, Structural)]
pub enum OpcodeClass {
    Add,
    Sub,
    And,
    Or,
    Xor,
    Sll,
    Srl,
    Sra,
    Slt,
    Sltu,
    Addi,
    Andi,
    Ori,
    Xori,
    Slti,
    Sltiu,
    Slli,
    Srli,
    Srai,
    Lw,
    Lh,
    Lb,
    Lhu,
    Lbu,
    Sw,
    Sh,
    Sb,
    Beq,
    Bne,
    Blt,
    Bge,
    Bltu,
    Bgeu,
    Jal,
    Jalr,
    Lui,
    Auipc,
    Ecall,
    Ebreak,
    Invalid,
}

pub const NUM_OPCODE_CLASSES: usize = 40;

/// The selector column of each class.
pub open spec fn class_index(c: OpcodeClass) -> nat {
    match c {
        OpcodeClass::Add => 0,
        OpcodeClass::Sub => 1,
        OpcodeClass::And => 2,
        OpcodeClass::Or => 3,
        OpcodeClass::Xor => 4,
        OpcodeClass::Sll => 5,
        OpcodeClass::Srl => 6,
        OpcodeClass::Sra => 7,
        OpcodeClass::Slt => 8,
        OpcodeClass::Sltu => 9,
        OpcodeClass::Addi => 10,
        OpcodeClass::Andi => 11,
        OpcodeClass::Ori => 12,
        OpcodeClass::Xori => 13,
        OpcodeClass::Slti => 14,
        OpcodeClass::Sltiu => 15,
        OpcodeClass::Slli => 16,
        OpcodeClass::Srli => 17,
        OpcodeClass::Srai => 18,
        OpcodeClass::Lw => 19,
        OpcodeClass::Lh => 20,
        OpcodeClass::Lb => 21,
        OpcodeClass::Lhu => 22,
        OpcodeClass::Lbu => 23,
        OpcodeClass::Sw => 24,
        OpcodeClass::Sh => 25,
        OpcodeClass::Sb => 26,
        OpcodeClass::Beq => 27,
        OpcodeClass::Bne => 28,
        OpcodeClass::Blt => 29,
        OpcodeClass::Bge => 30,
        OpcodeClass::Bltu => 31,
        OpcodeClass::Bgeu => 32,
        OpcodeClass::Jal => 33,
        OpcodeClass::Jalr => 34,
        OpcodeClass::Lui => 35,
        OpcodeClass::Auipc => 36,
        OpcodeClass::Ecall => 37,
        OpcodeClass::Ebreak => 38,
        OpcodeClass::Invalid => 39,
    }
}

impl OpcodeClass {
    /// The selector column of this class, `0..40`.
    pub fn index(self) -> (r: usize)
        ensures
            r == class_index(self),
            r < NUM_OPCODE_CLASSES,
    {
        match self {
            OpcodeClass::Add => 0,
            OpcodeClass::Sub => 1,
            OpcodeClass::And => 2,
            OpcodeClass::Or => 3,
            OpcodeClass::Xor => 4,
            OpcodeClass::Sll => 5,
            OpcodeClass::Srl => 6,
            OpcodeClass::Sra => 7,
            OpcodeClass::Slt => 8,
            OpcodeClass::Sltu => 9,
            OpcodeClass::Addi => 10,
            OpcodeClass::Andi => 11,
            OpcodeClass::Ori => 12,
            OpcodeClass::Xori => 13,
            OpcodeClass::Slti => 14,
            OpcodeClass::Sltiu => 15,
            OpcodeClass::Slli => 16,
            OpcodeClass::Srli => 17,
            OpcodeClass::Srai => 18,
            OpcodeClass::Lw => 19,
            OpcodeClass::Lh => 20,
            OpcodeClass::Lb => 21,
            OpcodeClass::Lhu => 22,
            OpcodeClass::Lbu => 23,
            OpcodeClass::Sw => 24,
            OpcodeClass::Sh => 25,
            OpcodeClass::Sb => 26,
            OpcodeClass::Beq => 27,
            OpcodeClass::Bne => 28,
            OpcodeClass::Blt => 29,
            OpcodeClass::Bge => 30,
            OpcodeClass::Bltu => 31,
            OpcodeClass::Bgeu => 32,
            OpcodeClass::Jal => 33,
            OpcodeClass::Jalr => 34,
            OpcodeClass::Lui => 35,
            OpcodeClass::Auipc => 36,
            OpcodeClass::Ecall => 37,
            OpcodeClass::Ebreak => 38,
            OpcodeClass::Invalid => 39,
        }
    }
}

/// The class of an instruction.
pub open spec fn class_of(instr: Instruction) -> OpcodeClass {
    match instr {
        Instruction::Add { .. } => OpcodeClass::Add,
        Instruction::Sub { .. } => OpcodeClass::Sub,
        Instruction::And { .. } => OpcodeClass::And,
        Instruction::Or { .. } => OpcodeClass::Or,
        Instruction::Xor { .. } => OpcodeClass::Xor,
        Instruction::Sll { .. } => OpcodeClass::Sll,
        Instruction::Srl { .. } => OpcodeClass::Srl,
        Instruction::Sra { .. } => OpcodeClass::Sra,
        Instruction::Slt { .. } => OpcodeClass::Slt,
        Instruction::Sltu { .. } => OpcodeClass::Sltu,
        Instruction::Addi { .. } => OpcodeClass::Addi,
        Instruction::Andi { .. } => OpcodeClass::Andi,
        Instruction::Ori { .. } => OpcodeClass::Ori,
        Instruction::Xori { .. } => OpcodeClass::Xori,
        Instruction::Slti { .. } => OpcodeClass::Slti,
        Instruction::Sltiu { .. } => OpcodeClass::Sltiu,
        Instruction::Slli { .. } => OpcodeClass::Slli,
        Instruction::Srli { .. } => OpcodeClass::Srli,
        Instruction::Srai { .. } => OpcodeClass::Srai,
        Instruction::Lw { .. } => OpcodeClass::Lw,
        Instruction::Lh { .. } => OpcodeClass::Lh,
        Instruction::Lb { .. } => OpcodeClass::Lb,
        Instruction::Lhu { .. } => OpcodeClass::Lhu,
        Instruction::Lbu { .. } => OpcodeClass::Lbu,
        Instruction::Sw { .. } => OpcodeClass::Sw,
        Instruction::Sh { .. } => OpcodeClass::Sh,
        Instruction::Sb { .. } => OpcodeClass::Sb,
        Instruction::Beq { .. } => OpcodeClass::Beq,
        Instruction::Bne { .. } => OpcodeClass::Bne,
        Instruction::Blt { .. } => OpcodeClass::Blt,
        Instruction::Bge { .. } => OpcodeClass::Bge,
        Instruction::Bltu { .. } => OpcodeClass::Bltu,
        Instruction::Bgeu { .. } => OpcodeClass::Bgeu,
        Instruction::Jal { .. } => OpcodeClass::Jal,
        Instruction::Jalr { .. } => OpcodeClass::Jalr,
        Instruction::Lui { .. } => OpcodeClass::Lui,
        Instruction::Auipc { .. } => OpcodeClass::Auipc,
        Instruction::Ecall => OpcodeClass::Ecall,
        Instruction::Ebreak => OpcodeClass::Ebreak,
        Instruction::Invalid(_) => OpcodeClass::Invalid,
    }
}

/// Opcode class of an instruction.
pub fn opcode_class(instr: &Instruction) -> (r: OpcodeClass)
    ensures
        r == class_of(*instr),
{
    match instr {
        Instruction::Add { .. } => OpcodeClass::Add,
        Instruction::Sub { .. } => OpcodeClass::Sub,
        Instruction::And { .. } => OpcodeClass::And,
        Instruction::Or { .. } => OpcodeClass::Or,
        Instruction::Xor { .. } => OpcodeClass::Xor,
        Instruction::Sll { .. } => OpcodeClass::Sll,
        Instruction::Srl { .. } => OpcodeClass::Srl,
        Instruction::Sra { .. } => OpcodeClass::Sra,
        Instruction::Slt { .. } => OpcodeClass::Slt,
        Instruction::Sltu { .. } => OpcodeClass::Sltu,
        Instruction::Addi { .. } => OpcodeClass::Addi,
        Instruction::Andi { .. } => OpcodeClass::Andi,
        Instruction::Ori { .. } => OpcodeClass::Ori,
        Instruction::Xori { .. } => OpcodeClass::Xori,
        Instruction::Slti { .. } => OpcodeClass::Slti,
        Instruction::Sltiu { .. } => OpcodeClass::Sltiu,
        Instruction::Slli { .. } => OpcodeClass::Slli,
        Instruction::Srli { .. } => OpcodeClass::Srli,
        Instruction::Srai { .. } => OpcodeClass::Srai,
        Instruction::Lw { .. } => OpcodeClass::Lw,
        Instruction::Lh { .. } => OpcodeClass::Lh,
        Instruction::Lb { .. } => OpcodeClass::Lb,
        Instruction::Lhu { .. } => OpcodeClass::Lhu,
        Instruction::Lbu { .. } => OpcodeClass::Lbu,
        Instruction::Sw { .. } => OpcodeClass::Sw,
        Instruction::Sh { .. } => OpcodeClass::Sh,
        Instruction::Sb { .. } => OpcodeClass::Sb,
        Instruction::Beq { .. } => OpcodeClass::Beq,
        Instruction::Bne { .. } => OpcodeClass::Bne,
        Instruction::Blt { .. } => OpcodeClass::Blt,
        Instruction::Bge { .. } => OpcodeClass::Bge,
        Instruction::Bltu { .. } => OpcodeClass::Bltu,
        Instruction::Bgeu { .. } => OpcodeClass::Bgeu,
        Instruction::Jal { .. } => OpcodeClass::Jal,
        Instruction::Jalr { .. } => OpcodeClass::Jalr,
        Instruction::Lui { .. } => OpcodeClass::Lui,
        Instruction::Auipc { .. } => OpcodeClass::Auipc,
        Instruction::Ecall => OpcodeClass::Ecall,
        Instruction::Ebreak => OpcodeClass::Ebreak,
        Instruction::Invalid(_) => OpcodeClass::Invalid,
    }
}

/// The registers an instruction names, as `(rs1, rs2, rd)`; unused ones are 0.
pub open spec fn regs_of(instr: Instruction) -> (u32, u32, u32) {
    match instr {
        Instruction::Add { rd, rs1, rs2 }
        | Instruction::Sub { rd, rs1, rs2 }
        | Instruction::Sll { rd, rs1, rs2 }
        | Instruction::Slt { rd, rs1, rs2 }
        | Instruction::Sltu { rd, rs1, rs2 }
        | Instruction::Xor { rd, rs1, rs2 }
        | Instruction::Srl { rd, rs1, rs2 }
        | Instruction::Sra { rd, rs1, rs2 }
        | Instruction::Or { rd, rs1, rs2 }
        | Instruction::And { rd, rs1, rs2 } => (rs1, rs2, rd),
        Instruction::Addi { rd, rs1, .. }
        | Instruction::Slti { rd, rs1, .. }
        | Instruction::Sltiu { rd, rs1, .. }
        | Instruction::Xori { rd, rs1, .. }
        | Instruction::Ori { rd, rs1, .. }
        | Instruction::Andi { rd, rs1, .. }
        | Instruction::Slli { rd, rs1, .. }
        | Instruction::Srli { rd, rs1, .. }
        | Instruction::Srai { rd, rs1, .. } => (rs1, 0, rd),
        Instruction::Lb { rd, rs1, .. }
        | Instruction::Lh { rd, rs1, .. }
        | Instruction::Lw { rd, rs1, .. }
        | Instruction::Lbu { rd, rs1, .. }
        | Instruction::Lhu { rd, rs1, .. } => (rs1, 0, rd),
        Instruction::Sb { rs1, rs2, .. }
        | Instruction::Sh { rs1, rs2, .. }
        | Instruction::Sw { rs1, rs2, .. } => (rs1, rs2, 0),
        Instruction::Beq { rs1, rs2, .. }
        | Instruction::Bne { rs1, rs2, .. }
        | Instruction::Blt { rs1, rs2, .. }
        | Instruction::Bge { rs1, rs2, .. }
        | Instruction::Bltu { rs1, rs2, .. }
        | Instruction::Bgeu { rs1, rs2, .. } => (rs1, rs2, 0),
        Instruction::Jalr { rd, rs1, .. } => (rs1, 0, rd),
        Instruction::Jal { rd, .. } => (0, 0, rd),
        Instruction::Lui { rd, .. } | Instruction::Auipc { rd, .. } => (0, 0, rd),
        Instruction::Ecall | Instruction::Ebreak | Instruction::Invalid(_) => (0, 0, 0),
    }
}

/// Extract register indices from an instruction.
pub fn instr_regs(instr: &Instruction) -> (r: (u32, u32, u32))
    ensures
        r == regs_of(*instr),
{
    match *instr {
        Instruction::Add { rd, rs1, rs2 }
        | Instruction::Sub { rd, rs1, rs2 }
        | Instruction::Sll { rd, rs1, rs2 }
        | Instruction::Slt { rd, rs1, rs2 }
        | Instruction::Sltu { rd, rs1, rs2 }
        | Instruction::Xor { rd, rs1, rs2 }
        | Instruction::Srl { rd, rs1, rs2 }
        | Instruction::Sra { rd, rs1, rs2 }
        | Instruction::Or { rd, rs1, rs2 }
        | Instruction::And { rd, rs1, rs2 } => (rs1, rs2, rd),
        Instruction::Addi { rd, rs1, .. }
        | Instruction::Slti { rd, rs1, .. }
        | Instruction::Sltiu { rd, rs1, .. }
        | Instruction::Xori { rd, rs1, .. }
        | Instruction::Ori { rd, rs1, .. }
        | Instruction::Andi { rd, rs1, .. }
        | Instruction::Slli { rd, rs1, .. }
        | Instruction::Srli { rd, rs1, .. }
        | Instruction::Srai { rd, rs1, .. } => (rs1, 0, rd),
        Instruction::Lb { rd, rs1, .. }
        | Instruction::Lh { rd, rs1, .. }
        | Instruction::Lw { rd, rs1, .. }
        | Instruction::Lbu { rd, rs1, .. }
        | Instruction::Lhu { rd, rs1, .. } => (rs1, 0, rd),
        Instruction::Sb { rs1, rs2, .. }
        | Instruction::Sh { rs1, rs2, .. }
        | Instruction::Sw { rs1, rs2, .. } => (rs1, rs2, 0),
        Instruction::Beq { rs1, rs2, .. }
        | Instruction::Bne { rs1, rs2, .. }
        | Instruction::Blt { rs1, rs2, .. }
        | Instruction::Bge { rs1, rs2, .. }
        | Instruction::Bltu { rs1, rs2, .. }
        | Instruction::Bgeu { rs1, rs2, .. } => (rs1, rs2, 0),
        Instruction::Jalr { rd, rs1, .. } => (rs1, 0, rd),
        Instruction::Jal { rd, .. } => (0, 0, rd),
        Instruction::Lui { rd, .. } | Instruction::Auipc { rd, .. } => (0, 0, rd),
        Instruction::Ecall | Instruction::Ebreak | Instruction::Invalid(_) => (0, 0, 0),
    }
}

/// The immediate of an instruction as a `u32` (two's complement), or 0.
pub open spec fn imm_of(instr: Instruction) -> u32 {
    match instr {
        Instruction::Lui { imm, .. } | Instruction::Auipc { imm, .. } => imm,
        Instruction::Jal { imm, .. } => imm as u32,
        Instruction::Jalr { imm, .. } => imm as u32,
        Instruction::Beq { imm, .. }
        | Instruction::Bne { imm, .. }
        | Instruction::Blt { imm, .. }
        | Instruction::Bge { imm, .. }
        | Instruction::Bltu { imm, .. }
        | Instruction::Bgeu { imm, .. } => imm as u32,
        Instruction::Lb { imm, .. }
        | Instruction::Lh { imm, .. }
        | Instruction::Lw { imm, .. }
        | Instruction::Lbu { imm, .. }
        | Instruction::Lhu { imm, .. } => imm as u32,
        Instruction::Sb { imm, .. } | Instruction::Sh { imm, .. } | Instruction::Sw { imm, .. } => imm as u32,
        Instruction::Addi { imm, .. }
        | Instruction::Slti { imm, .. }
        | Instruction::Sltiu { imm, .. }
        | Instruction::Xori { imm, .. }
        | Instruction::Ori { imm, .. }
        | Instruction::Andi { imm, .. } => imm as u32,
        Instruction::Slli { shamt, .. }
        | Instruction::Srli { shamt, .. }
        | Instruction::Srai { shamt, .. } => shamt,
        _ => 0,
    }
}

/// Extract the immediate value as a u32 for the trace.
pub fn instr_imm(instr: &Instruction) -> (r: u32)
    ensures
        r == imm_of(*instr),
{
    match *instr {
        Instruction::Lui { imm, .. } | Instruction::Auipc { imm, .. } => imm,
        Instruction::Jal { imm, .. } => imm as u32,
        Instruction::Jalr { imm, .. } => imm as u32,
        Instruction::Beq { imm, .. }
        | Instruction::Bne { imm, .. }
        | Instruction::Blt { imm, .. }
        | Instruction::Bge { imm, .. }
        | Instruction::Bltu { imm, .. }
        | Instruction::Bgeu { imm, .. } => imm as u32,
        Instruction::Lb { imm, .. }
        | Instruction::Lh { imm, .. }
        | Instruction::Lw { imm, .. }
        | Instruction::Lbu { imm, .. }
        | Instruction::Lhu { imm, .. } => imm as u32,
        Instruction::Sb { imm, .. } | Instruction::Sh { imm, .. } | Instruction::Sw { imm, .. } => imm as u32,
        Instruction::Addi { imm, .. }
        | Instruction::Slti { imm, .. }
        | Instruction::Sltiu { imm, .. }
        | Instruction::Xori { imm, .. }
        | Instruction::Ori { imm, .. }
        | Instruction::Andi { imm, .. } => imm as u32,
        Instruction::Slli { shamt, .. }
        | Instruction::Srli { shamt, .. }
        | Instruction::Srai { shamt, .. } => shamt,
        _ => 0,
    }
}


/// Bit `k` of the shift amount selects barrel stage `k`.
pub open spec fn stage_on(shamt: u32, k: nat) -> bool {
    (shamt >> (k as u32)) & 1 == 1
}

/// The left-shift barrel value after `k` stages, truncated to 32 bits.
pub open spec fn shl_cur(val: u32, shamt: u32, k: nat) -> u64
    decreases k,
{
    if k == 0 {
        val as u64
    } else {
        shl_shifted(shl_cur(val, shamt, (k - 1) as nat), shamt, (k - 1) as nat) & 0xFFFF_FFFF
    }
}

/// Stage `k` of the left shifter applied to `cur` (before truncation).
pub open spec fn shl_shifted(cur: u64, shamt: u32, k: nat) -> u64 {
    if stage_on(shamt, k) { cur << (1u64 << (k as u64)) } else { cur }
}

/// The logical-right barrel value after `k` stages.
pub open spec fn shr_cur(val: u32, shamt: u32, k: nat) -> u32
    decreases k,
{
    if k == 0 {
        val
    } else {
        let prev = shr_cur(val, shamt, (k - 1) as nat);
        if stage_on(shamt, (k - 1) as nat) { prev >> (1u32 << ((k - 1) as u32)) } else { prev }
    }
}

/// The arithmetic-right barrel value after `k` stages.
pub open spec fn sra_cur(val: u32, shamt: u32, k: nat) -> i32
    decreases k,
{
    if k == 0 {
        val as i32
    } else {
        let prev = sra_cur(val, shamt, (k - 1) as nat);
        if stage_on(shamt, (k - 1) as nat) { prev >> (1u32 << ((k - 1) as u32)) } else { prev }
    }
}

/// The low `2^k` bits mask used for the bits shifted out at stage `k`.
pub open spec fn stage_mask(k: nat) -> u32 {
    ((1u32 << (1u32 << (k as u32))) - 1) as u32
}

/// Stages of the left shifter: the value after each stage.
pub open spec fn shl_stages(val: u32, shamt: u32) -> Seq<u32> {
    Seq::new(5, |k: int| shl_cur(val, shamt, (k + 1) as nat) as u32)
}

/// Carries of the left shifter: the bits pushed above bit 31 at each stage.
pub open spec fn shl_carries(val: u32, shamt: u32) -> Seq<u32> {
    Seq::new(5, |k: int| (shl_shifted(shl_cur(val, shamt, k as nat), shamt, k as nat) >> 32u64) as u32)
}

/// Stages of the logical right shifter.
pub open spec fn shr_stages(val: u32, shamt: u32) -> Seq<u32> {
    Seq::new(5, |k: int| shr_cur(val, shamt, (k + 1) as nat))
}

/// Carries of the logical right shifter: the bits shifted out at each stage.
pub open spec fn shr_carries(val: u32, shamt: u32) -> Seq<u32> {
    Seq::new(5, |k: int| if stage_on(shamt, k as nat) { shr_cur(val, shamt, k as nat) & stage_mask(k as nat) } else { 0 })
}

/// Stages of the arithmetic right shifter.
pub open spec fn sra_stages(val: u32, shamt: u32) -> Seq<u32> {
    Seq::new(5, |k: int| sra_cur(val, shamt, (k + 1) as nat) as u32)
}

/// Carries of the arithmetic right shifter.
pub open spec fn sra_carries(val: u32, shamt: u32) -> Seq<u32> {
    Seq::new(5, |k: int| if stage_on(shamt, k as nat) { (sra_cur(val, shamt, k as nat) as u32) & stage_mask(k as nat) } else { 0 })
}

proof fn lemma_stage_mask_ok(k: u32)
    requires
        k < 5,
    ensures
        1u32 << (1u32 << k) >= 1,
        (1u32 << k) < 32,
{
    assert(k < 5 ==> (1u32 << k) <= 16) by (bit_vector);
    assert(k < 5 ==> 1u32 << (1u32 << k) >= 1) by (bit_vector);
}

/// Compute barrel shifter stages for left shift, returning both stages and carries.
/// `stage[k]` is the value after stage `k` (truncated to 32 bits); `carry[k]`
/// the bits pushed above bit 31 by stage `k`.
pub fn barrel_shift_left_with_carry(val: u32, shamt: u32) -> (r: ([u32; 5], [u32; 5]))
    ensures
        r.0@ == shl_stages(val, shamt),
        r.1@ == shl_carries(val, shamt),
{
    let mut stages: [u32; 5] = [0; 5];
    let mut carries: [u32; 5] = [0; 5];
    let mut cur: u64 = val as u64;
    let mut k: u32 = 0;
    while k < 5
        invariant
            k <= 5,
            cur == shl_cur(val, shamt, k as nat),
            cur <= 0xFFFF_FFFF,
            forall|j: int| 0 <= j < k ==> stages@[j] == shl_stages(val, shamt)[j],
            forall|j: int| 0 <= j < k ==> carries@[j] == shl_carries(val, shamt)[j],
        decreases 5 - k,
    {
        proof {
            lemma_stage_mask_ok(k);
        }
        let ghost before = cur;
        if (shamt >> k) & 1 == 1 {
            let s: u64 = 1u64 << (k as u64);
            assert(s <= 16) by (bit_vector)
                requires
                    k < 5,
                    s == 1u64 << (k as u64),
            ;
            cur = cur << s;
        }
        assert(cur == shl_shifted(shl_cur(val, shamt, k as nat), shamt, k as nat));
        let c: u64 = cur >> 32u64;
        assert(c <= 0xFFFF_FFFF) by (bit_vector)
            requires
                c == cur >> 32u64,
        ;
        carries[k as usize] = c as u32;
        let masked: u64 = cur & 0xFFFF_FFFF;
        assert(masked <= 0xFFFF_FFFF) by (bit_vector)
            requires
                masked == cur & 0xFFFF_FFFF,
        ;
        cur = masked;
        stages[k as usize] = cur as u32;
        assert(cur == shl_cur(val, shamt, (k + 1) as nat));
        k = k + 1;
    }
    assert(stages@ =~= shl_stages(val, shamt));
    assert(carries@ =~= shl_carries(val, shamt));
    (stages, carries)
}

/// Compute barrel shifter stages for logical right shift with carries.
/// `carry[k]` captures the bits shifted out from the bottom at stage `k`.
pub fn barrel_shift_right_with_carry(val: u32, shamt: u32) -> (r: ([u32; 5], [u32; 5]))
    ensures
        r.0@ == shr_stages(val, shamt),
        r.1@ == shr_carries(val, shamt),
{
    let mut stages: [u32; 5] = [0; 5];
    let mut carries: [u32; 5] = [0; 5];
    let mut cur: u32 = val;
    let mut k: u32 = 0;
    while k < 5
        invariant
            k <= 5,
            cur == shr_cur(val, shamt, k as nat),
            forall|j: int| 0 <= j < k ==> stages@[j] == shr_stages(val, shamt)[j],
            forall|j: int| 0 <= j < k ==> carries@[j] == shr_carries(val, shamt)[j],
            forall|j: int| k <= j < 5 ==> carries@[j] == 0,
        decreases 5 - k,
    {
        proof {
            lemma_stage_mask_ok(k);
        }
        if (shamt >> k) & 1 == 1 {
            let shift_amt: u32 = 1u32 << k;
            carries[k as usize] = cur & ((1u32 << shift_amt) - 1);
            cur = cur >> shift_amt;
        }
        stages[k as usize] = cur;
        k = k + 1;
    }
    assert(stages@ =~= shr_stages(val, shamt));
    assert(carries@ =~= shr_carries(val, shamt));
    (stages, carries)
}

/// Compute barrel shifter stages for arithmetic right shift with carries.
pub fn barrel_shift_right_arith_with_carry(val: u32, shamt: u32) -> (r: ([u32; 5], [u32; 5]))
    ensures
        r.0@ == sra_stages(val, shamt),
        r.1@ == sra_carries(val, shamt),
{
    let mut stages: [u32; 5] = [0; 5];
    let mut carries: [u32; 5] = [0; 5];
    let mut cur: i32 = val as i32;
    let mut k: u32 = 0;
    while k < 5
        invariant
            k <= 5,
            cur == sra_cur(val, shamt, k as nat),
            forall|j: int| 0 <= j < k ==> stages@[j] == sra_stages(val, shamt)[j],
            forall|j: int| 0 <= j < k ==> carries@[j] == sra_carries(val, shamt)[j],
            forall|j: int| k <= j < 5 ==> carries@[j] == 0,
        decreases 5 - k,
    {
        proof {
            lemma_stage_mask_ok(k);
        }
        if (shamt >> k) & 1 == 1 {
            let shift_amt: u32 = 1u32 << k;
            carries[k as usize] = (cur as u32) & ((1u32 << shift_amt) - 1);
            cur = cur >> shift_amt;
        }
        stages[k as usize] = cur as u32;
        k = k + 1;
    }
    assert(stages@ =~= sra_stages(val, shamt));
    assert(carries@ =~= sra_carries(val, shamt));
    (stages, carries)
}


/// The architectural state of the CPU.
pub struct CpuState {
    pub regs: Seq<u32>,
    pub pc: u32,
    pub cycle: u32,
    pub halted: bool,
    pub halt_reason: Option<HaltReason>,
}

/// CPU state: 32 registers + PC.
pub struct Cpu {
    pub regs: [u32; 32],
    pub pc: u32,
    pub cycle: u32,
    pub halted: bool,
    pub halt_reason: Option<HaltReason>,
}

impl View for Cpu {
    type V = CpuState;

    open spec fn view(&self) -> CpuState {
        CpuState {
            regs: self.regs@,
            pc: self.pc,
            cycle: self.cycle,
            halted: self.halted,
            halt_reason: self.halt_reason,
        }
    }
}

/// The value of register `idx` (`x0` reads as 0).
pub open spec fn reg_value(regs: Seq<u32>, idx: u32) -> u32 {
    if idx == 0 { 0 } else { regs[idx as int] }
}

/// The registers after writing `v` to `idx` (writes to `x0` are discarded).
pub open spec fn reg_update(regs: Seq<u32>, idx: u32, v: u32) -> Seq<u32> {
    if idx == 0 { regs } else { regs.update(idx as int, v) }
}

/// `a - b` with 32-bit wrap-around.
pub open spec fn wsub(a: u32, b: u32) -> u32 {
    if a - b < 0 { (a - b + 0x1_0000_0000) as u32 } else { (a - b) as u32 }
}

/// The carry out of the 32-bit addition `a + b`.
pub open spec fn carry32(a: u32, b: u32) -> u32 {
    if a + b >= 0x1_0000_0000 { 1 } else { 0 }
}

/// `a - b + 2^31` modulo `2^32`: its top bit is clear exactly when
/// `a < b` as signed integers.
pub open spec fn signed_diff(a: u32, b: u32) -> u32 {
    wrap(wsub(a, b), 0x8000_0000)
}

/// The field inverse of `a - b` (wrapping), or 0 when `a == b`.
pub open spec fn diff_inv(a: u32, b: u32) -> u32 {
    let d = wsub(a, b);
    if d != 0 { inv(d as int) as u32 } else { 0 }
}

/// The field inverse of a register index, or 0 for `x0`.
pub open spec fn idx_inv(idx: u32) -> u32 {
    if idx != 0 { inv(idx as int) as u32 } else { 0 }
}

/// The little-endian word at `pc`, as fetched.
pub open spec fn fetch(bytes: Seq<u8>, pc: u32) -> u32 {
    (bytes[pc as int] + 256 * bytes[pc + 1] + 65536 * bytes[pc + 2] + 16777216 * bytes[pc + 3]) as u32
}

/// What executing one instruction produces besides the register write:
/// the value written to `rd`, the next PC, the memory access, and the
/// auxiliary witness values of the trace row.
pub struct Effect {
    pub rd_val: u32,
    pub next_pc: u32,
    pub mem_addr: u32,
    pub mem_val: u32,
    pub is_load: bool,
    pub is_store: bool,
    pub branch_taken: bool,
    pub alu_carry: u32,
    pub pc_carry: u32,
    pub bits_a: Seq<u32>,
    pub bits_b: Seq<u32>,
    pub shift_stages: Seq<u32>,
    pub shift_carry: Seq<u32>,
    pub mem_addr_carry: u32,
    pub jalr_bit0: u32,
    pub branch_diff_inv: u32,
    pub writes_rd: bool,
    pub halt: Option<HaltReason>,
}

/// The effect of an instruction that only advances the PC.
pub open spec fn plain(pc: u32) -> Effect {
    Effect {
        rd_val: 0,
        next_pc: wrap(pc, 4),
        mem_addr: 0,
        mem_val: 0,
        is_load: false,
        is_store: false,
        branch_taken: false,
        alu_carry: 0,
        pc_carry: 0,
        bits_a: zeros(32),
        bits_b: zeros(32),
        shift_stages: zeros(5),
        shift_carry: zeros(5),
        mem_addr_carry: 0,
        jalr_bit0: 0,
        branch_diff_inv: 0,
        writes_rd: false,
        halt: None,
    }
}

/// A register write of `v` that advances the PC.
pub open spec fn write_rd(pc: u32, v: u32) -> Effect {
    Effect { rd_val: v, writes_rd: true, ..plain(pc) }
}

/// A conditional branch by `imm` from `pc`.
pub open spec fn branch(pc: u32, imm: i32, taken: bool) -> Effect {
    Effect {
        next_pc: if taken { wrap(pc, (imm as u32) as int) } else { wrap(pc, 4) },
        branch_taken: taken,
        pc_carry: if taken { carry32(pc, imm as u32) } else { 0 },
        ..plain(pc)
    }
}

/// The address `base + imm` (wrapping) accessed by a load or store.
pub open spec fn ea(base: u32, imm: i32) -> u32 {
    wrap(base, (imm as u32) as int)
}

/// A load of `rd_val` (whose memory value is `mem_val`) from `base + imm`.
pub open spec fn load(pc: u32, base: u32, imm: i32, rd_val: u32, mem_val: u32) -> Effect {
    Effect {
        mem_addr: ea(base, imm),
        mem_addr_carry: carry32(base, imm as u32),
        mem_val,
        is_load: true,
        ..write_rd(pc, rd_val)
    }
}

/// A store of `mem_val` to `base + imm`.
pub open spec fn store(pc: u32, base: u32, imm: i32, mem_val: u32) -> Effect {
    Effect {
        mem_addr: ea(base, imm),
        mem_addr_carry: carry32(base, imm as u32),
        mem_val,
        is_store: true,
        ..plain(pc)
    }
}

/// A bitwise operation: the result and the bit decompositions of both operands.
pub open spec fn bitwise(pc: u32, x: u32, y: u32, v: u32) -> Effect {
    Effect { bits_a: bits_of(x), bits_b: bits_of(y), ..write_rd(pc, v) }
}

/// A signed comparison result `v` with the decomposition of `x - y + 2^31`.
pub open spec fn signed_less(pc: u32, x: u32, y: u32, v: u32) -> Effect {
    Effect { bits_a: bits_of(signed_diff(x, y)), ..write_rd(pc, v) }
}

/// A shift result with its barrel stages and carries.
pub open spec fn shift(pc: u32, x: u32, shamt: u32, v: u32, stages: Seq<u32>, carries: Seq<u32>) -> Effect {
    Effect {
        bits_a: bits_of(x),
        bits_b: bits_of(shamt),
        shift_stages: stages,
        shift_carry: carries,
        ..write_rd(pc, v)
    }
}

/// A halt with `reason`.
pub open spec fn halt(pc: u32, reason: HaltReason) -> Effect {
    Effect { halt: Some(reason), ..plain(pc) }
}

/// One as a 32-bit flag when `b` holds.
pub open spec fn flag(b: bool) -> u32 {
    if b { 1 } else { 0 }
}

/// The RV32I semantics of `instr` at `pc` with source values `a` (rs1) and
/// `b` (rs2), over memory `bytes`.
pub open spec fn effect(instr: Instruction, pc: u32, a: u32, b: u32, bytes: Seq<u8>) -> Effect {
    match instr {
        Instruction::Lui { imm, .. } => write_rd(pc, imm),
        Instruction::Auipc { imm, .. } => Effect { alu_carry: carry32(pc, imm), ..write_rd(pc, wrap(pc, imm as int)) },
        Instruction::Jal { imm, .. } => Effect {
            alu_carry: carry32(pc, 4),
            next_pc: wrap(pc, (imm as u32) as int),
            pc_carry: carry32(pc, imm as u32),
            ..write_rd(pc, wrap(pc, 4))
        },
        Instruction::Jalr { imm, .. } => {
            let raw = wrap(a, (imm as u32) as int);
            Effect {
                alu_carry: carry32(pc, 4),
                jalr_bit0: raw & 1,
                next_pc: raw & !1u32,
                pc_carry: carry32(a, imm as u32),
                ..write_rd(pc, wrap(pc, 4))
            }
        },
        Instruction::Beq { imm, .. } => Effect { branch_diff_inv: diff_inv(a, b), ..branch(pc, imm, a == b) },
        Instruction::Bne { imm, .. } => Effect { branch_diff_inv: diff_inv(a, b), ..branch(pc, imm, a != b) },
        Instruction::Blt { imm, .. } => Effect { bits_a: bits_of(signed_diff(a, b)), ..branch(pc, imm, (a as i32) < (b as i32)) },
        Instruction::Bge { imm, .. } => Effect { bits_a: bits_of(signed_diff(a, b)), ..branch(pc, imm, (a as i32) >= (b as i32)) },
        Instruction::Bltu { imm, .. } => Effect { alu_carry: flag(a < b), ..branch(pc, imm, a < b) },
        Instruction::Bgeu { imm, .. } => Effect { alu_carry: flag(a < b), ..branch(pc, imm, a >= b) },
        Instruction::Lb { imm, .. } => {
            let byte = bytes[ea(a, imm) as int];
            load(pc, a, imm, ((byte as i8) as i32) as u32, byte as u32)
        },
        Instruction::Lh { imm, .. } => {
            let half = half_at(bytes, ea(a, imm)) as u16;
            load(pc, a, imm, ((half as i16) as i32) as u32, half as u32)
        },
        Instruction::Lw { imm, .. } => {
            let word = word_at(bytes, ea(a, imm)) as u32;
            load(pc, a, imm, word, word)
        },
        Instruction::Lbu { imm, .. } => {
            let byte = bytes[ea(a, imm) as int];
            load(pc, a, imm, byte as u32, byte as u32)
        },
        Instruction::Lhu { imm, .. } => {
            let half = half_at(bytes, ea(a, imm)) as u32;
            load(pc, a, imm, half, half)
        },
        Instruction::Sb { imm, .. } => store(pc, a, imm, b & 0xff),
        Instruction::Sh { imm, .. } => store(pc, a, imm, b & 0xffff),
        Instruction::Sw { imm, .. } => store(pc, a, imm, b),
        Instruction::Addi { imm, .. } => Effect { alu_carry: carry32(a, imm as u32), ..write_rd(pc, wrap(a, (imm as u32) as int)) },
        Instruction::Slti { imm, .. } => signed_less(pc, a, imm as u32, flag((a as i32) < imm)),
        Instruction::Sltiu { imm, .. } => Effect { alu_carry: flag(a < imm as u32), ..write_rd(pc, flag(a < imm as u32)) },
        Instruction::Xori { imm, .. } => bitwise(pc, a, imm as u32, a ^ (imm as u32)),
        Instruction::Ori { imm, .. } => bitwise(pc, a, imm as u32, a | (imm as u32)),
        Instruction::Andi { imm, .. } => bitwise(pc, a, imm as u32, a & (imm as u32)),
        Instruction::Slli { shamt, .. } => shift(pc, a, shamt, a << shamt, shl_stages(a, shamt), shl_carries(a, shamt)),
        Instruction::Srli { shamt, .. } => shift(pc, a, shamt, a >> shamt, shr_stages(a, shamt), shr_carries(a, shamt)),
        Instruction::Srai { shamt, .. } => shift(pc, a, shamt, ((a as i32) >> shamt) as u32, sra_stages(a, shamt), sra_carries(a, shamt)),
        Instruction::Add { .. } => Effect { alu_carry: carry32(a, b), ..write_rd(pc, wrap(a, b as int)) },
        Instruction::Sub { .. } => Effect { alu_carry: flag(a < b), ..write_rd(pc, wsub(a, b)) },
        Instruction::Sll { .. } => {
            let sh = b & 0x1f;
            shift(pc, a, sh, a << sh, shl_stages(a, sh), shl_carries(a, sh))
        },
        Instruction::Slt { .. } => signed_less(pc, a, b, flag((a as i32) < (b as i32))),
        Instruction::Sltu { .. } => Effect { alu_carry: flag(a < b), ..write_rd(pc, flag(a < b)) },
        Instruction::Xor { .. } => bitwise(pc, a, b, a ^ b),
        Instruction::Srl { .. } => {
            let sh = b & 0x1f;
            shift(pc, a, sh, a >> sh, shr_stages(a, sh), shr_carries(a, sh))
        },
        Instruction::Sra { .. } => {
            let sh = b & 0x1f;
            shift(pc, a, sh, ((a as i32) >> sh) as u32, sra_stages(a, sh), sra_carries(a, sh))
        },
        Instruction::Or { .. } => bitwise(pc, a, b, a | b),
        Instruction::And { .. } => bitwise(pc, a, b, a & b),
        Instruction::Ecall => halt(pc, HaltReason::Ecall),
        Instruction::Ebreak => halt(pc, HaltReason::Ebreak),
        Instruction::Invalid(w) => halt(pc, HaltReason::InvalidInstruction(w)),
    }
}

/// The bytes a load or store of `instr` touches: `(address, width)`.
pub open spec fn access_of(instr: Instruction, a: u32) -> Option<(u32, int)> {
    match instr {
        Instruction::Lb { imm, .. } | Instruction::Lbu { imm, .. } | Instruction::Sb { imm, .. } => Some((ea(a, imm), 1)),
        Instruction::Lh { imm, .. } | Instruction::Lhu { imm, .. } | Instruction::Sh { imm, .. } => Some((ea(a, imm), 2)),
        Instruction::Lw { imm, .. } | Instruction::Sw { imm, .. } => Some((ea(a, imm), 4)),
        _ => None,
    }
}

/// Memory after `instr` (with effect `e`) executed.
pub open spec fn mem_after(bytes: Seq<u8>, instr: Instruction, e: Effect) -> Seq<u8> {
    match instr {
        Instruction::Sb { .. } => bytes.update(e.mem_addr as int, e.mem_val as u8),
        Instruction::Sh { .. } => put_half(bytes, e.mem_addr, e.mem_val as u16),
        Instruction::Sw { .. } => put_word(bytes, e.mem_addr, e.mem_val),
        _ => bytes,
    }
}

/// The memory-log entries `instr` (with effect `e`) appends at cycle `clk`.
pub open spec fn log_of(bytes: Seq<u8>, instr: Instruction, e: Effect, clk: u32) -> Seq<crate::memory::MemoryAccess> {
    match instr {
        Instruction::Lb { .. } | Instruction::Lbu { .. } => reads(bytes, e.mem_addr, 1, clk),
        Instruction::Lh { .. } | Instruction::Lhu { .. } => reads(bytes, e.mem_addr, 2, clk),
        Instruction::Lw { .. } => reads(bytes, e.mem_addr, 4, clk),
        Instruction::Sb { .. } => writes(e.mem_addr, seq![e.mem_val as u8], clk),
        Instruction::Sh { .. } => writes(e.mem_addr, half_bytes(e.mem_val as u16), clk),
        Instruction::Sw { .. } => writes(e.mem_addr, word_bytes(e.mem_val), clk),
        _ => seq![],
    }
}

/// The instruction at the PC of `c`.
pub open spec fn current_instr(c: CpuState, bytes: Seq<u8>) -> Instruction {
    decoded(fetch(bytes, c.pc))
}

/// The source values `(rs1, rs2)` the current instruction reads.
pub open spec fn sources(c: CpuState, bytes: Seq<u8>) -> (u32, u32) {
    let r = regs_of(current_instr(c, bytes));
    (reg_value(c.regs, r.0), reg_value(c.regs, r.1))
}

/// The effect of the current instruction.
pub open spec fn current_effect(c: CpuState, bytes: Seq<u8>) -> Effect {
    let src = sources(c, bytes);
    effect(current_instr(c, bytes), c.pc, src.0, src.1, bytes)
}

/// The step from `c` can execute: the instruction word lies in memory, every
/// byte a load or store touches lies in memory, and the cycle counter can
/// advance.
pub open spec fn step_ok(c: CpuState, bytes: Seq<u8>) -> bool {
    &&& c.regs.len() == 32
    &&& c.pc + 4 <= bytes.len()
    &&& c.cycle < u32::MAX
    &&& match access_of(current_instr(c, bytes), sources(c, bytes).0) {
        Some((addr, n)) => in_bounds(bytes.len(), addr, n),
        None => true,
    }
}

/// The CPU state after one step from `c`.
pub open spec fn next_state(c: CpuState, bytes: Seq<u8>) -> CpuState {
    let instr = current_instr(c, bytes);
    let e = current_effect(c, bytes);
    CpuState {
        regs: if e.writes_rd { reg_update(c.regs, regs_of(instr).2, e.rd_val) } else { c.regs },
        pc: e.next_pc,
        cycle: (c.cycle + 1) as u32,
        halted: c.halted || e.halt is Some,
        halt_reason: if e.halt is Some { e.halt } else { c.halt_reason },
    }
}

/// Memory after one step from `c`.
pub open spec fn next_bytes(c: CpuState, bytes: Seq<u8>) -> Seq<u8> {
    mem_after(bytes, current_instr(c, bytes), current_effect(c, bytes))
}

/// The log entries of one step from `c`.
pub open spec fn step_log(c: CpuState, bytes: Seq<u8>) -> Seq<crate::memory::MemoryAccess> {
    log_of(bytes, current_instr(c, bytes), current_effect(c, bytes), c.cycle)
}

/// `row` is the trace row of the step from `c` over `bytes`.
pub open spec fn row_of_step(row: TraceRow, c: CpuState, bytes: Seq<u8>) -> bool {
    let w = fetch(bytes, c.pc);
    let instr = decoded(w);
    let r = regs_of(instr);
    let src = sources(c, bytes);
    let e = current_effect(c, bytes);
    &&& row.clk == c.cycle
    &&& row.pc == c.pc
    &&& row.instruction == w
    &&& row.rs1_idx == r.0
    &&& row.rs2_idx == r.1
    &&& row.rd_idx == r.2
    &&& row.rs1_val == src.0
    &&& row.rs2_val == src.1
    &&& row.rd_val == e.rd_val
    &&& row.imm == imm_of(instr)
    &&& row.next_pc == e.next_pc
    &&& row.mem_addr == e.mem_addr
    &&& row.mem_val == e.mem_val
    &&& row.is_load == e.is_load
    &&& row.is_store == e.is_store
    &&& row.branch_taken == e.branch_taken
    &&& row.alu_carry == e.alu_carry
    &&& row.pc_carry == e.pc_carry
    &&& row.bits_a@ == e.bits_a
    &&& row.bits_b@ == e.bits_b
    &&& row.shift_stages@ == e.shift_stages
    &&& row.mem_addr_carry == e.mem_addr_carry
    &&& row.jalr_bit0 == e.jalr_bit0
    &&& row.branch_diff_inv == e.branch_diff_inv
    &&& row.shift_carry@ == e.shift_carry
    &&& row.instr_bits@ == bits_of(w)
    &&& row.rs1_idx_inv == idx_inv(r.0)
    &&& row.rs2_idx_inv == idx_inv(r.1)
    &&& row.is_halted == next_state(c, bytes).halted
    &&& row.opcode_class == class_of(instr)
}


/// A decoded instruction names registers below 32, and its shift amount
/// (for the shift-immediate forms) is below 32.
pub open spec fn instr_ok(i: Instruction) -> bool {
    let r = regs_of(i);
    &&& r.0 < 32
    &&& r.1 < 32
    &&& r.2 < 32
    &&& match i {
        Instruction::Slli { shamt, .. } | Instruction::Srli { shamt, .. } | Instruction::Srai {
            shamt,
            ..
        } => shamt < 32,
        _ => true,
    }
}

/// Every word decodes to an instruction whose register fields and shift
/// amount are five-bit values.
pub proof fn lemma_decoded_ok(w: u32)
    ensures
        instr_ok(decoded(w)),
{
    assert(((w >> 7u32) & 0x1f) < 32) by (bit_vector);
    assert(((w >> 15u32) & 0x1f) < 32) by (bit_vector);
    assert(((w >> 20u32) & 0x1f) < 32) by (bit_vector);
}

impl Cpu {
    /// A CPU at `entry_pc` with all registers zero except the stack pointer
    /// (`x2`), which holds `STACK_TOP`.
    pub fn new(entry_pc: u32) -> (c: Cpu)
        ensures
            c@.regs == Seq::new(32, |i: int| if i == 2 { STACK_TOP } else { 0u32 }),
            c.pc == entry_pc,
            c.cycle == 0,
            !c.halted,
            c.halt_reason is None,
    {
        let mut regs: [u32; 32] = [0; 32];
        regs[2] = STACK_TOP;
        let c = Cpu { regs, pc: entry_pc, cycle: 0, halted: false, halt_reason: None };
        assert(c@.regs =~= Seq::new(32, |i: int| if i == 2 { STACK_TOP } else { 0u32 }));
        c
    }

    /// Read register `idx` (`x0` always reads 0).
    fn reg(&self, idx: u32) -> (r: u32)
        requires
            idx < 32,
        ensures
            r == reg_value(self@.regs, idx),
    {
        if idx == 0 {
            0
        } else {
            self.regs[idx as usize]
        }
    }

    /// Write register `idx` (writes to `x0` are discarded).
    fn set_reg(&mut self, idx: u32, val: u32)
        requires
            idx < 32,
        ensures
            final(self)@ == (CpuState { regs: reg_update(old(self)@.regs, idx, val), ..old(self)@ }),
    {
        if idx != 0 {
            self.regs[idx as usize] = val;
        }
    }
}

/// What one step computes before it is committed to the CPU: the
/// executable counterpart of `Effect`.
struct Outcome {
    rd_val: u32,
    next_pc: u32,
    mem_addr: u32,
    mem_val: u32,
    is_load: bool,
    is_store: bool,
    branch_taken: bool,
    alu_carry: u32,
    pc_carry: u32,
    bits_a: [u32; 32],
    bits_b: [u32; 32],
    shift_stages: [u32; 5],
    shift_carry: [u32; 5],
    mem_addr_carry: u32,
    jalr_bit0: u32,
    branch_diff_inv: u32,
    writes_rd: bool,
    halt: Option<HaltReason>,
}

/// `o` holds exactly the values of `e`.
spec fn matches_effect(o: Outcome, e: Effect) -> bool {
    &&& o.rd_val == e.rd_val
    &&& o.next_pc == e.next_pc
    &&& o.mem_addr == e.mem_addr
    &&& o.mem_val == e.mem_val
    &&& o.is_load == e.is_load
    &&& o.is_store == e.is_store
    &&& o.branch_taken == e.branch_taken
    &&& o.alu_carry == e.alu_carry
    &&& o.pc_carry == e.pc_carry
    &&& o.bits_a@ == e.bits_a
    &&& o.bits_b@ == e.bits_b
    &&& o.shift_stages@ == e.shift_stages
    &&& o.shift_carry@ == e.shift_carry
    &&& o.mem_addr_carry == e.mem_addr_carry
    &&& o.jalr_bit0 == e.jalr_bit0
    &&& o.branch_diff_inv == e.branch_diff_inv
    &&& o.writes_rd == e.writes_rd
    &&& o.halt == e.halt
}

/// The outcome of an instruction that only advances the PC.
fn outcome_plain(pc: u32) -> (o: Outcome)
    ensures
        matches_effect(o, plain(pc)),
{
    let o = Outcome {
        rd_val: 0,
        next_pc: pc.wrapping_add(4),
        mem_addr: 0,
        mem_val: 0,
        is_load: false,
        is_store: false,
        branch_taken: false,
        alu_carry: 0,
        pc_carry: 0,
        bits_a: [0; 32],
        bits_b: [0; 32],
        shift_stages: [0; 5],
        shift_carry: [0; 5],
        mem_addr_carry: 0,
        jalr_bit0: 0,
        branch_diff_inv: 0,
        writes_rd: false,
        halt: None,
    };
    assert(o.bits_a@ =~= zeros(32));
    assert(o.bits_b@ =~= zeros(32));
    assert(o.shift_stages@ =~= zeros(5));
    assert(o.shift_carry@ =~= zeros(5));
    o
}

/// The outcome of writing `v` to `rd` and advancing the PC.
fn outcome_write(pc: u32, v: u32) -> (o: Outcome)
    ensures
        matches_effect(o, write_rd(pc, v)),
{
    let mut o = outcome_plain(pc);
    o.rd_val = v;
    o.writes_rd = true;
    o
}

/// The carry out of `x + y` over 32 bits.
fn carry_of(x: u32, y: u32) -> (r: u32)
    ensures
        r == carry32(x, y),
{
    if (x as u64) + (y as u64) >= 0x1_0000_0000u64 {
        1
    } else {
        0
    }
}

/// 1 when `b` holds, else 0.
fn flag_of(b: bool) -> (r: u32)
    ensures
        r == flag(b),
{
    if b {
        1
    } else {
        0
    }
}


/// Upper-immediate and jump instructions.
fn exec_jump(instr: Instruction, pc: u32, a: u32, b: u32, Ghost(bytes): Ghost<Seq<u8>>) -> (o: Outcome)
    requires
        instr is Lui || instr is Auipc || instr is Jal || instr is Jalr,
    ensures
        matches_effect(o, effect(instr, pc, a, b, bytes)),
{
    match instr {
        Instruction::Lui { imm, .. } => outcome_write(pc, imm),
        Instruction::Auipc { imm, .. } => {
            let mut o = outcome_write(pc, pc.wrapping_add(imm));
            o.alu_carry = carry_of(pc, imm);
            o
        },
        Instruction::Jal { imm, .. } => {
            let mut o = outcome_write(pc, pc.wrapping_add(4));
            o.alu_carry = carry_of(pc, 4);
            o.next_pc = pc.wrapping_add(imm as u32);
            o.pc_carry = carry_of(pc, imm as u32);
            o
        },
        Instruction::Jalr { imm, .. } => {
            let mut o = outcome_write(pc, pc.wrapping_add(4));
            o.alu_carry = carry_of(pc, 4);
            let raw = a.wrapping_add(imm as u32);
            o.jalr_bit0 = raw & 1;
            o.next_pc = raw & !1u32;
            o.pc_carry = carry_of(a, imm as u32);
            o
        },
        _ => outcome_plain(pc),
    }
}

/// The outcome of a conditional branch by `imm`.
fn outcome_branch(pc: u32, imm: i32, taken: bool) -> (o: Outcome)
    ensures
        matches_effect(o, branch(pc, imm, taken)),
{
    let mut o = outcome_plain(pc);
    if taken {
        o.next_pc = pc.wrapping_add(imm as u32);
        o.branch_taken = true;
        o.pc_carry = carry_of(pc, imm as u32);
    }
    o
}

/// The field inverse of `a - b` (wrapping), or 0 when they are equal.
fn diff_inverse(a: u32, b: u32) -> (r: u32)
    ensures
        r == diff_inv(a, b),
{
    let d = a.wrapping_sub(b);
    if d != 0 {
        bb_inv(d)
    } else {
        0
    }
}

/// Conditional branches.
fn exec_branch(instr: Instruction, pc: u32, a: u32, b: u32, Ghost(bytes): Ghost<Seq<u8>>) -> (o: Outcome)
    requires
        instr is Beq || instr is Bne || instr is Blt || instr is Bge || instr is Bltu || instr is Bgeu,
    ensures
        matches_effect(o, effect(instr, pc, a, b, bytes)),
{
    match instr {
        Instruction::Beq { imm, .. } => {
            let mut o = outcome_branch(pc, imm, a == b);
            o.branch_diff_inv = diff_inverse(a, b);
            o
        },
        Instruction::Bne { imm, .. } => {
            let mut o = outcome_branch(pc, imm, a != b);
            o.branch_diff_inv = diff_inverse(a, b);
            o
        },
        Instruction::Blt { imm, .. } => {
            let mut o = outcome_branch(pc, imm, (a as i32) < (b as i32));
            o.bits_a = decompose_bits(a.wrapping_sub(b).wrapping_add(0x8000_0000));
            o
        },
        Instruction::Bge { imm, .. } => {
            let mut o = outcome_branch(pc, imm, (a as i32) >= (b as i32));
            o.bits_a = decompose_bits(a.wrapping_sub(b).wrapping_add(0x8000_0000));
            o
        },
        Instruction::Bltu { imm, .. } => {
            let mut o = outcome_branch(pc, imm, a < b);
            o.alu_carry = flag_of(a < b);
            o
        },
        Instruction::Bgeu { imm, .. } => {
            let mut o = outcome_branch(pc, imm, a >= b);
            o.alu_carry = flag_of(a < b);
            o
        },
        _ => outcome_plain(pc),
    }
}


/// The outcome of a bitwise operation with result `v` on operands `x`, `y`.
fn outcome_bitwise(pc: u32, x: u32, y: u32, v: u32) -> (o: Outcome)
    ensures
        matches_effect(o, bitwise(pc, x, y, v)),
{
    let mut o = outcome_write(pc, v);
    o.bits_a = decompose_bits(x);
    o.bits_b = decompose_bits(y);
    o
}

/// The outcome of a signed comparison `x < y` with result `v`.
fn outcome_signed_less(pc: u32, x: u32, y: u32, v: u32) -> (o: Outcome)
    ensures
        matches_effect(o, signed_less(pc, x, y, v)),
{
    let mut o = outcome_write(pc, v);
    o.bits_a = decompose_bits(x.wrapping_sub(y).wrapping_add(0x8000_0000));
    o
}

/// The three shift kinds of the barrel shifter.
enum ShiftKind {
    Left,
    Right,
    Arith,
}

/// The outcome of shifting `x` by `sh` (below 32).
fn outcome_shift(pc: u32, x: u32, sh: u32, kind: ShiftKind) -> (o: Outcome)
    requires
        sh < 32,
    ensures
        kind is Left ==> matches_effect(o, shift(pc, x, sh, x << sh, shl_stages(x, sh), shl_carries(x, sh))),
        kind is Right ==> matches_effect(o, shift(pc, x, sh, x >> sh, shr_stages(x, sh), shr_carries(x, sh))),
        kind is Arith ==> matches_effect(
            o,
            shift(pc, x, sh, ((x as i32) >> sh) as u32, sra_stages(x, sh), sra_carries(x, sh)),
        ),
{
    let (v, stages, carries) = match kind {
        ShiftKind::Left => {
            let (st, ca) = barrel_shift_left_with_carry(x, sh);
            (x << sh, st, ca)
        },
        ShiftKind::Right => {
            let (st, ca) = barrel_shift_right_with_carry(x, sh);
            (x >> sh, st, ca)
        },
        ShiftKind::Arith => {
            let (st, ca) = barrel_shift_right_arith_with_carry(x, sh);
            (((x as i32) >> sh) as u32, st, ca)
        },
    };
    let mut o = outcome_write(pc, v);
    o.bits_a = decompose_bits(x);
    o.bits_b = decompose_bits(sh);
    o.shift_stages = stages;
    o.shift_carry = carries;
    o
}

/// ALU instructions with an immediate operand.
fn exec_alu_imm(instr: Instruction, pc: u32, a: u32, b: u32, Ghost(bytes): Ghost<Seq<u8>>) -> (o: Outcome)
    requires
        instr is Addi || instr is Slti || instr is Sltiu || instr is Xori || instr is Ori || instr is Andi
            || instr is Slli || instr is Srli || instr is Srai,
        instr_ok(instr),
    ensures
        matches_effect(o, effect(instr, pc, a, b, bytes)),
{
    match instr {
        Instruction::Addi { imm, .. } => {
            let mut o = outcome_write(pc, a.wrapping_add(imm as u32));
            o.alu_carry = carry_of(a, imm as u32);
            o
        },
        Instruction::Slti { imm, .. } => outcome_signed_less(pc, a, imm as u32, flag_of((a as i32) < imm)),
        Instruction::Sltiu { imm, .. } => {
            let lt = a < imm as u32;
            let mut o = outcome_write(pc, flag_of(lt));
            o.alu_carry = flag_of(lt);
            o
        },
        Instruction::Xori { imm, .. } => outcome_bitwise(pc, a, imm as u32, a ^ (imm as u32)),
        Instruction::Ori { imm, .. } => outcome_bitwise(pc, a, imm as u32, a | (imm as u32)),
        Instruction::Andi { imm, .. } => outcome_bitwise(pc, a, imm as u32, a & (imm as u32)),
        Instruction::Slli { shamt, .. } => outcome_shift(pc, a, shamt, ShiftKind::Left),
        Instruction::Srli { shamt, .. } => outcome_shift(pc, a, shamt, ShiftKind::Right),
        Instruction::Srai { shamt, .. } => outcome_shift(pc, a, shamt, ShiftKind::Arith),
        _ => outcome_plain(pc),
    }
}

/// ALU instructions on two registers.
fn exec_alu_reg(instr: Instruction, pc: u32, a: u32, b: u32, Ghost(bytes): Ghost<Seq<u8>>) -> (o: Outcome)
    requires
        instr is Add || instr is Sub || instr is Sll || instr is Slt || instr is Sltu || instr is Xor
            || instr is Srl || instr is Sra || instr is Or || instr is And,
    ensures
        matches_effect(o, effect(instr, pc, a, b, bytes)),
{
    let sh = b & 0x1f;
    assert(sh < 32) by (bit_vector)
        requires
            sh == b & 0x1f,
    ;
    match instr {
        Instruction::Add { .. } => {
            let mut o = outcome_write(pc, a.wrapping_add(b));
            o.alu_carry = carry_of(a, b);
            o
        },
        Instruction::Sub { .. } => {
            let mut o = outcome_write(pc, a.wrapping_sub(b));
            o.alu_carry = flag_of(a < b);
            o
        },
        Instruction::Sll { .. } => outcome_shift(pc, a, sh, ShiftKind::Left),
        Instruction::Slt { .. } => outcome_signed_less(pc, a, b, flag_of((a as i32) < (b as i32))),
        Instruction::Sltu { .. } => {
            let mut o = outcome_write(pc, flag_of(a < b));
            o.alu_carry = flag_of(a < b);
            o
        },
        Instruction::Xor { .. } => outcome_bitwise(pc, a, b, a ^ b),
        Instruction::Srl { .. } => outcome_shift(pc, a, sh, ShiftKind::Right),
        Instruction::Sra { .. } => outcome_shift(pc, a, sh, ShiftKind::Arith),
        Instruction::Or { .. } => outcome_bitwise(pc, a, b, a | b),
        Instruction::And { .. } => outcome_bitwise(pc, a, b, a & b),
        _ => outcome_plain(pc),
    }
}


/// The outcome of a load of `rd_val` (memory value `mem_val`) from `base + imm`.
fn outcome_load(pc: u32, base: u32, imm: i32, rd_val: u32, mem_val: u32) -> (o: Outcome)
    ensures
        matches_effect(o, load(pc, base, imm, rd_val, mem_val)),
{
    let mut o = outcome_write(pc, rd_val);
    o.mem_addr = base.wrapping_add(imm as u32);
    o.mem_addr_carry = carry_of(base, imm as u32);
    o.mem_val = mem_val;
    o.is_load = true;
    o
}

/// The outcome of a store of `mem_val` to `base + imm`.
fn outcome_store(pc: u32, base: u32, imm: i32, mem_val: u32) -> (o: Outcome)
    ensures
        matches_effect(o, store(pc, base, imm, mem_val)),
{
    let mut o = outcome_plain(pc);
    o.mem_addr = base.wrapping_add(imm as u32);
    o.mem_addr_carry = carry_of(base, imm as u32);
    o.mem_val = mem_val;
    o.is_store = true;
    o
}

/// Loads and stores: performs the access on `mem` at cycle `clk`.
fn exec_mem(mem: &mut Memory, instr: Instruction, pc: u32, a: u32, b: u32, clk: u32) -> (o: Outcome)
    requires
        instr is Lb || instr is Lh || instr is Lw || instr is Lbu || instr is Lhu || instr is Sb
            || instr is Sh || instr is Sw,
        match access_of(instr, a) {
            Some((addr, n)) => in_bounds(old(mem)@.len(), addr, n),
            None => true,
        },
    ensures
        matches_effect(o, effect(instr, pc, a, b, old(mem)@)),
        final(mem)@ == mem_after(old(mem)@, instr, effect(instr, pc, a, b, old(mem)@)),
        final(mem).log() == old(mem).log() + log_of(
            old(mem)@,
            instr,
            effect(instr, pc, a, b, old(mem)@),
            clk,
        ),
{
    match instr {
        Instruction::Lb { imm, .. } => {
            let addr = a.wrapping_add(imm as u32);
            assert(wrap(addr, 0) == addr);
            let byte = mem.read_byte(addr, clk);
            outcome_load(pc, a, imm, ((byte as i8) as i32) as u32, byte as u32)
        },
        Instruction::Lh { imm, .. } => {
            let addr = a.wrapping_add(imm as u32);
            let half = mem.read_half(addr, clk);
            outcome_load(pc, a, imm, ((half as i16) as i32) as u32, half as u32)
        },
        Instruction::Lw { imm, .. } => {
            let addr = a.wrapping_add(imm as u32);
            let word = mem.read_word(addr, clk);
            outcome_load(pc, a, imm, word, word)
        },
        Instruction::Lbu { imm, .. } => {
            let addr = a.wrapping_add(imm as u32);
            assert(wrap(addr, 0) == addr);
            let byte = mem.read_byte(addr, clk);
            outcome_load(pc, a, imm, byte as u32, byte as u32)
        },
        Instruction::Lhu { imm, .. } => {
            let addr = a.wrapping_add(imm as u32);
            let half = mem.read_half(addr, clk);
            outcome_load(pc, a, imm, half as u32, half as u32)
        },
        Instruction::Sb { imm, .. } => {
            let addr = a.wrapping_add(imm as u32);
            assert(wrap(addr, 0) == addr);
            let v = b & 0xff;
            mem.write_byte(addr, v as u8, clk);
            outcome_store(pc, a, imm, v)
        },
        Instruction::Sh { imm, .. } => {
            let addr = a.wrapping_add(imm as u32);
            let v = b & 0xffff;
            mem.write_half(addr, v as u16, clk);
            outcome_store(pc, a, imm, v)
        },
        Instruction::Sw { imm, .. } => {
            let addr = a.wrapping_add(imm as u32);
            mem.write_word(addr, b, clk);
            outcome_store(pc, a, imm, b)
        },
        _ => outcome_plain(pc),
    }
}


/// The field inverse of a register index, or 0 for `x0`.
fn index_inverse(idx: u32) -> (r: u32)
    ensures
        r == idx_inv(idx),
{
    if idx != 0 {
        bb_inv(idx)
    } else {
        0
    }
}

impl Cpu {
    /// Execute one instruction. Returns a trace row capturing the full step.
    pub fn step(&mut self, mem: &mut Memory) -> (row: TraceRow)
        requires
            step_ok(old(self)@, old(mem)@),
        ensures
            final(self)@ == next_state(old(self)@, old(mem)@),
            final(mem)@ == next_bytes(old(self)@, old(mem)@),
            final(mem).log() == old(mem).log() + step_log(old(self)@, old(mem)@),
            row_of_step(row, old(self)@, old(mem)@),
    {
        let ghost c = self@;
        let ghost bytes = mem@;
        let pc = self.pc;
        let clk = self.cycle;
        let word = mem.peek_word(pc);
        assert(word == fetch(bytes, pc));
        let instr = decode(word);
        proof {
            lemma_decoded_ok(word);
        }
        let (rs1_idx, rs2_idx, rd_idx) = instr_regs(&instr);
        let rs1_val = self.reg(rs1_idx);
        let rs2_val = self.reg(rs2_idx);
        assert((rs1_val, rs2_val) == sources(c, bytes));
        let ghost e = effect(instr, pc, rs1_val, rs2_val, bytes);
        assert(e == current_effect(c, bytes));
        let o = match instr {
            Instruction::Lui { .. }
            | Instruction::Auipc { .. }
            | Instruction::Jal { .. }
            | Instruction::Jalr { .. } => exec_jump(instr, pc, rs1_val, rs2_val, Ghost(bytes)),
            Instruction::Beq { .. }
            | Instruction::Bne { .. }
            | Instruction::Blt { .. }
            | Instruction::Bge { .. }
            | Instruction::Bltu { .. }
            | Instruction::Bgeu { .. } => exec_branch(instr, pc, rs1_val, rs2_val, Ghost(bytes)),
            Instruction::Lb { .. }
            | Instruction::Lh { .. }
            | Instruction::Lw { .. }
            | Instruction::Lbu { .. }
            | Instruction::Lhu { .. }
            | Instruction::Sb { .. }
            | Instruction::Sh { .. }
            | Instruction::Sw { .. } => exec_mem(mem, instr, pc, rs1_val, rs2_val, clk),
            Instruction::Addi { .. }
            | Instruction::Slti { .. }
            | Instruction::Sltiu { .. }
            | Instruction::Xori { .. }
            | Instruction::Ori { .. }
            | Instruction::Andi { .. }
            | Instruction::Slli { .. }
            | Instruction::Srli { .. }
            | Instruction::Srai { .. } => exec_alu_imm(instr, pc, rs1_val, rs2_val, Ghost(bytes)),
            Instruction::Ecall => {
                let mut o = outcome_plain(pc);
                o.halt = Some(HaltReason::Ecall);
                o
            },
            Instruction::Ebreak => {
                let mut o = outcome_plain(pc);
                o.halt = Some(HaltReason::Ebreak);
                o
            },
            Instruction::Invalid(w) => {
                let mut o = outcome_plain(pc);
                o.halt = Some(HaltReason::InvalidInstruction(w));
                o
            },
            _ => exec_alu_reg(instr, pc, rs1_val, rs2_val, Ghost(bytes)),
        };
        assert(matches_effect(o, e));
        assert(mem@ == next_bytes(c, bytes));
        assert(mem.log() == old(mem).log() + step_log(c, bytes));
        if o.writes_rd {
            self.set_reg(rd_idx, o.rd_val);
        }
        match o.halt {
            Some(h) => {
                self.halted = true;
                self.halt_reason = Some(h);
            },
            None => {},
        }
        let instr_bits = decompose_bits(word);
        let rs1_idx_inv = index_inverse(rs1_idx);
        let rs2_idx_inv = index_inverse(rs2_idx);
        self.pc = o.next_pc;
        self.cycle = self.cycle + 1;
        TraceRow {
            clk,
            pc,
            instruction: word,
            rs1_idx,
            rs2_idx,
            rd_idx,
            rs1_val,
            rs2_val,
            rd_val: o.rd_val,
            imm: instr_imm(&instr),
            next_pc: o.next_pc,
            mem_addr: o.mem_addr,
            mem_val: o.mem_val,
            is_load: o.is_load,
            is_store: o.is_store,
            branch_taken: o.branch_taken,
            alu_carry: o.alu_carry,
            pc_carry: o.pc_carry,
            bits_a: o.bits_a,
            bits_b: o.bits_b,
            shift_stages: o.shift_stages,
            mem_addr_carry: o.mem_addr_carry,
            jalr_bit0: o.jalr_bit0,
            branch_diff_inv: o.branch_diff_inv,
            shift_carry: o.shift_carry,
            instr_bits,
            rs1_idx_inv,
            rs2_idx_inv,
            is_halted: self.halted,
            opcode_class: opcode_class(&instr),
        }
    }
}


/// Running stops at `c`: it has halted or reached the cycle limit.
pub open spec fn stops(c: CpuState, limit: u32) -> bool {
    c.halted || c.cycle >= limit
}

/// Every step that a run from `c` over `bytes` with cycle limit `limit`
/// takes can execute.
pub open spec fn run_safe(c: CpuState, bytes: Seq<u8>, limit: u32) -> bool
    decreases limit - c.cycle,
{
    if stops(c, limit) {
        true
    } else {
        step_ok(c, bytes) && run_safe(next_state(c, bytes), next_bytes(c, bytes), limit)
    }
}

/// The CPU state and memory after `k` steps from `(c, bytes)`.
pub open spec fn after_steps(c: CpuState, bytes: Seq<u8>, k: nat) -> (CpuState, Seq<u8>)
    decreases k,
{
    if k == 0 {
        (c, bytes)
    } else {
        let p = after_steps(c, bytes, (k - 1) as nat);
        (next_state(p.0, p.1), next_bytes(p.0, p.1))
    }
}

/// The memory-log entries of the first `k` steps from `(c, bytes)`.
pub open spec fn steps_log(c: CpuState, bytes: Seq<u8>, k: nat) -> Seq<crate::memory::MemoryAccess>
    decreases k,
{
    if k == 0 {
        seq![]
    } else {
        let p = after_steps(c, bytes, (k - 1) as nat);
        steps_log(c, bytes, (k - 1) as nat) + step_log(p.0, p.1)
    }
}

/// The state a run leaves: a run that stopped at the cycle limit without
/// halting is marked halted with `CycleLimitReached`.
pub open spec fn finish(c: CpuState, limit: u32) -> CpuState {
    if !c.halted && c.cycle >= limit {
        CpuState { halted: true, halt_reason: Some(HaltReason::CycleLimitReached), ..c }
    } else {
        c
    }
}

/// `x0` is hard-wired to zero: from a state with 32 registers whose `x0` is
/// 0, every number of steps leaves 32 registers with `x0` still 0.
pub proof fn lemma_x0_stays_zero(c: CpuState, bytes: Seq<u8>, k: nat)
    requires
        c.regs.len() == 32,
        c.regs[0] == 0,
    ensures
        after_steps(c, bytes, k).0.regs.len() == 32,
        after_steps(c, bytes, k).0.regs[0] == 0,
    decreases k,
{
    if k > 0 {
        lemma_x0_stays_zero(c, bytes, (k - 1) as nat);
        let p = after_steps(c, bytes, (k - 1) as nat);
        lemma_decoded_ok(fetch(p.1, p.0.pc));
    }
}

/// Halting is final: a state that has halted is still halted after any
/// number of further steps.
pub proof fn lemma_halt_is_final(c: CpuState, bytes: Seq<u8>, i: nat, k: nat)
    requires
        i <= k,
        after_steps(c, bytes, i).0.halted,
    ensures
        after_steps(c, bytes, k).0.halted,
    decreases k,
{
    if i < k {
        lemma_halt_is_final(c, bytes, i, (k - 1) as nat);
    }
}

/// The cycle counter counts the steps taken: `k` steps from `c` advance it
/// by exactly `k` (while it does not pass `u32::MAX`).
pub proof fn lemma_cycle_counts_steps(c: CpuState, bytes: Seq<u8>, k: nat)
    requires
        c.cycle + k <= u32::MAX,
    ensures
        after_steps(c, bytes, k).0.cycle == c.cycle + k,
    decreases k,
{
    if k > 0 {
        lemma_cycle_counts_steps(c, bytes, (k - 1) as nat);
    }
}

/// The number of steps a run from `c` over `bytes` takes before it stops:
/// 0 if it stops at `c`, else one more than from the next state.
pub open spec fn steps_to_stop(c: CpuState, bytes: Seq<u8>, limit: u32) -> nat
    decreases limit - c.cycle,
{
    if stops(c, limit) {
        0
    } else {
        1 + steps_to_stop(next_state(c, bytes), next_bytes(c, bytes), limit)
    }
}

/// `k + 1` steps from `c` are one step and then `k` steps.
pub proof fn lemma_after_steps_first(c: CpuState, bytes: Seq<u8>, k: nat)
    ensures
        after_steps(c, bytes, k + 1) == after_steps(next_state(c, bytes), next_bytes(c, bytes), k),
    decreases k,
{
    let c1 = next_state(c, bytes);
    let b1 = next_bytes(c, bytes);
    if k > 0 {
        lemma_after_steps_first(c, bytes, (k - 1) as nat);
        let p = after_steps(c, bytes, k);
        assert(p == after_steps(c1, b1, (k - 1) as nat));
        assert(after_steps(c, bytes, k + 1) == (next_state(p.0, p.1), next_bytes(p.0, p.1)));
    } else {
        assert(after_steps(c, bytes, 0) == (c, bytes));
        assert(after_steps(c1, b1, 0) == (c1, b1));
    }
}

/// A run that has not stopped before `k` steps and stops after `k` steps
/// takes `steps_to_stop` steps.
pub proof fn lemma_stop_index(c: CpuState, bytes: Seq<u8>, limit: u32, k: nat)
    requires
        forall|i: int| 0 <= i < k ==> !stops(#[trigger] after_steps(c, bytes, i as nat).0, limit),
        stops(after_steps(c, bytes, k).0, limit),
    ensures
        k == steps_to_stop(c, bytes, limit),
    decreases k,
{
    if k > 0 {
        assert(!stops(after_steps(c, bytes, 0int as nat).0, limit));
        let c1 = next_state(c, bytes);
        let b1 = next_bytes(c, bytes);
        assert forall|i: int| 0 <= i < k - 1 implies !stops(#[trigger] after_steps(c1, b1, i as nat).0, limit) by {
            lemma_after_steps_first(c, bytes, i as nat);
            assert(!stops(after_steps(c, bytes, (i + 1) as nat).0, limit));
        }
        lemma_after_steps_first(c, bytes, (k - 1) as nat);
        lemma_stop_index(c1, b1, limit, (k - 1) as nat);
    }
}

/// The RV32I branch comparison named by funct3 `f3` on source values `x`
/// (rs1) and `y` (rs2): `000` equal, `001` not equal, `100` signed less,
/// `101` signed greater or equal, `110` unsigned less, `111` unsigned
/// greater or equal.
pub open spec fn branch_holds(f3: u32, x: u32, y: u32) -> bool {
    let sx: int = if x >= 0x8000_0000 { x - 0x1_0000_0000 } else { x as int };
    let sy: int = if y >= 0x8000_0000 { y - 0x1_0000_0000 } else { y as int };
    if f3 == 0 {
        x == y
    } else if f3 == 1 {
        x != y
    } else if f3 == 4 {
        sx < sy
    } else if f3 == 5 {
        sx >= sy
    } else if f3 == 6 {
        x < y
    } else {
        x >= y
    }
}

/// A 32-bit word read as a signed integer.
proof fn lemma_i32_of(x: u32)
    ensures
        (x as i32) as int == if x >= 0x8000_0000 { x - 0x1_0000_0000 } else { x as int },
{
    assert((x as i32) as int == if x >= 0x8000_0000 { x - 0x1_0000_0000 } else { x as int }) by (bit_vector);
}

/// A signed 32-bit value reinterpreted as unsigned.
proof fn lemma_u32_of_i32(k: i32)
    ensures
        (k as u32) as int == if k < 0 { k + 0x1_0000_0000 } else { k as int },
{
    assert((k as u32) as int == if k < 0 { k + 0x1_0000_0000 } else { k as int }) by (bit_vector);
}

/// The funct3 field is below 8.
proof fn lemma_funct3_small(w: u32)
    ensures
        (w >> 12) & 7 < 8,
{
    assert((w >> 12) & 7 < 8) by (bit_vector);
}

/// A B-immediate lies in `[-4096, 4096)`.
proof fn lemma_imm_b_range(w: u32)
    ensures
        -4096 <= crate::decode::imm_b_of(w) < 4096,
{
    vstd::arithmetic::power2::lemma2_to64();
    assert(vstd::arithmetic::power2::pow2(13) == 8192);
    assert(vstd::arithmetic::power2::pow2(12) == 4096);
}

/// A 32-bit word read as a two's-complement integer.
pub open spec fn signed_value(x: u32) -> int {
    if x >= 0x8000_0000 { x - 0x1_0000_0000 } else { x as int }
}

/// The RV32I arithmetic-logic operation named by funct3 `f3` (with `alt`
/// selecting SUB over ADD and arithmetic over logical right shift) on
/// operands `x` and `y`, the shift amount being the low five bits of `y`:
/// `000` add/sub modulo 2^32, `001` shift left, `010` signed less-than as
/// 0/1, `011` unsigned less-than, `100` xor, `101` right shift, `110` or,
/// `111` and.
pub open spec fn alu_value(f3: u32, alt: bool, x: u32, y: u32) -> u32 {
    let sh = y & 0x1f;
    if f3 == 0 {
        if alt { ((x as int - y as int) % 0x1_0000_0000) as u32 } else { ((x as int + y as int) % 0x1_0000_0000) as u32 }
    } else if f3 == 1 {
        x << sh
    } else if f3 == 2 {
        if signed_value(x) < signed_value(y) { 1 } else { 0 }
    } else if f3 == 3 {
        if x < y { 1 } else { 0 }
    } else if f3 == 4 {
        x ^ y
    } else if f3 == 5 {
        if alt { ((x as i32) >> sh) as u32 } else { x >> sh }
    } else if f3 == 6 {
        x | y
    } else {
        x & y
    }
}

/// Register-register arithmetic of RV32I: for a step whose word has opcode
/// `0110011`, the row reads rs1 (bits 15..19) and rs2 (bits 20..24), writes
/// rd (bits 7..11), and the value written is `alu_value` of funct3 on the two
/// values read, funct7 `0100000` selecting SUB and SRA; the PC advances to the
/// next word and memory is unchanged.
#[verifier::spinoff_prover]
pub proof fn lemma_op_reg_step(c: CpuState, bytes: Seq<u8>, row: TraceRow)
    requires
        step_ok(c, bytes),
        row_of_step(row, c, bytes),
        row.instruction & 0x7f == 0x33,
    ensures
        row.rs1_idx == (row.instruction >> 15) & 0x1f,
        row.rs2_idx == (row.instruction >> 20) & 0x1f,
        row.rd_idx == (row.instruction >> 7) & 0x1f,
        row.rs1_val == reg_value(c.regs, row.rs1_idx),
        row.rs2_val == reg_value(c.regs, row.rs2_idx),
        row.rd_val == alu_value(
            (row.instruction >> 12) & 7,
            (row.instruction >> 25) & 0x7f == 0x20,
            row.rs1_val,
            row.rs2_val,
        ),
        row.next_pc as int == (row.pc as int + 4) % 0x1_0000_0000,
        next_bytes(c, bytes) == bytes,
{
    let w = row.instruction;
    lemma_funct3_small(w);
    crate::decode::lemma_decode_op_reg(w);
    lemma_i32_of(row.rs1_val);
    lemma_i32_of(row.rs2_val);
}

/// Register-immediate arithmetic of RV32I: for a step whose word has opcode
/// `0010011`, the row reads rs1 and writes rd, and the value written is
/// `alu_value` of funct3 on the value read and the sign-extended
/// I-immediate (for the shifts, the amount in bits 20..24; bit 30 selecting
/// SRAI); the PC advances to the next word and memory is unchanged.
#[verifier::spinoff_prover]
pub proof fn lemma_op_imm_step(c: CpuState, bytes: Seq<u8>, row: TraceRow)
    requires
        step_ok(c, bytes),
        row_of_step(row, c, bytes),
        row.instruction & 0x7f == 0x13,
    ensures
        row.rs1_idx == (row.instruction >> 15) & 0x1f,
        row.rd_idx == (row.instruction >> 7) & 0x1f,
        row.rs1_val == reg_value(c.regs, row.rs1_idx),
        row.rd_val == alu_value(
            (row.instruction >> 12) & 7,
            (row.instruction >> 12) & 7 == 5 && ((row.instruction >> 25) & 0x7f) & 0x20 != 0,
            row.rs1_val,
            if (row.instruction >> 12) & 7 == 1 || (row.instruction >> 12) & 7 == 5 {
                (row.instruction >> 20) & 0x1f
            } else {
                ((crate::decode::imm_i_of(row.instruction) as i32) as u32)
            },
        ),
        row.next_pc as int == (row.pc as int + 4) % 0x1_0000_0000,
        next_bytes(c, bytes) == bytes,
{
    let w = row.instruction;
    lemma_funct3_small(w);
    let sh = (w >> 20) & 0x1f;
    assert(sh & 0x1f == sh) by (bit_vector)
        requires
            sh == (w >> 20) & 0x1f,
    ;
    crate::decode::lemma_decode_op_imm(w);
    lemma_i32_of(row.rs1_val);
    let k: i32 = crate::decode::imm_i_of(w) as i32;
    lemma_i32_of(k as u32);
    assert(((k as u32) as i32) == k) by (bit_vector);
}

/// A byte read as a signed 8-bit value, widened to 32 bits.
pub open spec fn sign_byte(b: int) -> int {
    if b >= 0x80 { b + 0xFFFF_FF00 } else { b }
}

/// A halfword read as a signed 16-bit value, widened to 32 bits.
pub open spec fn sign_half(h: int) -> int {
    if h >= 0x8000 { h + 0xFFFF_0000 } else { h }
}

proof fn lemma_sext8(b: u8)
    ensures
        (((b as i8) as i32) as u32) as int == sign_byte(b as int),
{
    assert((((b as i8) as i32) as u32) as int == if b >= 0x80 { b as int + 0xFFFF_FF00 } else { b as int })
        by (bit_vector);
}

proof fn lemma_sext16(h: u16)
    ensures
        (((h as i16) as i32) as u32) as int == sign_half(h as int),
{
    assert((((h as i16) as i32) as u32) as int == if h >= 0x8000 { h as int + 0xFFFF_0000 } else { h as int })
        by (bit_vector);
}

/// Loads of RV32I: for a step whose word has opcode `0000011`, the address
/// is rs1's value plus the sign-extended I-immediate (modulo 2^32), and rd
/// receives, by funct3: `000` LB the byte there sign-extended, `001` LH the
/// little-endian halfword sign-extended, `010` LW the little-endian word,
/// `100` LBU the byte, `101` LHU the halfword; memory is unchanged and the
/// PC advances to the next word.
#[verifier::spinoff_prover]
pub proof fn lemma_load_step(c: CpuState, bytes: Seq<u8>, row: TraceRow)
    requires
        step_ok(c, bytes),
        row_of_step(row, c, bytes),
        row.instruction & 0x7f == 0x03,
        (row.instruction >> 12) & 7 == 0 || (row.instruction >> 12) & 7 == 1 || (row.instruction >> 12) & 7 == 2
            || (row.instruction >> 12) & 7 == 4 || (row.instruction >> 12) & 7 == 5,
    ensures
        ({
            let w = row.instruction;
            let f3 = (w >> 12) & 7;
            let a = row.mem_addr;
            let b0 = bytes[a as int] as int;
            let b1 = bytes[(a as int + 1) % 0x1_0000_0000] as int;
            let b2 = bytes[(a as int + 2) % 0x1_0000_0000] as int;
            let b3 = bytes[(a as int + 3) % 0x1_0000_0000] as int;
            &&& row.rs1_idx == (w >> 15) & 0x1f
            &&& row.rd_idx == (w >> 7) & 0x1f
            &&& row.rs1_val == reg_value(c.regs, row.rs1_idx)
            &&& a as int == (row.rs1_val as int + crate::decode::imm_i_of(w)) % 0x1_0000_0000
            &&& row.rd_val as int == if f3 == 0 {
                sign_byte(b0)
            } else if f3 == 1 {
                sign_half(b0 + 256 * b1)
            } else if f3 == 2 {
                b0 + 256 * b1 + 65536 * b2 + 16777216 * b3
            } else if f3 == 4 {
                b0
            } else {
                b0 + 256 * b1
            }
            &&& row.next_pc as int == (row.pc as int + 4) % 0x1_0000_0000
            &&& next_bytes(c, bytes) == bytes
        }),
{
    let w = row.instruction;
    crate::decode::lemma_decode_load_store(w);
    let imm = crate::decode::imm_i_of(w);
    lemma_imm_i_range(w);
    let k: i32 = imm as i32;
    assert(k as int == imm);
    lemma_u32_of_i32(k);
    let a = row.mem_addr;
    assert(a == ea(row.rs1_val, k));
    lemma_wrap_mod(row.rs1_val, (k as u32) as int);
    lemma_wrap_mod(a, 1);
    lemma_wrap_mod(a, 2);
    lemma_wrap_mod(wrap(a, 2), 1);
    let b0 = bytes[a as int];
    lemma_sext8(b0);
    let h = half_at(bytes, a);
    assert(0 <= h < 0x1_0000);
    lemma_sext16(h as u16);
    assert(wrap(wrap(a, 2), 1) as int == (a as int + 3) % 0x1_0000_0000);
}

/// Adding `k` with wrap-around is addition modulo 2^32.
proof fn lemma_wrap_mod(a: u32, k: int)
    requires
        0 <= k < 0x1_0000_0000,
    ensures
        wrap(a, k) as int == (a as int + k) % 0x1_0000_0000,
{
}

/// An S-immediate lies in `[-2048, 2048)`.
proof fn lemma_imm_s_range(w: u32)
    ensures
        -2048 <= crate::decode::imm_s_of(w) < 2048,
{
    vstd::arithmetic::power2::lemma2_to64();
    assert(vstd::arithmetic::power2::pow2(12) == 4096);
    assert(vstd::arithmetic::power2::pow2(11) == 2048);
}

/// Stores of RV32I: for a step whose word has opcode `0100011`, the address
/// is rs1's value plus the sign-extended S-immediate (modulo 2^32), and the
/// low byte (`000` SB), low two bytes (`001` SH) or all four bytes (`010` SW)
/// of rs2's value are written there little-endian; every other byte of
/// memory, and every register, keeps its value; the PC advances to the next
/// word.
#[verifier::spinoff_prover]
pub proof fn lemma_store_step(c: CpuState, bytes: Seq<u8>, row: TraceRow)
    requires
        step_ok(c, bytes),
        row_of_step(row, c, bytes),
        row.instruction & 0x7f == 0x23,
        (row.instruction >> 12) & 7 <= 2,
    ensures
        row.rs1_idx == (row.instruction >> 15) & 0x1f,
        row.rs2_idx == (row.instruction >> 20) & 0x1f,
        row.rs1_val == reg_value(c.regs, row.rs1_idx),
        row.rs2_val == reg_value(c.regs, row.rs2_idx),
        row.mem_addr as int == (row.rs1_val as int + crate::decode::imm_s_of(row.instruction)) % 0x1_0000_0000,
        next_bytes(c, bytes).len() == bytes.len(),
        forall|j: int|
            0 <= j < bytes.len() ==> #[trigger] next_bytes(c, bytes)[j] as int == if j == row.mem_addr {
                row.rs2_val as int % 256
            } else if (row.instruction >> 12) & 7 >= 1 && j == (row.mem_addr as int + 1) % 0x1_0000_0000 {
                (row.rs2_val as int / 256) % 256
            } else if (row.instruction >> 12) & 7 == 2 && j == (row.mem_addr as int + 2) % 0x1_0000_0000 {
                (row.rs2_val as int / 65536) % 256
            } else if (row.instruction >> 12) & 7 == 2 && j == (row.mem_addr as int + 3) % 0x1_0000_0000 {
                (row.rs2_val as int / 16777216) % 256
            } else {
                bytes[j] as int
            },
        next_state(c, bytes).regs == c.regs,
        row.next_pc as int == (row.pc as int + 4) % 0x1_0000_0000,
{
    let w = row.instruction;
    lemma_funct3_small(w);
    crate::decode::lemma_decode_load_store(w);
    let imm = crate::decode::imm_s_of(w);
    lemma_imm_s_range(w);
    let k: i32 = imm as i32;
    assert(k as int == imm);
    lemma_u32_of_i32(k);
    let a = row.mem_addr;
    lemma_wrap_mod(row.rs1_val, (k as u32) as int);
    lemma_wrap_mod(a, 1);
    lemma_wrap_mod(a, 2);
    lemma_wrap_mod(wrap(a, 2), 1);
    let v = row.rs2_val;
    let f3 = (w >> 12) & 7;
    let e = current_effect(c, bytes);
    assert(e.mem_addr == a);
    let n: int = if f3 == 0 { 1 } else if f3 == 1 { 2 } else { 4 };
    assert(in_bounds(bytes.len(), a, n));
    assert(forall|j: int| 0 <= j < n ==> wrap(a, j) < bytes.len());
    if f3 == 0 {
        assert(e.mem_val == v & 0xff);
    } else if f3 == 1 {
        assert(e.mem_val == v & 0xffff);
    } else {
        assert(e.mem_val == v);
    }
    lemma_put_bytes(bytes, a, v, n, next_bytes(c, bytes));
}

/// The bytes after storing the low `n` bytes of `v` little-endian at `a`.
proof fn lemma_put_bytes(bytes: Seq<u8>, a: u32, v: u32, n: int, after: Seq<u8>)
    requires
        n == 1 || n == 2 || n == 4,
        forall|j: int| 0 <= j < n ==> wrap(a, j) < bytes.len(),
        n == 1 ==> after == bytes.update(a as int, (v & 0xff) as u8),
        n == 2 ==> after == put_half(bytes, a, (v & 0xffff) as u16),
        n == 4 ==> after == put_word(bytes, a, v),
    ensures
        after.len() == bytes.len(),
        forall|j: int|
            0 <= j < bytes.len() ==> #[trigger] after[j] as int == if j == a {
                v as int % 256
            } else if n >= 2 && j == (a as int + 1) % 0x1_0000_0000 {
                (v as int / 256) % 256
            } else if n == 4 && j == (a as int + 2) % 0x1_0000_0000 {
                (v as int / 65536) % 256
            } else if n == 4 && j == (a as int + 3) % 0x1_0000_0000 {
                (v as int / 16777216) % 256
            } else {
                bytes[j] as int
            },
{
    assert(wrap(a, 0) == a);
    lemma_wrap_mod(a, 1);
    lemma_wrap_mod(a, 2);
    lemma_wrap_mod(a, 3);
    lemma_wrap_mod(wrap(a, 2), 1);
    assert(((v & 0xff) as u8) as int == v % 256 && (((v & 0xffff) as u16) % 256) as int == v % 256
        && (((v & 0xffff) as u16) / 256) as int == (v / 256) % 256 && (((v % 65536) as u16) % 256) as int == v
        % 256 && (((v % 65536) as u16) / 256) as int == (v / 256) % 256 && (((v / 65536) as u16) % 256) as int
        == (v / 65536) % 256 && (((v / 65536) as u16) / 256) as int == (v / 16777216) % 256) by (bit_vector);
    if n >= 2 {
        assert(wrap(a, 1) < bytes.len());
    }
    if n == 4 {
        assert(wrap(a, 2) < bytes.len());
        assert(wrap(a, 3) < bytes.len());
    }
}

/// A J-immediate lies in `[-2^20, 2^20)`.
proof fn lemma_imm_j_range(w: u32)
    ensures
        -0x10_0000 <= crate::decode::imm_j_of(w) < 0x10_0000,
{
    vstd::arithmetic::power2::lemma2_to64();
    assert(vstd::arithmetic::power2::pow2(21) == 0x20_0000);
    assert(vstd::arithmetic::power2::pow2(20) == 0x10_0000);
}

/// The upper-immediate and jump instructions of RV32I, writing rd (bits
/// 7..11): LUI (`0110111`) writes the word's upper 20 bits; AUIPC
/// (`0010111`) writes the PC plus those bits; JAL (`1101111`) writes the
/// return address PC + 4 and jumps by the sign-extended J-immediate; JALR
/// (`1100111`) writes PC + 4 and jumps to rs1's value plus the I-immediate
/// with bit 0 cleared. All sums are modulo 2^32; LUI and AUIPC advance to
/// the next word; memory is unchanged.
#[verifier::spinoff_prover]
pub proof fn lemma_upper_and_jump_step(c: CpuState, bytes: Seq<u8>, row: TraceRow)
    requires
        step_ok(c, bytes),
        row_of_step(row, c, bytes),
    ensures
        ({
            let w = row.instruction;
            let op = w & 0x7f;
            let m = 0x1_0000_0000int;
            &&& (op == 0x37 || op == 0x17 || op == 0x6f || op == 0x67) ==> row.rd_idx == (w >> 7) & 0x1f
            &&& op == 0x37 ==> row.rd_val == w & 0xfffff000 && row.next_pc as int == (row.pc as int + 4) % m
            &&& op == 0x17 ==> row.rd_val as int == (row.pc as int + (w & 0xfffff000) as int) % m
                && row.next_pc as int == (row.pc as int + 4) % m
            &&& op == 0x6f ==> row.rd_val as int == (row.pc as int + 4) % m && row.next_pc as int == (row.pc as int
                + crate::decode::imm_j_of(w)) % m
            &&& op == 0x67 ==> {
                let t = (row.rs1_val as int + crate::decode::imm_i_of(w)) % m;
                &&& row.rs1_idx == (w >> 15) & 0x1f
                &&& row.rs1_val == reg_value(c.regs, row.rs1_idx)
                &&& row.rd_val as int == (row.pc as int + 4) % m
                &&& row.next_pc as int == t - t % 2
            }
            &&& (op == 0x37 || op == 0x17 || op == 0x6f || op == 0x67) ==> next_bytes(c, bytes) == bytes
        }),
{
    let w = row.instruction;
    crate::decode::lemma_decode_upper_jumps_system(w);
    lemma_wrap_mod(row.pc, 4);
    lemma_wrap_mod(row.pc, (w & 0xfffff000) as int);
    let ij = crate::decode::imm_j_of(w);
    lemma_imm_j_range(w);
    let kj: i32 = ij as i32;
    assert(kj as int == ij);
    lemma_u32_of_i32(kj);
    lemma_wrap_mod(row.pc, (kj as u32) as int);
    let ii = crate::decode::imm_i_of(w);
    lemma_imm_i_range(w);
    let ki: i32 = ii as i32;
    assert(ki as int == ii);
    lemma_u32_of_i32(ki);
    lemma_wrap_mod(row.rs1_val, (ki as u32) as int);
    let raw = wrap(row.rs1_val, (ki as u32) as int);
    assert((raw & !1u32) as int == raw as int - raw as int % 2) by (bit_vector);
}

/// Halting: a step on the word of ECALL (`0x00000073`) halts with reason
/// `Ecall`, on that of EBREAK (`0x00100073`) with reason `Ebreak`; a step on
/// a word of the register, immediate, load, store, branch, LUI, AUIPC, JAL
/// or JALR opcodes whose funct3 names an instruction does not halt; every
/// step advances the cycle counter by one.
#[verifier::spinoff_prover]
pub proof fn lemma_halting_step(c: CpuState, bytes: Seq<u8>, row: TraceRow)
    requires
        step_ok(c, bytes),
        row_of_step(row, c, bytes),
    ensures
        ({
            let w = row.instruction;
            let op = w & 0x7f;
            let f3 = (w >> 12) & 7;
            let n = next_state(c, bytes);
            let known = op == 0x33 || op == 0x13 || op == 0x37 || op == 0x17 || op == 0x6f || op == 0x67
                || (op == 0x63 && f3 != 2 && f3 != 3) || (op == 0x03 && f3 != 3 && f3 != 6 && f3 != 7) || (
            op == 0x23 && f3 <= 2);
            &&& w == 0x73 ==> n.halted && n.halt_reason == Some(HaltReason::Ecall)
            &&& w == 0x0010_0073 ==> n.halted && n.halt_reason == Some(HaltReason::Ebreak)
            &&& known ==> n.halted == c.halted && n.halt_reason == c.halt_reason
            &&& n.cycle == c.cycle + 1
            &&& row.is_halted == n.halted
        }),
{
    let w = row.instruction;
    lemma_funct3_small(w);
    if w & 0x7f == 0x33 {
        crate::decode::lemma_decode_op_reg(w);
    }
    if w & 0x7f == 0x13 {
        crate::decode::lemma_decode_op_imm(w);
    }
    if w & 0x7f == 0x63 {
        crate::decode::lemma_decode_branch(w);
    }
    crate::decode::lemma_decode_load_store(w);
    crate::decode::lemma_decode_upper_jumps_system(w);
    assert((w == 0x73 ==> w & 0x7f == 0x73 && (w >> 20) & 0xfff == 0) && (w == 0x0010_0073 ==> w & 0x7f == 0x73
        && (w >> 20) & 0xfff == 1)) by (bit_vector);
}

/// An I-immediate lies in `[-2048, 2048)`.
proof fn lemma_imm_i_range(w: u32)
    ensures
        -2048 <= crate::decode::imm_i_of(w) < 2048,
{
    vstd::arithmetic::power2::lemma2_to64();
    assert(vstd::arithmetic::power2::pow2(12) == 4096);
    assert(vstd::arithmetic::power2::pow2(11) == 2048);
}

/// The conditional branches of RV32I. For a step whose instruction word has
/// the BRANCH opcode `1100011`, funct3 names the comparison of the values of
/// registers rs1 (bits 15..19) and rs2 (bits 20..24): `000` equal, `001` not
/// equal, `100` less as signed 32-bit integers, `101` greater or equal as
/// signed, `110` less as unsigned, `111` greater or equal as unsigned. The
/// branch is taken exactly when the comparison holds; a taken branch moves
/// the PC by the sign-extended B-immediate (modulo 2^32), an untaken one to
/// the next word; no register and no memory byte changes.
#[verifier::spinoff_prover]
#[verifier::rlimit(40)]
pub proof fn lemma_branch_step(c: CpuState, bytes: Seq<u8>, row: TraceRow)
    requires
        step_ok(c, bytes),
        row_of_step(row, c, bytes),
        row.instruction & 0x7f == 0x63,
        (row.instruction >> 12) & 7 != 2,
        (row.instruction >> 12) & 7 != 3,
    ensures
        row.rs1_idx == (row.instruction >> 15) & 0x1f,
        row.rs2_idx == (row.instruction >> 20) & 0x1f,
        row.rs1_val == reg_value(c.regs, row.rs1_idx),
        row.rs2_val == reg_value(c.regs, row.rs2_idx),
        row.branch_taken == branch_holds((row.instruction >> 12) & 7, row.rs1_val, row.rs2_val),
        row.next_pc as int == if row.branch_taken {
            (row.pc as int + crate::decode::imm_b_of(row.instruction)) % 0x1_0000_0000
        } else {
            (row.pc as int + 4) % 0x1_0000_0000
        },
        next_state(c, bytes).regs == c.regs,
        next_bytes(c, bytes) == bytes,
{
    let w = row.instruction;
    assert(crate::decode::opcode_of(w) == 0x63);
    let f3 = (w >> 12) & 7;
    lemma_funct3_small(w);
    assert(crate::decode::funct3_of(w) == f3);
    crate::decode::lemma_decode_branch(w);
    lemma_i32_of(row.rs1_val);
    lemma_i32_of(row.rs2_val);
    let imm = crate::decode::imm_b_of(w);
    lemma_imm_b_range(w);
    let k: i32 = imm as i32;
    assert(k as int == imm);
    lemma_u32_of_i32(k);
}

/// One step's frame: every register other than a nonzero destination keeps
/// its value (`x0` among them), a nonzero destination receives the row's
/// `rd_val`, the row's source values are the registers' values before the
/// step (`x0` reading 0), and memory changes only on a store.
pub proof fn lemma_step_frame(c: CpuState, bytes: Seq<u8>, row: TraceRow)
    requires
        step_ok(c, bytes),
        row_of_step(row, c, bytes),
    ensures
        next_state(c, bytes).regs.len() == 32,
        forall|j: int|
            0 <= j < 32 && (j == 0 || j != row.rd_idx) ==> #[trigger] next_state(c, bytes).regs[j] == c.regs[j],
        row.rd_idx != 0 ==> next_state(c, bytes).regs[row.rd_idx as int] == row.rd_val,
        row.rs1_val == reg_value(c.regs, row.rs1_idx),
        row.rs2_val == reg_value(c.regs, row.rs2_idx),
        !row.is_store ==> next_bytes(c, bytes) == bytes,
{
    lemma_decoded_ok(fetch(bytes, c.pc));
    let instr = current_instr(c, bytes);
    let e = current_effect(c, bytes);
    assert(regs_of(instr).2 != 0 ==> e.writes_rd);
    assert(!e.is_store ==> next_bytes(c, bytes) == bytes);
}

impl Cpu {
    /// Execute until halt or cycle limit. Returns the execution trace: one
    /// row per step, the `i`-th describing the step from the state after
    /// `i` steps; the run takes steps until the state halts or reaches the
    /// cycle limit.
    #[verifier::spinoff_prover]
    pub fn run(&mut self, mem: &mut Memory, cycle_limit: u32) -> (t: ExecutionTrace)
        requires
            run_safe(old(self)@, old(mem)@, cycle_limit),
        ensures
            ({
                let k = t.rows@.len();
                let last = after_steps(old(self)@, old(mem)@, k);
                &&& forall|i: int|
                    0 <= i < k ==> !stops(#[trigger] after_steps(old(self)@, old(mem)@, i as nat).0, cycle_limit)
                &&& stops(last.0, cycle_limit)
                &&& forall|i: int|
                    0 <= i < k ==> row_of_step(
                        #[trigger] t.rows@[i],
                        after_steps(old(self)@, old(mem)@, i as nat).0,
                        after_steps(old(self)@, old(mem)@, i as nat).1,
                    )
                &&& final(self)@ == finish(last.0, cycle_limit)
                &&& final(mem)@ == last.1
                &&& final(mem).log() == old(mem).log() + steps_log(old(self)@, old(mem)@, k)
            }),
            t.tables_empty(),
            t.num_real_steps == 0,
    {
        let ghost c0 = self@;
        let ghost b0 = mem@;
        let mut trace = ExecutionTrace::new();
        while !self.halted && self.cycle < cycle_limit
            invariant
                self@ == after_steps(c0, b0, trace.rows@.len()).0,
                mem@ == after_steps(c0, b0, trace.rows@.len()).1,
                mem.log() == old(mem).log() + steps_log(c0, b0, trace.rows@.len()),
                run_safe(self@, mem@, cycle_limit),
                forall|i: int|
                    0 <= i < trace.rows@.len() ==> !stops(#[trigger] after_steps(c0, b0, i as nat).0, cycle_limit),
                forall|i: int|
                    0 <= i < trace.rows@.len() ==> row_of_step(
                        #[trigger] trace.rows@[i],
                        after_steps(c0, b0, i as nat).0,
                        after_steps(c0, b0, i as nat).1,
                    ),
                trace.tables_empty(),
                trace.num_real_steps == 0,
            ensures
                stops(self@, cycle_limit),
            decreases cycle_limit - self.cycle,
        {
            let ghost k = trace.rows@.len();
            let ghost log_before = mem.log();
            let row = self.step(mem);
            trace.push(row);
            proof {
                assert(after_steps(c0, b0, k + 1) == (self@, mem@));
                assert(steps_log(c0, b0, k + 1) == steps_log(c0, b0, k) + step_log(
                    after_steps(c0, b0, k).0,
                    after_steps(c0, b0, k).1,
                ));
                assert(mem.log() =~= old(mem).log() + steps_log(c0, b0, k + 1));
                assert(trace.rows@[k as int] == row);
            }
            if self.halted {
                break;
            }
        }
        if !self.halted && self.cycle >= cycle_limit {
            self.halted = true;
            self.halt_reason = Some(HaltReason::CycleLimitReached);
        }
        trace
    }
}


/// The end (exclusive) of the output tape region.
pub const OUTPUT_TAPE_END: u32 = 0x0040_0000;

/// The largest output count whose slot addresses fit in 32 bits.
pub const MAX_OUTPUT_COUNT: u32 = 1_072_955_391;

/// The value of the last store to `addr` among `rows`, if any.
pub open spec fn last_store(rows: Seq<TraceRow>, addr: u32) -> Option<u32>
    decreases rows.len(),
{
    if rows.len() == 0 {
        None
    } else {
        let r = rows.last();
        if r.is_store && r.mem_addr == addr {
            Some(r.mem_val)
        } else {
            last_store(rows.drop_last(), addr)
        }
    }
}

/// The number of outputs: the last value stored to the count word at
/// `OUTPUT_TAPE_ADDR`, or 0.
pub open spec fn output_count(rows: Seq<TraceRow>) -> nat {
    match last_store(rows, OUTPUT_TAPE_ADDR) {
        Some(v) => v as nat,
        None => 0,
    }
}

/// Output `i`: the last value stored to its slot `OUTPUT_TAPE_ADDR + 4 + 4 i`
/// when that slot lies in the output region, else 0.
pub open spec fn output_value(rows: Seq<TraceRow>, i: nat) -> u32 {
    let a = OUTPUT_TAPE_ADDR + 4 + 4 * i;
    if a < OUTPUT_TAPE_END {
        match last_store(rows, a as u32) {
            Some(v) => v,
            None => 0,
        }
    } else {
        0
    }
}

/// `u32` keys obey the ordering laws that `BTreeMap` relies on.
pub(crate) open spec fn u32_keys_ordered() -> bool {
    vstd::laws_cmp::obeys_cmp::<u32>()
}

/// `u32` keys obey the ordering laws.
pub(crate) proof fn lemma_u32_key_laws()
    ensures
        u32_keys_ordered(),
{
    broadcast use vstd::laws_cmp::group_laws_cmp;

}

/// Read outputs from the execution trace by scanning memory writes to the
/// output tape. Returns the output values (not including the count word).
pub fn read_outputs_from_trace(rows: &[TraceRow], num_real_steps: usize) -> (r: Vec<u32>)
    requires
        num_real_steps <= rows@.len(),
        output_count(rows@.take(num_real_steps as int)) <= MAX_OUTPUT_COUNT,
    ensures
        r@ == Seq::new(
            output_count(rows@.take(num_real_steps as int)),
            |i: int| output_value(rows@.take(num_real_steps as int), i as nat),
        ),
{
    broadcast use vstd::std_specs::btree::group_btree_axioms;

    proof {
        lemma_u32_key_laws();
    }
    let ghost steps = rows@.take(num_real_steps as int);
    let mut count: Option<u32> = None;
    let mut output_vals: std::collections::BTreeMap<u32, u32> = std::collections::BTreeMap::new();
    let mut j: usize = 0;
    while j < num_real_steps
        invariant
            num_real_steps <= rows@.len(),
            j <= num_real_steps,
            u32_keys_ordered(),
            count == last_store(rows@.take(j as int), OUTPUT_TAPE_ADDR),
            forall|a: u32|
                OUTPUT_TAPE_ADDR < a < OUTPUT_TAPE_END ==> (#[trigger] output_vals@.contains_key(a)
                    <==> last_store(rows@.take(j as int), a) is Some),
            forall|a: u32|
                #[trigger] output_vals@.contains_key(a) ==> OUTPUT_TAPE_ADDR < a < OUTPUT_TAPE_END
                    && last_store(rows@.take(j as int), a) == Some(output_vals@[a]),
        decreases num_real_steps - j,
    {
        let row = rows[j];
        proof {
            assert(rows@.take(j + 1).drop_last() =~= rows@.take(j as int));
            assert(rows@.take(j + 1).last() == row);
        }
        if row.is_store && row.mem_addr == OUTPUT_TAPE_ADDR {
            count = Some(row.mem_val);
        }
        if row.is_store && row.mem_addr > OUTPUT_TAPE_ADDR && row.mem_addr < OUTPUT_TAPE_END {
            output_vals.insert(row.mem_addr, row.mem_val);
        }
        j = j + 1;
    }
    assert(rows@.take(j as int) == steps);
    let n: usize = match count {
        Some(c) => c as usize,
        None => 0,
    };
    let mut result: Vec<u32> = Vec::new();
    let mut i: usize = 0;
    while i < n
        invariant
            n == output_count(steps),
            n <= MAX_OUTPUT_COUNT,
            i <= n,
            u32_keys_ordered(),
            forall|a: u32|
                OUTPUT_TAPE_ADDR < a < OUTPUT_TAPE_END ==> (#[trigger] output_vals@.contains_key(a)
                    <==> last_store(steps, a) is Some),
            forall|a: u32|
                #[trigger] output_vals@.contains_key(a) ==> OUTPUT_TAPE_ADDR < a < OUTPUT_TAPE_END
                    && last_store(steps, a) == Some(output_vals@[a]),
            result@.len() == i,
            forall|k: int| 0 <= k < i ==> result@[k] == output_value(steps, k as nat),
        decreases n - i,
    {
        let addr: u32 = OUTPUT_TAPE_ADDR + 4 + 4 * (i as u32);
        let v: u32 = match output_vals.get(&addr) {
            Some(x) => *x,
            None => 0,
        };
        proof {
            let a = OUTPUT_TAPE_ADDR + 4 + 4 * (i as nat);
            assert(addr == a);
            if a < OUTPUT_TAPE_END {
                assert(OUTPUT_TAPE_ADDR < addr < OUTPUT_TAPE_END);
                if !output_vals@.contains_key(addr) {
                    assert(last_store(steps, addr) is None);
                }
            } else {
                assert(!output_vals@.contains_key(addr));
            }
            assert(v == output_value(steps, i as nat));
        }
        result.push(v);
        i = i + 1;
    }
    assert(result@ =~= Seq::new(output_count(steps), |i: int| output_value(steps, i as nat)));
    result
}

} // verus!
