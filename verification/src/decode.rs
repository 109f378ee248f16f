//! RISC-V RV32I instruction decoder.

use vstd::prelude::*;
use vstd::arithmetic::power2::pow2;

verus! {

/// Opcode field values (bits [6:0]).
pub const OP_LUI: u32 = 0b0110111;
pub const OP_AUIPC: u32 = 0b0010111;
pub const OP_JAL: u32 = 0b1101111;
pub const OP_JALR: u32 = 0b1100111;
pub const OP_BRANCH: u32 = 0b1100011;
pub const OP_LOAD: u32 = 0b0000011;
pub const OP_STORE: u32 = 0b0100011;
pub const OP_IMM: u32 = 0b0010011;
pub const OP_REG: u32 = 0b0110011;
pub const OP_SYSTEM: u32 = 0b1110011;

/// Funct3 values for branch instructions.
pub const F3_BEQ: u32 = 0b000;
pub const F3_BNE: u32 = 0b001;
pub const F3_BLT: u32 = 0b100;
pub const F3_BGE: u32 = 0b101;
pub const F3_BLTU: u32 = 0b110;
pub const F3_BGEU: u32 = 0b111;

/// Funct3 values for load instructions.
pub const F3_LB: u32 = 0b000;
pub const F3_LH: u32 = 0b001;
pub const F3_LW: u32 = 0b010;
pub const F3_LBU: u32 = 0b100;
pub const F3_LHU: u32 = 0b101;

/// Funct3 values for store instructions.
pub const F3_SB: u32 = 0b000;
pub const F3_SH: u32 = 0b001;
pub const F3_SW: u32 = 0b010;

/// Funct3 values for ALU immediate.
pub const F3_ADDI: u32 = 0b000;
pub const F3_SLTI: u32 = 0b010;
pub const F3_SLTIU: u32 = 0b011;
pub const F3_XORI: u32 = 0b100;
pub const F3_ORI: u32 = 0b110;
pub const F3_ANDI: u32 = 0b111;
pub const F3_SLLI: u32 = 0b001;
pub const F3_SRLI_SRAI: u32 = 0b101;

/// Funct3 values for ALU register.
pub const F3_ADD_SUB: u32 = 0b000;
pub const F3_SLL: u32 = 0b001;
pub const F3_SLT: u32 = 0b010;
pub const F3_SLTU: u32 = 0b011;
pub const F3_XOR: u32 = 0b100;
pub const F3_SRL_SRA: u32 = 0b101;
pub const F3_OR: u32 = 0b110;
pub const F3_AND: u32 = 0b111;

/// A decoded RV32I instruction.
#[derive(Debug, Clone, Copy, PartialEq, Eq, Structural)]
#[allow(inconsistent_fields)]
pub enum Instruction {
    // U-type
    Lui { rd: u32, imm: u32 },
    Auipc { rd: u32, imm: u32 },
    // J-type
    Jal { rd: u32, imm: i32 },
    // I-type (JALR)
    Jalr { rd: u32, rs1: u32, imm: i32 },
    // B-type
    Beq { rs1: u32, rs2: u32, imm: i32 },
    Bne { rs1: u32, rs2: u32, imm: i32 },
    Blt { rs1: u32, rs2: u32, imm: i32 },
    Bge { rs1: u32, rs2: u32, imm: i32 },
    Bltu { rs1: u32, rs2: u32, imm: i32 },
    Bgeu { rs1: u32, rs2: u32, imm: i32 },
    // I-type (loads)
    Lb { rd: u32, rs1: u32, imm: i32 },
    Lh { rd: u32, rs1: u32, imm: i32 },
    Lw { rd: u32, rs1: u32, imm: i32 },
    Lbu { rd: u32, rs1: u32, imm: i32 },
    Lhu { rd: u32, rs1: u32, imm: i32 },
    // S-type (stores)
    Sb { rs1: u32, rs2: u32, imm: i32 },
    Sh { rs1: u32, rs2: u32, imm: i32 },
    Sw { rs1: u32, rs2: u32, imm: i32 },
    // I-type (ALU immediate)
    Addi { rd: u32, rs1: u32, imm: i32 },
    Slti { rd: u32, rs1: u32, imm: i32 },
    Sltiu { rd: u32, rs1: u32, imm: i32 },
    Xori { rd: u32, rs1: u32, imm: i32 },
    Ori { rd: u32, rs1: u32, imm: i32 },
    Andi { rd: u32, rs1: u32, imm: i32 },
    Slli { rd: u32, rs1: u32, shamt: u32 },
    Srli { rd: u32, rs1: u32, shamt: u32 },
    Srai { rd: u32, rs1: u32, shamt: u32 },
    // R-type (ALU register)
    Add { rd: u32, rs1: u32, rs2: u32 },
    Sub { rd: u32, rs1: u32, rs2: u32 },
    Sll { rd: u32, rs1: u32, rs2: u32 },
    Slt { rd: u32, rs1: u32, rs2: u32 },
    Sltu { rd: u32, rs1: u32, rs2: u32 },
    Xor { rd: u32, rs1: u32, rs2: u32 },
    Srl { rd: u32, rs1: u32, rs2: u32 },
    Sra { rd: u32, rs1: u32, rs2: u32 },
    Or { rd: u32, rs1: u32, rs2: u32 },
    And { rd: u32, rs1: u32, rs2: u32 },
    // System
    Ecall,
    Ebreak,
    // An encoding that is none of the above
    Invalid(u32),
}

/// Bits [6:0].
pub open spec fn opcode_of(w: u32) -> u32 { w & 0x7f }
/// Bits [11:7].
pub open spec fn rd_of(w: u32) -> u32 { (w >> 7) & 0x1f }
/// Bits [14:12].
pub open spec fn funct3_of(w: u32) -> u32 { (w >> 12) & 0x7 }
/// Bits [19:15].
pub open spec fn rs1_of(w: u32) -> u32 { (w >> 15) & 0x1f }
/// Bits [24:20].
pub open spec fn rs2_of(w: u32) -> u32 { (w >> 20) & 0x1f }
/// Bits [31:25].
pub open spec fn funct7_of(w: u32) -> u32 { (w >> 25) & 0x7f }

/// The two's-complement value of the low `bits` bits of `v`.
pub open spec fn sext(v: int, bits: nat) -> int {
    let low = v % (pow2(bits) as int);
    if bits > 0 && low >= pow2((bits - 1) as nat) { low - pow2(bits) } else { low }
}

/// I-type immediate: bits [31:20], sign-extended.
pub open spec fn imm_i_of(w: u32) -> int { sext((w >> 20) as int, 12) }

/// S-type immediate: bits [31:25] ++ [11:7], sign-extended.
pub open spec fn imm_s_of(w: u32) -> int {
    sext((((w >> 25) & 0x7f) * 32 + ((w >> 7) & 0x1f)) as int, 12)
}

/// B-type immediate: bits [31|7|30:25|11:8] followed by a zero bit, sign-extended.
pub open spec fn imm_b_of(w: u32) -> int {
    sext(
        (((w >> 31) & 1) * 4096 + ((w >> 7) & 1) * 2048 + ((w >> 25) & 0x3f) * 32 + ((w >> 8) & 0xf)
            * 2) as int,
        13,
    )
}

/// U-type immediate: bits [31:12] followed by twelve zero bits.
pub open spec fn imm_u_of(w: u32) -> u32 { w & 0xfffff000 }

/// J-type immediate: bits [31|19:12|20|30:21] followed by a zero bit, sign-extended.
pub open spec fn imm_j_of(w: u32) -> int {
    sext(
        (((w >> 31) & 1) * 1048576 + ((w >> 12) & 0xff) * 4096 + ((w >> 20) & 1) * 2048 + ((w
            >> 21) & 0x3ff) * 2) as int,
        21,
    )
}

/// Extract fields from an instruction word.
pub fn opcode(w: u32) -> (r: u32)
    ensures
        r == opcode_of(w),
        r < 128,
{
    assert(w & 0x7f < 128) by (bit_vector);
    w & 0x7f
}

pub fn rd(w: u32) -> (r: u32)
    ensures
        r == rd_of(w),
        r < 32,
{
    assert((w >> 7) & 0x1f < 32) by (bit_vector);
    (w >> 7) & 0x1f
}

pub fn funct3(w: u32) -> (r: u32)
    ensures
        r == funct3_of(w),
        r < 8,
{
    assert((w >> 12) & 0x7 < 8) by (bit_vector);
    (w >> 12) & 0x7
}

pub fn rs1(w: u32) -> (r: u32)
    ensures
        r == rs1_of(w),
        r < 32,
{
    assert((w >> 15) & 0x1f < 32) by (bit_vector);
    (w >> 15) & 0x1f
}

pub fn rs2(w: u32) -> (r: u32)
    ensures
        r == rs2_of(w),
        r < 32,
{
    assert((w >> 20) & 0x1f < 32) by (bit_vector);
    (w >> 20) & 0x1f
}

pub fn funct7(w: u32) -> (r: u32)
    ensures
        r == funct7_of(w),
        r < 128,
{
    assert((w >> 25) & 0x7f < 128) by (bit_vector);
    (w >> 25) & 0x7f
}

/// Sign-extend the low `bits` bits of `val` to an `i32`.
pub fn sign_extend(val: u32, bits: u32) -> (r: i32)
    requires
        1 <= bits <= 32,
    ensures
        r as int == sext(val as int, bits as nat),
{
    proof {
        vstd::bits::lemma_u64_pow2_no_overflow(bits as nat);
        vstd::bits::lemma_u64_shl_is_mul(1, bits as u64);
        vstd::arithmetic::power2::lemma_pow2_unfold(bits as nat);
        vstd::arithmetic::power2::lemma2_to64();
    }
    let m: u64 = 1u64 << (bits as u64);
    assert(m as int == pow2(bits as nat)) by {
        if bits < 32 {
            vstd::arithmetic::power2::lemma_pow2_strictly_increases(bits as nat, 32);
        }
    }
    let low: u64 = (val as u64) % m;
    let half: u64 = m / 2;
    if low >= half {
        (low as i64 - m as i64) as i32
    } else {
        low as i32
    }
}

/// I-type immediate: bits [31:20], sign-extended.
pub fn imm_i(w: u32) -> (r: i32)
    ensures
        r as int == imm_i_of(w),
{
    sign_extend(w >> 20, 12)
}

/// S-type immediate: bits [31:25] | [11:7], sign-extended.
pub fn imm_s(w: u32) -> (r: i32)
    ensures
        r as int == imm_s_of(w),
{
    let hi = (w >> 25) & 0x7f;
    let lo = (w >> 7) & 0x1f;
    assert(hi < 128 && lo < 32) by (bit_vector)
        requires
            hi == (w >> 25) & 0x7f,
            lo == (w >> 7) & 0x1f,
    ;
    assert((hi << 5) | lo == hi * 32 + lo) by (bit_vector)
        requires
            hi < 128,
            lo < 32,
    ;
    sign_extend((hi << 5) | lo, 12)
}

/// B-type immediate: bits [31|7|30:25|11:8] << 1, sign-extended.
pub fn imm_b(w: u32) -> (r: i32)
    ensures
        r as int == imm_b_of(w),
{
    let bit12 = (w >> 31) & 1;
    let bit11 = (w >> 7) & 1;
    let bits10_5 = (w >> 25) & 0x3f;
    let bits4_1 = (w >> 8) & 0xf;
    assert(bit12 < 2 && bit11 < 2 && bits10_5 < 64 && bits4_1 < 16) by (bit_vector)
        requires
            bit12 == (w >> 31) & 1,
            bit11 == (w >> 7) & 1,
            bits10_5 == (w >> 25) & 0x3f,
            bits4_1 == (w >> 8) & 0xf,
    ;
    let val = (bit12 << 12) | (bit11 << 11) | (bits10_5 << 5) | (bits4_1 << 1);
    assert(val == bit12 * 4096 + bit11 * 2048 + bits10_5 * 32 + bits4_1 * 2) by (bit_vector)
        requires
            bit12 < 2,
            bit11 < 2,
            bits10_5 < 64,
            bits4_1 < 16,
            val == (bit12 << 12) | (bit11 << 11) | (bits10_5 << 5) | (bits4_1 << 1),
    ;
    sign_extend(val, 13)
}

/// U-type immediate: bits [31:12] << 12.
pub fn imm_u(w: u32) -> (r: u32)
    ensures
        r == imm_u_of(w),
{
    w & 0xfffff000
}

/// J-type immediate: bits [31|19:12|20|30:21] << 1, sign-extended.
pub fn imm_j(w: u32) -> (r: i32)
    ensures
        r as int == imm_j_of(w),
{
    let bit20 = (w >> 31) & 1;
    let bits10_1 = (w >> 21) & 0x3ff;
    let bit11 = (w >> 20) & 1;
    let bits19_12 = (w >> 12) & 0xff;
    assert(bit20 < 2 && bits10_1 < 1024 && bit11 < 2 && bits19_12 < 256) by (bit_vector)
        requires
            bit20 == (w >> 31) & 1,
            bits10_1 == (w >> 21) & 0x3ff,
            bit11 == (w >> 20) & 1,
            bits19_12 == (w >> 12) & 0xff,
    ;
    let val = (bit20 << 20) | (bits19_12 << 12) | (bit11 << 11) | (bits10_1 << 1);
    assert(val == bit20 * 1048576 + bits19_12 * 4096 + bit11 * 2048 + bits10_1 * 2) by (bit_vector)
        requires
            bit20 < 2,
            bits10_1 < 1024,
            bit11 < 2,
            bits19_12 < 256,
            val == (bit20 << 20) | (bits19_12 << 12) | (bit11 << 11) | (bits10_1 << 1),
    ;
    sign_extend(val, 21)
}


/// The instruction that the word `w` encodes, per the RV32I base encoding
/// table; any other word is `Invalid(w)`.
pub open spec fn decoded(w: u32) -> Instruction {
    let op = opcode_of(w);
    let d = rd_of(w);
    let r1 = rs1_of(w);
    let r2 = rs2_of(w);
    let f3 = funct3_of(w);
    let f7 = funct7_of(w);
    if op == OP_LUI {
        Instruction::Lui { rd: d, imm: imm_u_of(w) }
    } else if op == OP_AUIPC {
        Instruction::Auipc { rd: d, imm: imm_u_of(w) }
    } else if op == OP_JAL {
        Instruction::Jal { rd: d, imm: imm_j_of(w) as i32 }
    } else if op == OP_JALR {
        Instruction::Jalr { rd: d, rs1: r1, imm: imm_i_of(w) as i32 }
    } else if op == OP_BRANCH {
        let imm = imm_b_of(w) as i32;
        if f3 == F3_BEQ {
            Instruction::Beq { rs1: r1, rs2: r2, imm }
        } else if f3 == F3_BNE {
            Instruction::Bne { rs1: r1, rs2: r2, imm }
        } else if f3 == F3_BLT {
            Instruction::Blt { rs1: r1, rs2: r2, imm }
        } else if f3 == F3_BGE {
            Instruction::Bge { rs1: r1, rs2: r2, imm }
        } else if f3 == F3_BLTU {
            Instruction::Bltu { rs1: r1, rs2: r2, imm }
        } else if f3 == F3_BGEU {
            Instruction::Bgeu { rs1: r1, rs2: r2, imm }
        } else {
            Instruction::Invalid(w)
        }
    } else if op == OP_LOAD {
        let imm = imm_i_of(w) as i32;
        if f3 == F3_LB {
            Instruction::Lb { rd: d, rs1: r1, imm }
        } else if f3 == F3_LH {
            Instruction::Lh { rd: d, rs1: r1, imm }
        } else if f3 == F3_LW {
            Instruction::Lw { rd: d, rs1: r1, imm }
        } else if f3 == F3_LBU {
            Instruction::Lbu { rd: d, rs1: r1, imm }
        } else if f3 == F3_LHU {
            Instruction::Lhu { rd: d, rs1: r1, imm }
        } else {
            Instruction::Invalid(w)
        }
    } else if op == OP_STORE {
        let imm = imm_s_of(w) as i32;
        if f3 == F3_SB {
            Instruction::Sb { rs1: r1, rs2: r2, imm }
        } else if f3 == F3_SH {
            Instruction::Sh { rs1: r1, rs2: r2, imm }
        } else if f3 == F3_SW {
            Instruction::Sw { rs1: r1, rs2: r2, imm }
        } else {
            Instruction::Invalid(w)
        }
    } else if op == OP_IMM {
        let imm = imm_i_of(w) as i32;
        let shamt = rs2_of(w);
        if f3 == F3_ADDI {
            Instruction::Addi { rd: d, rs1: r1, imm }
        } else if f3 == F3_SLTI {
            Instruction::Slti { rd: d, rs1: r1, imm }
        } else if f3 == F3_SLTIU {
            Instruction::Sltiu { rd: d, rs1: r1, imm }
        } else if f3 == F3_XORI {
            Instruction::Xori { rd: d, rs1: r1, imm }
        } else if f3 == F3_ORI {
            Instruction::Ori { rd: d, rs1: r1, imm }
        } else if f3 == F3_ANDI {
            Instruction::Andi { rd: d, rs1: r1, imm }
        } else if f3 == F3_SLLI {
            Instruction::Slli { rd: d, rs1: r1, shamt }
        } else if f7 & 0x20 != 0 {
            Instruction::Srai { rd: d, rs1: r1, shamt }
        } else {
            Instruction::Srli { rd: d, rs1: r1, shamt }
        }
    } else if op == OP_REG {
        if f3 == F3_ADD_SUB {
            if f7 == 0x20 {
                Instruction::Sub { rd: d, rs1: r1, rs2: r2 }
            } else {
                Instruction::Add { rd: d, rs1: r1, rs2: r2 }
            }
        } else if f3 == F3_SLL {
            Instruction::Sll { rd: d, rs1: r1, rs2: r2 }
        } else if f3 == F3_SLT {
            Instruction::Slt { rd: d, rs1: r1, rs2: r2 }
        } else if f3 == F3_SLTU {
            Instruction::Sltu { rd: d, rs1: r1, rs2: r2 }
        } else if f3 == F3_XOR {
            Instruction::Xor { rd: d, rs1: r1, rs2: r2 }
        } else if f3 == F3_SRL_SRA {
            if f7 == 0x20 {
                Instruction::Sra { rd: d, rs1: r1, rs2: r2 }
            } else {
                Instruction::Srl { rd: d, rs1: r1, rs2: r2 }
            }
        } else if f3 == F3_OR {
            Instruction::Or { rd: d, rs1: r1, rs2: r2 }
        } else {
            Instruction::And { rd: d, rs1: r1, rs2: r2 }
        }
    } else if op == OP_SYSTEM {
        let imm = (w >> 20) & 0xfff;
        if imm == 0 {
            Instruction::Ecall
        } else if imm == 1 {
            Instruction::Ebreak
        } else {
            Instruction::Invalid(w)
        }
    } else {
        Instruction::Invalid(w)
    }
}

/// The register-register rows of the RV32I encoding table. A word with
/// opcode `0110011` names rd in bits 7..11, rs1 in bits 15..19 and rs2 in
/// bits 20..24, and funct3 (bits 12..14) with funct7 (bits 25..31) picks the
/// operation: `000` ADD (SUB when funct7 is `0100000`), `001` SLL, `010`
/// SLT, `011` SLTU, `100` XOR, `101` SRL (SRA when funct7 is `0100000`),
/// `110` OR, `111` AND.
pub proof fn lemma_decode_op_reg(w: u32)
    requires
        w & 0x7f == 0x33,
    ensures
        ({
            let d = (w >> 7) & 0x1f;
            let a = (w >> 15) & 0x1f;
            let b = (w >> 20) & 0x1f;
            let f3 = (w >> 12) & 7;
            let f7 = (w >> 25) & 0x7f;
            &&& f3 == 0 && f7 != 0x20 ==> decoded(w) == Instruction::Add { rd: d, rs1: a, rs2: b }
            &&& f3 == 0 && f7 == 0x20 ==> decoded(w) == Instruction::Sub { rd: d, rs1: a, rs2: b }
            &&& f3 == 1 ==> decoded(w) == Instruction::Sll { rd: d, rs1: a, rs2: b }
            &&& f3 == 2 ==> decoded(w) == Instruction::Slt { rd: d, rs1: a, rs2: b }
            &&& f3 == 3 ==> decoded(w) == Instruction::Sltu { rd: d, rs1: a, rs2: b }
            &&& f3 == 4 ==> decoded(w) == Instruction::Xor { rd: d, rs1: a, rs2: b }
            &&& f3 == 5 && f7 != 0x20 ==> decoded(w) == Instruction::Srl { rd: d, rs1: a, rs2: b }
            &&& f3 == 5 && f7 == 0x20 ==> decoded(w) == Instruction::Sra { rd: d, rs1: a, rs2: b }
            &&& f3 == 6 ==> decoded(w) == Instruction::Or { rd: d, rs1: a, rs2: b }
            &&& f3 == 7 ==> decoded(w) == Instruction::And { rd: d, rs1: a, rs2: b }
        }),
{
}

/// The register-immediate rows of the RV32I encoding table. A word with
/// opcode `0010011` names rd, rs1 and the sign-extended I-immediate (bits
/// 20..31); funct3 picks the operation: `000` ADDI, `010` SLTI, `011`
/// SLTIU, `100` XORI, `110` ORI, `111` ANDI, and the shifts by the amount in
/// bits 20..24: `001` SLLI, `101` SRLI (SRAI when bit 30 is set).
pub proof fn lemma_decode_op_imm(w: u32)
    requires
        w & 0x7f == 0x13,
    ensures
        ({
            let d = (w >> 7) & 0x1f;
            let a = (w >> 15) & 0x1f;
            let sh = (w >> 20) & 0x1f;
            let imm = imm_i_of(w) as i32;
            let f3 = (w >> 12) & 7;
            let arith = ((w >> 25) & 0x7f) & 0x20 != 0;
            &&& f3 == 0 ==> decoded(w) == Instruction::Addi { rd: d, rs1: a, imm }
            &&& f3 == 2 ==> decoded(w) == Instruction::Slti { rd: d, rs1: a, imm }
            &&& f3 == 3 ==> decoded(w) == Instruction::Sltiu { rd: d, rs1: a, imm }
            &&& f3 == 4 ==> decoded(w) == Instruction::Xori { rd: d, rs1: a, imm }
            &&& f3 == 6 ==> decoded(w) == Instruction::Ori { rd: d, rs1: a, imm }
            &&& f3 == 7 ==> decoded(w) == Instruction::Andi { rd: d, rs1: a, imm }
            &&& f3 == 1 ==> decoded(w) == Instruction::Slli { rd: d, rs1: a, shamt: sh }
            &&& f3 == 5 && !arith ==> decoded(w) == Instruction::Srli { rd: d, rs1: a, shamt: sh }
            &&& f3 == 5 && arith ==> decoded(w) == Instruction::Srai { rd: d, rs1: a, shamt: sh }
        }),
{
}

/// The branch rows of the RV32I encoding table. A word with opcode
/// `1100011` names rs1, rs2 and the sign-extended B-immediate; funct3 picks
/// the comparison: `000` BEQ, `001` BNE, `100` BLT, `101` BGE, `110` BLTU,
/// `111` BGEU; the other two values are no instruction.
pub proof fn lemma_decode_branch(w: u32)
    requires
        w & 0x7f == 0x63,
    ensures
        ({
            let a = (w >> 15) & 0x1f;
            let b = (w >> 20) & 0x1f;
            let imm = imm_b_of(w) as i32;
            let f3 = (w >> 12) & 7;
            &&& f3 == 0 ==> decoded(w) == Instruction::Beq { rs1: a, rs2: b, imm }
            &&& f3 == 1 ==> decoded(w) == Instruction::Bne { rs1: a, rs2: b, imm }
            &&& f3 == 4 ==> decoded(w) == Instruction::Blt { rs1: a, rs2: b, imm }
            &&& f3 == 5 ==> decoded(w) == Instruction::Bge { rs1: a, rs2: b, imm }
            &&& f3 == 6 ==> decoded(w) == Instruction::Bltu { rs1: a, rs2: b, imm }
            &&& f3 == 7 ==> decoded(w) == Instruction::Bgeu { rs1: a, rs2: b, imm }
            &&& (f3 == 2 || f3 == 3) ==> decoded(w) == Instruction::Invalid(w)
        }),
{
}

/// The load and store rows of the RV32I encoding table. A load (opcode
/// `0000011`) names rd, rs1 and the I-immediate, with funct3 `000` LB, `001`
/// LH, `010` LW, `100` LBU, `101` LHU; a store (opcode `0100011`) names rs1,
/// rs2 and the S-immediate, with funct3 `000` SB, `001` SH, `010` SW.
pub proof fn lemma_decode_load_store(w: u32)
    ensures
        ({
            let d = (w >> 7) & 0x1f;
            let a = (w >> 15) & 0x1f;
            let b = (w >> 20) & 0x1f;
            let f3 = (w >> 12) & 7;
            let li = imm_i_of(w) as i32;
            let si = imm_s_of(w) as i32;
            &&& w & 0x7f == 0x03 && f3 == 0 ==> decoded(w) == Instruction::Lb { rd: d, rs1: a, imm: li }
            &&& w & 0x7f == 0x03 && f3 == 1 ==> decoded(w) == Instruction::Lh { rd: d, rs1: a, imm: li }
            &&& w & 0x7f == 0x03 && f3 == 2 ==> decoded(w) == Instruction::Lw { rd: d, rs1: a, imm: li }
            &&& w & 0x7f == 0x03 && f3 == 4 ==> decoded(w) == Instruction::Lbu { rd: d, rs1: a, imm: li }
            &&& w & 0x7f == 0x03 && f3 == 5 ==> decoded(w) == Instruction::Lhu { rd: d, rs1: a, imm: li }
            &&& w & 0x7f == 0x23 && f3 == 0 ==> decoded(w) == Instruction::Sb { rs1: a, rs2: b, imm: si }
            &&& w & 0x7f == 0x23 && f3 == 1 ==> decoded(w) == Instruction::Sh { rs1: a, rs2: b, imm: si }
            &&& w & 0x7f == 0x23 && f3 == 2 ==> decoded(w) == Instruction::Sw { rs1: a, rs2: b, imm: si }
        }),
{
}

/// The remaining rows of the RV32I encoding table: LUI (`0110111`) and
/// AUIPC (`0010111`) take rd and the upper 20 bits; JAL (`1101111`) rd and
/// the J-immediate; JALR (`1100111`) rd, rs1 and the I-immediate; SYSTEM
/// (`1110011`) is ECALL with bits 20..31 zero and EBREAK with them one.
pub proof fn lemma_decode_upper_jumps_system(w: u32)
    ensures
        ({
            let d = (w >> 7) & 0x1f;
            let a = (w >> 15) & 0x1f;
            &&& w & 0x7f == 0x37 ==> decoded(w) == Instruction::Lui { rd: d, imm: w & 0xfffff000 }
            &&& w & 0x7f == 0x17 ==> decoded(w) == Instruction::Auipc { rd: d, imm: w & 0xfffff000 }
            &&& w & 0x7f == 0x6f ==> decoded(w) == Instruction::Jal { rd: d, imm: imm_j_of(w) as i32 }
            &&& w & 0x7f == 0x67 ==> decoded(w) == Instruction::Jalr { rd: d, rs1: a, imm: imm_i_of(w) as i32 }
            &&& w & 0x7f == 0x73 && (w >> 20) & 0xfff == 0 ==> decoded(w) == Instruction::Ecall
            &&& w & 0x7f == 0x73 && (w >> 20) & 0xfff == 1 ==> decoded(w) == Instruction::Ebreak
        }),
{
}

/// Decode a 32-bit RISC-V instruction word into a structured `Instruction`.
pub fn decode(w: u32) -> (r: Instruction)
    ensures
        r == decoded(w),
{
    let op = opcode(w);
    if op == OP_LUI {
        Instruction::Lui { rd: rd(w), imm: imm_u(w) }
    } else if op == OP_AUIPC {
        Instruction::Auipc { rd: rd(w), imm: imm_u(w) }
    } else if op == OP_JAL {
        Instruction::Jal { rd: rd(w), imm: imm_j(w) }
    } else if op == OP_JALR {
        Instruction::Jalr { rd: rd(w), rs1: rs1(w), imm: imm_i(w) }
    } else if op == OP_BRANCH {
        let r1 = rs1(w);
        let r2 = rs2(w);
        let imm = imm_b(w);
        match funct3(w) {
            F3_BEQ => Instruction::Beq { rs1: r1, rs2: r2, imm },
            F3_BNE => Instruction::Bne { rs1: r1, rs2: r2, imm },
            F3_BLT => Instruction::Blt { rs1: r1, rs2: r2, imm },
            F3_BGE => Instruction::Bge { rs1: r1, rs2: r2, imm },
            F3_BLTU => Instruction::Bltu { rs1: r1, rs2: r2, imm },
            F3_BGEU => Instruction::Bgeu { rs1: r1, rs2: r2, imm },
            _ => Instruction::Invalid(w),
        }
    } else if op == OP_LOAD {
        let d = rd(w);
        let r1 = rs1(w);
        let imm = imm_i(w);
        match funct3(w) {
            F3_LB => Instruction::Lb { rd: d, rs1: r1, imm },
            F3_LH => Instruction::Lh { rd: d, rs1: r1, imm },
            F3_LW => Instruction::Lw { rd: d, rs1: r1, imm },
            F3_LBU => Instruction::Lbu { rd: d, rs1: r1, imm },
            F3_LHU => Instruction::Lhu { rd: d, rs1: r1, imm },
            _ => Instruction::Invalid(w),
        }
    } else if op == OP_STORE {
        let r1 = rs1(w);
        let r2 = rs2(w);
        let imm = imm_s(w);
        match funct3(w) {
            F3_SB => Instruction::Sb { rs1: r1, rs2: r2, imm },
            F3_SH => Instruction::Sh { rs1: r1, rs2: r2, imm },
            F3_SW => Instruction::Sw { rs1: r1, rs2: r2, imm },
            _ => Instruction::Invalid(w),
        }
    } else if op == OP_IMM {
        let d = rd(w);
        let r1 = rs1(w);
        let imm = imm_i(w);
        let shamt = (w >> 20) & 0x1f;
        match funct3(w) {
            F3_ADDI => Instruction::Addi { rd: d, rs1: r1, imm },
            F3_SLTI => Instruction::Slti { rd: d, rs1: r1, imm },
            F3_SLTIU => Instruction::Sltiu { rd: d, rs1: r1, imm },
            F3_XORI => Instruction::Xori { rd: d, rs1: r1, imm },
            F3_ORI => Instruction::Ori { rd: d, rs1: r1, imm },
            F3_ANDI => Instruction::Andi { rd: d, rs1: r1, imm },
            F3_SLLI => Instruction::Slli { rd: d, rs1: r1, shamt },
            _ => {
                if funct7(w) & 0x20 != 0 {
                    Instruction::Srai { rd: d, rs1: r1, shamt }
                } else {
                    Instruction::Srli { rd: d, rs1: r1, shamt }
                }
            },
        }
    } else if op == OP_REG {
        let d = rd(w);
        let r1 = rs1(w);
        let r2 = rs2(w);
        let f7 = funct7(w);
        match funct3(w) {
            F3_ADD_SUB => {
                if f7 == 0x20 {
                    Instruction::Sub { rd: d, rs1: r1, rs2: r2 }
                } else {
                    Instruction::Add { rd: d, rs1: r1, rs2: r2 }
                }
            },
            F3_SLL => Instruction::Sll { rd: d, rs1: r1, rs2: r2 },
            F3_SLT => Instruction::Slt { rd: d, rs1: r1, rs2: r2 },
            F3_SLTU => Instruction::Sltu { rd: d, rs1: r1, rs2: r2 },
            F3_XOR => Instruction::Xor { rd: d, rs1: r1, rs2: r2 },
            F3_SRL_SRA => {
                if f7 == 0x20 {
                    Instruction::Sra { rd: d, rs1: r1, rs2: r2 }
                } else {
                    Instruction::Srl { rd: d, rs1: r1, rs2: r2 }
                }
            },
            F3_OR => Instruction::Or { rd: d, rs1: r1, rs2: r2 },
            _ => Instruction::And { rd: d, rs1: r1, rs2: r2 },
        }
    } else if op == OP_SYSTEM {
        let imm = (w >> 20) & 0xfff;
        match imm {
            0 => Instruction::Ecall,
            1 => Instruction::Ebreak,
            _ => Instruction::Invalid(w),
        }
    } else {
        Instruction::Invalid(w)
    }
}

} // verus!
