use zkvm::decode::{decode, sign_extend, Instruction};

#[test]
fn test_decode_addi() {
    let w = 0x02a00093;
    let instr = decode(w);
    assert_eq!(instr, Instruction::Addi { rd: 1, rs1: 0, imm: 42 });
}

#[test]
fn test_decode_add() {
    let w = 0x002081b3;
    let instr = decode(w);
    assert_eq!(instr, Instruction::Add { rd: 3, rs1: 1, rs2: 2 });
}

#[test]
fn test_decode_lui() {
    let w = 0x123452b7;
    let instr = decode(w);
    assert_eq!(instr, Instruction::Lui { rd: 5, imm: 0x12345000 });
}

#[test]
fn test_decode_jal() {
    let w = 0x008000ef;
    let instr = decode(w);
    assert_eq!(instr, Instruction::Jal { rd: 1, imm: 8 });
}

#[test]
fn test_sign_extend() {
    assert_eq!(sign_extend(0xfff, 12), -1);
    assert_eq!(sign_extend(0x7ff, 12), 2047);
    assert_eq!(sign_extend(0x800, 12), -2048);
}

#[test]
fn decode_branch_and_store_immediates() {
    // bne x3, x0, -16
    assert_eq!(decode(0xfe0198e3), Instruction::Bne { rs1: 3, rs2: 0, imm: -16 });
    // sw x1, 0(x0)
    assert_eq!(decode(0x00102023), Instruction::Sw { rs1: 0, rs2: 1, imm: 0 });
    // srai x5, x6, 3
    assert_eq!(decode(0x40335293), Instruction::Srai { rd: 5, rs1: 6, shamt: 3 });
    // sub x4, x1, x2
    assert_eq!(decode(0x40208233), Instruction::Sub { rd: 4, rs1: 1, rs2: 2 });
}

#[test]
fn decode_system_and_invalid() {
    assert_eq!(decode(0x00000073), Instruction::Ecall);
    assert_eq!(decode(0x00100073), Instruction::Ebreak);
    assert_eq!(decode(0x00200073), Instruction::Invalid(0x00200073));
    assert_eq!(decode(0x0000007f), Instruction::Invalid(0x0000007f));
}
