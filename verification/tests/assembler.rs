use zkvm::assembler::{assemble, AsmError, LineError, Mnemonic};
use zkvm::vm::{Instruction, Opcode};

fn ins(op: Opcode, a: u32, b: u32, c: u32) -> Instruction {
    Instruction { op, a, b, c }
}

fn chars(s: &str) -> Vec<char> {
    s.chars().collect()
}

#[test]
fn assembles_every_mnemonic() {
    let src = "start:\n  add r1, r2, r3\nSUB r1,r2,r3\nMul r4, r5, r6 ; product\nIMM r1, 42\nLOAD r2, r1\nSTORE r1, r2\nJMP start\nJZ r3, end\nREAD r7\nWRITE r7\nMOV r2, r3\nend:\nHALT";
    let p = assemble(src).unwrap();
    assert_eq!(
        p,
        vec![
            ins(Opcode::Add, 1, 2, 3),
            ins(Opcode::Sub, 1, 2, 3),
            ins(Opcode::Mul, 4, 5, 6),
            ins(Opcode::Imm, 1, 42, 0),
            ins(Opcode::Load, 2, 1, 0),
            ins(Opcode::Store, 1, 2, 0),
            ins(Opcode::Jmp, 0, 0, 0),
            ins(Opcode::Jz, 3, 11, 0),
            ins(Opcode::Read, 7, 0, 0),
            ins(Opcode::Write, 7, 0, 0),
            ins(Opcode::Add, 2, 3, 0),
            ins(Opcode::Halt, 0, 0, 0),
        ]
    );
}

#[test]
fn immediates_reduce_into_the_field() {
    let p = assemble("IMM r1, 2013265921\nIMM r2, 18446744073709551615\nIMM r3, +7").unwrap();
    assert_eq!(p[0].b, 0);
    assert_eq!(p[1].b, (u64::MAX % zkvm::field::P as u64) as u32);
    assert_eq!(p[2].b, 7);
}

#[test]
fn comments_blank_lines_and_crlf() {
    let p = assemble("; header\r\n\r\n  HALT ; stop\r\n").unwrap();
    assert_eq!(p, vec![ins(Opcode::Halt, 0, 0, 0)]);
    assert_eq!(assemble("").unwrap(), vec![]);
}

#[test]
fn duplicate_label_is_an_error() {
    let e = assemble("a:\nHALT\n a :\n").unwrap_err();
    assert_eq!(e, AsmError::DuplicateLabel { line: 3, name: chars("a ") });
}

#[test]
fn operand_errors_carry_their_line() {
    assert_eq!(
        assemble("HALT\nADD r1, r2").unwrap_err(),
        AsmError::Line { line: 2, error: LineError::ArgCount { mnemonic: Mnemonic::Add, expected: 3, got: 2 } }
    );
    assert_eq!(
        assemble("ADD x1, r2, r3").unwrap_err(),
        AsmError::Line { line: 1, error: LineError::ExpectedRegister(chars("x1")) }
    );
    assert_eq!(
        assemble("ADD r1, r9, r3").unwrap_err(),
        AsmError::Line { line: 1, error: LineError::RegisterOutOfRange(9) }
    );
    assert_eq!(
        assemble("ADD r1, rx, r3").unwrap_err(),
        AsmError::Line { line: 1, error: LineError::BadRegister(chars("rx")) }
    );
    assert_eq!(
        assemble("JMP nowhere").unwrap_err(),
        AsmError::Line { line: 1, error: LineError::BadImmediate(chars("nowhere")) }
    );
    assert_eq!(
        assemble("\n\nNOP").unwrap_err(),
        AsmError::Line { line: 3, error: LineError::UnknownMnemonic(chars("NOP")) }
    );
    assert_eq!(
        assemble("IMM r1, 18446744073709551616").unwrap_err(),
        AsmError::Line { line: 1, error: LineError::BadImmediate(chars("18446744073709551616")) }
    );
}

#[test]
fn labels_resolve_forward_and_backward() {
    let p = assemble("loop:\nJZ r1, done\nJMP loop\ndone:\nHALT").unwrap();
    assert_eq!(p[0], ins(Opcode::Jz, 1, 2, 0));
    assert_eq!(p[1], ins(Opcode::Jmp, 0, 0, 0));
}

#[test]
fn mnemonics_ignore_case_like_to_uppercase() {
    // U+0131 (dotless i) upper-cases to 'I'.
    let p = assemble("\u{131}mm r1, 1\nhalt").unwrap();
    assert_eq!(p[0], ins(Opcode::Imm, 1, 1, 0));
}
