use sha2::Digest;
use zkvm::assembler::assemble;
use zkvm::vm::{
    build_columns, col, hash_program, program_is_wellformed, run, Instruction, Opcode, RunError,
    VmState, NUM_TRACE_COLS,
};

fn prog(src: &str) -> Vec<Instruction> {
    assemble(src).expect("assembles")
}

#[test]
fn run_adds_two_inputs() {
    let p = prog("READ r1\nREAD r2\nADD r3, r1, r2\nWRITE r3\nHALT\n");
    let (records, outputs) = run(&p, &[5, 7], 100).unwrap();
    assert_eq!(outputs, vec![12]);
    assert_eq!(records.len(), 5);
    let last = records.last().unwrap();
    assert_eq!(last.instr.op, Opcode::Halt);
    assert_eq!(last.halt_post, 1);
    assert_eq!(last.next_pc, last.pc);
    assert_eq!(records[2].reg[2], (3, 12, 1));
    assert_eq!(records[3].i_out_pre, 0);
    assert_eq!(records[3].i_out_post, 1);
}

#[test]
fn run_field_arithmetic_wraps() {
    let p = prog("IMM r1, 0\nIMM r2, 1\nSUB r3, r1, r2\nMUL r4, r3, r3\nWRITE r3\nWRITE r4\nHALT");
    let (_, outputs) = run(&p, &[], 100).unwrap();
    assert_eq!(outputs, vec![zkvm::field::P - 1, 1]);
}

#[test]
fn run_memory_and_jumps() {
    let src = "IMM r1, 10\nIMM r2, 3\nSTORE r1, r2\nLOAD r3, r1\nJZ r0, skip\nWRITE r1\nskip:\nWRITE r3\nHALT";
    let p = prog(src);
    let (records, outputs) = run(&p, &[], 100).unwrap();
    assert_eq!(outputs, vec![3]);
    assert_eq!(records[2].mem, (10, 3, 1, 1));
    assert_eq!(records[3].mem, (10, 3, 0, 1));
}

#[test]
fn run_errors() {
    let p = prog("READ r1\nHALT");
    assert_eq!(run(&p, &[], 100).unwrap_err(), RunError::ReadPastEnd { i_in: 0 });
    let p = prog("JMP 5");
    assert_eq!(run(&p, &[], 100).unwrap_err(), RunError::PcOutOfBounds { pc: 5, len: 1 });
    let p = prog("top:\nJMP top");
    assert_eq!(run(&p, &[], 7).unwrap_err(), RunError::DidNotHalt { max_steps: 7 });
}

#[test]
fn initial_state_is_zero() {
    let s = VmState::new();
    assert_eq!(s.regs, [0; 8]);
    assert_eq!((s.pc, s.i_in, s.i_out, s.halted), (0, 0, 0, false));
}

#[test]
fn opcode_codes_round_trip() {
    for v in 1..=11u32 {
        let op = Opcode::from_u32(v).unwrap();
        assert_eq!(op.code(), v);
        assert_eq!(op.sel_index(), (v - 1) as usize);
    }
    assert!(Opcode::from_u32(0).is_none());
    assert!(Opcode::from_u32(12).is_none());
}

#[test]
fn program_hash_depends_on_the_program() {
    let a = prog("HALT");
    let b = prog("IMM r1, 1\nHALT");
    assert_eq!(hash_program(&a), hash_program(&a));
    assert_ne!(hash_program(&a), hash_program(&b));
    // SHA-256 of the 20 ROM bytes of `HALT` at address 0: (0, 11, 0, 0, 0).
    let mut bytes = Vec::new();
    for w in [0u32, 11, 0, 0, 0] {
        bytes.extend_from_slice(&w.to_le_bytes());
    }
    let expect: [u8; 32] = sha2::Sha256::digest(&bytes).into();
    assert_eq!(hash_program(&a), expect);
}

#[test]
fn columns_pad_with_halt_rows() {
    let p = prog("READ r1\nWRITE r1\nHALT");
    let (records, outputs) = run(&p, &[9], 100).unwrap();
    let (cols, n_real) = build_columns(&records, &p, &[9], &outputs);
    assert_eq!(n_real, 3);
    assert_eq!(cols.len(), NUM_TRACE_COLS);
    assert!(cols.iter().all(|c| c.len() == 256));
    assert_eq!(cols[col::CLK][200], 200);
    assert_eq!(cols[col::OPCODE][200], 11);
    assert_eq!(cols[col::HALT][200], 1);
    assert_eq!(cols[col::PC][200], 2);
    assert_eq!(cols[col::SEL_START + 10][200], 1);
    assert_eq!(cols[col::SEL_START + 8][0], 1);
    // ROM rows with fetch multiplicities: the HALT at address 2 is fetched by
    // the real HALT step and by every padding row.
    assert_eq!(cols[col::PROG + 5][0], 1);
    assert_eq!(cols[col::PROG + 5][2], 1 + 253);
    assert_eq!(cols[col::PUB_IN + 1][0], 9);
    assert_eq!(cols[col::PUB_OUT + 1][0], 9);
    assert_eq!(cols[col::PUB_OUT + 2][1], 0);
    // JZ helper on a zero slot A value.
    assert_eq!(cols[col::JZ_IS_ZERO][200], 1);
    // The first sorted register row is r0 at clock 0.
    assert_eq!(cols[col::SREG_A][0], 0);
}

#[test]
fn wellformedness_checks() {
    let good = prog("IMM r1, 5\nADD r2, r1, r1\nJMP 0\nHALT");
    assert!(program_is_wellformed(&good));
    let bad_reg = vec![Instruction { op: Opcode::Add, a: 8, b: 0, c: 0 }];
    assert!(!program_is_wellformed(&bad_reg));
    let big_imm = vec![Instruction { op: Opcode::Imm, a: 1, b: zkvm::field::P, c: 0 }];
    assert!(program_is_wellformed(&big_imm));
    let far_jump = vec![Instruction { op: Opcode::Jmp, a: u32::MAX, b: 0, c: 0 }];
    assert!(program_is_wellformed(&far_jump));
}

#[test]
fn reads_see_the_last_write() {
    // r1 = 9; mem[9] = 9; r2 = mem[9]; r3 = mem[4] (never written); r1 = 2; r4 = r1 + r0.
    let p = prog("IMM r1, 9\nSTORE r1, r1\nLOAD r2, r1\nIMM r5, 4\nLOAD r3, r5\nIMM r1, 2\nADD r4, r1, r0\nHALT");
    let (records, _) = run(&p, &[], 100).unwrap();
    assert_eq!(records[2].mem, (9, 9, 0, 1));
    assert_eq!(records[2].reg[2], (2, 9, 1));
    assert_eq!(records[4].mem, (4, 0, 0, 1));
    assert_eq!(records[6].reg[0], (1, 2, 0));
    assert_eq!(records[6].reg[1], (0, 0, 0));
    assert_eq!(records[6].reg[2], (4, 2, 1));
}

#[test]
fn tapes_are_bound_to_read_and_write_rows() {
    let p = prog("READ r1\nWRITE r1\nREAD r2\nADD r3, r1, r2\nWRITE r3\nHALT");
    let (records, outputs) = run(&p, &[4, 6, 99], 100).unwrap();
    assert_eq!(outputs, vec![4, 10]);
    assert_eq!((records[0].i_in_pre, records[0].i_in_post, records[0].reg[2].1), (0, 1, 4));
    assert_eq!((records[2].i_in_pre, records[2].i_in_post, records[2].reg[2].1), (1, 2, 6));
    assert_eq!((records[1].i_out_pre, records[1].i_out_post, records[1].reg[0].1), (0, 1, 4));
    assert_eq!((records[4].i_out_pre, records[4].i_out_post, records[4].reg[0].1), (1, 2, 10));
    assert_eq!((records[3].i_in_pre, records[3].i_in_post), (2, 2));
    assert_eq!((records[3].i_out_pre, records[3].i_out_post), (1, 1));
}

#[test]
fn halt_flag_is_set_once_and_stays() {
    let p = prog("IMM r1, 1\nJMP 3\nHALT\nHALT");
    let (records, outputs) = run(&p, &[], 100).unwrap();
    let (cols, n_real) = build_columns(&records, &p, &[], &outputs);
    assert_eq!(n_real, 3);
    let halt = &cols[col::HALT];
    assert_eq!(halt.len(), 256);
    assert_eq!(&halt[0..2], &[0, 0]);
    assert!(halt[2..].iter().all(|&h| h == 1));
    assert!(cols[col::OPCODE][3..].iter().all(|&o| o == 11));
    assert!(cols[col::PC][3..].iter().all(|&pc| pc == 3));
}

#[test]
fn sorted_tables_satisfy_read_after_write() {
    let p = prog(
        "READ r1\nIMM r2, 5\nSTORE r2, r1\nLOAD r3, r2\nADD r1, r1, r3\nSTORE r2, r1\nLOAD r4, r2\nIMM r6, 8\nLOAD r5, r6\nWRITE r4\nHALT",
    );
    let (records, outputs) = run(&p, &[7], 100).unwrap();
    assert_eq!(outputs, vec![14]);
    let (cols, _) = build_columns(&records, &p, &[7], &outputs);
    let n = cols[0].len();
    // Register table: three entries per row, (idx, val, clk, is_write).
    let mut regs: Vec<(u32, u32, u32, u32)> = Vec::new();
    for i in 0..n {
        for base in [col::SREG_A, col::SREG_B, col::SREG_C] {
            regs.push((cols[base][i], cols[base + 1][i], cols[base + 2][i], cols[base + 3][i]));
        }
    }
    for k in 0..regs.len() {
        let (idx, val, _, wr) = regs[k];
        if idx == 0 {
            assert_eq!(val, 0);
        }
        if wr == 0 {
            if idx == 0 {
                assert_eq!(val, 0);
            } else if k > 0 && regs[k - 1].0 == idx {
                assert_eq!(val, regs[k - 1].1);
            } else {
                assert_eq!(val, 0);
            }
        }
        if k > 0 {
            assert!((regs[k - 1].0, regs[k - 1].2, regs[k - 1].3) <= (idx, regs[k].2, wr));
        }
    }
    // Memory table: (addr, val, clk, is_write, used).
    let mems: Vec<(u32, u32, u32, u32, u32)> = (0..n)
        .map(|i| (cols[col::SMEM][i], cols[col::SMEM + 1][i], cols[col::SMEM + 2][i], cols[col::SMEM + 3][i], cols[col::SMEM + 4][i]))
        .collect();
    let mut loads = 0;
    for k in 0..mems.len() {
        let (addr, val, _, wr, used) = mems[k];
        if used == 1 && wr == 0 {
            loads += 1;
            if k > 0 && mems[k - 1].4 == 1 && mems[k - 1].0 == addr {
                assert_eq!(val, mems[k - 1].1);
            } else {
                assert_eq!(val, 0);
            }
        }
    }
    assert_eq!(loads, 3);
}

#[test]
fn writes_to_r0_are_recorded_as_zero() {
    let p = vec![
        Instruction { op: Opcode::Imm, a: 0, b: 5, c: 0 },
        Instruction { op: Opcode::Imm, a: 1, b: 3, c: 0 },
        Instruction { op: Opcode::Add, a: 0, b: 1, c: 1 },
        Instruction { op: Opcode::Read, a: 0, b: 0, c: 0 },
        Instruction { op: Opcode::Write, a: 0, b: 0, c: 0 },
        Instruction { op: Opcode::Halt, a: 0, b: 0, c: 0 },
    ];
    let (records, outputs) = run(&p, &[9], 100).unwrap();
    assert_eq!(records[0].reg[2], (0, 0, 1));
    assert_eq!(records[2].reg[2], (0, 0, 1));
    assert_eq!(records[3].reg[2], (0, 0, 1));
    assert_eq!(records[4].reg[0], (0, 0, 0));
    assert_eq!(outputs, vec![0]);
    let (cols, _) = build_columns(&records, &p, &[9], &outputs);
    for i in 0..cols[0].len() {
        for base in [col::SREG_A, col::SREG_B, col::SREG_C] {
            if cols[base][i] == 0 {
                assert_eq!(cols[base + 1][i], 0);
            }
        }
    }
}

#[test]
fn immediates_and_inputs_are_reduced_into_the_field() {
    let p = prog("IMM r1, 2013265921\nIMM r2, 2013265923\nREAD r3\nWRITE r1\nWRITE r2\nWRITE r3\nHALT");
    let (records, outputs) = run(&p, &[zkvm::field::P + 7], 100).unwrap();
    assert_eq!(outputs, vec![0, 2, 7]);
    assert_eq!(records[0].reg[2], (1, 0, 1));
    assert_eq!(records[2].reg[2], (3, 7, 1));
}
