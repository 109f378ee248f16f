use zkvm::cpu::{Cpu, HaltReason};
use zkvm::memory::Memory;
use zkvm::trace::ExecutionTrace;

/// Writes the program at 0x1000 in a 1 MiB memory and runs it.
fn run_program(instructions: &[u32], cycle_limit: u32) -> (Cpu, Memory, ExecutionTrace) {
    let mut mem = Memory::new(1 << 20);
    let base = 0x1000u32;
    for (i, &instr) in instructions.iter().enumerate() {
        let addr = base + (i as u32) * 4;
        let bytes = instr.to_le_bytes();
        mem.write_bytes_no_log(addr, &bytes);
    }
    let mut cpu = Cpu::new(base);
    let trace = cpu.run(&mut mem, cycle_limit);
    (cpu, mem, trace)
}

#[test]
fn test_addi_sequence() {
    let program = [
        0x00500093, // addi x1, x0, 5
        0x00308113, // addi x2, x1, 3
        0x00000073, // ecall (halt)
    ];
    let (cpu, _, trace) = run_program(&program, 100);
    assert_eq!(cpu.regs[1], 5);
    assert_eq!(cpu.regs[2], 8);
    assert_eq!(trace.rows.len(), 3);
    assert!(cpu.halted);
}

#[test]
fn test_add_sub() {
    let program = [
        0x00a00093, // addi x1, x0, 10
        0x00300113, // addi x2, x0, 3
        0x002081b3, // add  x3, x1, x2
        0x40208233, // sub  x4, x1, x2
        0x00000073, // ecall
    ];
    let (cpu, _, _) = run_program(&program, 100);
    assert_eq!(cpu.regs[3], 13);
    assert_eq!(cpu.regs[4], 7);
}

#[test]
fn test_branch_beq() {
    let program = [
        0x00500093, // addi x1, x0, 5
        0x00500113, // addi x2, x0, 5
        0x00208463, // beq  x1, x2, +8  (skip next instruction)
        0x00100193, // addi x3, x0, 1    (should be skipped)
        0x00000073, // ecall
    ];
    let (cpu, _, _) = run_program(&program, 100);
    assert_eq!(cpu.regs[3], 0);
}

#[test]
fn test_lui_auipc() {
    let program = [
        0x123450b7, // lui x1, 0x12345
        0x00000073, // ecall
    ];
    let (cpu, _, _) = run_program(&program, 100);
    assert_eq!(cpu.regs[1], 0x12345000);
}

#[test]
fn test_load_store_word() {
    let program = [
        0x0ff00093, // addi x1, x0, 255
        0x00102023, // sw   x1, 0(x0)
        0x00002103, // lw   x2, 0(x0)
        0x00000073, // ecall
    ];
    let (cpu, _, _) = run_program(&program, 100);
    assert_eq!(cpu.regs[2], 255);
}

#[test]
fn test_jal_jalr() {
    let program = [
        0x008000ef, // jal x1, 8
        0x00000013, // nop (skipped)
        0x00000013, // nop (landed here)
        0x00000073, // ecall
    ];
    let (cpu, _, _) = run_program(&program, 100);
    assert_eq!(cpu.regs[1], 0x1004);
}

#[test]
fn test_shift_operations() {
    let program = [
        0x00800093, // addi x1, x0, 8
        0x00209113, // slli x2, x1, 2
        0x0020d193, // srli x3, x1, 2
        0x00000073, // ecall
    ];
    let (cpu, _, _) = run_program(&program, 100);
    assert_eq!(cpu.regs[2], 32);
    assert_eq!(cpu.regs[3], 2);
}

#[test]
fn test_fibonacci_loop() {
    let program = [
        0x00100093u32, // addi x1, x0, 1
        0x00100113,    // addi x2, x0, 1
        0x00800193,    // addi x3, x0, 8
        0x00208233,    // add  x4, x1, x2
        0x00010093,    // addi x1, x2, 0
        0x00020113,    // addi x2, x4, 0
        0xfff18193,    // addi x3, x3, -1
        0xfe0198e3,    // bne  x3, x0, -16
        0x00000073,    // ecall
    ];
    let (cpu, _, _) = run_program(&program, 200);
    assert!(cpu.halted);
    assert_eq!(cpu.regs[2], 55, "Expected fib(10) = 55, got {}", cpu.regs[2]);
}

#[test]
fn cycle_limit_marks_halt_reason() {
    // An endless loop: jal x0, 0.
    let program = [0x0000006fu32];
    let (cpu, _, trace) = run_program(&program, 10);
    assert!(cpu.halted);
    assert_eq!(cpu.halt_reason, Some(HaltReason::CycleLimitReached));
    assert_eq!(trace.rows.len(), 10);
    assert_eq!(cpu.cycle, 10);
}

#[test]
fn invalid_instruction_halts_with_its_word() {
    let program = [0xffff_ffffu32];
    let (cpu, _, trace) = run_program(&program, 10);
    assert_eq!(cpu.halt_reason, Some(HaltReason::InvalidInstruction(0xffff_ffff)));
    assert_eq!(trace.rows.len(), 1);
    assert!(trace.rows[0].is_halted);
}

#[test]
fn ecall_and_ebreak_record_their_reason() {
    let (cpu, _, _) = run_program(&[0x00100073u32], 10);
    assert_eq!(cpu.halt_reason, Some(HaltReason::Ebreak));
    let (cpu, _, _) = run_program(&[0x00000073u32], 10);
    assert_eq!(cpu.halt_reason, Some(HaltReason::Ecall));
}

#[test]
fn x0_stays_zero_and_new_sets_stack_pointer() {
    let cpu = Cpu::new(0x1000);
    assert_eq!(cpu.regs[2], zkvm::cpu::STACK_TOP);
    assert_eq!(cpu.regs[0], 0);
    // addi x0, x0, 5 ; ecall
    let (cpu, _, trace) = run_program(&[0x00500013u32, 0x00000073], 10);
    assert_eq!(cpu.regs[0], 0);
    assert_eq!(trace.rows[0].rd_val, 5);
}

#[test]
fn trace_rows_describe_each_step() {
    // addi x1, x0, 5 ; sw x1, 0(x0) ; ecall
    let (_, mem, trace) = run_program(&[0x00500093u32, 0x00102023, 0x00000073], 10);
    let r0 = &trace.rows[0];
    assert_eq!((r0.clk, r0.pc, r0.next_pc, r0.rd_idx, r0.rd_val), (0, 0x1000, 0x1004, 1, 5));
    assert_eq!(r0.imm, 5);
    let r1 = &trace.rows[1];
    assert!(r1.is_store && !r1.is_load);
    assert_eq!((r1.mem_addr, r1.mem_val, r1.rs2_val), (0, 5, 5));
    assert_eq!(mem.access_log.len(), 4);
    assert_eq!(mem.peek_word(0), 5);
    let r2 = &trace.rows[2];
    assert!(r2.is_halted);
    assert_eq!(r2.opcode_class, zkvm::cpu::OpcodeClass::Ecall);
}

#[test]
fn signed_loads_extend_the_sign() {
    // addi x1, x0, -1 ; sb x1, 0(x0) ; lb x2, 0(x0) ; lbu x3, 0(x0) ; ecall
    let program = [0xfff00093u32, 0x00100023, 0x00000103, 0x00004183, 0x00000073];
    let (cpu, _, _) = run_program(&program, 10);
    assert_eq!(cpu.regs[2], 0xffff_ffff);
    assert_eq!(cpu.regs[3], 0xff);
}

#[test]
fn branch_not_equal_records_inverse_of_difference() {
    // addi x1, x0, 3 ; addi x2, x0, 1 ; bne x1, x2, 8 ; ecall ; ecall
    let program = [0x00300093u32, 0x00100113, 0x00209463, 0x00000073, 0x00000073];
    let (_, _, trace) = run_program(&program, 10);
    let br = &trace.rows[2];
    assert!(br.branch_taken);
    assert_eq!(br.next_pc, 0x1010);
    // 2 * inv = 1 mod p
    let p = zkvm::field::P as u64;
    assert_eq!((2u64 * br.branch_diff_inv as u64) % p, 1);
}

#[test]
fn cycle_counter_counts_rows_and_halt_is_final() {
    // addi x1, x0, 1 ; addi x1, x1, 1 ; ecall ; addi x1, x1, 1 (never reached)
    let (cpu, _, trace) = run_program(&[0x00100093u32, 0x00108093, 0x00000073, 0x00108093], 100);
    assert!(cpu.halted);
    assert_eq!(cpu.cycle as usize, trace.rows.len());
    assert_eq!(trace.rows.len(), 3);
    assert_eq!(cpu.regs[1], 2);
    assert!(trace.rows[2].is_halted);
    assert!(!trace.rows[1].is_halted);
    for (i, row) in trace.rows.iter().enumerate() {
        assert_eq!(row.clk as usize, i);
    }
}

#[test]
fn a_step_changes_only_its_destination() {
    let mut mem = Memory::new(1 << 16);
    // addi x5, x0, 9 at 0x1000.
    mem.write_bytes_no_log(0x1000, &0x00900293u32.to_le_bytes());
    mem.write_bytes_no_log(0x2000, &[1, 2, 3, 4]);
    let mut cpu = Cpu::new(0x1000);
    let before = cpu.regs;
    let row = cpu.step(&mut mem);
    assert_eq!(row.rd_idx, 5);
    assert_eq!(cpu.regs[5], row.rd_val);
    assert_eq!(cpu.regs[5], 9);
    for j in 0..32 {
        if j != 5 {
            assert_eq!(cpu.regs[j], before[j]);
        }
    }
    assert_eq!(row.rs1_val, 0);
    assert_eq!(mem.peek_word(0x2000), 0x04030201);
    assert_eq!(mem.peek_word(0x1000), 0x00900293);
}
