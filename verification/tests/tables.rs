use zkvm::cpu::{read_outputs_from_trace, Cpu, OUTPUT_TAPE_ADDR};
use zkvm::memory::Memory;
use zkvm::tables::program_rom;
use zkvm::trace::{col, ExecutionTrace, TraceRow, MIN_TRACE_LEN, NUM_TRACE_COLS, PADDING_PC};

/// Runs a program placed at 0x1000 in a 4 MiB memory.
fn run_at_0x1000(program: &[u32], limit: u32) -> (Cpu, ExecutionTrace) {
    let mut mem = Memory::new(1 << 22);
    for (i, w) in program.iter().enumerate() {
        mem.write_bytes_no_log(0x1000 + 4 * i as u32, &w.to_le_bytes());
    }
    let mut cpu = Cpu::new(0x1000);
    let t = cpu.run(&mut mem, limit);
    (cpu, t)
}

#[test]
fn padding_reaches_minimum_power_of_two() {
    let (_, mut t) = run_at_0x1000(&[0x00500093, 0x00000073], 10);
    assert_eq!(t.len(), 2);
    assert!(!t.is_empty());
    t.pad_to_power_of_two();
    assert_eq!(t.len(), MIN_TRACE_LEN);
    assert_eq!(t.num_real_steps, 2);
    let r = &t.rows[5];
    assert_eq!((r.clk, r.pc, r.next_pc, r.instruction), (5, PADDING_PC, PADDING_PC, 0x13));
    assert!(r.is_halted);
}

#[test]
fn empty_trace_is_not_padded() {
    let mut t = ExecutionTrace::new();
    assert!(t.is_empty());
    t.pad_to_power_of_two();
    assert_eq!(t.len(), 0);
    assert_eq!(t.num_real_steps, 0);
}

#[test]
fn padding_a_large_trace_rounds_up() {
    let mut t = ExecutionTrace::new();
    for i in 0..70000u32 {
        t.push(TraceRow::nop(i, 0, 4));
    }
    t.pad_to_power_of_two();
    assert_eq!(t.len(), 131072);
    assert_eq!(t.num_real_steps, 70000);
}

#[test]
fn rom_is_sorted_and_deduplicated() {
    let rom = program_rom(&[(8, 3), (0, 1), (8, 4), (4, 2), (0, 9)]);
    assert_eq!(rom, vec![(0, 1), (4, 2), (8, 3)]);
}

#[test]
fn outputs_come_from_stores_to_the_output_tape() {
    let mut rows = Vec::new();
    let mut store = |clk: u32, addr: u32, val: u32| {
        let mut r = TraceRow::nop(clk, 0, 4);
        r.is_store = true;
        r.mem_addr = addr;
        r.mem_val = val;
        rows.push(r);
    };
    store(0, OUTPUT_TAPE_ADDR + 4, 10);
    store(1, OUTPUT_TAPE_ADDR + 8, 20);
    store(2, OUTPUT_TAPE_ADDR + 4, 11);
    store(3, OUTPUT_TAPE_ADDR, 3);
    store(4, OUTPUT_TAPE_ADDR + 8, 99);
    assert_eq!(read_outputs_from_trace(&rows, 4), vec![11, 20, 0]);
    assert_eq!(read_outputs_from_trace(&rows, 5), vec![11, 99, 0]);
    assert_eq!(read_outputs_from_trace(&rows, 3), Vec::<u32>::new());
}

#[test]
fn sorted_tables_of_a_small_trace() {
    // addi x1, x0, 5 ; sw x1, 0(x0) ; lw x2, 0(x0) ; ecall
    let program = [0x00500093u32, 0x00102023, 0x00002103, 0x00000073];
    let (_, mut t) = run_at_0x1000(&program, 10);
    t.num_real_steps = t.len();
    let rom: Vec<(u32, u32)> = program.iter().enumerate().map(|(i, &w)| (0x1000 + 4 * i as u32, w)).collect();
    t.prepare_sorted_tables(&rom);
    let n = t.len();
    assert_eq!(n, 4);
    // Memory table sorted by (addr, clk): the two accesses of address 0 come
    // after nothing smaller; rows without memory get address 0 too.
    let addrs: Vec<(u32, u32)> = t.sorted_mem.iter().map(|e| (e[0], e[2])).collect();
    assert_eq!(addrs, vec![(0, 0), (0, 1), (0, 2), (0, 3)]);
    assert_eq!(t.sorted_mem[1], [0, 5, 1, 1]);
    assert_eq!(t.sorted_mem_aux[0], [0, 0]);
    assert_eq!(t.sorted_mem_aux[1], [1, 0]);
    // Register table: 12 accesses sorted by (idx, clk, is_write).
    assert_eq!(t.sorted_reg.len(), 4);
    let flat: Vec<[u32; 4]> = t.sorted_reg.iter().flat_map(|r| r.iter().copied()).collect();
    for w in flat.windows(2) {
        assert!((w[0][0], w[0][2], w[0][3]) <= (w[1][0], w[1][2], w[1][3]));
    }
    // Program table: every ROM word fetched once.
    for i in 0..4 {
        assert_eq!(t.prog_table[i], [0x1000 + 4 * i as u32, program[i], 1]);
    }
    // Output table: no outputs, count 0.
    assert_eq!(t.output_table[0], [OUTPUT_TAPE_ADDR, 0, 1]);
    assert_eq!(t.output_table[1], [0, 0, 0]);
    // Range multiplicities count every limb.
    let total: u64 = t.limbs.iter().map(|l| l.len() as u64).sum();
    assert_eq!(total, 24 * 4);
    assert_eq!(t.range_mult.len(), 4);
    let zeros = t.limbs.iter().flatten().filter(|&&x| x == 0).count() as u32;
    assert_eq!(t.range_mult[0], zeros);
}

#[test]
fn columns_of_a_small_trace() {
    let program = [0x00500093u32, 0x00000073];
    let (_, mut t) = run_at_0x1000(&program, 10);
    t.num_real_steps = t.len();
    let rom: Vec<(u32, u32)> = program.iter().enumerate().map(|(i, &w)| (0x1000 + 4 * i as u32, w)).collect();
    t.prepare_sorted_tables(&rom);
    let cols = t.to_columns();
    assert_eq!(cols.len(), NUM_TRACE_COLS);
    assert_eq!(cols[col::PC][1], 0x1004);
    assert_eq!(cols[col::RD_VAL][0], 5);
    assert_eq!(cols[col::IS_HALTED][1], 1);
    assert_eq!(cols[col::OPCODE_SEL_START + 10][0], 1);
    assert_eq!(cols[col::OPCODE_SEL_START + 37][1], 1);
    assert_eq!(cols[col::PROG_MULT][0], 1);
    assert_eq!(cols[col::RANGE_TABLE_VAL][1], 1);
    assert_eq!(cols[col::OUTPUT_ADDR][0], OUTPUT_TAPE_ADDR);
    // Column entries are field elements.
    assert!(cols.iter().flatten().all(|&v| v < zkvm::field::P));
}

#[test]
fn columns_without_tables_are_zero() {
    let (_, t) = run_at_0x1000(&[0x00000073u32], 10);
    let cols = t.to_columns();
    assert_eq!(cols[col::SORTED_MEM_ADDR], vec![0]);
    assert_eq!(cols[col::PROG_ADDR], vec![0]);
    assert_eq!(cols[col::INSTRUCTION], vec![0x73]);
}

#[test]
fn padding_twice_keeps_the_length() {
    let (_, mut t) = run_at_0x1000(&[0x00500093, 0x00000073], 10);
    t.pad_to_power_of_two();
    let once = t.len();
    let real = t.num_real_steps;
    let rows_once: Vec<(u32, u32, u32, bool)> = t.rows.iter().map(|r| (r.clk, r.pc, r.next_pc, r.is_halted)).collect();
    t.pad_to_power_of_two();
    assert_eq!(t.len(), once);
    assert_eq!(t.num_real_steps, real);
    let rows_twice: Vec<(u32, u32, u32, bool)> = t.rows.iter().map(|r| (r.clk, r.pc, r.next_pc, r.is_halted)).collect();
    assert_eq!(rows_once, rows_twice);
}
