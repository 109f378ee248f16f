//! The field-native VM: 11 instructions, 8 registers (`r0` hardwired to 0),
//! a sparse memory addressed by field element, and public input / output
//! tapes. Every register, memory cell, immediate and input is a BabyBear
//! field element.

use std::collections::HashMap;
use vstd::prelude::*;

use crate::digest::{sha256, sha256_of};
use crate::field::{bb_add, bb_mul, bb_sub, canonical, fadd, fmul, fsub, reduce, P};

pub mod accum;
pub mod col;
pub mod columns;
pub mod consistency;
pub mod sorted_tables;

pub use columns::build_columns;

verus! {

broadcast use vstd::std_specs::hash::group_hash_axioms;

/// The eleven opcodes of the ISA.
#[derive(Debug, Clone, Copy, PartialEq, Eq, Structural)]
pub enum Opcode {
    Add,
    Sub,
    Mul,
    Imm,
    Load,
    Store,
    Jmp,
    Jz,
    Read,
    Write,
    Halt,
}

/// The numeric code of an opcode, `1..=11`.
pub open spec fn opcode_code(op: Opcode) -> u32 {
    match op {
        Opcode::Add => 1,
        Opcode::Sub => 2,
        Opcode::Mul => 3,
        Opcode::Imm => 4,
        Opcode::Load => 5,
        Opcode::Store => 6,
        Opcode::Jmp => 7,
        Opcode::Jz => 8,
        Opcode::Read => 9,
        Opcode::Write => 10,
        Opcode::Halt => 11,
    }
}

impl Opcode {
    /// Decodes a numeric opcode; `None` outside `1..=11`.
    pub fn from_u32(v: u32) -> (r: Option<Opcode>)
        ensures
            1 <= v <= 11 <==> r is Some,
            r matches Some(op) ==> opcode_code(op) == v,
    {
        match v {
            1 => Some(Opcode::Add),
            2 => Some(Opcode::Sub),
            3 => Some(Opcode::Mul),
            4 => Some(Opcode::Imm),
            5 => Some(Opcode::Load),
            6 => Some(Opcode::Store),
            7 => Some(Opcode::Jmp),
            8 => Some(Opcode::Jz),
            9 => Some(Opcode::Read),
            10 => Some(Opcode::Write),
            11 => Some(Opcode::Halt),
            _ => None,
        }
    }

    /// The numeric code `1..=11` of this opcode.
    pub fn code(self) -> (r: u32)
        ensures
            r == opcode_code(self),
            1 <= r <= 11,
    {
        match self {
            Opcode::Add => 1,
            Opcode::Sub => 2,
            Opcode::Mul => 3,
            Opcode::Imm => 4,
            Opcode::Load => 5,
            Opcode::Store => 6,
            Opcode::Jmp => 7,
            Opcode::Jz => 8,
            Opcode::Read => 9,
            Opcode::Write => 10,
            Opcode::Halt => 11,
        }
    }

    /// Selector index `0..=10` (one-hot column position).
    pub fn sel_index(self) -> (r: usize)
        ensures
            r == opcode_code(self) - 1,
            r < NUM_OPCODES,
    {
        (self.code() - 1) as usize
    }
}

/// Number of opcodes.
pub const NUM_OPCODES: usize = 11;

/// Number of registers.
pub const NUM_REGS: usize = 8;

/// Total main trace columns of the VM trace.
pub const NUM_TRACE_COLS: usize = col::NUM_COLS;

/// Accumulator columns: 5 arguments on 4 channels each.
pub const NUM_ACCUM_COLS: usize = 20;

/// Parallel challenge channels per argument.
pub const NUM_CHANNELS: usize = 4;

/// One instruction: an opcode and three operands.
#[derive(Debug, Clone, Copy, PartialEq, Eq, Structural)]
pub struct Instruction {
    pub op: Opcode,
    pub a: u32,
    pub b: u32,
    pub c: u32,
}

/// The register operands of `instr` name one of the eight registers.
pub open spec fn instruction_wellformed(instr: Instruction) -> bool {
    match instr.op {
        Opcode::Add | Opcode::Sub | Opcode::Mul => instr.a < 8 && instr.b < 8 && instr.c < 8,
        Opcode::Imm => instr.a < 8,
        Opcode::Load | Opcode::Store => instr.a < 8 && instr.b < 8,
        Opcode::Jmp => true,
        Opcode::Jz => instr.a < 8,
        Opcode::Read | Opcode::Write => instr.a < 8,
        Opcode::Halt => true,
    }
}

/// Every instruction of `program` is well formed.
pub open spec fn program_wellformed(program: Seq<Instruction>) -> bool {
    forall|i: int| 0 <= i < program.len() ==> #[trigger] instruction_wellformed(program[i])
}

/// Every entry of `vals` is a field element.
pub open spec fn all_canonical(vals: Seq<u32>) -> bool {
    forall|i: int| 0 <= i < vals.len() ==> canonical(#[trigger] vals[i] as int)
}

/// Whether every instruction of `program` is well formed (register operands
/// below 8).
pub fn program_is_wellformed(program: &[Instruction]) -> (r: bool)
    ensures
        r == program_wellformed(program@),
{
    let mut i: usize = 0;
    while i < program.len()
        invariant
            i <= program@.len(),
            forall|j: int| 0 <= j < i ==> #[trigger] instruction_wellformed(program@[j]),
        decreases program@.len() - i,
    {
        let ins = program[i];
        let ok = match ins.op {
            Opcode::Add | Opcode::Sub | Opcode::Mul => ins.a < 8 && ins.b < 8 && ins.c < 8,
            Opcode::Imm => ins.a < 8,
            Opcode::Load | Opcode::Store => ins.a < 8 && ins.b < 8,
            Opcode::Jmp => true,
            Opcode::Jz => ins.a < 8,
            Opcode::Read | Opcode::Write => ins.a < 8,
            Opcode::Halt => true,
        };
        if !ok {
            assert(!instruction_wellformed(program@[i as int]));
            return false;
        }
        i = i + 1;
    }
    true
}

/// The machine state: registers, memory, program counter, tape cursors and
/// the halt flag.
pub struct VmState {
    pub regs: [u32; NUM_REGS],
    pub pc: u32,
    pub mem: HashMap<u32, u32>,
    pub i_in: u32,
    pub i_out: u32,
    pub halted: bool,
}

/// The mathematical state of the machine.
pub struct Machine {
    pub regs: Seq<u32>,
    pub pc: u32,
    pub mem: Map<u32, u32>,
    pub i_in: u32,
    pub i_out: u32,
    pub halted: bool,
}

impl View for VmState {
    type V = Machine;

    open spec fn view(&self) -> Machine {
        Machine {
            regs: self.regs@,
            pc: self.pc,
            mem: self.mem@,
            i_in: self.i_in,
            i_out: self.i_out,
            halted: self.halted,
        }
    }
}

/// The machine before the first instruction: everything zero, memory empty.
pub open spec fn initial_machine() -> Machine {
    Machine {
        regs: Seq::new(NUM_REGS as nat, |i: int| 0u32),
        pc: 0,
        mem: Map::empty(),
        i_in: 0,
        i_out: 0,
        halted: false,
    }
}

impl VmState {
    /// The initial machine state.
    pub fn new() -> (s: VmState)
        ensures
            s@ == initial_machine(),
    {
        let s = VmState {
            regs: [0; NUM_REGS],
            pc: 0,
            mem: HashMap::new(),
            i_in: 0,
            i_out: 0,
            halted: false,
        };
        assert(s@.regs =~= initial_machine().regs);
        s
    }
}

/// What the AIR sees of one cycle.
#[derive(Debug, Clone, Copy)]
pub struct StepRecord {
    pub clk: u32,
    pub pc: u32,
    pub next_pc: u32,
    pub instr: Instruction,
    pub halt_post: u32,
    pub i_in_pre: u32,
    pub i_in_post: u32,
    pub i_out_pre: u32,
    pub i_out_post: u32,
    /// Three register-access slots A, B, C, each `(idx, val, is_write)`.
    /// Unused slots are `(0, 0, 0)`.
    pub reg: [(u32, u32, u32); 3],
    /// `(addr, val, is_write, used)` of the single memory access of the row.
    pub mem: (u32, u32, u32, u32),
}

/// Why a run stopped without a trace.
#[derive(Debug, Clone, Copy, PartialEq, Eq, Structural)]
pub enum RunError {
    /// The program counter left the program ROM.
    PcOutOfBounds { pc: u32, len: usize },
    /// A `READ` was executed with the input tape exhausted.
    ReadPastEnd { i_in: u32 },
    /// The step budget ran out before `HALT`.
    DidNotHalt { max_steps: usize },
}

/// The value of register `r` (`r0` reads as 0).
pub open spec fn read_reg(regs: Seq<u32>, r: u32) -> u32 {
    if r == 0 { 0 } else { regs[r as int] }
}

/// The registers after writing `v` to `r` (writes to `r0` are dropped).
pub open spec fn write_reg(regs: Seq<u32>, r: u32, v: u32) -> Seq<u32> {
    if r == 0 { regs } else { regs.update(r as int, v) }
}

/// The value a write of `v` to register `r` is recorded with: `r0` is
/// hardwired to zero, so a write to it carries 0.
pub open spec fn written(r: u32, v: u32) -> u32 {
    if r == 0 { 0 } else { v }
}

/// The value stored at `addr` (unwritten cells read as 0).
pub open spec fn mem_read(mem: Map<u32, u32>, addr: u32) -> u32 {
    if mem.contains_key(addr) { mem[addr] } else { 0 }
}

/// One executed instruction: the next state, the trace record, and the value
/// appended to the output tape, if any.
pub struct Step {
    pub next: Machine,
    pub record: StepRecord,
    pub output: Option<u32>,
}

/// Executes `instr` in state `m` at cycle `clk`. `None` when a `READ` finds
/// the input tape exhausted.
pub open spec fn step(m: Machine, instr: Instruction, inputs: Seq<u32>, clk: u32) -> Option<Step> {
    let pc = m.pc;
    let rec = |next_pc: u32, halted: bool, i_in: u32, i_out: u32, reg: [(u32, u32, u32); 3], mem: (u32, u32, u32, u32)|
        StepRecord {
            clk,
            pc,
            next_pc,
            instr,
            halt_post: if halted { 1 } else { 0 },
            i_in_pre: m.i_in,
            i_in_post: i_in,
            i_out_pre: m.i_out,
            i_out_post: i_out,
            reg,
            mem,
        };
    let adv = (pc + 1) as u32;
    match instr.op {
        Opcode::Add | Opcode::Sub | Opcode::Mul => {
            let va = read_reg(m.regs, instr.b);
            let vb = read_reg(m.regs, instr.c);
            let vd = match instr.op {
                Opcode::Add => fadd(va as int, vb as int) as u32,
                Opcode::Sub => fsub(va as int, vb as int) as u32,
                _ => fmul(va as int, vb as int) as u32,
            };
            Some(Step {
                next: Machine { regs: write_reg(m.regs, instr.a, vd), pc: adv, ..m },
                record: rec(adv, false, m.i_in, m.i_out,
                    [(instr.b, va, 0), (instr.c, vb, 0), (instr.a, written(instr.a, vd), 1)], (0, 0, 0, 0)),
                output: None,
            })
        },
        Opcode::Imm => {
            let k = instr.b % P;
            Some(Step {
                next: Machine { regs: write_reg(m.regs, instr.a, k), pc: adv, ..m },
                record: rec(adv, false, m.i_in, m.i_out,
                    [(0, 0, 0), (0, 0, 0), (instr.a, written(instr.a, k), 1)], (0, 0, 0, 0)),
                output: None,
            })
        },
        Opcode::Load => {
            let addr = read_reg(m.regs, instr.b);
            let val = mem_read(m.mem, addr);
            Some(Step {
                next: Machine { regs: write_reg(m.regs, instr.a, val), pc: adv, ..m },
                record: rec(adv, false, m.i_in, m.i_out,
                    [(instr.b, addr, 0), (0, 0, 0), (instr.a, written(instr.a, val), 1)], (addr, val, 0, 1)),
                output: None,
            })
        },
        Opcode::Store => {
            let addr = read_reg(m.regs, instr.a);
            let val = read_reg(m.regs, instr.b);
            Some(Step {
                next: Machine { mem: m.mem.insert(addr, val), pc: adv, ..m },
                record: rec(adv, false, m.i_in, m.i_out,
                    [(instr.a, addr, 0), (instr.b, val, 0), (0, 0, 0)], (addr, val, 1, 1)),
                output: None,
            })
        },
        Opcode::Jmp => Some(Step {
            next: Machine { pc: instr.a, ..m },
            record: rec(instr.a, false, m.i_in, m.i_out,
                [(0, 0, 0), (0, 0, 0), (0, 0, 0)], (0, 0, 0, 0)),
            output: None,
        }),
        Opcode::Jz => {
            let va = read_reg(m.regs, instr.a);
            let target = if va == 0 { instr.b } else { adv };
            Some(Step {
                next: Machine { pc: target, ..m },
                record: rec(target, false, m.i_in, m.i_out,
                    [(instr.a, va, 0), (0, 0, 0), (0, 0, 0)], (0, 0, 0, 0)),
                output: None,
            })
        },
        Opcode::Read => {
            if m.i_in < inputs.len() {
                let val = inputs[m.i_in as int] % P;
                let i_in = (m.i_in + 1) as u32;
                Some(Step {
                    next: Machine { regs: write_reg(m.regs, instr.a, val), pc: adv, i_in, ..m },
                    record: rec(adv, false, i_in, m.i_out,
                        [(0, 0, 0), (0, 0, 0), (instr.a, written(instr.a, val), 1)], (0, 0, 0, 0)),
                    output: None,
                })
            } else {
                None
            }
        },
        Opcode::Write => {
            let val = read_reg(m.regs, instr.a);
            let i_out = (m.i_out + 1) as u32;
            Some(Step {
                next: Machine { pc: adv, i_out, ..m },
                record: rec(adv, false, m.i_in, i_out,
                    [(instr.a, val, 0), (0, 0, 0), (0, 0, 0)], (0, 0, 0, 0)),
                output: Some(val),
            })
        },
        Opcode::Halt => Some(Step {
            next: Machine { halted: true, ..m },
            record: rec(pc, true, m.i_in, m.i_out,
                [(0, 0, 0), (0, 0, 0), (0, 0, 0)], (0, 0, 0, 0)),
            output: None,
        }),
    }
}

/// The outputs appended by one step.
pub open spec fn output_seq(o: Option<u32>) -> Seq<u32> {
    match o {
        Some(v) => seq![v],
        None => seq![],
    }
}

/// Runs from state `m` with the trace and outputs gathered so far until the
/// machine halts, fails, or the trace reaches `max_steps` records.
pub open spec fn run_from(
    program: Seq<Instruction>,
    inputs: Seq<u32>,
    max_steps: nat,
    m: Machine,
    trace: Seq<StepRecord>,
    outputs: Seq<u32>,
) -> Result<(Seq<StepRecord>, Seq<u32>), RunError>
    decreases max_steps - trace.len(),
{
    if m.halted || trace.len() >= max_steps {
        if m.halted {
            Ok((trace, outputs))
        } else {
            Err(RunError::DidNotHalt { max_steps: max_steps as usize })
        }
    } else if m.pc >= program.len() {
        Err(RunError::PcOutOfBounds { pc: m.pc, len: program.len() as usize })
    } else {
        match step(m, program[m.pc as int], inputs, trace.len() as u32) {
            None => Err(RunError::ReadPastEnd { i_in: m.i_in }),
            Some(st) => run_from(
                program,
                inputs,
                max_steps,
                st.next,
                trace.push(st.record),
                outputs + output_seq(st.output),
            ),
        }
    }
}

/// The result of running `program` on `inputs` with at most `max_steps` cycles.
pub open spec fn run_spec(program: Seq<Instruction>, inputs: Seq<u32>, max_steps: nat) -> Result<
    (Seq<StepRecord>, Seq<u32>),
    RunError,
> {
    run_from(program, inputs, max_steps, initial_machine(), seq![], seq![])
}

/// A machine state that can be reached: eight registers with `r0 = 0`, every
/// register and memory cell a field element.
pub open spec fn machine_ok(m: Machine) -> bool {
    &&& m.regs.len() == NUM_REGS
    &&& m.regs[0] == 0
    &&& all_canonical(m.regs)
    &&& forall|k: u32| m.mem.contains_key(k) ==> canonical(#[trigger] m.mem[k] as int)
}

fn read_reg_exec(regs: &[u32; NUM_REGS], r: u32) -> (v: u32)
    requires
        r < 8,
    ensures
        v == read_reg(regs@, r),
{
    if r == 0 { 0 } else { regs[r as usize] }
}

fn write_reg_exec(regs: &mut [u32; NUM_REGS], r: u32, v: u32)
    requires
        r < 8,
    ensures
        final(regs)@ == write_reg(old(regs)@, r, v),
{
    if r != 0 {
        regs[r as usize] = v;
    }
}

/// Runs `program` on `public_inputs` for at most `max_steps` cycles, returning
/// one record per executed cycle and the public outputs.
///
/// Fails when the program counter leaves the program, when a `READ` finds the
/// input tape empty, or when the machine has not halted after `max_steps`
/// cycles.
pub fn run(program: &[Instruction], public_inputs: &[u32], max_steps: usize) -> (r: Result<
    (Vec<StepRecord>, Vec<u32>),
    RunError,
>)
    requires
        program_wellformed(program@),
        program.len() <= u32::MAX,
        public_inputs.len() <= u32::MAX,
        max_steps <= u32::MAX,
    ensures
        match (r, run_spec(program@, public_inputs@, max_steps as nat)) {
            (Ok((t, o)), Ok((ts, os))) => t@ == ts && o@ == os,
            (Err(e), Err(es)) => e == es,
            _ => false,
        },
{
    let mut s = VmState::new();
    let mut trace: Vec<StepRecord> = Vec::new();
    let mut outputs: Vec<u32> = Vec::new();
    proof {
        assert(machine_ok(s@)) by {
            assert(s@.regs =~= initial_machine().regs);
        }
    }
    while !s.halted && trace.len() < max_steps
        invariant
            program_wellformed(program@),
            program.len() <= u32::MAX,
            public_inputs.len() <= u32::MAX,
            max_steps <= u32::MAX,
            machine_ok(s@),
            trace.len() <= max_steps,
            s.i_out <= trace.len(),
            s.i_in <= public_inputs.len(),
            run_from(program@, public_inputs@, max_steps as nat, s@, trace@, outputs@)
                == run_spec(program@, public_inputs@, max_steps as nat),
        decreases max_steps - trace.len(),
    {
        let pc = s.pc;
        if pc as usize >= program.len() {
            return Err(RunError::PcOutOfBounds { pc, len: program.len() });
        }
        let instr = program[pc as usize];
        assert(instruction_wellformed(program@[pc as int]));
        let clk = trace.len() as u32;
        let i_in_pre = s.i_in;
        let i_out_pre = s.i_out;
        let mut reg: [(u32, u32, u32); 3] = [(0u32, 0u32, 0u32); 3];
        let mut mem: (u32, u32, u32, u32) = (0u32, 0u32, 0u32, 0u32);
        let mut next_pc: u32 = pc + 1;
        let mut out: Option<u32> = None;
        let ghost m0 = s@;
        let ghost outs0 = outputs@;

        match instr.op {
            Opcode::Add | Opcode::Sub | Opcode::Mul => {
                let rd = instr.a;
                let ra = instr.b;
                let rb = instr.c;
                let va = read_reg_exec(&s.regs, ra);
                let vb = read_reg_exec(&s.regs, rb);
                let vd = match instr.op {
                    Opcode::Add => bb_add(va, vb),
                    Opcode::Sub => bb_sub(va, vb),
                    _ => bb_mul(va, vb),
                };
                write_reg_exec(&mut s.regs, rd, vd);
                let cd = if rd == 0 { 0 } else { vd };
                reg = [(ra, va, 0), (rb, vb, 0), (rd, cd, 1)];
            },
            Opcode::Imm => {
                let rd = instr.a;
                let k = reduce(instr.b);
                write_reg_exec(&mut s.regs, rd, k);
                let cd = if rd == 0 { 0 } else { k };
                reg = [(0, 0, 0), (0, 0, 0), (rd, cd, 1)];
            },
            Opcode::Load => {
                let rd = instr.a;
                let ra = instr.b;
                let addr = read_reg_exec(&s.regs, ra);
                let val = match s.mem.get(&addr) {
                    Some(v) => *v,
                    None => 0,
                };
                write_reg_exec(&mut s.regs, rd, val);
                let cd = if rd == 0 { 0 } else { val };
                reg = [(ra, addr, 0), (0, 0, 0), (rd, cd, 1)];
                mem = (addr, val, 0, 1);
            },
            Opcode::Store => {
                let ra = instr.a;
                let rb = instr.b;
                let addr = read_reg_exec(&s.regs, ra);
                let val = read_reg_exec(&s.regs, rb);
                s.mem.insert(addr, val);
                reg = [(ra, addr, 0), (rb, val, 0), (0, 0, 0)];
                mem = (addr, val, 1, 1);
            },
            Opcode::Jmp => {
                next_pc = instr.a;
            },
            Opcode::Jz => {
                let ra = instr.a;
                let k = instr.b;
                let va = read_reg_exec(&s.regs, ra);
                reg = [(ra, va, 0), (0, 0, 0), (0, 0, 0)];
                if va == 0 {
                    next_pc = k;
                }
            },
            Opcode::Read => {
                let rd = instr.a;
                if s.i_in as usize >= public_inputs.len() {
                    return Err(RunError::ReadPastEnd { i_in: s.i_in });
                }
                let val = reduce(public_inputs[s.i_in as usize]);
                write_reg_exec(&mut s.regs, rd, val);
                let cd = if rd == 0 { 0 } else { val };
                reg = [(0, 0, 0), (0, 0, 0), (rd, cd, 1)];
                s.i_in = s.i_in + 1;
            },
            Opcode::Write => {
                let ra = instr.a;
                let val = read_reg_exec(&s.regs, ra);
                reg = [(ra, val, 0), (0, 0, 0), (0, 0, 0)];
                outputs.push(val);
                out = Some(val);
                s.i_out = s.i_out + 1;
            },
            Opcode::Halt => {
                s.halted = true;
                next_pc = pc;
            },
        }

        s.pc = next_pc;

        let rec = StepRecord {
            clk,
            pc,
            next_pc,
            instr,
            halt_post: if s.halted { 1 } else { 0 },
            i_in_pre,
            i_in_post: s.i_in,
            i_out_pre,
            i_out_post: s.i_out,
            reg,
            mem,
        };
        proof {
            let st = step(m0, instr, public_inputs@, clk).unwrap();
            assert(step(m0, instr, public_inputs@, clk) is Some);
            assert(rec.reg@ =~= st.record.reg@);
            assert(rec.reg == st.record.reg);
            assert(rec.mem == st.record.mem);
            assert(rec.next_pc == st.record.next_pc);
            assert(rec.halt_post == st.record.halt_post);
            assert(rec.i_in_post == st.record.i_in_post);
            assert(rec.i_out_post == st.record.i_out_post);
            assert(rec == st.record);
            assert(s@ == st.next) by {
                assert(s@.regs =~= st.next.regs);
                assert(s@.mem =~= st.next.mem);
            }
            assert(outputs@ =~= outs0 + output_seq(st.output));
            assert(machine_ok(s@)) by {
                assert forall|k: u32| s@.mem.contains_key(k) implies canonical(#[trigger] s@.mem[k] as int) by {
                    if k != mem.0 || instr.op != Opcode::Store {
                        assert(m0.mem.contains_key(k));
                    }
                }
            }
        }
        trace.push(rec);
    }
    if !s.halted {
        return Err(RunError::DidNotHalt { max_steps });
    }
    Ok((trace, outputs))
}


/// `r0` is hardwired to zero: every register slot (read or write) naming
/// register 0 carries the value 0.
pub open spec fn r0_is_zero(rec: StepRecord) -> bool {
    forall|k: int| 0 <= k < 3 && (#[trigger] rec.reg[k]).0 == 0 ==> rec.reg[k].1 == 0
}

/// The program counter moves as the opcode of `r` says: `JMP` to its
/// target, `JZ` to its target when the register read is 0 and to the next
/// instruction otherwise, `HALT` stays, and every other opcode advances by 1.
pub open spec fn pc_moves_ok(r: StepRecord) -> bool {
    match r.instr.op {
        Opcode::Jmp => r.next_pc == r.instr.a,
        Opcode::Jz => r.next_pc == if r.reg[0].1 == 0 { r.instr.b } else { (r.pc + 1) as u32 },
        Opcode::Halt => r.next_pc == r.pc,
        _ => r.next_pc == (r.pc + 1) as u32,
    }
}

/// Every value record `r` carries is a field element: the three register
/// slots' values and the memory access's value.
pub open spec fn values_in_field(r: StepRecord) -> bool {
    &&& canonical(r.reg[0].1 as int)
    &&& canonical(r.reg[1].1 as int)
    &&& canonical(r.reg[2].1 as int)
    &&& canonical(r.mem.1 as int)
}

/// What record `r` says its opcode did, stated slot by slot on the RISC-like
/// reading of the instruction `op a, b, c`: register reads sit in slots A
/// and B (is_write 0), a register write in slot C (is_write 1, value 0 when
/// the target is `r0`), unused slots are `(0, 0, 0)`, and the memory tuple
/// is `(addr, val, is_write, used)`.
/// - `ADD`/`SUB`/`MUL a, b, c`: A reads `b`, B reads `c`, C writes to `a`
///   the sum, difference or product of the two values read, modulo `P`.
/// - `IMM a, k`: C writes `k mod P` to `a`.
/// - `LOAD a, b`: A reads the address from `b`, C writes to `a` the value
///   the memory tuple reads at that address.
/// - `STORE a, b`: A reads the address from `a`, B reads the value from `b`,
///   the memory tuple writes that value at that address.
/// - `JZ a, k` and `WRITE a`: A reads `a`.
/// - `READ a`: C writes to `a` the input at the input cursor, modulo `P`.
/// - `JMP` and `HALT` touch no register and no memory.
pub open spec fn record_semantics(r: StepRecord, inputs: Seq<u32>) -> bool {
    let p = P as int;
    let x = r.reg[0].1 as int;
    let y = r.reg[1].1 as int;
    let none = (0u32, 0u32, 0u32);
    let no_mem = (0u32, 0u32, 0u32, 0u32);
    let into = |v: int| if r.instr.a == 0 { 0int } else { v };
    match r.instr.op {
        Opcode::Add | Opcode::Sub | Opcode::Mul => {
            let v: int = if r.instr.op == Opcode::Add {
                (x + y) % p
            } else if r.instr.op == Opcode::Sub {
                (x - y) % p
            } else {
                (x * y) % p
            };
            &&& r.reg[0].0 == r.instr.b && r.reg[0].2 == 0
            &&& r.reg[1].0 == r.instr.c && r.reg[1].2 == 0
            &&& r.reg[2].0 == r.instr.a && r.reg[2].2 == 1
            &&& r.reg[2].1 as int == into(v)
            &&& r.mem == no_mem
        },
        Opcode::Imm => {
            &&& r.reg[0] == none && r.reg[1] == none
            &&& r.reg[2].0 == r.instr.a && r.reg[2].2 == 1
            &&& r.reg[2].1 as int == into(r.instr.b as int % p)
            &&& r.mem == no_mem
        },
        Opcode::Load => {
            &&& r.reg[0].0 == r.instr.b && r.reg[0].2 == 0
            &&& r.reg[1] == none
            &&& r.reg[2].0 == r.instr.a && r.reg[2].2 == 1
            &&& r.mem.0 == r.reg[0].1 && r.mem.2 == 0 && r.mem.3 == 1
            &&& r.reg[2].1 as int == into(r.mem.1 as int)
        },
        Opcode::Store => {
            &&& r.reg[0].0 == r.instr.a && r.reg[0].2 == 0
            &&& r.reg[1].0 == r.instr.b && r.reg[1].2 == 0
            &&& r.reg[2] == none
            &&& r.mem == (r.reg[0].1, r.reg[1].1, 1u32, 1u32)
        },
        Opcode::Jz | Opcode::Write => {
            &&& r.reg[0].0 == r.instr.a && r.reg[0].2 == 0
            &&& r.reg[1] == none && r.reg[2] == none
            &&& r.mem == no_mem
        },
        Opcode::Read => {
            &&& r.reg[0] == none && r.reg[1] == none
            &&& r.reg[2].0 == r.instr.a && r.reg[2].2 == 1
            &&& r.i_in_pre < inputs.len()
            &&& r.reg[2].1 as int == into(inputs[r.i_in_pre as int] as int % p)
            &&& r.mem == no_mem
        },
        Opcode::Jmp | Opcode::Halt => {
            &&& r.reg[0] == none && r.reg[1] == none && r.reg[2] == none
            &&& r.mem == no_mem
        },
    }
}

/// The shape of a trace prefix that leads to machine state `m`.
pub open spec fn prefix_ok(
    program: Seq<Instruction>,
    inputs: Seq<u32>,
    t: Seq<StepRecord>,
    m: Machine,
    outs: Seq<u32>,
) -> bool {
    &&& machine_ok(m)
    &&& m.i_in <= inputs.len()
    &&& outs.len() == m.i_out
    &&& all_canonical(outs)
    &&& forall|i: int| 0 <= i < t.len() ==> (#[trigger] t[i]).clk == i
    &&& forall|i: int| 0 <= i < t.len() ==> (#[trigger] t[i]).pc < program.len()
    &&& forall|i: int| 0 <= i < t.len() ==> (#[trigger] t[i]).instr == program[t[i].pc as int]
    &&& forall|i: int| 0 <= i < t.len() ==> r0_is_zero(#[trigger] t[i])
    &&& forall|i: int| 0 <= i < t.len() ==> pc_moves_ok(#[trigger] t[i])
    &&& forall|i: int| 0 <= i < t.len() ==> values_in_field(#[trigger] t[i])
    &&& forall|i: int| 0 <= i < t.len() ==> record_semantics(#[trigger] t[i], inputs)
    &&& forall|i: int| 0 <= i < t.len() - 1 ==> (#[trigger] t[i]).halt_post == 0
    &&& forall|i: int| 0 <= i < t.len() - 1 ==> #[trigger] t[i + 1].pc == t[i].next_pc
    &&& forall|i: int| 0 <= i < t.len() - 1 ==> #[trigger] t[i + 1].i_in_pre == t[i].i_in_post
    &&& forall|i: int| 0 <= i < t.len() - 1 ==> #[trigger] t[i + 1].i_out_pre == t[i].i_out_post
    &&& t.len() == 0 ==> m.pc == 0 && m.i_in == 0 && m.i_out == 0 && !m.halted
    &&& t.len() > 0 ==> t[0].pc == 0 && t[0].i_in_pre == 0 && t[0].i_out_pre == 0
    &&& t.len() > 0 ==> {
        &&& t.last().next_pc == m.pc
        &&& t.last().i_in_post == m.i_in
        &&& t.last().i_out_post == m.i_out
        &&& t.last().halt_post == (if m.halted { 1u32 } else { 0u32 })
        &&& m.halted ==> t.last().instr.op == Opcode::Halt && t.last().next_pc == t.last().pc
    }
}

/// The shape of a complete trace: one record per cycle, the program counter
/// threading through the records, the tape cursors threading likewise, every
/// record executing the ROM entry at its PC, exactly the last record halting
/// (and it executes `HALT`), every access of `r0` carrying zero, the PC of
/// each record moving as its opcode says, every recorded value a field
/// element, and the output tape holding one field element per `WRITE`.
pub open spec fn trace_ok(program: Seq<Instruction>, inputs: Seq<u32>, t: Seq<StepRecord>, outs: Seq<u32>) -> bool {
    &&& t.len() > 0
    &&& t[0].pc == 0
    &&& t[0].i_in_pre == 0
    &&& t[0].i_out_pre == 0
    &&& forall|i: int| 0 <= i < t.len() ==> (#[trigger] t[i]).clk == i
    &&& forall|i: int| 0 <= i < t.len() ==> (#[trigger] t[i]).instr == program[t[i].pc as int]
    &&& forall|i: int| 0 <= i < t.len() ==> r0_is_zero(#[trigger] t[i])
    &&& forall|i: int| 0 <= i < t.len() ==> pc_moves_ok(#[trigger] t[i])
    &&& forall|i: int| 0 <= i < t.len() ==> values_in_field(#[trigger] t[i])
    &&& forall|i: int| 0 <= i < t.len() ==> record_semantics(#[trigger] t[i], inputs)
    &&& forall|i: int| 0 <= i < t.len() - 1 ==> (#[trigger] t[i]).halt_post == 0
    &&& forall|i: int| 0 <= i < t.len() - 1 ==> #[trigger] t[i + 1].pc == t[i].next_pc
    &&& forall|i: int| 0 <= i < t.len() - 1 ==> #[trigger] t[i + 1].i_in_pre == t[i].i_in_post
    &&& forall|i: int| 0 <= i < t.len() - 1 ==> #[trigger] t[i + 1].i_out_pre == t[i].i_out_post
    &&& t.last().halt_post == 1
    &&& t.last().instr.op == Opcode::Halt
    &&& t.last().next_pc == t.last().pc
    &&& t.last().i_in_post <= inputs.len()
    &&& t.last().i_out_post == outs.len()
    &&& all_canonical(outs)
}

proof fn lemma_step_keeps_prefix(
    program: Seq<Instruction>,
    inputs: Seq<u32>,
    t: Seq<StepRecord>,
    m: Machine,
    outs: Seq<u32>,
)
    requires
        prefix_ok(program, inputs, t, m, outs),
        program_wellformed(program),
        !m.halted,
        m.pc < program.len(),
        t.len() < u32::MAX,
        m.i_out < u32::MAX,
        step(m, program[m.pc as int], inputs, t.len() as u32) is Some,
    ensures
        ({
            let st = step(m, program[m.pc as int], inputs, t.len() as u32).unwrap();
            prefix_ok(program, inputs, t.push(st.record), st.next, outs + output_seq(st.output))
        }),
{
    let instr = program[m.pc as int];
    assert(instruction_wellformed(instr));
    let st = step(m, instr, inputs, t.len() as u32).unwrap();
    let t2 = t.push(st.record);
    let o2 = outs + output_seq(st.output);
    let n = st.next;
    assert(r0_is_zero(st.record));
    assert(pc_moves_ok(st.record));
    assert(record_semantics(st.record, inputs));
    assert(values_in_field(st.record)) by {
        if instr.op == Opcode::Load {
            let addr = read_reg(m.regs, instr.b);
            if m.mem.contains_key(addr) {
                assert(canonical(m.mem[addr] as int));
            }
        }
        assert forall|r: u32| r < 8 implies canonical(#[trigger] read_reg(m.regs, r) as int) by {
            if r != 0 {
                assert(canonical(m.regs[r as int] as int));
            }
        }
    }
    assert forall|i: int| 0 <= i < t2.len() implies pc_moves_ok(#[trigger] t2[i]) && values_in_field(t2[i])
        && record_semantics(t2[i], inputs) by {
        if i < t.len() {
            assert(t2[i] == t[i]);
        }
    }
    if t.len() > 0 {
        assert(t2[0] == t[0]);
    }
    assert(n.regs.len() == NUM_REGS);
    assert(n.regs[0] == 0);
    assert(all_canonical(n.regs)) by {
        assert forall|i: int| 0 <= i < n.regs.len() implies canonical(#[trigger] n.regs[i] as int) by {
            if instr.op == Opcode::Load {
                let addr = read_reg(m.regs, instr.b);
                if m.mem.contains_key(addr) {
                    assert(canonical(m.mem[addr] as int));
                }
            }
        }
    }
    assert forall|k: u32| n.mem.contains_key(k) implies canonical(#[trigger] n.mem[k] as int) by {
        if instr.op == Opcode::Store && k == read_reg(m.regs, instr.a) {
        } else {
            assert(m.mem.contains_key(k));
        }
    }
    assert(all_canonical(o2)) by {
        assert forall|i: int| 0 <= i < o2.len() implies canonical(#[trigger] o2[i] as int) by {
            if i < outs.len() {
                assert(o2[i] == outs[i]);
            }
        }
    }
    assert forall|i: int| 0 <= i < t2.len() - 1 implies #[trigger] t2[i + 1].pc == t2[i].next_pc by {
        if i + 1 < t.len() {
            assert(t2[i + 1] == t[i + 1]);
        }
    }
    assert forall|i: int| 0 <= i < t2.len() - 1 implies #[trigger] t2[i + 1].i_in_pre == t2[i].i_in_post by {
        if i + 1 < t.len() {
            assert(t2[i + 1] == t[i + 1]);
        }
    }
    assert forall|i: int| 0 <= i < t2.len() - 1 implies #[trigger] t2[i + 1].i_out_pre == t2[i].i_out_post by {
        if i + 1 < t.len() {
            assert(t2[i + 1] == t[i + 1]);
        }
    }
    assert forall|i: int| 0 <= i < t2.len() - 1 implies (#[trigger] t2[i]).halt_post == 0 by {
        if i < t.len() - 1 {
            assert(t2[i] == t[i]);
        }
    }
}

proof fn lemma_run_from_shape(
    program: Seq<Instruction>,
    inputs: Seq<u32>,
    max_steps: nat,
    m: Machine,
    t: Seq<StepRecord>,
    outs: Seq<u32>,
)
    requires
        prefix_ok(program, inputs, t, m, outs),
        program_wellformed(program),
        t.len() <= max_steps,
        max_steps <= u32::MAX,
        m.i_out <= t.len(),
    ensures
        run_from(program, inputs, max_steps, m, t, outs) matches Ok((t2, o2)) ==> trace_ok(program, inputs, t2, o2)
            && t2.len() <= max_steps,
    decreases max_steps - t.len(),
{
    if m.halted || t.len() >= max_steps {
        if m.halted {
            assert(t.len() > 0);
            let l = t.last();
            assert(l == t[t.len() - 1]);
        }
    } else if m.pc >= program.len() {
    } else {
        let instr = program[m.pc as int];
        match step(m, instr, inputs, t.len() as u32) {
            None => {},
            Some(st) => {
                lemma_step_keeps_prefix(program, inputs, t, m, outs);
                lemma_run_from_shape(program, inputs, max_steps, st.next, t.push(st.record), outs + output_seq(st.output));
            },
        }
    }
}


/// A successful run yields a well-shaped trace: one record per cycle
/// (`clk = i`), starting at PC 0 with both tape cursors at 0, each record
/// executing the ROM instruction at its PC, the PC and the tape cursors
/// threading from each record into the next, exactly the last record halting
/// by executing `HALT` (which freezes the PC), every access of `r0` carrying 0,
/// the PC moving as each opcode says (`JMP` and a taken `JZ` to their
/// targets, `HALT` staying, everything else advancing by 1), every recorded
/// value a field element, no more inputs consumed than supplied, one output
/// field element per `WRITE`, and at most `max_steps` records.
pub proof fn lemma_run_trace_ok(program: Seq<Instruction>, inputs: Seq<u32>, max_steps: nat)
    requires
        program_wellformed(program),
        max_steps <= u32::MAX,
    ensures
        run_spec(program, inputs, max_steps) matches Ok((t, o)) ==> trace_ok(program, inputs, t, o)
            && t.len() <= max_steps,
{
    let m = initial_machine();
    assert(machine_ok(m)) by {
        assert forall|i: int| 0 <= i < m.regs.len() implies canonical(#[trigger] m.regs[i] as int) by {}
    }
    assert(all_canonical(Seq::<u32>::empty()));
    lemma_run_from_shape(program, inputs, max_steps, m, seq![], seq![]);
}


/// What each step of a successful run did: every record of the trace reads
/// and writes the registers and memory its opcode names, as
/// `record_semantics` lays out; in particular an `ADD`, `SUB` or `MUL a, b, c`
/// writes to `a` (unless it is `r0`) the sum, difference or product modulo
/// `P` of the values it read from `b` and from `c`, in that order.
pub proof fn lemma_run_semantics(program: Seq<Instruction>, inputs: Seq<u32>, max_steps: nat)
    requires
        program_wellformed(program),
        max_steps <= u32::MAX,
    ensures
        run_spec(program, inputs, max_steps) matches Ok((t, o)) ==> forall|i: int|
            0 <= i < t.len() ==> #[trigger] record_semantics(t[i], inputs),
        run_spec(program, inputs, max_steps) matches Ok((t, o)) ==> forall|i: int|
            0 <= i < t.len() && t[i].instr.op == Opcode::Mul ==> {
                &&& (#[trigger] t[i]).reg[0].0 == t[i].instr.b
                &&& t[i].reg[1].0 == t[i].instr.c
                &&& t[i].reg[2].0 == t[i].instr.a
                &&& t[i].reg[2].1 as int == if t[i].instr.a == 0 {
                    0
                } else {
                    (t[i].reg[0].1 as int * t[i].reg[1].1 as int) % (P as int)
                }
            },
{
    lemma_run_trace_ok(program, inputs, max_steps);
}

/// The four little-endian bytes of `x`.
pub open spec fn le_bytes(x: u32) -> Seq<u8> {
    seq![(x % 256) as u8, ((x / 256) % 256) as u8, ((x / 65536) % 256) as u8, (x / 16777216) as u8]
}

/// The bytes hashed for one ROM entry: its address, opcode and operands,
/// each as four little-endian bytes.
pub open spec fn rom_entry_bytes(addr: u32, instr: Instruction) -> Seq<u8> {
    le_bytes(addr) + le_bytes(opcode_code(instr.op)) + le_bytes(instr.a) + le_bytes(instr.b)
        + le_bytes(instr.c)
}

/// The byte string hashed for the first `n` instructions of `program`.
pub open spec fn rom_bytes(program: Seq<Instruction>, n: nat) -> Seq<u8>
    decreases n,
{
    if n == 0 {
        seq![]
    } else {
        rom_bytes(program, (n - 1) as nat) + rom_entry_bytes((n - 1) as u32, program[n - 1])
    }
}

pub(crate) fn push_le_bytes(out: &mut Vec<u8>, x: u32)
    ensures
        final(out)@ == old(out)@ + le_bytes(x),
{
    out.push((x % 256) as u8);
    out.push(((x / 256) % 256) as u8);
    out.push(((x / 65536) % 256) as u8);
    out.push((x / 16777216) as u8);
    assert(final(out)@ =~= old(out)@ + le_bytes(x));
}

/// Field `f` (0 address, 1 opcode number, 2..4 operands a, b, c) of ROM
/// entry `i`.
pub open spec fn rom_field(program: Seq<Instruction>, i: int, f: int) -> u32 {
    if f == 0 {
        i as u32
    } else if f == 1 {
        opcode_code(program[i].op)
    } else if f == 2 {
        program[i].a
    } else if f == 3 {
        program[i].b
    } else {
        program[i].c
    }
}

/// The ROM bytes that a program is hashed over: twenty bytes per
/// instruction, in program order; those of instruction `i` are its address
/// `i`, its opcode number and its operands `a`, `b`, `c`, each a 32-bit
/// little-endian word (byte `k` of word `x` being `x / 256^k mod 256`).
pub proof fn lemma_rom_bytes_layout(program: Seq<Instruction>, n: nat)
    requires
        n <= program.len(),
    ensures
        rom_bytes(program, n).len() == 20 * n,
        forall|i: int, f: int, k: int|
            0 <= i < n && 0 <= f < 5 && 0 <= k < 4 ==> #[trigger] rom_bytes(program, n)[20 * i + 4 * f + k] as int
                == (rom_field(program, i, f) as int / pow256(k)) % 256,
    decreases n,
{
    if n > 0 {
        lemma_rom_bytes_layout(program, (n - 1) as nat);
        let prev = rom_bytes(program, (n - 1) as nat);
        let m = (n - 1) as int;
        let e = rom_entry_bytes((n - 1) as u32, program[m]);
        assert(e.len() == 20);
        assert forall|i: int, f: int, k: int|
            0 <= i < n && 0 <= f < 5 && 0 <= k < 4 implies #[trigger] rom_bytes(program, n)[20 * i + 4 * f + k] as int
            == (rom_field(program, i, f) as int / pow256(k)) % 256 by {
            if i < m {
                assert(rom_bytes(program, n)[20 * i + 4 * f + k] == prev[20 * i + 4 * f + k]);
            } else {
                assert(rom_bytes(program, n)[20 * i + 4 * f + k] == e[4 * f + k]);
                let x = rom_field(program, i, f);
                assert(e[4 * f + k] == le_bytes(x)[k]) by {
                    assert(e == le_bytes((n - 1) as u32) + le_bytes(opcode_code(program[m].op)) + le_bytes(program[m].a)
                        + le_bytes(program[m].b) + le_bytes(program[m].c));
                }
                lemma_le_bytes_digit(x, k);
            }
        }
    }
}

/// `256^k` for the byte positions of a word.
pub open spec fn pow256(k: int) -> int {
    if k <= 0 { 1 } else if k == 1 { 256 } else if k == 2 { 65536 } else { 16777216 }
}

pub(crate) proof fn lemma_le_bytes_digit(x: u32, k: int)
    requires
        0 <= k < 4,
    ensures
        le_bytes(x)[k] as int == (x as int / pow256(k)) % 256,
{
    assert(x as int / 16777216 < 256);
}

/// The byte string of the program ROM that `hash_program` digests.
pub fn program_rom_bytes(program: &[Instruction]) -> (r: Vec<u8>)
    ensures
        r@ == rom_bytes(program@, program@.len()),
{
    let mut out: Vec<u8> = Vec::new();
    let mut i: usize = 0;
    while i < program.len()
        invariant
            i <= program.len(),
            out@ == rom_bytes(program@, i as nat),
        decreases program.len() - i,
    {
        let ins = program[i];
        let ghost before = out@;
        push_le_bytes(&mut out, i as u32);
        push_le_bytes(&mut out, ins.op.code());
        push_le_bytes(&mut out, ins.a);
        push_le_bytes(&mut out, ins.b);
        push_le_bytes(&mut out, ins.c);
        assert(out@ =~= before + rom_entry_bytes(i as u32, program@[i as int]));
        i = i + 1;
    }
    out
}

/// SHA-256 of the program ROM: for each instruction its index, opcode and
/// three operands as little-endian `u32`s. Binds a proof to the program.
pub fn hash_program(program: &[Instruction]) -> (r: [u8; 32])
    ensures
        r@ == sha256_of(rom_bytes(program@, program@.len())),
{
    let bytes = program_rom_bytes(program);
    sha256(bytes.as_slice())
}

} // verus!
