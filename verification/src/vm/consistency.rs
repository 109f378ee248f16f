//! What a run's reads see: every register read returns the last value
//! written to that register (0 before any write, and always 0 for `r0`), and
//! every `LOAD` returns the last value stored at its address (0 for a cell
//! never written). These are the facts that the sorted register and memory
//! tables of the trace are checked against.

use vstd::prelude::*;

use super::{
    all_canonical, initial_machine, instruction_wellformed, lemma_step_keeps_prefix, machine_ok, mem_read,
    output_seq, prefix_ok, program_wellformed, read_reg, run_from, run_spec, step, Instruction, Machine, Opcode,
    StepRecord, written,
};
use crate::field::P;

verus! {

/// The value register `r` holds after the first `n` records of `t`: the last
/// value a record wrote to it (a later slot of a record winning), or 0 if
/// none did; `r0` always holds 0.
pub open spec fn reg_after(t: Seq<StepRecord>, n: nat, r: u32) -> u32
    decreases n,
{
    if r == 0 || n == 0 {
        0
    } else {
        let rec = t[n - 1];
        if rec.reg[2].2 == 1 && rec.reg[2].0 == r {
            rec.reg[2].1
        } else if rec.reg[1].2 == 1 && rec.reg[1].0 == r {
            rec.reg[1].1
        } else if rec.reg[0].2 == 1 && rec.reg[0].0 == r {
            rec.reg[0].1
        } else {
            reg_after(t, (n - 1) as nat, r)
        }
    }
}

/// The value memory cell `addr` holds after the first `n` records of `t`:
/// the last value a record stored there, or 0 if none did.
pub open spec fn mem_after(t: Seq<StepRecord>, n: nat, addr: u32) -> u32
    decreases n,
{
    if n == 0 {
        0
    } else {
        let rec = t[n - 1];
        if rec.mem.3 == 1 && rec.mem.2 == 1 && rec.mem.0 == addr {
            rec.mem.1
        } else {
            mem_after(t, (n - 1) as nat, addr)
        }
    }
}

/// Every read slot of every record carries the value its register held
/// before the record, and every memory read carries the value its cell held.
pub open spec fn reads_consistent(t: Seq<StepRecord>) -> bool {
    &&& forall|i: int, k: int|
        0 <= i < t.len() && 0 <= k < 3 && (#[trigger] t[i].reg[k]).2 == 0 ==> t[i].reg[k].1 == reg_after(
            t,
            i as nat,
            t[i].reg[k].0,
        )
    &&& forall|i: int|
        0 <= i < t.len() && (#[trigger] t[i]).mem.3 == 1 && t[i].mem.2 == 0 ==> t[i].mem.1 == mem_after(
            t,
            i as nat,
            t[i].mem.0,
        )
}

/// Row `r` uses the tapes as its opcode says: a `READ` takes the input at
/// its input cursor (reduced to a field element; recorded as 0 when the
/// target is `r0`) and advances that cursor, a `WRITE` emits the output at
/// its output cursor and advances that cursor, and any other row leaves both
/// cursors alone.
pub open spec fn io_row_ok(r: StepRecord, inputs: Seq<u32>, outs: Seq<u32>) -> bool {
    if r.instr.op == Opcode::Read {
        &&& r.i_in_pre < inputs.len()
        &&& r.reg[2].1 == written(r.reg[2].0, inputs[r.i_in_pre as int] % P)
        &&& r.i_in_post == r.i_in_pre + 1
        &&& r.i_out_post == r.i_out_pre
    } else if r.instr.op == Opcode::Write {
        &&& r.i_out_pre < outs.len()
        &&& r.reg[0].1 == outs[r.i_out_pre as int]
        &&& r.i_out_post == r.i_out_pre + 1
        &&& r.i_in_post == r.i_in_pre
    } else {
        &&& r.i_in_post == r.i_in_pre
        &&& r.i_out_post == r.i_out_pre
    }
}

/// Every row of `t` uses the tapes as its opcode says.
pub open spec fn io_bound(t: Seq<StepRecord>, inputs: Seq<u32>, outs: Seq<u32>) -> bool {
    forall|i: int| 0 <= i < t.len() ==> io_row_ok(#[trigger] t[i], inputs, outs)
}

/// The flags of record `r` are bits: slots A and B only read, slot C reads
/// or writes, and the memory tuple's write and use flags are 0 or 1 (an
/// unused tuple is not a write).
pub open spec fn record_shape(r: StepRecord) -> bool {
    &&& r.reg[0].2 == 0
    &&& r.reg[1].2 == 0
    &&& r.reg[2].2 <= 1
    &&& r.mem.2 <= 1
    &&& r.mem.3 <= 1
    &&& r.mem.3 == 0 ==> r.mem.2 == 0
}

/// Every record of `t` has the shape of `record_shape`.
pub open spec fn shapes_ok(t: Seq<StepRecord>) -> bool {
    forall|i: int| 0 <= i < t.len() ==> record_shape(#[trigger] t[i])
}

/// The machine's registers and memory are what the records of `t` wrote.
pub open spec fn state_agrees(m: Machine, t: Seq<StepRecord>) -> bool {
    &&& forall|r: u32| r < 8 ==> #[trigger] read_reg(m.regs, r) == reg_after(t, t.len(), r)
    &&& forall|a: u32| #[trigger] mem_read(m.mem, a) == mem_after(t, t.len(), a)
}

proof fn lemma_prefix_stable(t: Seq<StepRecord>, x: StepRecord, n: nat)
    requires
        n <= t.len(),
    ensures
        forall|r: u32| #[trigger] reg_after(t.push(x), n, r) == reg_after(t, n, r),
        forall|a: u32| #[trigger] mem_after(t.push(x), n, a) == mem_after(t, n, a),
    decreases n,
{
    if n > 0 {
        lemma_prefix_stable(t, x, (n - 1) as nat);
        assert(t.push(x)[n - 1] == t[n - 1]);
        assert forall|r: u32| #[trigger] reg_after(t.push(x), n, r) == reg_after(t, n, r) by {
            assert(reg_after(t.push(x), (n - 1) as nat, r) == reg_after(t, (n - 1) as nat, r));
        }
        assert forall|a: u32| #[trigger] mem_after(t.push(x), n, a) == mem_after(t, n, a) by {
            assert(mem_after(t.push(x), (n - 1) as nat, a) == mem_after(t, (n - 1) as nat, a));
        }
    } else {
        assert forall|r: u32| #[trigger] reg_after(t.push(x), n, r) == reg_after(t, n, r) by {}
        assert forall|a: u32| #[trigger] mem_after(t.push(x), n, a) == mem_after(t, n, a) by {}
    }
}

proof fn lemma_step_consistent(m: Machine, instr: Instruction, inputs: Seq<u32>, t: Seq<StepRecord>)
    requires
        machine_ok(m),
        instruction_wellformed(instr),
        state_agrees(m, t),
        reads_consistent(t),
        t.len() < u32::MAX,
        step(m, instr, inputs, t.len() as u32) is Some,
    ensures
        ({
            let st = step(m, instr, inputs, t.len() as u32).unwrap();
            &&& state_agrees(st.next, t.push(st.record))
            &&& reads_consistent(t.push(st.record))
        }),
{
    let st = step(m, instr, inputs, t.len() as u32).unwrap();
    let rec = st.record;
    let t2 = t.push(rec);
    let n = t.len();
    lemma_prefix_stable(t, rec, n);
    assert(t2[n as int] == rec);
    assert forall|i: int, k: int|
        0 <= i < t2.len() && 0 <= k < 3 && (#[trigger] t2[i].reg[k]).2 == 0 implies t2[i].reg[k].1 == reg_after(
        t2,
        i as nat,
        t2[i].reg[k].0,
    ) by {
        if i < n {
            assert(t2[i] == t[i]);
            lemma_prefix_stable(t, rec, i as nat);
        } else {
            assert(read_reg(m.regs, t2[i].reg[k].0) == reg_after(t, n, t2[i].reg[k].0));
        }
    }
    assert forall|i: int|
        0 <= i < t2.len() && (#[trigger] t2[i]).mem.3 == 1 && t2[i].mem.2 == 0 implies t2[i].mem.1 == mem_after(
        t2,
        i as nat,
        t2[i].mem.0,
    ) by {
        if i < n {
            assert(t2[i] == t[i]);
            lemma_prefix_stable(t, rec, i as nat);
        } else {
            assert(mem_read(m.mem, t2[i].mem.0) == mem_after(t, n, t2[i].mem.0));
        }
    }
    assert forall|r: u32| r < 8 implies #[trigger] read_reg(st.next.regs, r) == reg_after(t2, t2.len(), r) by {
        assert(read_reg(m.regs, r) == reg_after(t, n, r));
        assert(reg_after(t2, n, r) == reg_after(t, n, r));
        assert(rec == t2[t2.len() - 1]);
        match instr.op {
            Opcode::Add | Opcode::Sub | Opcode::Mul | Opcode::Imm | Opcode::Load | Opcode::Read => {
                if r != 0 && r != instr.a {
                    assert(st.next.regs[r as int] == m.regs[r as int]);
                }
            },
            _ => {},
        }
    }
    assert forall|a: u32| #[trigger] mem_read(st.next.mem, a) == mem_after(t2, t2.len(), a) by {
        assert(mem_read(m.mem, a) == mem_after(t, n, a));
        assert(mem_after(t2, n, a) == mem_after(t, n, a));
        assert(rec == t2[t2.len() - 1]);
    }
}

proof fn lemma_step_io(m: Machine, instr: Instruction, inputs: Seq<u32>, t: Seq<StepRecord>, outs: Seq<u32>)
    requires
        io_bound(t, inputs, outs),
        outs.len() == m.i_out,
        m.i_out < u32::MAX,
        m.i_in <= inputs.len(),
        inputs.len() <= u32::MAX,
        t.len() < u32::MAX,
        step(m, instr, inputs, t.len() as u32) is Some,
    ensures
        ({
            let st = step(m, instr, inputs, t.len() as u32).unwrap();
            io_bound(t.push(st.record), inputs, outs + output_seq(st.output))
        }),
{
    let st = step(m, instr, inputs, t.len() as u32).unwrap();
    let t2 = t.push(st.record);
    let o2 = outs + output_seq(st.output);
    assert forall|i: int| 0 <= i < t2.len() implies io_row_ok(#[trigger] t2[i], inputs, o2) by {
        if i < t.len() {
            assert(t2[i] == t[i]);
            assert(io_row_ok(t[i], inputs, outs));
            if t[i].instr.op == Opcode::Write {
                assert(o2[t[i].i_out_pre as int] == outs[t[i].i_out_pre as int]);
            }
        } else {
            assert(t2[i] == st.record);
            if instr.op == Opcode::Write {
                assert(o2[m.i_out as int] == read_reg(m.regs, instr.a));
            }
        }
    }
}

proof fn lemma_run_from_consistent(
    program: Seq<Instruction>,
    inputs: Seq<u32>,
    max_steps: nat,
    m: Machine,
    t: Seq<StepRecord>,
    outs: Seq<u32>,
)
    requires
        prefix_ok(program, inputs, t, m, outs),
        program_wellformed(program),
        state_agrees(m, t),
        reads_consistent(t),
        io_bound(t, inputs, outs),
        shapes_ok(t),
        inputs.len() <= u32::MAX,
        t.len() <= max_steps,
        max_steps <= u32::MAX,
        m.i_out <= t.len(),
    ensures
        run_from(program, inputs, max_steps, m, t, outs) matches Ok((t2, o2)) ==> reads_consistent(t2) && io_bound(
            t2,
            inputs,
            o2,
        ) && shapes_ok(t2),
    decreases max_steps - t.len(),
{
    if m.halted || t.len() >= max_steps {
    } else if m.pc >= program.len() {
    } else {
        let instr = program[m.pc as int];
        match step(m, instr, inputs, t.len() as u32) {
            None => {},
            Some(st) => {
                lemma_step_keeps_prefix(program, inputs, t, m, outs);
                lemma_step_consistent(m, instr, inputs, t);
                lemma_step_io(m, instr, inputs, t, outs);
                assert(shapes_ok(t.push(st.record))) by {
                    assert forall|i: int| 0 <= i < t.len() + 1 implies record_shape(#[trigger] t.push(st.record)[i]) by {
                        if i < t.len() {
                            assert(t.push(st.record)[i] == t[i]);
                        }
                    }
                }
                lemma_run_from_consistent(
                    program,
                    inputs,
                    max_steps,
                    st.next,
                    t.push(st.record),
                    outs + output_seq(st.output),
                );
            },
        }
    }
}

/// Reads see the last write: in the trace of every successful run, each
/// register read returns the last value written to that register (0 before
/// any write, and 0 for `r0`), and each `LOAD` returns the last value stored
/// at its address (0 for a cell never written).
pub proof fn lemma_run_reads_consistent(program: Seq<Instruction>, inputs: Seq<u32>, max_steps: nat)
    requires
        program_wellformed(program),
        inputs.len() <= u32::MAX,
        max_steps <= u32::MAX,
    ensures
        run_spec(program, inputs, max_steps) matches Ok((t, o)) ==> reads_consistent(t),
{
    lemma_run_io_and_reads(program, inputs, max_steps);
}

/// The public tapes are bound to the trace: in every successful run, each
/// `READ` row carries the public input at its input cursor and advances
/// that cursor, each `WRITE` row carries the output at its output cursor and
/// advances that cursor, and no other row moves either cursor.
pub proof fn lemma_run_io_bound(program: Seq<Instruction>, inputs: Seq<u32>, max_steps: nat)
    requires
        program_wellformed(program),
        inputs.len() <= u32::MAX,
        max_steps <= u32::MAX,
    ensures
        run_spec(program, inputs, max_steps) matches Ok((t, o)) ==> io_bound(t, inputs, o),
{
    lemma_run_io_and_reads(program, inputs, max_steps);
}

/// What the induction over a run establishes about its trace.
pub(crate) proof fn lemma_run_io_and_reads(program: Seq<Instruction>, inputs: Seq<u32>, max_steps: nat)
    requires
        program_wellformed(program),
        inputs.len() <= u32::MAX,
        max_steps <= u32::MAX,
    ensures
        run_spec(program, inputs, max_steps) matches Ok((t, o)) ==> reads_consistent(t) && io_bound(t, inputs, o)
            && shapes_ok(t),
{
    let m = initial_machine();
    let e = Seq::<StepRecord>::empty();
    assert(machine_ok(m)) by {
        assert forall|i: int| 0 <= i < m.regs.len() implies crate::field::canonical(#[trigger] m.regs[i] as int) by {}
    }
    assert(all_canonical(Seq::<u32>::empty()));
    assert(state_agrees(m, e));
    lemma_run_from_consistent(program, inputs, max_steps, m, e, seq![]);
}

} // verus!
