//! The column trace of the field-native VM: the main columns of each step,
//! the register and memory accesses sorted for the permutation arguments
//! with their adjacency witnesses and ordering bits, the program table with
//! fetch multiplicities, and the public input / output tables.

use vstd::prelude::*;

use crate::cpu::{lemma_u32_key_laws, u32_keys_ordered};
use crate::field::{bb_inv, bb_sub, fsub, inv, reduce, P};
use crate::sorting::{stable_sort_by_key, stably_sorted, Key3};
use crate::tables::{push_all, push_zeros, Entry4};
use crate::trace::{is_power_of_two, padded_to, pow2_at_least, zeros};
use crate::vm::col;
use crate::vm::{opcode_code, trace_ok, Instruction, Opcode, StepRecord, NUM_TRACE_COLS};

verus! {

/// A memory-table entry `(addr, val, clk, is_write, used)`.
pub type Access5 = (u32, u32, u32, u32, u32);

/// The smallest length a VM trace is padded to.
pub const MIN_VM_TRACE_LEN: usize = 256;

/// The field element of a word.
pub open spec fn fe(x: u32) -> u32 {
    (x % P) as u32
}

/// The field inverse of `x`, or 0 for `x == 0`.
pub open spec fn inv_or_zero(x: u32) -> u32 {
    if x == 0 {
        0
    } else {
        inv(x as int) as u32
    }
}

/// The four main cells of a register slot `(idx, val, is_write)`: the three
/// values and the inverse of the index.
pub open spec fn slot_cells(s: (u32, u32, u32)) -> Seq<u32> {
    seq![fe(s.0), fe(s.1), fe(s.2), inv_or_zero(s.0)]
}

/// The one-hot opcode selectors.
pub open spec fn sel_cells(op: Opcode) -> Seq<u32> {
    Seq::new(11, |k: int| if k == opcode_code(op) - 1 { 1u32 } else { 0u32 })
}

/// The JZ helpers for the value `v` of slot A: `(1, 0)` when it is zero,
/// else `(0, 1 / v)`.
pub open spec fn jz_cells(v: u32) -> Seq<u32> {
    if v == 0 {
        seq![1u32, 0u32]
    } else {
        seq![0u32, inv(v as int) as u32]
    }
}

/// The main cells (columns `CLK` to the last selector) of a real step.
pub open spec fn record_cells(r: StepRecord) -> Seq<u32> {
    seq![
        fe(r.clk), fe(r.pc), fe(r.next_pc), fe(opcode_code(r.instr.op)), fe(r.instr.a), fe(r.instr.b),
        fe(r.instr.c), fe(r.halt_post), fe(r.i_in_pre), fe(r.i_out_pre),
    ] + slot_cells(r.reg[0]) + slot_cells(r.reg[1]) + slot_cells(r.reg[2]) + seq![
        fe(r.mem.0),
        fe(r.mem.1),
        fe(r.mem.2),
        fe(r.mem.3),
    ] + jz_cells(r.reg[0].1) + sel_cells(r.instr.op)
}

/// The main cells of padding row `clk`: HALT replayed at the halt PC with the
/// I/O cursors frozen, touching no register or memory.
pub open spec fn padding_cells(last: StepRecord, clk: u32) -> Seq<u32> {
    seq![
        fe(clk), fe(last.pc), fe(last.pc), 11u32, 0u32, 0u32, 0u32, 1u32, fe(last.i_in_post),
        fe(last.i_out_post),
    ] + zeros(16) + seq![1u32, 0u32] + sel_cells(Opcode::Halt)
}

/// The keyed register accesses of the steps: three per step, keyed by
/// `(idx, clk, is_write)`.
pub open spec fn reg_accesses(records: Seq<StepRecord>) -> Seq<(Key3, Entry4)>
    decreases records.len(),
{
    if records.len() == 0 {
        seq![]
    } else {
        let r = records.last();
        reg_accesses(records.drop_last()) + seq![
            ((r.reg[0].0, r.clk, r.reg[0].2), (r.reg[0].0, r.reg[0].1, r.clk, r.reg[0].2)),
            ((r.reg[1].0, r.clk, r.reg[1].2), (r.reg[1].0, r.reg[1].1, r.clk, r.reg[1].2)),
            ((r.reg[2].0, r.clk, r.reg[2].2), (r.reg[2].0, r.reg[2].1, r.clk, r.reg[2].2)),
        ]
    }
}

/// The keyed register accesses of padding rows `from..to`: three reads of
/// `r0` per row.
pub open spec fn pad_reg_accesses(from: nat, to: nat) -> Seq<(Key3, Entry4)>
    decreases to,
{
    if to <= from {
        seq![]
    } else {
        let c = (to - 1) as u32;
        pad_reg_accesses(from, (to - 1) as nat) + seq![
            ((0u32, c, 0u32), (0u32, 0u32, c, 0u32)),
            ((0u32, c, 0u32), (0u32, 0u32, c, 0u32)),
            ((0u32, c, 0u32), (0u32, 0u32, c, 0u32)),
        ]
    }
}

/// The keyed memory accesses of the steps, keyed by `(used, addr, clk)` so
/// that unused entries come first.
pub open spec fn mem_accesses(records: Seq<StepRecord>) -> Seq<(Key3, Access5)> {
    Seq::new(
        records.len(),
        |i: int|
            {
                let r = records[i];
                ((r.mem.3, r.mem.0, r.clk), (r.mem.0, r.mem.1, r.clk, r.mem.2, r.mem.3))
            },
    )
}

/// The keyed (unused) memory entries of padding rows `from..to`.
pub open spec fn pad_mem_accesses(from: nat, to: nat) -> Seq<(Key3, Access5)> {
    Seq::new(
        (to - from) as nat,
        |j: int| ((0u32, 0u32, (from + j) as u32), (0u32, 0u32, (from + j) as u32, 0u32, 0u32)),
    )
}

/// How many steps fetch from `addr`.
pub open spec fn fetch_count(records: Seq<StepRecord>, addr: u32) -> nat
    decreases records.len(),
{
    if records.len() == 0 {
        0
    } else {
        fetch_count(records.drop_last(), addr) + if records.last().pc == addr {
            1nat
        } else {
            0nat
        }
    }
}

/// The fetch multiplicity of ROM address `addr` in a trace of `n` rows:
/// the steps fetching it, plus every padding row at the halt PC.
pub open spec fn multiplicity(records: Seq<StepRecord>, n: nat, addr: u32) -> nat {
    fetch_count(records, addr) + if addr == records.last().pc {
        (n - records.len()) as nat
    } else {
        0nat
    }
}

/// Everything row `i` of the VM trace is made of.
pub struct VmLayout {
    pub records: Seq<StepRecord>,
    pub program: Seq<Instruction>,
    pub inputs: Seq<u32>,
    pub outputs: Seq<u32>,
    pub n: nat,
    pub sorted_reg: Seq<(Key3, Entry4)>,
    pub sorted_mem: Seq<(Key3, Access5)>,
}

/// The adjacency witness of two sorted entries with (reduced) leading
/// values `prev` then `next`: `(1, 0)` when equal, else `(0, 1 / (next -
/// prev))`.
pub open spec fn same_inv(prev: u32, next: u32) -> Seq<u32> {
    if prev == next {
        seq![1u32, 0u32]
    } else {
        seq![0u32, inv(fsub(next as int, prev as int)) as u32]
    }
}

/// The 16 low bits of the ordering difference of two sorted entries (the
/// clock difference when their leading values agree, else the difference of
/// those), or zeros on the wrap-around row.
pub open spec fn order_bits(prev_idx: u32, prev_clk: u32, next_idx: u32, next_clk: u32, in_trace: bool) -> Seq<u32> {
    if !in_trace {
        zeros(16)
    } else {
        let v = (if prev_idx == next_idx {
            next_clk - prev_clk
        } else {
            next_idx - prev_idx
        }) as u64;
        Seq::new(16, |k: int| ((v >> (k as u64)) & 1) as u32)
    }
}

/// Sorted register entry `k` (slot `k % 3` of row `k / 3`).
pub open spec fn sreg(l: VmLayout, k: int) -> Entry4 {
    l.sorted_reg[k].1
}

/// The sorted register slot A of the row after `i` (of row 0 on the last row).
pub open spec fn next_a(l: VmLayout, i: int) -> Entry4 {
    if i + 1 < l.n {
        sreg(l, 3 * (i + 1))
    } else {
        sreg(l, 0)
    }
}

/// The sorted memory entry after row `i` (row 0's on the last row).
pub open spec fn next_m(l: VmLayout, i: int) -> Access5 {
    if i + 1 < l.n {
        l.sorted_mem[i + 1].1
    } else {
        l.sorted_mem[0].1
    }
}

/// The cells of sorted register slot `e` with its adjacency witness against
/// the next slot's index `next_idx`.
pub open spec fn sreg_cells(e: Entry4, next_idx: u32) -> Seq<u32> {
    seq![fe(e.0), fe(e.1), fe(e.2), fe(e.3)] + same_inv(fe(e.0), fe(next_idx))
}

/// The sorted-table cells of row `i` (columns `SREG_A` to `SMEM + 6`).
pub open spec fn sorted_cells(l: VmLayout, i: int) -> Seq<u32> {
    let a = sreg(l, 3 * i);
    let b = sreg(l, 3 * i + 1);
    let c = sreg(l, 3 * i + 2);
    let m = l.sorted_mem[i].1;
    sreg_cells(a, b.0) + sreg_cells(b, c.0) + sreg_cells(c, next_a(l, i).0) + seq![
        fe(m.0),
        fe(m.1),
        fe(m.2),
        fe(m.3),
        fe(m.4),
    ] + same_inv(fe(m.0), fe(next_m(l, i).0))
}

/// The program, public-input and public-output cells of row `i`.
pub open spec fn io_cells(l: VmLayout, i: int) -> Seq<u32> {
    let prog = if i < l.program.len() {
        let ins = l.program[i];
        seq![
            fe(i as u32), fe(opcode_code(ins.op)), fe(ins.a), fe(ins.b), fe(ins.c),
            fe(multiplicity(l.records, l.n, i as u32) as u32),
        ]
    } else {
        zeros(6)
    };
    let pin = if i < l.inputs.len() {
        seq![fe(i as u32), fe(l.inputs[i]), 1u32]
    } else {
        zeros(3)
    };
    let pout = if i < l.outputs.len() {
        seq![fe(i as u32), fe(l.outputs[i]), 1u32]
    } else {
        zeros(3)
    };
    prog + pin + pout
}

/// The ordering bits of row `i` (columns `DIFF_BITS_AB` to the last).
pub open spec fn bit_cells(l: VmLayout, i: int) -> Seq<u32> {
    let a = sreg(l, 3 * i);
    let b = sreg(l, 3 * i + 1);
    let c = sreg(l, 3 * i + 2);
    let na = next_a(l, i);
    let m = l.sorted_mem[i].1;
    let nm = next_m(l, i);
    let in_trace = i + 1 < l.n;
    order_bits(fe(a.0), fe(a.2), fe(b.0), fe(b.2), in_trace) + order_bits(
        fe(b.0),
        fe(b.2),
        fe(c.0),
        fe(c.2),
        in_trace,
    ) + order_bits(fe(c.0), fe(c.2), fe(na.0), fe(na.2), in_trace) + order_bits(
        fe(m.0),
        fe(m.2),
        fe(nm.0),
        fe(nm.2),
        in_trace,
    )
}

/// The cells of row `i` of the VM trace, in column order.
pub open spec fn vm_cells(l: VmLayout, i: int) -> Seq<u32> {
    let main = if i < l.records.len() {
        record_cells(l.records[i])
    } else {
        padding_cells(l.records.last(), i as u32)
    };
    main + sorted_cells(l, i) + io_cells(l, i) + bit_cells(l, i)
}


/// The inverse of `x`, or 0 for `x == 0`.
fn inverse_or_zero(x: u32) -> (r: u32)
    ensures
        r == inv_or_zero(x),
{
    if x == 0 {
        0
    } else {
        bb_inv(x)
    }
}

/// The cells of a register slot.
fn push_slot(v: &mut Vec<u32>, s: (u32, u32, u32))
    ensures
        final(v)@ == old(v)@ + slot_cells(s),
{
    let c: [u32; 4] = [reduce(s.0), reduce(s.1), reduce(s.2), inverse_or_zero(s.0)];
    assert(c@ =~= slot_cells(s));
    push_all(v, &c);
}

/// The one-hot selectors of `op`.
fn push_sel(v: &mut Vec<u32>, op: Opcode)
    ensures
        final(v)@ == old(v)@ + sel_cells(op),
{
    let idx = op.sel_index();
    let mut k: usize = 0;
    while k < 11
        invariant
            k <= 11,
            idx == opcode_code(op) - 1,
            v@ == old(v)@ + sel_cells(op).take(k as int),
        decreases 11 - k,
    {
        v.push(if k == idx { 1 } else { 0 });
        k = k + 1;
        assert(v@ =~= old(v)@ + sel_cells(op).take(k as int));
    }
    assert(sel_cells(op).take(11) =~= sel_cells(op));
}

/// The main cells of a real step.
fn push_record(v: &mut Vec<u32>, r: &StepRecord)
    ensures
        final(v)@ == old(v)@ + record_cells(*r),
{
    let head: [u32; 10] = [
        reduce(r.clk), reduce(r.pc), reduce(r.next_pc), reduce(r.instr.op.code()), reduce(r.instr.a),
        reduce(r.instr.b), reduce(r.instr.c), reduce(r.halt_post), reduce(r.i_in_pre),
        reduce(r.i_out_pre),
    ];
    push_all(v, &head);
    push_slot(v, r.reg[0]);
    push_slot(v, r.reg[1]);
    push_slot(v, r.reg[2]);
    let m: [u32; 4] = [reduce(r.mem.0), reduce(r.mem.1), reduce(r.mem.2), reduce(r.mem.3)];
    push_all(v, &m);
    let ra = r.reg[0].1;
    let jz: [u32; 2] = if ra == 0 {
        [1, 0]
    } else {
        [0, bb_inv(ra)]
    };
    assert(jz@ =~= jz_cells(ra));
    push_all(v, &jz);
    push_sel(v, r.instr.op);
    assert(v@ =~= old(v)@ + record_cells(*r));
}

/// The main cells of padding row `clk`.
fn push_padding(v: &mut Vec<u32>, last: &StepRecord, clk: u32)
    ensures
        final(v)@ == old(v)@ + padding_cells(*last, clk),
{
    let head: [u32; 10] = [
        reduce(clk), reduce(last.pc), reduce(last.pc), 11, 0, 0, 0, 1, reduce(last.i_in_post),
        reduce(last.i_out_post),
    ];
    push_all(v, &head);
    push_zeros(v, 16);
    let jz: [u32; 2] = [1, 0];
    push_all(v, &jz);
    push_sel(v, Opcode::Halt);
    assert(v@ =~= old(v)@ + padding_cells(*last, clk));
}

/// The adjacency witness of canonical `prev` then `next`.
fn push_same_inv(v: &mut Vec<u32>, prev: u32, next: u32)
    requires
        prev < P,
        next < P,
    ensures
        final(v)@ == old(v)@ + same_inv(prev, next),
{
    let w: [u32; 2] = if prev == next {
        [1, 0]
    } else {
        [0, bb_inv(bb_sub(next, prev))]
    };
    assert(w@ =~= same_inv(prev, next));
    push_all(v, &w);
}

/// The ordering bits of canonical `(prev_idx, prev_clk)` then `(next_idx,
/// next_clk)`.
fn push_order_bits(v: &mut Vec<u32>, prev_idx: u32, prev_clk: u32, next_idx: u32, next_clk: u32, in_trace: bool)
    requires
        prev_idx < P,
        prev_clk < P,
        next_idx < P,
        next_clk < P,
    ensures
        final(v)@ == old(v)@ + order_bits(prev_idx, prev_clk, next_idx, next_clk, in_trace),
{
    if !in_trace {
        push_zeros(v, 16);
        return;
    }
    let d: i64 = if prev_idx == next_idx {
        next_clk as i64 - prev_clk as i64
    } else {
        next_idx as i64 - prev_idx as i64
    };
    let w: u64 = d as u64;
    let ghost bits = order_bits(prev_idx, prev_clk, next_idx, next_clk, in_trace);
    assert(bits == Seq::new(16, |k: int| ((w >> (k as u64)) & 1) as u32));
    let mut k: u64 = 0;
    while k < 16
        invariant
            k <= 16,
            bits == Seq::new(16, |j: int| ((w >> (j as u64)) & 1) as u32),
            v@ == old(v)@ + bits.take(k as int),
        decreases 16 - k,
    {
        v.push(((w >> k) & 1) as u32);
        k = k + 1;
        assert(v@ =~= old(v)@ + bits.take(k as int));
    }
    assert(bits.take(16) =~= bits);
}


/// The layout's sorted tables are those given, with `n` rows.
pub open spec fn layout_tables(
    l: VmLayout,
    sr: Seq<(Key3, Entry4)>,
    sm: Seq<(Key3, Access5)>,
    n: usize,
) -> bool {
    &&& l.sorted_reg == sr
    &&& l.sorted_mem == sm
    &&& l.n == n
    &&& sr.len() == 3 * n
    &&& sm.len() == n
}

/// The cells of a sorted register slot against the next slot's index.
fn push_sreg(v: &mut Vec<u32>, e: Entry4, next_idx: u32)
    ensures
        final(v)@ == old(v)@ + sreg_cells(e, next_idx),
{
    let c: [u32; 4] = [reduce(e.0), reduce(e.1), reduce(e.2), reduce(e.3)];
    push_all(v, &c);
    push_same_inv(v, reduce(e.0), reduce(next_idx));
    assert(v@ =~= old(v)@ + sreg_cells(e, next_idx));
}

/// The sorted-table cells of row `i`.
fn push_sorted(
    v: &mut Vec<u32>,
    sr: &Vec<(Key3, Entry4)>,
    sm: &Vec<(Key3, Access5)>,
    n: usize,
    i: usize,
    Ghost(l): Ghost<VmLayout>,
)
    requires
        layout_tables(l, sr@, sm@, n),
        i < n,
    ensures
        final(v)@ == old(v)@ + sorted_cells(l, i as int),
{
    let sl = sr.len();
    assert(3 * i + 2 < sl);
    let a = sr[3 * i].1;
    let b = sr[3 * i + 1].1;
    let c = sr[3 * i + 2].1;
    let na = if i + 1 < n {
        sr[3 * (i + 1)].1
    } else {
        sr[0].1
    };
    push_sreg(v, a, b.0);
    push_sreg(v, b, c.0);
    push_sreg(v, c, na.0);
    let m = sm[i].1;
    let nm = if i + 1 < n {
        sm[i + 1].1
    } else {
        sm[0].1
    };
    let mc: [u32; 5] = [reduce(m.0), reduce(m.1), reduce(m.2), reduce(m.3), reduce(m.4)];
    push_all(v, &mc);
    push_same_inv(v, reduce(m.0), reduce(nm.0));
    assert(v@ =~= old(v)@ + sorted_cells(l, i as int));
}

/// The ordering bits of row `i`.
fn push_bits(
    v: &mut Vec<u32>,
    sr: &Vec<(Key3, Entry4)>,
    sm: &Vec<(Key3, Access5)>,
    n: usize,
    i: usize,
    Ghost(l): Ghost<VmLayout>,
)
    requires
        layout_tables(l, sr@, sm@, n),
        i < n,
    ensures
        final(v)@ == old(v)@ + bit_cells(l, i as int),
{
    let sl = sr.len();
    assert(3 * i + 2 < sl);
    let a = sr[3 * i].1;
    let b = sr[3 * i + 1].1;
    let c = sr[3 * i + 2].1;
    let na = if i + 1 < n {
        sr[3 * (i + 1)].1
    } else {
        sr[0].1
    };
    let m = sm[i].1;
    let nm = if i + 1 < n {
        sm[i + 1].1
    } else {
        sm[0].1
    };
    let in_trace = i + 1 < n;
    push_order_bits(v, reduce(a.0), reduce(a.2), reduce(b.0), reduce(b.2), in_trace);
    push_order_bits(v, reduce(b.0), reduce(b.2), reduce(c.0), reduce(c.2), in_trace);
    push_order_bits(v, reduce(c.0), reduce(c.2), reduce(na.0), reduce(na.2), in_trace);
    push_order_bits(v, reduce(m.0), reduce(m.2), reduce(nm.0), reduce(nm.2), in_trace);
    assert(v@ =~= old(v)@ + bit_cells(l, i as int));
}

/// The program, public-input and public-output cells of row `i`; `mults[i]`
/// is the fetch multiplicity of ROM address `i`.
fn push_io(
    v: &mut Vec<u32>,
    program: &[Instruction],
    inputs: &[u32],
    outputs: &[u32],
    mults: &Vec<u32>,
    i: usize,
    Ghost(l): Ghost<VmLayout>,
)
    requires
        l.program == program@,
        l.inputs == inputs@,
        l.outputs == outputs@,
        i < l.n <= u32::MAX,
        mults@.len() == if program@.len() < l.n { program@.len() } else { l.n },
        forall|k: int| 0 <= k < mults@.len() ==> #[trigger] mults@[k] == multiplicity(l.records, l.n, k as u32) as u32,
    ensures
        final(v)@ == old(v)@ + io_cells(l, i as int),
{
    if i < program.len() {
        let ins = program[i];
        let p: [u32; 6] = [
            reduce(i as u32), reduce(ins.op.code()), reduce(ins.a), reduce(ins.b), reduce(ins.c),
            reduce(mults[i]),
        ];
        push_all(v, &p);
    } else {
        push_zeros(v, 6);
    }
    if i < inputs.len() {
        let p: [u32; 3] = [reduce(i as u32), reduce(inputs[i]), 1];
        push_all(v, &p);
    } else {
        push_zeros(v, 3);
    }
    if i < outputs.len() {
        let p: [u32; 3] = [reduce(i as u32), reduce(outputs[i]), 1];
        push_all(v, &p);
    } else {
        push_zeros(v, 3);
    }
    assert(v@ =~= old(v)@ + io_cells(l, i as int));
}


/// `l` lays out the trace of `records`: padded to `n` rows (the smallest
/// power of two at least the step count and at least
/// `MIN_VM_TRACE_LEN`), with the register and memory accesses of steps and
/// padding rows stably sorted.
pub open spec fn layout_of(
    l: VmLayout,
    records: Seq<StepRecord>,
    program: Seq<Instruction>,
    inputs: Seq<u32>,
    outputs: Seq<u32>,
) -> bool {
    &&& l.records == records
    &&& l.program == program
    &&& l.inputs == inputs
    &&& l.outputs == outputs
    &&& padded_to(records.len(), MIN_VM_TRACE_LEN as nat, l.n)
    &&& stably_sorted(l.sorted_reg, reg_accesses(records) + pad_reg_accesses(records.len(), l.n))
    &&& stably_sorted(l.sorted_mem, mem_accesses(records) + pad_mem_accesses(records.len(), l.n))
}

/// The program and public-I/O tables of the trace: on row `i`, while `i`
/// indexes the program, the ROM cells hold `(i, opcode, a, b, c)` of
/// instruction `i`; while `i` indexes the public inputs, the input cells hold
/// `(i, inputs[i], 1)` (reduced into the field), so every input is offered
/// once to the lookup that the `READ` rows consume, and past the last input
/// they are zero; the output cells likewise hold `(i, outputs[i], 1)`, then
/// zeros.
#[verifier::spinoff_prover]
pub proof fn lemma_io_tables(l: VmLayout, i: int)
    requires
        0 <= i <= u32::MAX,
        l.records.len() <= l.n <= u32::MAX,
    ensures
        ({
            let row = vm_cells(l, i);
            let p = P as int;
            let fetched = l.records.filter(|r: StepRecord| r.pc == i as u32).len() + if l.records.last().pc == i as u32 {
                l.n - l.records.len()
            } else {
                0
            };
            &&& i < l.program.len() ==> {
                &&& row[col::PROG as int] as int == i % p
                &&& row[col::PROG as int + 5] as int == fetched % p
                &&& row[col::PROG as int + 1] as int == opcode_code(l.program[i].op) as int % p
                &&& row[col::PROG as int + 2] as int == l.program[i].a as int % p
                &&& row[col::PROG as int + 3] as int == l.program[i].b as int % p
                &&& row[col::PROG as int + 4] as int == l.program[i].c as int % p
            }
            &&& i < l.inputs.len() ==> {
                &&& row[col::PUB_IN as int] as int == i % p
                &&& row[col::PUB_IN as int + 1] as int == l.inputs[i] as int % p
                &&& row[col::PUB_IN as int + 2] == 1
            }
            &&& i >= l.inputs.len() ==> {
                &&& row[col::PUB_IN as int] == 0
                &&& row[col::PUB_IN as int + 1] == 0
                &&& row[col::PUB_IN as int + 2] == 0
            }
            &&& i < l.outputs.len() ==> {
                &&& row[col::PUB_OUT as int] as int == i % p
                &&& row[col::PUB_OUT as int + 1] as int == l.outputs[i] as int % p
                &&& row[col::PUB_OUT as int + 2] == 1
            }
            &&& i >= l.outputs.len() ==> {
                &&& row[col::PUB_OUT as int] == 0
                &&& row[col::PUB_OUT as int + 1] == 0
                &&& row[col::PUB_OUT as int + 2] == 0
            }
        }),
{
    lemma_io_part(l, i);
    lemma_fetch_count_filter(l.records, i as u32);
    lemma_fetch_count_le(l.records, i as u32);
    let io = io_cells(l, i);
    assert(io.len() == 12);
    let row = vm_cells(l, i);
    assert(row[col::PROG as int] == io[0]);
    assert(row[col::PROG as int + 1] == io[1]);
    assert(row[col::PROG as int + 2] == io[2]);
    assert(row[col::PROG as int + 3] == io[3]);
    assert(row[col::PROG as int + 4] == io[4]);
    assert(row[col::PROG as int + 5] == io[5]);
    assert(row[col::PUB_IN as int] == io[6]);
    assert(row[col::PUB_IN as int + 1] == io[7]);
    assert(row[col::PUB_IN as int + 2] == io[8]);
    assert(row[col::PUB_OUT as int] == io[9]);
    assert(row[col::PUB_OUT as int + 1] == io[10]);
    assert(row[col::PUB_OUT as int + 2] == io[11]);
}

/// The main cells of a step's row: row `i < records.len()` holds record
/// `i`'s clock, PC, next PC, opcode number and operands, halt flag and tape
/// cursors; its three register slots `(idx, val, is_write)` with, for each,
/// the inverse of the index (0 for `r0`); its memory tuple; the JZ helpers
/// (is-zero flag of slot A's value and that value's inverse); and the
/// one-hot selector of its opcode. Every value is reduced into the field.
#[verifier::spinoff_prover]
pub proof fn lemma_step_row_cells(l: VmLayout, i: int)
    requires
        0 <= i < l.records.len(),
    ensures
        ({
            let row = vm_cells(l, i);
            let r = l.records[i];
            let p = P as int;
            &&& row[col::CLK as int] as int == r.clk as int % p
            &&& row[col::PC as int] as int == r.pc as int % p
            &&& row[col::NEXT_PC as int] as int == r.next_pc as int % p
            &&& row[col::OPCODE as int] as int == opcode_code(r.instr.op) as int % p
            &&& row[col::OP_A as int] as int == r.instr.a as int % p
            &&& row[col::OP_B as int] as int == r.instr.b as int % p
            &&& row[col::OP_C as int] as int == r.instr.c as int % p
            &&& row[col::HALT as int] as int == r.halt_post as int % p
            &&& row[col::I_IN as int] as int == r.i_in_pre as int % p
            &&& row[col::I_OUT as int] as int == r.i_out_pre as int % p
            &&& forall|k: int|
                0 <= k < 3 ==> {
                    &&& row[col::REG_A_IDX + 4 * k] as int == (#[trigger] r.reg[k]).0 as int % p
                    &&& row[col::REG_A_VAL + 4 * k] as int == r.reg[k].1 as int % p
                    &&& row[col::REG_A_WR + 4 * k] as int == r.reg[k].2 as int % p
                    &&& row[col::REG_A_INV + 4 * k] == if r.reg[k].0 == 0 { 0 } else { inv(r.reg[k].0 as int) as u32 }
                }
            &&& row[col::MEM_ADDR as int] as int == r.mem.0 as int % p
            &&& row[col::MEM_VAL as int] as int == r.mem.1 as int % p
            &&& row[col::MEM_WR as int] as int == r.mem.2 as int % p
            &&& row[col::MEM_USED as int] as int == r.mem.3 as int % p
            &&& row[col::JZ_IS_ZERO as int] == if r.reg[0].1 == 0 { 1u32 } else { 0u32 }
            &&& row[col::JZ_VAL_INV as int] == if r.reg[0].1 == 0 { 0u32 } else { inv(r.reg[0].1 as int) as u32 }
            &&& forall|k: int|
                0 <= k < 11 ==> #[trigger] row[col::SEL_START + k] == if k == opcode_code(r.instr.op) - 1 {
                    1u32
                } else {
                    0u32
                }
        }),
{
    let rc = record_cells(l.records[i]);
    assert(rc.len() == 39);
    lemma_sorted_cells_len(l, i);
    lemma_first_part(rc, sorted_cells(l, i), io_cells(l, i), bit_cells(l, i));
    let r = l.records[i];
    assert forall|k: int| 0 <= k < 11 implies #[trigger] rc[col::SEL_START + k] == sel_cells(r.instr.op)[k] by {}
}

proof fn lemma_first_part(a: Seq<u32>, b: Seq<u32>, c: Seq<u32>, d: Seq<u32>)
    ensures
        forall|k: int| 0 <= k < a.len() ==> (a + b + c + d)[k] == #[trigger] a[k],
{
    assert forall|k: int| 0 <= k < a.len() implies (a + b + c + d)[k] == #[trigger] a[k] by {
        assert((a + b + c)[k] == a[k]);
    }
}

/// The fetch count of `addr` is the number of records at PC `addr`.
proof fn lemma_fetch_count_filter(records: Seq<StepRecord>, addr: u32)
    ensures
        fetch_count(records, addr) == records.filter(|r: StepRecord| r.pc == addr).len(),
    decreases records.len(),
{
    if records.len() > 0 {
        lemma_fetch_count_filter(records.drop_last(), addr);
        assert(records =~= records.drop_last().push(records.last()));
        records.drop_last().lemma_filter_len_push(|r: StepRecord| r.pc == addr, records.last());
    } else {
        assert(records.filter(|r: StepRecord| r.pc == addr) =~= Seq::<StepRecord>::empty()) by {
            records.lemma_filter_len(|r: StepRecord| r.pc == addr);
        }
    }
}

proof fn lemma_sorted_cells_len(l: VmLayout, i: int)
    ensures
        sorted_cells(l, i).len() == 25,
{
}

proof fn lemma_io_part(l: VmLayout, i: int)
    ensures
        forall|k: int| 0 <= k < 12 ==> vm_cells(l, i)[64 + k] == #[trigger] io_cells(l, i)[k],
{
    let main = if i < l.records.len() {
        record_cells(l.records[i])
    } else {
        padding_cells(l.records.last(), i as u32)
    };
    lemma_sorted_cells_len(l, i);
    assert(main.len() == 39);
    assert(io_cells(l, i).len() == 12);
    lemma_third_part(main, sorted_cells(l, i), io_cells(l, i), bit_cells(l, i));
}

proof fn lemma_third_part(a: Seq<u32>, b: Seq<u32>, c: Seq<u32>, d: Seq<u32>)
    ensures
        forall|k: int| 0 <= k < c.len() ==> (a + b + c + d)[a.len() + b.len() + k] == #[trigger] c[k],
{
    assert forall|k: int| 0 <= k < c.len() implies (a + b + c + d)[a.len() + b.len() + k] == #[trigger] c[k] by {
        assert((a + b + c)[a.len() + b.len() + k] == c[k]);
    }
}

/// The halt flag of the trace built from a successful run is set once and
/// stays set: it is 0 on every row before the last executed step and 1 on
/// that row and on every padding row after it; each padding row replays
/// `HALT` at the halt PC.
#[verifier::spinoff_prover]
pub proof fn lemma_halt_flag_column(
    l: VmLayout,
    program: Seq<Instruction>,
    inputs: Seq<u32>,
    outputs: Seq<u32>,
    i: int,
)
    requires
        layout_of(l, l.records, program, inputs, outputs),
        trace_ok(program, inputs, l.records, outputs),
        0 <= i < l.n,
    ensures
        vm_cells(l, i)[col::HALT as int] == (if i < l.records.len() - 1 {
            0u32
        } else {
            1u32
        }),
        i >= l.records.len() ==> vm_cells(l, i)[col::OPCODE as int] == opcode_code(Opcode::Halt),
        i >= l.records.len() ==> vm_cells(l, i)[col::PC as int] == fe(l.records.last().pc),
        i >= l.records.len() ==> vm_cells(l, i)[col::NEXT_PC as int] == fe(l.records.last().pc),
{
    let main = if i < l.records.len() {
        record_cells(l.records[i])
    } else {
        padding_cells(l.records.last(), i as u32)
    };
    assert(main.len() > 10);
    assert(vm_cells(l, i)[col::HALT as int] == main[7]);
    assert(vm_cells(l, i)[col::OPCODE as int] == main[3]);
    assert(vm_cells(l, i)[col::PC as int] == main[1]);
    assert(vm_cells(l, i)[col::NEXT_PC as int] == main[2]);
    if i < l.records.len() - 1 {
        assert(l.records[i].halt_post == 0);
    } else if i == l.records.len() - 1 {
        assert(l.records[i] == l.records.last());
    }
}

proof fn lemma_reg_accesses_len(records: Seq<StepRecord>)
    ensures
        reg_accesses(records).len() == 3 * records.len(),
    decreases records.len(),
{
    if records.len() > 0 {
        lemma_reg_accesses_len(records.drop_last());
    }
}

proof fn lemma_pad_reg_accesses_len(from: nat, to: nat)
    ensures
        pad_reg_accesses(from, to).len() == if to <= from { 0 } else { 3 * (to - from) },
    decreases to,
{
    if to > from {
        lemma_pad_reg_accesses_len(from, (to - 1) as nat);
    }
}

proof fn lemma_fetch_count_le(records: Seq<StepRecord>, addr: u32)
    ensures
        fetch_count(records, addr) <= records.len(),
    decreases records.len(),
{
    if records.len() > 0 {
        lemma_fetch_count_le(records.drop_last(), addr);
    }
}

proof fn lemma_vm_cells_len(l: VmLayout, i: int)
    requires
        0 <= i < l.n,
        l.sorted_reg.len() == 3 * l.n,
        l.sorted_mem.len() == l.n,
        l.records.len() >= 1,
    ensures
        vm_cells(l, i).len() == NUM_TRACE_COLS,
{
    assert(sorted_cells(l, i).len() == 25);
    assert(io_cells(l, i).len() == 12);
    assert(bit_cells(l, i).len() == 64);
    if i < l.records.len() {
        assert(record_cells(l.records[i]).len() == 39);
    } else {
        assert(padding_cells(l.records.last(), i as u32).len() == 39);
    }
}

/// The columns of a row-major table of rows of `width` cells.
pub(crate) fn transpose(cells: &Vec<Vec<u32>>, width: usize) -> (cols: Vec<Vec<u32>>)
    requires
        forall|k: int| 0 <= k < cells@.len() ==> (#[trigger] cells@[k])@.len() == width,
    ensures
        cols@.len() == width,
        forall|c: int| 0 <= c < width ==> (#[trigger] cols@[c])@.len() == cells@.len(),
        forall|c: int, i: int| 0 <= c < width && 0 <= i < cells@.len() ==> #[trigger] cols@[c]@[i] == cells@[i]@[c],
{
    let n = cells.len();
    let mut cols: Vec<Vec<u32>> = Vec::new();
    let mut c: usize = 0;
    while c < width
        invariant
            n == cells@.len(),
            forall|k: int| 0 <= k < n ==> (#[trigger] cells@[k])@.len() == width,
            c <= width,
            cols@.len() == c,
            forall|d: int| 0 <= d < c ==> (#[trigger] cols@[d])@.len() == n,
            forall|d: int, k: int| 0 <= d < c && 0 <= k < n ==> #[trigger] cols@[d]@[k] == cells@[k]@[d],
        decreases width - c,
    {
        let mut col: Vec<u32> = Vec::new();
        let mut k: usize = 0;
        while k < n
            invariant
                n == cells@.len(),
                forall|j: int| 0 <= j < n ==> (#[trigger] cells@[j])@.len() == width,
                c < width,
                k <= n,
                col@.len() == k,
                forall|j: int| 0 <= j < k ==> #[trigger] col@[j] == cells@[j]@[c as int],
            decreases n - k,
        {
            col.push(cells[k][c]);
            k = k + 1;
        }
        cols.push(col);
        c = c + 1;
    }
    cols
}

/// Build the VM's main trace columns from the execution records: the steps,
/// then HALT padding up to a power of two of at least `MIN_VM_TRACE_LEN`
/// rows; returns the columns and the number of real steps.
pub fn build_columns(
    records: &[StepRecord],
    program: &[Instruction],
    public_inputs: &[u32],
    public_outputs: &[u32],
) -> (r: (Vec<Vec<u32>>, usize))
    requires
        1 <= records@.len() <= 0x8000_0000,
        records@.last().instr.op == Opcode::Halt,
    ensures
        r.1 == records@.len(),
        exists|l: VmLayout|
            {
                &&& layout_of(l, records@, program@, public_inputs@, public_outputs@)
                &&& r.0@.len() == NUM_TRACE_COLS
                &&& forall|c: int| 0 <= c < NUM_TRACE_COLS ==> (#[trigger] r.0@[c])@.len() == l.n
                &&& forall|c: int, i: int|
                    0 <= c < NUM_TRACE_COLS && 0 <= i < l.n ==> #[trigger] r.0@[c]@[i] == vm_cells(l, i)[c]
            },
{
    broadcast use vstd::std_specs::btree::group_btree_axioms;

    let n_real = records.len();
    proof {
        vstd::arithmetic::power2::lemma2_to64();
        assert(MIN_VM_TRACE_LEN as nat == vstd::arithmetic::power2::pow2(8));
    }
    let n = pow2_at_least(n_real, MIN_VM_TRACE_LEN);
    let last = records[n_real - 1];

    // Sorted register-access table.
    let mut accs: Vec<(Key3, Entry4)> = Vec::new();
    let mut i: usize = 0;
    while i < n_real
        invariant
            n_real == records@.len(),
            i <= n_real,
            accs@ == reg_accesses(records@.take(i as int)),
        decreases n_real - i,
    {
        let r = records[i];
        accs.push(((r.reg[0].0, r.clk, r.reg[0].2), (r.reg[0].0, r.reg[0].1, r.clk, r.reg[0].2)));
        accs.push(((r.reg[1].0, r.clk, r.reg[1].2), (r.reg[1].0, r.reg[1].1, r.clk, r.reg[1].2)));
        accs.push(((r.reg[2].0, r.clk, r.reg[2].2), (r.reg[2].0, r.reg[2].1, r.clk, r.reg[2].2)));
        proof {
            assert(records@.take(i + 1).drop_last() =~= records@.take(i as int));
            assert(accs@ =~= reg_accesses(records@.take(i + 1)));
        }
        i = i + 1;
    }
    assert(records@.take(n_real as int) =~= records@);
    let ghost real_accs = accs@;
    let mut j: usize = n_real;
    while j < n
        invariant
            n_real == records@.len(),
            n_real <= j <= n,
            n <= u32::MAX,
            real_accs == reg_accesses(records@),
            accs@ == real_accs + pad_reg_accesses(n_real as nat, j as nat),
        decreases n - j,
    {
        let c = j as u32;
        accs.push(((0, c, 0), (0, 0, c, 0)));
        accs.push(((0, c, 0), (0, 0, c, 0)));
        accs.push(((0, c, 0), (0, 0, c, 0)));
        j = j + 1;
        assert(accs@ =~= real_accs + pad_reg_accesses(n_real as nat, j as nat));
    }
    let ghost reg_keyed = accs@;
    stable_sort_by_key(&mut accs);
    proof {
        lemma_reg_accesses_len(records@);
        lemma_pad_reg_accesses_len(n_real as nat, n as nat);
    }

    // Sorted memory table.
    let mut maccs: Vec<(Key3, Access5)> = Vec::new();
    let mut i: usize = 0;
    while i < n_real
        invariant
            n_real == records@.len(),
            i <= n_real,
            maccs@ == mem_accesses(records@.take(i as int)),
        decreases n_real - i,
    {
        let r = records[i];
        maccs.push(((r.mem.3, r.mem.0, r.clk), (r.mem.0, r.mem.1, r.clk, r.mem.2, r.mem.3)));
        i = i + 1;
        assert(maccs@ =~= mem_accesses(records@.take(i as int)));
    }
    let ghost real_maccs = maccs@;
    let mut j: usize = n_real;
    while j < n
        invariant
            n_real == records@.len(),
            n_real <= j <= n,
            n <= u32::MAX,
            real_maccs == mem_accesses(records@),
            maccs@ == real_maccs + pad_mem_accesses(n_real as nat, j as nat),
        decreases n - j,
    {
        let c = j as u32;
        maccs.push(((0, 0, c), (0, 0, c, 0, 0)));
        j = j + 1;
        assert(maccs@ =~= real_maccs + pad_mem_accesses(n_real as nat, j as nat));
    }
    let ghost mem_keyed = maccs@;
    stable_sort_by_key(&mut maccs);

    // Fetch multiplicities of the ROM addresses.
    proof {
        lemma_u32_key_laws();
    }
    let mut counts: std::collections::BTreeMap<u32, u32> = std::collections::BTreeMap::new();
    let mut i: usize = 0;
    while i < n_real
        invariant
            n_real == records@.len() <= 0x8000_0000,
            i <= n_real,
            u32_keys_ordered(),
            forall|a: u32| #[trigger] counts@.contains_key(a) <==> fetch_count(records@.take(i as int), a) > 0,
            forall|a: u32| #[trigger] counts@.contains_key(a) ==> counts@[a] == fetch_count(records@.take(i as int), a),
        decreases n_real - i,
    {
        let pc = records[i].pc;
        proof {
            assert(records@.take(i + 1).drop_last() =~= records@.take(i as int));
            lemma_fetch_count_le(records@.take(i as int), pc);
        }
        let cur: u32 = match counts.get(&pc) {
            Some(c) => *c,
            None => 0,
        };
        counts.insert(pc, cur + 1);
        i = i + 1;
    }
    let m = if program.len() < n { program.len() } else { n };
    let mut mults: Vec<u32> = Vec::new();
    let mut k: usize = 0;
    while k < m
        invariant
            n_real == records@.len() <= 0x8000_0000,
            n_real <= n <= u32::MAX,
            last == records@.last(),
            m == if program@.len() < n { program@.len() } else { n as nat },
            k <= m,
            u32_keys_ordered(),
            forall|a: u32| #[trigger] counts@.contains_key(a) <==> fetch_count(records@, a) > 0,
            forall|a: u32| #[trigger] counts@.contains_key(a) ==> counts@[a] == fetch_count(records@, a),
            mults@.len() == k,
            forall|q: int| 0 <= q < k ==> #[trigger] mults@[q] == multiplicity(records@, n as nat, q as u32) as u32,
        decreases m - k,
    {
        let addr = k as u32;
        let c: u32 = match counts.get(&addr) {
            Some(c) => *c,
            None => 0,
        };
        proof {
            lemma_fetch_count_le(records@, addr);
            if !counts@.contains_key(addr) {
                assert(fetch_count(records@, addr) == 0);
            }
        }
        let total: u32 = if addr == last.pc {
            c + (n - n_real) as u32
        } else {
            c
        };
        mults.push(total);
        k = k + 1;
    }

    // Row-major cells, then columns.
    let ghost l = VmLayout {
        records: records@,
        program: program@,
        inputs: public_inputs@,
        outputs: public_outputs@,
        n: n as nat,
        sorted_reg: accs@,
        sorted_mem: maccs@,
    };
    let mut cells: Vec<Vec<u32>> = Vec::new();
    let mut i: usize = 0;
    while i < n
        invariant
            n_real == records@.len() >= 1,
            n_real <= n <= u32::MAX,
            last == records@.last(),
            layout_tables(l, accs@, maccs@, n),
            l.records == records@,
            l.program == program@,
            l.inputs == public_inputs@,
            l.outputs == public_outputs@,
            mults@.len() == if program@.len() < l.n { program@.len() } else { l.n },
            forall|q: int| 0 <= q < mults@.len() ==> #[trigger] mults@[q] == multiplicity(l.records, l.n, q as u32) as u32,
            i <= n,
            cells@.len() == i,
            forall|q: int| 0 <= q < i ==> (#[trigger] cells@[q])@ == vm_cells(l, q),
        decreases n - i,
    {
        let mut v: Vec<u32> = Vec::new();
        if i < n_real {
            push_record(&mut v, &records[i]);
        } else {
            push_padding(&mut v, &last, i as u32);
        }
        push_sorted(&mut v, &accs, &maccs, n, i, Ghost(l));
        push_io(&mut v, program, public_inputs, public_outputs, &mults, i, Ghost(l));
        push_bits(&mut v, &accs, &maccs, n, i, Ghost(l));
        assert(v@ =~= vm_cells(l, i as int));
        cells.push(v);
        i = i + 1;
    }
    proof {
        assert forall|q: int| 0 <= q < cells@.len() implies (#[trigger] cells@[q])@.len() == NUM_TRACE_COLS by {
            lemma_vm_cells_len(l, q);
        }
    }
    let cols = transpose(&cells, NUM_TRACE_COLS);
    assert(layout_of(l, records@, program@, public_inputs@, public_outputs@));
    (cols, n_real)
}

} // verus!
