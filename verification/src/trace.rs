//! Execution trace of the RISC-V VM: one row per CPU step, plus the sorted
//! auxiliary tables the constraint system reads.

use vstd::prelude::*;

use crate::cpu::{OpcodeClass, NUM_OPCODE_CLASSES};
use vstd::arithmetic::power2::pow2;

pub mod col;

verus! {

/// A single row of the execution trace.
#[derive(Debug, Clone, Copy)]
pub struct TraceRow {
    pub clk: u32,
    pub pc: u32,
    pub instruction: u32,
    pub rs1_idx: u32,
    pub rs2_idx: u32,
    pub rd_idx: u32,
    pub rs1_val: u32,
    pub rs2_val: u32,
    pub rd_val: u32,
    pub imm: u32,
    pub next_pc: u32,
    pub mem_addr: u32,
    pub mem_val: u32,
    pub is_load: bool,
    pub is_store: bool,
    pub branch_taken: bool,
    pub alu_carry: u32,
    pub pc_carry: u32,
    pub bits_a: [u32; 32],
    pub bits_b: [u32; 32],
    pub shift_stages: [u32; 5],
    pub mem_addr_carry: u32,
    pub jalr_bit0: u32,
    pub branch_diff_inv: u32,
    pub shift_carry: [u32; 5],
    pub instr_bits: [u32; 32],
    pub rs1_idx_inv: u32,
    pub rs2_idx_inv: u32,
    pub is_halted: bool,
    pub opcode_class: OpcodeClass,
}

/// The encoding of `ADDI x0, x0, 0`, the canonical NOP.
pub const NOP_WORD: u32 = 0x00000013;

/// The 32 bits of `v`, least significant first.
pub open spec fn bits_of(v: u32) -> Seq<u32> {
    Seq::new(32, |i: int| (v >> (i as u32)) & 1)
}

/// Decompose a word into its 32 bits (LSB first).
pub fn decompose_bits(val: u32) -> (r: [u32; 32])
    ensures
        r@ == bits_of(val),
{
    let mut bits: [u32; 32] = [0; 32];
    let mut i: u32 = 0;
    while i < 32
        invariant
            i <= 32,
            forall|j: int| 0 <= j < i ==> bits@[j] == (val >> (j as u32)) & 1,
        decreases 32 - i,
    {
        bits[i as usize] = (val >> i) & 1;
        i = i + 1;
    }
    assert(bits@ =~= bits_of(val));
    bits
}

/// Decompose the NOP instruction into bits.
pub fn decompose_nop_bits() -> (r: [u32; 32])
    ensures
        r@ == bits_of(NOP_WORD),
{
    decompose_bits(NOP_WORD)
}

/// `n` zeros.
pub open spec fn zeros(n: nat) -> Seq<u32> {
    Seq::new(n, |i: int| 0u32)
}

/// `r` is a NOP row at `clk` that moves from `pc` to `next_pc` and touches
/// nothing (its halted flag aside).
pub open spec fn is_nop_row(r: TraceRow, clk: u32, pc: u32, next_pc: u32) -> bool {
    &&& r.clk == clk
    &&& r.pc == pc
    &&& r.next_pc == next_pc
    &&& r.instruction == NOP_WORD
    &&& r.rs1_idx == 0 && r.rs2_idx == 0 && r.rd_idx == 0
    &&& r.rs1_val == 0 && r.rs2_val == 0 && r.rd_val == 0
    &&& r.imm == 0 && r.mem_addr == 0 && r.mem_val == 0
    &&& !r.is_load && !r.is_store && !r.branch_taken
    &&& r.alu_carry == 0 && r.pc_carry == 0
    &&& r.bits_a@ == zeros(32) && r.bits_b@ == zeros(32)
    &&& r.shift_stages@ == zeros(5) && r.shift_carry@ == zeros(5)
    &&& r.mem_addr_carry == 0 && r.jalr_bit0 == 0 && r.branch_diff_inv == 0
    &&& r.instr_bits@ == bits_of(NOP_WORD)
    &&& r.rs1_idx_inv == 0 && r.rs2_idx_inv == 0
    &&& r.opcode_class == OpcodeClass::Addi
}

impl TraceRow {
    /// A NOP row at `clk` that moves from `pc` to `next_pc` and touches nothing.
    pub fn nop(clk: u32, pc: u32, next_pc: u32) -> (r: TraceRow)
        ensures
            is_nop_row(r, clk, pc, next_pc),
            !r.is_halted,
    {
        let r = TraceRow {
            clk,
            pc,
            next_pc,
            instruction: NOP_WORD,
            rs1_idx: 0,
            rs2_idx: 0,
            rd_idx: 0,
            rs1_val: 0,
            rs2_val: 0,
            rd_val: 0,
            imm: 0,
            mem_addr: 0,
            mem_val: 0,
            is_load: false,
            is_store: false,
            branch_taken: false,
            alu_carry: 0,
            pc_carry: 0,
            bits_a: [0; 32],
            bits_b: [0; 32],
            shift_stages: [0; 5],
            mem_addr_carry: 0,
            jalr_bit0: 0,
            branch_diff_inv: 0,
            shift_carry: [0; 5],
            instr_bits: decompose_nop_bits(),
            rs1_idx_inv: 0,
            rs2_idx_inv: 0,
            is_halted: false,
            opcode_class: OpcodeClass::Addi,
        };
        assert(r.bits_a@ =~= zeros(32));
        assert(r.bits_b@ =~= zeros(32));
        assert(r.shift_stages@ =~= zeros(5));
        assert(r.shift_carry@ =~= zeros(5));
        r
    }
}


/// Total main trace columns.
pub const NUM_TRACE_COLS: usize = col::NUM_FIXED + NUM_OPCODE_CLASSES;

/// Number of accumulator columns (separate commitment phase): 4 parallel
/// runs of 3 arguments (memory, registers, fetch), 1 LogUp range accumulator
/// with 4 helpers, and 2 ordering helpers.
pub const NUM_ACCUM_COLS: usize = 19;

/// The PC of padding rows: outside any program, below the field modulus.
pub const PADDING_PC: u32 = 0x7000_0000;

/// The smallest trace length after padding.
pub const MIN_TRACE_LEN: usize = 0x1_0000;

/// A register access tuple: (idx, val, clk, is_write).
#[derive(Clone, Copy, Debug)]
pub struct RegAccess {
    pub idx: u32,
    pub val: u32,
    pub clk: u32,
    pub is_write: u32,
}

/// Full execution trace with sorted auxiliary tables.
pub struct ExecutionTrace {
    pub rows: Vec<TraceRow>,
    /// Sorted memory access table (one entry per row, sorted by addr then clk):
    /// (addr, val, clk, is_write).
    pub sorted_mem: Vec<[u32; 4]>,
    /// Sorted memory auxiliaries: (same_addr, diff_inv) per row.
    pub sorted_mem_aux: Vec<[u32; 2]>,
    /// Sorted register access table (3 entries per row, sorted by idx then clk).
    pub sorted_reg: Vec<[[u32; 4]; 3]>,
    /// Sorted register auxiliaries: (same_idx, diff_inv) per slot, 3 slots per row.
    pub sorted_reg_aux: Vec<[[u32; 2]; 3]>,
    /// Program ROM table: (addr, instr, multiplicity) per row.
    pub prog_table: Vec<[u32; 3]>,
    /// Range check limb decompositions: 16 value limbs and 8 ordering limbs per row.
    pub limbs: Vec<[u32; 24]>,
    /// Range table multiplicities per row.
    pub range_mult: Vec<u32>,
    /// Ordering diff limbs: [lo, hi] for memory.
    pub ordering_mem_limbs: Vec<[u32; 2]>,
    /// Ordering diff limbs: [[lo, hi]; 3] for registers.
    pub ordering_reg_limbs: Vec<[[u32; 2]; 3]>,
    /// Output table: (addr, val, multiplicity) per row.
    pub output_table: Vec<[u32; 3]>,
    /// Number of real execution steps (before padding).
    pub num_real_steps: usize,
}

impl ExecutionTrace {
    /// All auxiliary tables are empty.
    pub open spec fn tables_empty(&self) -> bool {
        &&& self.sorted_mem@.len() == 0
        &&& self.sorted_mem_aux@.len() == 0
        &&& self.sorted_reg@.len() == 0
        &&& self.sorted_reg_aux@.len() == 0
        &&& self.prog_table@.len() == 0
        &&& self.limbs@.len() == 0
        &&& self.range_mult@.len() == 0
        &&& self.ordering_mem_limbs@.len() == 0
        &&& self.ordering_reg_limbs@.len() == 0
        &&& self.output_table@.len() == 0
    }

    /// `self` and `other` have the same auxiliary tables.
    pub open spec fn same_tables(&self, other: &ExecutionTrace) -> bool {
        &&& self.sorted_mem@ == other.sorted_mem@
        &&& self.sorted_mem_aux@ == other.sorted_mem_aux@
        &&& self.sorted_reg@ == other.sorted_reg@
        &&& self.sorted_reg_aux@ == other.sorted_reg_aux@
        &&& self.prog_table@ == other.prog_table@
        &&& self.limbs@ == other.limbs@
        &&& self.range_mult@ == other.range_mult@
        &&& self.ordering_mem_limbs@ == other.ordering_mem_limbs@
        &&& self.ordering_reg_limbs@ == other.ordering_reg_limbs@
        &&& self.output_table@ == other.output_table@
    }

    /// An empty trace.
    pub fn new() -> (t: ExecutionTrace)
        ensures
            t.rows@.len() == 0,
            t.tables_empty(),
            t.num_real_steps == 0,
    {
        ExecutionTrace {
            rows: Vec::new(),
            sorted_mem: Vec::new(),
            sorted_mem_aux: Vec::new(),
            sorted_reg: Vec::new(),
            sorted_reg_aux: Vec::new(),
            prog_table: Vec::new(),
            limbs: Vec::new(),
            range_mult: Vec::new(),
            ordering_mem_limbs: Vec::new(),
            ordering_reg_limbs: Vec::new(),
            output_table: Vec::new(),
            num_real_steps: 0,
        }
    }

    /// Append a row.
    pub fn push(&mut self, row: TraceRow)
        ensures
            final(self).rows@ == old(self).rows@.push(row),
            final(self).same_tables(&*old(self)),
            final(self).num_real_steps == old(self).num_real_steps,
    {
        self.rows.push(row);
    }

    /// Number of rows.
    pub fn len(&self) -> (r: usize)
        ensures
            r == self.rows@.len(),
    {
        self.rows.len()
    }

    /// The trace has no rows.
    pub fn is_empty(&self) -> (r: bool)
        ensures
            r == (self.rows@.len() == 0),
    {
        self.rows.len() == 0
    }
}


/// `t` is a power of two.
pub open spec fn is_power_of_two(t: nat) -> bool {
    exists|k: nat| t == pow2(k)
}

/// `t` is the smallest power of two that is at least `n` and at least
/// `min` (itself a power of two).
pub open spec fn padded_to(n: nat, min: nat, t: nat) -> bool {
    &&& is_power_of_two(t)
    &&& t >= n
    &&& t >= min
    &&& (t == min || t < 2 * n)
}

/// `t` is the length a trace of `n` rows is padded to: the smallest power
/// of two that is at least `n` and at least `MIN_TRACE_LEN`.
pub open spec fn padded_len(n: nat, t: nat) -> bool {
    padded_to(n, MIN_TRACE_LEN as nat, t)
}

/// The smallest power of two at least `n` and at least `min`.
pub(crate) fn pow2_at_least(n: usize, min: usize) -> (t: usize)
    requires
        n <= 0x8000_0000,
        min <= 0x8000_0000,
        is_power_of_two(min as nat),
    ensures
        padded_to(n as nat, min as nat, t as nat),
{
    let mut t: usize = 1;
    let ghost mut k: nat = 0;
    proof {
        vstd::arithmetic::power::lemma_pow0(2);
    }
    while t < n
        invariant
            n <= 0x8000_0000,
            t >= 1,
            t == pow2(k),
            t == 1 || t < 2 * n,
        decreases 0x1_0000_0000 - t,
    {
        proof {
            vstd::arithmetic::power2::lemma_pow2_unfold(k + 1);
        }
        t = t * 2;
        proof {
            k = k + 1;
        }
    }
    proof {
        assert(is_power_of_two(t as nat));
        let km = choose|km: nat| min as nat == pow2(km);
        vstd::arithmetic::power2::lemma_pow2_pos(km);
    }
    if t < min {
        min
    } else {
        t
    }
}

/// `MIN_TRACE_LEN` is a power of two.
proof fn lemma_min_trace_len_pow2()
    ensures
        is_power_of_two(MIN_TRACE_LEN as nat),
{
    vstd::arithmetic::power2::lemma2_to64();
    assert(MIN_TRACE_LEN as nat == pow2(16));
}

/// A larger power of two is at least twice a smaller one.
proof fn lemma_pow2_gap(a: nat, b: nat)
    requires
        a < b,
    ensures
        pow2(b) >= 2 * pow2(a),
{
    vstd::arithmetic::power2::lemma_pow2_adds(a, (b - a) as nat);
    vstd::arithmetic::power2::lemma_pow2_strictly_increases(0, (b - a) as nat);
    vstd::arithmetic::power2::lemma_pow2_pos(a);
    assert(pow2(0) == 1) by {
        vstd::arithmetic::power2::lemma2_to64();
    }
    let x = pow2(a);
    let y = pow2((b - a) as nat);
    assert(x * y >= 2 * x) by (nonlinear_arith)
        requires
            x > 0,
            y >= 2,
    ;
}

/// The padded length is determined by the length and the minimum: it is the
/// one smallest power of two at least both.
pub proof fn lemma_padded_unique(n: nat, min: nat, t1: nat, t2: nat)
    requires
        padded_to(n, min, t1),
        padded_to(n, min, t2),
    ensures
        t1 == t2,
{
    let k1 = choose|k: nat| t1 == pow2(k);
    let k2 = choose|k: nat| t2 == pow2(k);
    vstd::arithmetic::power2::lemma_pow2_pos(k1);
    vstd::arithmetic::power2::lemma_pow2_pos(k2);
    if k1 < k2 {
        lemma_pow2_gap(k1, k2);
    } else if k2 < k1 {
        lemma_pow2_gap(k2, k1);
    }
}

/// Padding is idempotent: a trace padded to `t` rows is padded already, so
/// padding it again keeps `t` rows.
pub proof fn lemma_padding_idempotent(n: nat, t: nat, t2: nat)
    requires
        padded_len(n, t),
        padded_len(t, t2),
    ensures
        t2 == t,
{
    lemma_padded_unique(t, MIN_TRACE_LEN as nat, t, t2);
}

/// `after` is `before` (a trace with at least one row) padded: its length
/// is the padded length, its first rows are those of `before`, every further
/// row is a halted NOP at `PADDING_PC` whose clock is its index, the number
/// of real steps is recorded (kept if it was set, the row count otherwise),
/// and the tables are untouched.
pub open spec fn pads_to(before: ExecutionTrace, after: ExecutionTrace) -> bool {
    let n = before.rows@.len();
    &&& padded_len(n, after.rows@.len())
    &&& after.rows@.subrange(0, n as int) == before.rows@
    &&& forall|j: int|
        n <= j < after.rows@.len() ==> is_nop_row(#[trigger] after.rows@[j], j as u32, PADDING_PC, PADDING_PC)
            && after.rows@[j].is_halted
    &&& after.num_real_steps == if before.num_real_steps == 0 {
        n as usize
    } else {
        before.num_real_steps
    }
    &&& after.same_tables(&before)
}

/// Padding twice is padding once: padding a padded trace again keeps its
/// rows, its number of real steps and its tables.
pub proof fn lemma_pad_twice(t0: ExecutionTrace, t1: ExecutionTrace, t2: ExecutionTrace)
    requires
        t0.rows@.len() > 0,
        pads_to(t0, t1),
        pads_to(t1, t2),
    ensures
        t2.rows@ == t1.rows@,
        t2.num_real_steps == t1.num_real_steps,
        t2.same_tables(&t1),
{
    lemma_padding_idempotent(t0.rows@.len(), t1.rows@.len(), t2.rows@.len());
    assert(t0.rows@.len() == t0.rows.len());
    assert(t1.num_real_steps != 0);
    assert(t2.rows@ =~= t2.rows@.subrange(0, t1.rows@.len() as int));
    lemma_min_trace_len_pow2();
}

impl ExecutionTrace {
    /// Pad with NOP rows up to the next power of two (at least
    /// `MIN_TRACE_LEN` rows). Padding rows sit at `PADDING_PC`, loop on
    /// themselves and are marked halted; the number of real steps is recorded
    /// first if it was not yet. An empty trace is left as it is.
    pub fn pad_to_power_of_two(&mut self)
        requires
            old(self).rows@.len() <= 0x8000_0000,
        ensures
            old(self).rows@.len() == 0 ==> *final(self) == *old(self),
            old(self).rows@.len() > 0 ==> pads_to(*old(self), *final(self)),
    {
        if self.rows.len() == 0 {
            return;
        }
        let n = self.rows.len();
        if self.num_real_steps == 0 {
            self.num_real_steps = n;
        }
        proof {
            lemma_min_trace_len_pow2();
        }
        let target = pow2_at_least(n, MIN_TRACE_LEN);
        while self.rows.len() < target
            invariant
                n == old(self).rows@.len(),
                n <= self.rows@.len() <= target,
                target < 0x1_0000_0000,
                self.rows@.subrange(0, n as int) == old(self).rows@,
                forall|j: int|
                    n <= j < self.rows@.len() ==> is_nop_row(
                        #[trigger] self.rows@[j],
                        j as u32,
                        PADDING_PC,
                        PADDING_PC,
                    ) && self.rows@[j].is_halted,
                self.num_real_steps == if old(self).num_real_steps == 0 {
                    n as usize
                } else {
                    old(self).num_real_steps
                },
                self.same_tables(&*old(self)),
            decreases target - self.rows@.len(),
        {
            let clk = self.rows.len() as u32;
            let mut row = TraceRow::nop(clk, PADDING_PC, PADDING_PC);
            row.is_halted = true;
            let ghost before = self.rows@;
            self.rows.push(row);
            assert(self.rows@.subrange(0, n as int) =~= before.subrange(0, n as int));
        }
    }
}

} // verus!
