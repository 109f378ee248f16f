//! Host-side configuration of a guest proof, and the program table the host
//! extracts from a guest ELF binary to bind the proof to the program.

use vstd::prelude::*;

use crate::cpu::{
    after_steps, fetch, lemma_stop_index, output_count, row_of_step, run_safe, steps_to_stop, stops, Cpu, CpuState,
    MAX_OUTPUT_COUNT, STACK_TOP,
};
use crate::digest::{sha256, sha256_of};
use crate::elf::{
    elf_fits, header_error, lemma_load_keeps_len, le16, le32, load_elf, load_segments, place, u16_le, u32_le, ElfError,
};
use crate::field::P;
use crate::io::{init_input_tape, input_tape, read_outputs, INPUT_TAPE_ADDR, OUTPUT_TAPE_ADDR};
use crate::memory::Memory;
use crate::tables::{program_rom, rom_of, tables_prepared, trace_cells};
use crate::trace::{pads_to, ExecutionTrace, TraceRow, NUM_TRACE_COLS};
use crate::vm::{le_bytes, push_le_bytes};

verus! {

/// The default cycle limit: 2^20 cycles.
pub const DEFAULT_CYCLE_LIMIT: u32 = 0x10_0000;

/// What a `ProverBuilder` has been told.
pub struct ProverConfig {
    pub elf: Seq<u8>,
    pub public_inputs: Seq<u32>,
    pub private_inputs: Seq<u32>,
    pub cycle_limit: u32,
}

/// Builder for configuring and running a guest program proof.
pub struct ProverBuilder {
    elf_bytes: Vec<u8>,
    public_inputs: Vec<u32>,
    private_inputs: Vec<u32>,
    cycle_limit: u32,
}

impl View for ProverBuilder {
    type V = ProverConfig;

    closed spec fn view(&self) -> ProverConfig {
        ProverConfig {
            elf: self.elf_bytes@,
            public_inputs: self.public_inputs@,
            private_inputs: self.private_inputs@,
            cycle_limit: self.cycle_limit,
        }
    }
}

impl ProverBuilder {
    /// A builder for the guest `elf_bytes`, with no inputs and the default
    /// cycle limit.
    pub fn from_elf(elf_bytes: &[u8]) -> (b: ProverBuilder)
        ensures
            b@ == (ProverConfig {
                elf: elf_bytes@,
                public_inputs: seq![],
                private_inputs: seq![],
                cycle_limit: DEFAULT_CYCLE_LIMIT,
            }),
    {
        let mut v: Vec<u8> = Vec::new();
        let mut k: usize = 0;
        while k < elf_bytes.len()
            invariant
                k <= elf_bytes@.len(),
                v@ == elf_bytes@.take(k as int),
            decreases elf_bytes@.len() - k,
        {
            v.push(elf_bytes[k]);
            k = k + 1;
            assert(v@ =~= elf_bytes@.take(k as int));
        }
        assert(elf_bytes@.take(k as int) =~= elf_bytes@);
        ProverBuilder {
            elf_bytes: v,
            public_inputs: Vec::new(),
            private_inputs: Vec::new(),
            cycle_limit: DEFAULT_CYCLE_LIMIT,
        }
    }

    /// The guest binary.
    pub fn elf_bytes(&self) -> (r: &[u8])
        ensures
            r@ == self@.elf,
    {
        self.elf_bytes.as_slice()
    }

    /// The public inputs, in the order added.
    pub fn public_inputs(&self) -> (r: &[u32])
        ensures
            r@ == self@.public_inputs,
    {
        self.public_inputs.as_slice()
    }

    /// The private inputs, in the order added.
    pub fn private_inputs(&self) -> (r: &[u32])
        ensures
            r@ == self@.private_inputs,
    {
        self.private_inputs.as_slice()
    }

    /// The cycle limit.
    pub fn cycle_limit(&self) -> (r: u32)
        ensures
            r == self@.cycle_limit,
    {
        self.cycle_limit
    }

    /// Add a public input value.
    pub fn add_input(&mut self, val: u32) -> (r: &mut Self)
        ensures
            *final(self) == *final(r),
            r@ == (ProverConfig { public_inputs: old(self)@.public_inputs.push(val), ..old(self)@ }),
    {
        self.public_inputs.push(val);
        self
    }

    /// Add a private (witness) input value.
    pub fn add_private_input(&mut self, val: u32) -> (r: &mut Self)
        ensures
            *final(self) == *final(r),
            r@ == (ProverConfig { private_inputs: old(self)@.private_inputs.push(val), ..old(self)@ }),
    {
        self.private_inputs.push(val);
        self
    }

    /// Set the maximum cycle count.
    pub fn set_cycle_limit(&mut self, limit: u32) -> (r: &mut Self)
        ensures
            *final(self) == *final(r),
            r@ == (ProverConfig { cycle_limit: limit, ..old(self)@ }),
    {
        self.cycle_limit = limit;
        self
    }
}


/// The instruction words of an executable segment: word `j` at address
/// `vaddr + 4 j`, read from file offset `p_offset + 4 j`.
pub open spec fn segment_words(elf: Seq<u8>, p_offset: nat, vaddr: nat, count: nat) -> Seq<(u32, u32)> {
    Seq::new(count, |j: int| ((vaddr + 4 * j) as u32, le32(elf, p_offset + 4 * j) as u32))
}

/// The number of whole words of a segment of `filesz` file bytes at
/// `p_offset`, cut off at the end of the file.
pub open spec fn segment_word_count(elf: Seq<u8>, p_offset: nat, filesz: nat) -> nat {
    let end = if p_offset + filesz < elf.len() { p_offset + filesz } else { elf.len() as nat };
    ((end - p_offset) / 4) as nat
}

/// The `(address, instruction)` pairs of program headers `i..phnum`: the
/// words of every loadable executable segment, in header order; a header
/// past the end of the file ends the table.
pub open spec fn table_entries(elf: Seq<u8>, phoff: nat, entsize: nat, i: nat, phnum: nat) -> Seq<(u32, u32)>
    decreases phnum - i,
{
    if i >= phnum {
        seq![]
    } else {
        let off: int = (phoff + i * entsize) as int;
        if off + entsize > elf.len() {
            seq![]
        } else if le32(elf, off) != 1 || le32(elf, off + 24) % 2 == 0 {
            table_entries(elf, phoff, entsize, i + 1, phnum)
        } else {
            let p_offset = le32(elf, off + 4);
            segment_words(elf, p_offset, le32(elf, off + 8), segment_word_count(elf, p_offset, le32(elf, off + 16)))
                + table_entries(elf, phoff, entsize, i + 1, phnum)
        }
    }
}

/// Reading program headers `i..phnum` for the table stays inside each header
/// and the file, and every word address fits in 32 bits.
pub open spec fn table_fits(elf: Seq<u8>, phoff: nat, entsize: nat, i: nat, phnum: nat) -> bool
    decreases phnum - i,
{
    if i >= phnum {
        true
    } else {
        let off: int = (phoff + i * entsize) as int;
        if off + entsize > elf.len() {
            true
        } else {
            &&& entsize >= 4
            &&& (le32(elf, off) == 1 ==> entsize >= 28)
            &&& if le32(elf, off) != 1 || le32(elf, off + 24) % 2 == 0 {
                table_fits(elf, phoff, entsize, i + 1, phnum)
            } else {
                let p_offset = le32(elf, off + 4);
                let count = segment_word_count(elf, p_offset, le32(elf, off + 16));
                &&& p_offset <= elf.len()
                &&& (count > 0 ==> le32(elf, off + 8) + 4 * (count - 1) <= u32::MAX)
                &&& table_fits(elf, phoff, entsize, i + 1, phnum)
            }
        }
    }
}

/// The file starts with a 52-byte header and the ELF magic number.
pub open spec fn has_elf_header(elf: Seq<u8>) -> bool {
    elf.len() >= 52 && elf[0] == 0x7f && elf[1] == 0x45 && elf[2] == 0x4c && elf[3] == 0x46
}

/// The program table of an ELF image: empty without an ELF header.
pub open spec fn program_table_of(elf: Seq<u8>) -> Seq<(u32, u32)> {
    if has_elf_header(elf) {
        table_entries(elf, le32(elf, 28), le16(elf, 42), 0, le16(elf, 44))
    } else {
        seq![]
    }
}

/// Extract `(address, instruction)` pairs from an ELF binary for the program
/// table: the words of each loadable executable segment.
pub fn extract_program_table(elf_bytes: &[u8]) -> (table: Vec<(u32, u32)>)
    requires
        has_elf_header(elf_bytes@) ==> table_fits(
            elf_bytes@,
            le32(elf_bytes@, 28),
            le16(elf_bytes@, 42),
            0,
            le16(elf_bytes@, 44),
        ),
    ensures
        table@ == program_table_of(elf_bytes@),
{
    let mut table: Vec<(u32, u32)> = Vec::new();
    if elf_bytes.len() < 52 || !(elf_bytes[0] == 0x7f && elf_bytes[1] == 0x45 && elf_bytes[2] == 0x4c
        && elf_bytes[3] == 0x46) {
        return table;
    }
    let ghost elf = elf_bytes@;
    let phoff = u32_le(&elf_bytes[28..32]);
    let phentsize = u16_le(&elf_bytes[42..44]);
    let phnum = u16_le(&elf_bytes[44..46]);
    assert(phoff == le32(elf, 28));
    assert(phentsize == le16(elf, 42));
    assert(phnum == le16(elf, 44));
    let elen = elf_bytes.len();
    let len = elen as u64;
    let mut i: u16 = 0;
    while i < phnum
        invariant
            elf == elf_bytes@,
            elen == elf.len(),
            len == elf.len(),
            has_elf_header(elf),
            phoff == le32(elf, 28),
            phentsize == le16(elf, 42),
            phnum == le16(elf, 44),
            i <= phnum,
            table@ + table_entries(elf, phoff as nat, phentsize as nat, i as nat, phnum as nat)
                == program_table_of(elf),
            table_fits(elf, phoff as nat, phentsize as nat, i as nat, phnum as nat),
        ensures
            table@ == program_table_of(elf),
        decreases phnum - i,
    {
        assert((i as u64) * (phentsize as u64) <= 0xFFFF * 0xFFFF) by (nonlinear_arith)
            requires
                i <= 0xFFFF,
                phentsize <= 0xFFFF,
        ;
        let off: u64 = phoff as u64 + (i as u64) * (phentsize as u64);
        let es = phentsize as u64;
        assert(off == (phoff as nat) + (i as nat) * (phentsize as nat));
        if off + es > len {
            assert(table_entries(elf, phoff as nat, phentsize as nat, i as nat, phnum as nat) =~= seq![]);
            assert(table@ =~= table@ + table_entries(elf, phoff as nat, phentsize as nat, i as nat, phnum as nat));
            break;
        }
        let o = off as usize;
        let e = phentsize as usize;
        let ph = &elf_bytes[o..o + e];
        assert(ph@ == elf.subrange(o as int, o + e));
        let p_type = u32_le(&ph[0..4]);
        assert(p_type == le32(elf, o as int));
        if p_type != 1 {
            i = i + 1;
            continue;
        }
        let p_offset = u32_le(&ph[4..8]);
        let p_vaddr = u32_le(&ph[8..12]);
        let p_filesz = u32_le(&ph[16..20]);
        let p_flags = u32_le(&ph[24..28]);
        assert(p_offset == le32(elf, o + 4));
        assert(p_vaddr == le32(elf, o + 8));
        assert(p_filesz == le32(elf, o + 16));
        assert(p_flags == le32(elf, o + 24));
        if p_flags & 1 == 0 {
            assert((p_flags & 1 == 0) == (p_flags % 2 == 0)) by (bit_vector);
            i = i + 1;
            continue;
        }
        assert((p_flags & 1 == 0) == (p_flags % 2 == 0)) by (bit_vector);
        let sum: u64 = p_offset as u64 + p_filesz as u64;
        let end: usize = if sum < len {
            sum as usize
        } else {
            elen
        };
        let start = p_offset as usize;
        let count = (end - start) / 4;
        let ghost words = segment_words(elf, p_offset as nat, p_vaddr as nat, count as nat);
        assert(count == segment_word_count(elf, p_offset as nat, p_filesz as nat));
        let ghost before = table@;
        let mut j: usize = 0;
        while j < count
            invariant
                elf == elf_bytes@,
                start == p_offset,
                end <= elf.len(),
                count == (end - start) / 4,
                start <= end,
                count > 0 ==> p_vaddr + 4 * (count - 1) <= u32::MAX,
                words == segment_words(elf, p_offset as nat, p_vaddr as nat, count as nat),
                j <= count,
                table@ == before + words.take(j as int),
            decreases count - j,
        {
            let b = start + 4 * j;
            let addr = p_vaddr + 4 * (j as u32);
            let w = u32_le(&elf_bytes[b..b + 4]);
            table.push((addr, w));
            j = j + 1;
            assert(table@ =~= before + words.take(j as int));
        }
        assert(words.take(j as int) =~= words);
        assert(table@ + table_entries(elf, phoff as nat, phentsize as nat, (i + 1) as nat, phnum as nat)
            =~= before + table_entries(elf, phoff as nat, phentsize as nat, i as nat, phnum as nat));
        i = i + 1;
    }
    table
}

/// The bytes hashed for a program ROM: each entry's address and instruction
/// as little-endian words, in order.
pub open spec fn rom_table_bytes(rom: Seq<(u32, u32)>) -> Seq<u8>
    decreases rom.len(),
{
    if rom.len() == 0 {
        seq![]
    } else {
        rom_table_bytes(rom.drop_last()) + le_bytes(rom.last().0) + le_bytes(rom.last().1)
    }
}

/// The bytes a program ROM is hashed over: eight bytes per entry, in ROM
/// order; those of entry `i` are its address then its instruction word, each
/// a 32-bit little-endian word (byte `k` of word `x` being
/// `x / 256^k mod 256`).
pub proof fn lemma_rom_table_bytes_layout(rom: Seq<(u32, u32)>)
    ensures
        rom_table_bytes(rom).len() == 8 * rom.len(),
        forall|i: int, k: int|
            0 <= i < rom.len() && 0 <= k < 4 ==> #[trigger] rom_table_bytes(rom)[8 * i + k] as int == (rom[i].0 as int
                / crate::vm::pow256(k)) % 256 && rom_table_bytes(rom)[8 * i + 4 + k] as int == (rom[i].1 as int
                / crate::vm::pow256(k)) % 256,
    decreases rom.len(),
{
    if rom.len() > 0 {
        let r = rom.drop_last();
        lemma_rom_table_bytes_layout(r);
        let prev = rom_table_bytes(r);
        let m = r.len() as int;
        let e = le_bytes(rom.last().0) + le_bytes(rom.last().1);
        assert(rom_table_bytes(rom) == prev + le_bytes(rom.last().0) + le_bytes(rom.last().1));
        assert forall|i: int, k: int| 0 <= i < rom.len() && 0 <= k < 4 implies #[trigger] rom_table_bytes(rom)[8 * i
            + k] as int == (rom[i].0 as int / crate::vm::pow256(k)) % 256 && rom_table_bytes(rom)[8 * i + 4 + k] as int
            == (rom[i].1 as int / crate::vm::pow256(k)) % 256 by {
            let whole = prev + le_bytes(rom.last().0) + le_bytes(rom.last().1);
            if i < m {
                assert(rom[i] == r[i]);
                assert(whole[8 * i + k] == prev[8 * i + k]);
                assert(whole[8 * i + 4 + k] == prev[8 * i + 4 + k]);
            } else {
                crate::vm::lemma_le_bytes_digit(rom.last().0, k);
                crate::vm::lemma_le_bytes_digit(rom.last().1, k);
                assert(rom[i] == rom.last());
                assert(i == m);
                assert(whole[8 * i + k] == le_bytes(rom.last().0)[k]);
                assert(whole[8 * i + 4 + k] == le_bytes(rom.last().1)[k]);
            }
        }
    }
}

/// Hash the program ROM table (sorted address/instruction pairs) for
/// verifier binding.
pub fn hash_program_rom(rom: &[(u32, u32)]) -> (r: [u8; 32])
    ensures
        r@ == sha256_of(rom_table_bytes(rom@)),
{
    let mut bytes: Vec<u8> = Vec::new();
    let mut k: usize = 0;
    while k < rom.len()
        invariant
            k <= rom@.len(),
            bytes@ == rom_table_bytes(rom@.take(k as int)),
        decreases rom@.len() - k,
    {
        let e = rom[k];
        push_le_bytes(&mut bytes, e.0);
        push_le_bytes(&mut bytes, e.1);
        proof {
            assert(rom@.take(k + 1).drop_last() =~= rom@.take(k as int));
        }
        k = k + 1;
        assert(bytes@ =~= rom_table_bytes(rom@.take(k as int)));
    }
    assert(rom@.take(k as int) =~= rom@);
    sha256(bytes.as_slice())
}

/// Bytes of guest memory a proof sets up: 16 MiB.
pub const GUEST_MEMORY_SIZE: usize = 0x100_0000;

/// Zeroed guest memory.
pub open spec fn zero_memory() -> Seq<u8> {
    Seq::new(GUEST_MEMORY_SIZE as nat, |i: int| 0u8)
}

/// Loading the segments of `elf` into zeroed guest memory: the outcome and
/// the memory after it.
pub open spec fn segments_loaded(elf: Seq<u8>) -> (Result<(), ElfError>, Seq<u8>) {
    load_segments(elf, zero_memory(), le32(elf, 28), le16(elf, 42), 0, le16(elf, 44))
}

/// The entry point named by the ELF header.
pub open spec fn entry_pc_of(elf: Seq<u8>) -> u32 {
    le32(elf, 24) as u32
}

/// Guest memory when execution starts: the loaded segments with the input
/// tape placed at `INPUT_TAPE_ADDR`.
pub open spec fn start_memory(cfg: ProverConfig) -> Seq<u8> {
    place(segments_loaded(cfg.elf).1, INPUT_TAPE_ADDR as int, input_tape(cfg.public_inputs, cfg.private_inputs))
}

/// The CPU when execution starts at `entry`: registers zero but the stack
/// pointer, cycle 0, not halted.
pub open spec fn start_cpu(entry: u32) -> CpuState {
    CpuState {
        regs: Seq::new(32, |i: int| if i == 2 { STACK_TOP } else { 0u32 }),
        pc: entry,
        cycle: 0,
        halted: false,
        halt_reason: None,
    }
}

/// Row `i` of `rows` describes the step from the state after `i` steps of a
/// run from `c` over `bytes`.
#[verifier::opaque]
pub open spec fn rows_of_run(rows: Seq<TraceRow>, c: CpuState, bytes: Seq<u8>) -> bool {
    forall|i: int|
        0 <= i < rows.len() ==> row_of_step(
            #[trigger] rows[i],
            after_steps(c, bytes, i as nat).0,
            after_steps(c, bytes, i as nat).1,
        )
}

/// The guest can be prepared for proving without a fault: the ELF fits guest
/// memory and loads, the input tape fits, every step of the run can execute,
/// the run takes between 1 and 2^31 steps, the output tape it leaves lies in
/// memory with slot addresses that fit in 32 bits, and its output count
/// stays within `MAX_OUTPUT_COUNT`.
pub open spec fn prepare_ok(cfg: ProverConfig) -> bool {
    let c0 = start_cpu(entry_pc_of(cfg.elf));
    let m0 = start_memory(cfg);
    let k = steps_to_stop(c0, m0, cfg.cycle_limit);
    let fin = after_steps(c0, m0, k).1;
    &&& elf_fits(cfg.elf, GUEST_MEMORY_SIZE as nat)
    &&& header_error(cfg.elf) is None
    &&& segments_loaded(cfg.elf).0 is Ok
    &&& INPUT_TAPE_ADDR + 4 * (2 + cfg.public_inputs.len() + cfg.private_inputs.len()) <= GUEST_MEMORY_SIZE
    &&& table_fits(cfg.elf, le32(cfg.elf, 28), le16(cfg.elf, 42), 0, le16(cfg.elf, 44))
    &&& run_safe(c0, m0, cfg.cycle_limit)
    &&& cfg.cycle_limit >= 1
    &&& k <= 0x8000_0000
    &&& OUTPUT_TAPE_ADDR + 4 + 4 * fetch(fin, OUTPUT_TAPE_ADDR) <= fin.len()
    &&& OUTPUT_TAPE_ADDR + 4 * fetch(fin, OUTPUT_TAPE_ADDR) <= u32::MAX
    &&& forall|rows: Seq<TraceRow>|
        rows.len() == k && rows_of_run(rows, c0, m0) ==> #[trigger] output_count(rows) <= MAX_OUTPUT_COUNT
}

/// The rows of a run that takes steps until it stops are `steps_to_stop`
/// many, row `i` describing the step from the state after `i` steps.
proof fn lemma_run_steps(c0: CpuState, m0: Seq<u8>, limit: u32, rows: Seq<TraceRow>)
    requires
        forall|i: int| 0 <= i < rows.len() ==> !stops(#[trigger] after_steps(c0, m0, i as nat).0, limit),
        stops(after_steps(c0, m0, rows.len()).0, limit),
        forall|i: int|
            0 <= i < rows.len() ==> row_of_step(
                #[trigger] rows[i],
                after_steps(c0, m0, i as nat).0,
                after_steps(c0, m0, i as nat).1,
            ),
    ensures
        rows.len() == steps_to_stop(c0, m0, limit),
        rows_of_run(rows, c0, m0),
{
    lemma_stop_index(c0, m0, limit, rows.len());
    reveal(rows_of_run);
}

/// What the prover is handed for a guest: the trace columns, the program
/// ROM and its hash, the public outputs, the entry point, the PC of the
/// first padding row and the number of real steps.
pub struct PreparedTrace {
    pub columns: Vec<Vec<u32>>,
    pub program_hash: [u8; 32],
    pub outputs: Vec<u32>,
    pub entry_pc: u32,
    pub program_rom: Vec<(u32, u32)>,
    pub padding_start_pc: u32,
    pub num_real_steps: usize,
}

/// The traces of the preparation: `run` is the trace of the `k`-step run
/// from `c0` over `m0`, `padded` that trace padded, `full` the padded trace
/// with its tables generated for `rom`; `cols` are the columns of `full`,
/// and `start_pc` the PC of the first padding row (0 if there is none).
#[verifier::opaque]
pub open spec fn prepared_from(
    c0: CpuState,
    m0: Seq<u8>,
    k: nat,
    rom: Seq<(u32, u32)>,
    cols: Seq<Vec<u32>>,
    start_pc: u32,
    run: ExecutionTrace,
    padded: ExecutionTrace,
    full: ExecutionTrace,
) -> bool {
    &&& run.rows@.len() == k
    &&& rows_of_run(run.rows@, c0, m0)
    &&& run.tables_empty()
    &&& run.num_real_steps == 0
    &&& pads_to(run, padded)
    &&& tables_prepared(padded, rom, full)
    &&& start_pc == if k < padded.rows@.len() { padded.rows@[k as int].pc } else { 0 }
    &&& cols.len() == NUM_TRACE_COLS
    &&& forall|c: int| 0 <= c < NUM_TRACE_COLS ==> (#[trigger] cols[c])@.len() == full.rows@.len()
    &&& forall|c: int, i: int|
        0 <= c < NUM_TRACE_COLS && 0 <= i < full.rows@.len() ==> #[trigger] cols[c]@[i] == trace_cells(full, i)[c] % P
}

impl ProverBuilder {
    /// Execute the guest and prepare what the prover is handed: load the ELF
    /// into 16 MiB of guest memory, place the input tape, run from the entry
    /// point until the guest halts or reaches the cycle limit, read the
    /// outputs, pad the trace, build the sorted and deduplicated program ROM
    /// and hash it, generate the trace's tables and lay out its columns.
    #[verifier::spinoff_prover]
    pub fn prepare(&self) -> (r: PreparedTrace)
        requires
            prepare_ok(self@),
        ensures
            ({
                let cfg = self@;
                let c0 = start_cpu(entry_pc_of(cfg.elf));
                let m0 = start_memory(cfg);
                let k = steps_to_stop(c0, m0, cfg.cycle_limit);
                let fin = after_steps(c0, m0, k).1;
                &&& r.entry_pc == entry_pc_of(cfg.elf)
                &&& r.num_real_steps == k
                &&& r.outputs@ == Seq::new(
                    fetch(fin, OUTPUT_TAPE_ADDR) as nat,
                    |i: int| fetch(fin, (OUTPUT_TAPE_ADDR + 4 + 4 * i) as u32),
                )
                &&& rom_of(r.program_rom@, program_table_of(cfg.elf))
                &&& r.program_hash@ == sha256_of(rom_table_bytes(r.program_rom@))
                &&& exists|t: (ExecutionTrace, ExecutionTrace, ExecutionTrace)|
                    #[trigger] prepared_from(
                        c0,
                        m0,
                        k,
                        r.program_rom@,
                        r.columns@,
                        r.padding_start_pc,
                        t.0,
                        t.1,
                        t.2,
                    )
            }),
    {
        let ghost cfg = self@;
        let ghost c0 = start_cpu(entry_pc_of(cfg.elf));
        let ghost m0 = start_memory(cfg);
        let ghost k = steps_to_stop(c0, m0, cfg.cycle_limit);
        let (mut trace, outputs, entry) = self.execute();
        let ghost run_t = trace;
        proof {
            assert(output_count(run_t.rows@) <= MAX_OUTPUT_COUNT);
        }
        trace.pad_to_power_of_two();
        let ghost padded_t = trace;
        proof {
            assert(padded_t.rows@.take(k as int) =~= run_t.rows@);
        }
        let table = extract_program_table(self.elf_bytes.as_slice());
        let rom = program_rom(table.as_slice());
        let program_hash = hash_program_rom(rom.as_slice());
        let num_real_steps = trace.num_real_steps;
        let n = trace.rows.len();
        let padding_start_pc = if num_real_steps < n {
            trace.rows[num_real_steps].pc
        } else {
            0
        };
        trace.prepare_sorted_tables(rom.as_slice());
        let columns = trace.to_columns();
        let r = PreparedTrace {
            columns,
            program_hash,
            outputs,
            entry_pc: entry,
            program_rom: rom,
            padding_start_pc,
            num_real_steps,
        };
        let ghost w = (run_t, padded_t, trace);
        assert(prepared_from(c0, m0, k, r.program_rom@, r.columns@, r.padding_start_pc, w.0, w.1, w.2)) by {
            reveal(prepared_from);
        }
        r
    }

    /// Load the guest into 16 MiB of memory, place the input tape, and run
    /// from the entry point until the guest halts or reaches the cycle limit:
    /// the trace of the run, the outputs the guest left, and the entry point.
    fn execute(&self) -> (r: (ExecutionTrace, Vec<u32>, u32))
        requires
            prepare_ok(self@),
        ensures
            ({
                let cfg = self@;
                let c0 = start_cpu(entry_pc_of(cfg.elf));
                let m0 = start_memory(cfg);
                let k = steps_to_stop(c0, m0, cfg.cycle_limit);
                let fin = after_steps(c0, m0, k).1;
                &&& r.0.rows@.len() == k
                &&& rows_of_run(r.0.rows@, c0, m0)
                &&& r.0.tables_empty()
                &&& r.0.num_real_steps == 0
                &&& r.1@ == Seq::new(
                    fetch(fin, OUTPUT_TAPE_ADDR) as nat,
                    |i: int| fetch(fin, (OUTPUT_TAPE_ADDR + 4 + 4 * i) as u32),
                )
                &&& r.2 == entry_pc_of(cfg.elf)
            }),
    {
        let ghost cfg = self@;
        let ghost c0 = start_cpu(entry_pc_of(cfg.elf));
        let ghost m0 = start_memory(cfg);
        let mut mem = Memory::new(GUEST_MEMORY_SIZE);
        assert(mem@ =~= zero_memory());
        let loaded = load_elf(self.elf_bytes.as_slice(), &mut mem);
        let entry = match loaded {
            Ok(e) => e,
            Err(_) => 0,
        };
        assert(entry == entry_pc_of(cfg.elf));
        proof {
            lemma_load_keeps_len(cfg.elf, zero_memory(), le32(cfg.elf, 28), le16(cfg.elf, 42), 0, le16(cfg.elf, 44));
        }
        init_input_tape(&mut mem, self.public_inputs.as_slice(), self.private_inputs.as_slice());
        assert(mem@ == m0);
        let mut cpu = Cpu::new(entry);
        assert(cpu@ == c0) by {
            assert(cpu@.regs =~= c0.regs);
        }
        let trace = cpu.run(&mut mem, self.cycle_limit);
        proof {
            lemma_run_steps(c0, m0, cfg.cycle_limit, trace.rows@);
        }
        let outputs = read_outputs(&mem);
        (trace, outputs, entry)
    }
}

} // verus!
