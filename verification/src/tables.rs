//! The sorted auxiliary tables of an execution trace: the memory and
//! register access tables sorted by address (index) and clock with their
//! adjacency witnesses, the program table with fetch multiplicities, the
//! output table, and the 16-bit limbs that feed the range check.

use vstd::prelude::*;

use crate::cpu::{class_index, flag, lemma_u32_key_laws, u32_keys_ordered, output_count, output_value, read_outputs_from_trace, wsub, OUTPUT_TAPE_ADDR, MAX_OUTPUT_COUNT};
use crate::field::{bb_inv, bb_sub, fsub, inv, reduce, P};
use crate::sorting::{key_le, stable_sort_by_key, stably_sorted, Key3};
use crate::trace::{zeros, ExecutionTrace, TraceRow, NOP_WORD, NUM_TRACE_COLS};

verus! {

/// A table entry of four words.
pub type Entry4 = (u32, u32, u32, u32);

/// The four words of an entry, in order.
pub open spec fn tup4(t: Entry4) -> Seq<u32> {
    seq![t.0, t.1, t.2, t.3]
}

/// The memory-table entry of a row, `(addr, val, clk, is_write)`; a row
/// that touches no memory gives an empty entry at its clock.
pub open spec fn mem_entry(r: TraceRow) -> Entry4 {
    if r.is_load || r.is_store {
        (r.mem_addr, r.mem_val, r.clk, flag(r.is_store))
    } else {
        (0, 0, r.clk, 0)
    }
}

/// The memory entries of `rows`, each keyed by `(addr, clk)`.
pub open spec fn mem_keyed(rows: Seq<TraceRow>) -> Seq<(Key3, Entry4)> {
    Seq::new(rows.len(), |i: int| {
        let e = mem_entry(rows[i]);
        ((e.0, e.2, 0u32), e)
    })
}

/// `table` lists, in order, the entries of some stable sort of `keyed`.
pub open spec fn sorted_entries(table: Seq<[u32; 4]>, keyed: Seq<(Key3, Entry4)>) -> bool {
    exists|s: Seq<(Key3, Entry4)>|
        {
            &&& stably_sorted(s, keyed)
            &&& table.len() == s.len()
            &&& forall|i: int| 0 <= i < s.len() ==> #[trigger] table[i]@ == tup4(s[i].1)
        }
}

/// The array of an entry.
fn arr4(t: Entry4) -> (r: [u32; 4])
    ensures
        r@ == tup4(t),
{
    let r = [t.0, t.1, t.2, t.3];
    assert(r@ =~= tup4(t));
    r
}

/// The memory table: every row's memory entry, stably sorted by
/// `(addr, clk)`.
fn sorted_mem_table(rows: &Vec<TraceRow>) -> (t: Vec<[u32; 4]>)
    ensures
        sorted_entries(t@, mem_keyed(rows@)),
{
    let mut keyed: Vec<(Key3, Entry4)> = Vec::new();
    let mut i: usize = 0;
    while i < rows.len()
        invariant
            i <= rows@.len(),
            keyed@ == mem_keyed(rows@.take(i as int)),
        decreases rows@.len() - i,
    {
        let row = rows[i];
        let e: Entry4 = if row.is_load || row.is_store {
            (row.mem_addr, row.mem_val, row.clk, if row.is_store { 1 } else { 0 })
        } else {
            (0, 0, row.clk, 0)
        };
        keyed.push(((e.0, e.2, 0), e));
        i = i + 1;
        assert(keyed@ =~= mem_keyed(rows@.take(i as int)));
    }
    assert(rows@.take(i as int) =~= rows@);
    stable_sort_by_key(&mut keyed);
    let mut t: Vec<[u32; 4]> = Vec::new();
    let mut j: usize = 0;
    while j < keyed.len()
        invariant
            j <= keyed@.len(),
            t@.len() == j,
            forall|k: int| 0 <= k < j ==> #[trigger] t@[k]@ == tup4(keyed@[k].1),
        decreases keyed@.len() - j,
    {
        t.push(arr4(keyed[j].1));
        j = j + 1;
    }
    assert(stably_sorted(keyed@, mem_keyed(rows@)));
    t
}

/// The field inverse of `next - curr`, both first reduced modulo `P`.
pub open spec fn diff_inverse_of(next: u32, curr: u32) -> u32 {
    inv(fsub((next % P) as int, (curr % P) as int)) as u32
}

/// The adjacency witness of two sorted entries with leading words `next`
/// (later) and `curr`: `[1, 0]` when they are equal, else `[0, 1 / (next -
/// curr)]` in the field.
pub open spec fn aux_pair(next: u32, curr: u32) -> Seq<u32> {
    if next == curr {
        seq![1u32, 0u32]
    } else {
        seq![0u32, diff_inverse_of(next, curr)]
    }
}

/// The adjacency witness of `next` after `curr`.
fn aux_of(next: u32, curr: u32) -> (r: [u32; 2])
    ensures
        r@ == aux_pair(next, curr),
{
    let r: [u32; 2] = if next == curr {
        [1, 0]
    } else {
        let d = bb_sub(reduce(next), reduce(curr));
        [0, bb_inv(d)]
    };
    assert(r@ =~= aux_pair(next, curr));
    r
}

/// The memory adjacency witnesses of a sorted memory table: none for the
/// first row, then each row against the one before.
pub open spec fn mem_aux_ok(aux: Seq<[u32; 2]>, sm: Seq<[u32; 4]>) -> bool {
    &&& aux.len() == sm.len()
    &&& forall|i: int|
        0 <= i < sm.len() ==> #[trigger] aux[i]@ == if i == 0 {
            seq![0u32, 0u32]
        } else {
            aux_pair(sm[i][0], sm[i - 1][0])
        }
}

/// The memory adjacency witnesses.
fn mem_aux_table(sm: &Vec<[u32; 4]>) -> (aux: Vec<[u32; 2]>)
    ensures
        mem_aux_ok(aux@, sm@),
{
    let mut aux: Vec<[u32; 2]> = Vec::new();
    let mut i: usize = 0;
    while i < sm.len()
        invariant
            i <= sm@.len(),
            aux@.len() == i,
            forall|k: int|
                0 <= k < i ==> #[trigger] aux@[k]@ == if k == 0 {
                    seq![0u32, 0u32]
                } else {
                    aux_pair(sm@[k][0], sm@[k - 1][0])
                },
        decreases sm@.len() - i,
    {
        if i == 0 {
            let z: [u32; 2] = [0, 0];
            assert(z@ =~= seq![0u32, 0u32]);
            aux.push(z);
        } else {
            aux.push(aux_of(sm[i][0], sm[i - 1][0]));
        }
        i = i + 1;
    }
    aux
}


/// The three register accesses of a row, each keyed by `(idx, clk,
/// is_write)`: the reads of `rs1` and `rs2`, then the write of `rd`.
pub open spec fn reg_triple(r: TraceRow) -> Seq<(Key3, Entry4)> {
    seq![
        ((r.rs1_idx, r.clk, 0u32), (r.rs1_idx, r.rs1_val, r.clk, 0u32)),
        ((r.rs2_idx, r.clk, 0u32), (r.rs2_idx, r.rs2_val, r.clk, 0u32)),
        ((r.rd_idx, r.clk, 1u32), (r.rd_idx, r.rd_val, r.clk, 1u32)),
    ]
}

/// The keyed register accesses of `rows`, three per row.
pub open spec fn reg_keyed(rows: Seq<TraceRow>) -> Seq<(Key3, Entry4)>
    decreases rows.len(),
{
    if rows.len() == 0 {
        seq![]
    } else {
        reg_keyed(rows.drop_last()) + reg_triple(rows.last())
    }
}

proof fn lemma_reg_keyed_len(rows: Seq<TraceRow>)
    ensures
        reg_keyed(rows).len() == 3 * rows.len(),
    decreases rows.len(),
{
    if rows.len() > 0 {
        lemma_reg_keyed_len(rows.drop_last());
    }
}

/// `table` holds, three per row in order, the entries of some stable sort
/// of `keyed`.
pub open spec fn sorted_reg_entries(table: Seq<[[u32; 4]; 3]>, keyed: Seq<(Key3, Entry4)>) -> bool {
    exists|s: Seq<(Key3, Entry4)>|
        {
            &&& stably_sorted(s, keyed)
            &&& s.len() == 3 * table.len()
            &&& forall|i: int|
                0 <= i < table.len() ==> {
                    &&& (#[trigger] table[i])[0]@ == tup4(s[3 * i].1)
                    &&& table[i][1]@ == tup4(s[3 * i + 1].1)
                    &&& table[i][2]@ == tup4(s[3 * i + 2].1)
                }
        }
}

/// The register table: all register accesses stably sorted by `(idx, clk,
/// is_write)`, three per row.
fn sorted_reg_table(rows: &Vec<TraceRow>) -> (t: Vec<[[u32; 4]; 3]>)
    ensures
        t@.len() == rows@.len(),
        sorted_reg_entries(t@, reg_keyed(rows@)),
{
    let mut keyed: Vec<(Key3, Entry4)> = Vec::new();
    let mut i: usize = 0;
    while i < rows.len()
        invariant
            i <= rows@.len(),
            keyed@ == reg_keyed(rows@.take(i as int)),
        decreases rows@.len() - i,
    {
        let row = rows[i];
        keyed.push(((row.rs1_idx, row.clk, 0), (row.rs1_idx, row.rs1_val, row.clk, 0)));
        keyed.push(((row.rs2_idx, row.clk, 0), (row.rs2_idx, row.rs2_val, row.clk, 0)));
        keyed.push(((row.rd_idx, row.clk, 1), (row.rd_idx, row.rd_val, row.clk, 1)));
        proof {
            assert(rows@.take(i + 1).drop_last() =~= rows@.take(i as int));
            assert(keyed@ =~= reg_keyed(rows@.take(i + 1)));
        }
        i = i + 1;
    }
    assert(rows@.take(i as int) =~= rows@);
    proof {
        lemma_reg_keyed_len(rows@);
    }
    stable_sort_by_key(&mut keyed);
    let n = rows.len();
    let kl = keyed.len();
    let mut t: Vec<[[u32; 4]; 3]> = Vec::new();
    let mut j: usize = 0;
    while j < n
        invariant
            n == rows@.len(),
            kl == keyed@.len(),
            keyed@.len() == 3 * n,
            j <= n,
            t@.len() == j,
            forall|k: int|
                0 <= k < j ==> {
                    &&& (#[trigger] t@[k])[0]@ == tup4(keyed@[3 * k].1)
                    &&& t@[k][1]@ == tup4(keyed@[3 * k + 1].1)
                    &&& t@[k][2]@ == tup4(keyed@[3 * k + 2].1)
                },
        decreases n - j,
    {
        let b = 3 * j;
        let chunk = [arr4(keyed[b].1), arr4(keyed[b + 1].1), arr4(keyed[b + 2].1)];
        t.push(chunk);
        j = j + 1;
    }
    assert(stably_sorted(keyed@, reg_keyed(rows@)));
    t
}

/// The register adjacency witnesses of a sorted register table: slot A
/// against slot B of the same row, B against C, and C against slot A of
/// the next row (none for the last row).
pub open spec fn reg_aux_ok(aux: Seq<[[u32; 2]; 3]>, sr: Seq<[[u32; 4]; 3]>) -> bool {
    &&& aux.len() == sr.len()
    &&& forall|i: int|
        0 <= i < sr.len() ==> {
            &&& (#[trigger] aux[i])[0]@ == aux_pair(sr[i][1][0], sr[i][0][0])
            &&& aux[i][1]@ == aux_pair(sr[i][2][0], sr[i][1][0])
            &&& aux[i][2]@ == if i + 1 < sr.len() {
                aux_pair(sr[i + 1][0][0], sr[i][2][0])
            } else {
                seq![0u32, 0u32]
            }
        }
}

/// The register adjacency witnesses.
fn reg_aux_table(sr: &Vec<[[u32; 4]; 3]>) -> (aux: Vec<[[u32; 2]; 3]>)
    ensures
        reg_aux_ok(aux@, sr@),
{
    let n = sr.len();
    let mut aux: Vec<[[u32; 2]; 3]> = Vec::new();
    let mut i: usize = 0;
    while i < n
        invariant
            n == sr@.len(),
            i <= n,
            aux@.len() == i,
            forall|k: int|
                0 <= k < i ==> {
                    &&& (#[trigger] aux@[k])[0]@ == aux_pair(sr@[k][1][0], sr@[k][0][0])
                    &&& aux@[k][1]@ == aux_pair(sr@[k][2][0], sr@[k][1][0])
                    &&& aux@[k][2]@ == if k + 1 < n {
                        aux_pair(sr@[k + 1][0][0], sr@[k][2][0])
                    } else {
                        seq![0u32, 0u32]
                    }
                },
        decreases n - i,
    {
        let a = aux_of(sr[i][1][0], sr[i][0][0]);
        let b = aux_of(sr[i][2][0], sr[i][1][0]);
        let c: [u32; 2] = if i + 1 < n {
            aux_of(sr[i + 1][0][0], sr[i][2][0])
        } else {
            let z: [u32; 2] = [0, 0];
            assert(z@ =~= seq![0u32, 0u32]);
            z
        };
        aux.push([a, b, c]);
        i = i + 1;
    }
    aux
}


/// The program entries `(addr, instr)`, each keyed by its address.
pub open spec fn rom_keyed(program: Seq<(u32, u32)>) -> Seq<(Key3, (u32, u32))> {
    Seq::new(program.len(), |i: int| ((program[i].0, 0u32, 0u32), program[i]))
}

/// `s` with every entry whose address equals that of the entry before it
/// removed: of each run of one address, the first entry stays.
pub open spec fn dedup_addr(s: Seq<(u32, u32)>) -> Seq<(u32, u32)>
    decreases s.len(),
{
    if s.len() <= 1 {
        s
    } else {
        let d = dedup_addr(s.drop_last());
        if s.last().0 == s[s.len() - 2].0 {
            d
        } else {
            d.push(s.last())
        }
    }
}

/// `rom` is the program sorted stably by address with repeated addresses
/// dropped (the first entry of each address stays).
pub open spec fn rom_of(rom: Seq<(u32, u32)>, program: Seq<(u32, u32)>) -> bool {
    exists|s: Seq<(Key3, (u32, u32))>|
        stably_sorted(s, rom_keyed(program)) && rom == dedup_addr(s.map_values(|p: (Key3, (u32, u32))| p.1))
}

/// The program ROM: sorted by address, one entry per address.
pub fn program_rom(program: &[(u32, u32)]) -> (rom: Vec<(u32, u32)>)
    ensures
        rom_of(rom@, program@),
{
    let mut keyed: Vec<(Key3, (u32, u32))> = Vec::new();
    let mut i: usize = 0;
    while i < program.len()
        invariant
            i <= program@.len(),
            keyed@ == rom_keyed(program@.take(i as int)),
        decreases program@.len() - i,
    {
        let e = program[i];
        keyed.push(((e.0, 0, 0), e));
        i = i + 1;
        assert(keyed@ =~= rom_keyed(program@.take(i as int)));
    }
    assert(program@.take(i as int) =~= program@);
    stable_sort_by_key(&mut keyed);
    let ghost sorted = keyed@.map_values(|p: (Key3, (u32, u32))| p.1);
    let mut rom: Vec<(u32, u32)> = Vec::new();
    let mut j: usize = 0;
    while j < keyed.len()
        invariant
            j <= keyed@.len(),
            sorted == keyed@.map_values(|p: (Key3, (u32, u32))| p.1),
            rom@ == dedup_addr(sorted.take(j as int)),
        decreases keyed@.len() - j,
    {
        let e = keyed[j].1;
        proof {
            assert(sorted.take(j + 1).drop_last() =~= sorted.take(j as int));
            assert(sorted.take(j + 1).last() == e);
        }
        if j == 0 || e.0 != keyed[j - 1].1.0 {
            rom.push(e);
        }
        proof {
            if j > 0 {
                assert(sorted.take(j + 1)[j - 1] == keyed@[j - 1].1);
            } else {
                assert(sorted.take(1) =~= seq![e]);
            }
        }
        j = j + 1;
    }
    assert(sorted.take(j as int) =~= sorted);
    assert(stably_sorted(keyed@, rom_keyed(program@)));
    rom
}


/// How many of `rows` fetch from `addr`.
pub open spec fn pc_count(rows: Seq<TraceRow>, addr: u32) -> nat
    decreases rows.len(),
{
    if rows.len() == 0 {
        0
    } else {
        pc_count(rows.drop_last(), addr) + if rows.last().pc == addr {
            1nat
        } else {
            0nat
        }
    }
}

proof fn lemma_pc_count_le(rows: Seq<TraceRow>, addr: u32)
    ensures
        pc_count(rows, addr) <= rows.len(),
    decreases rows.len(),
{
    if rows.len() > 0 {
        lemma_pc_count_le(rows.drop_last(), addr);
    }
}

/// The program table of `n` rows: the ROM entries with their fetch counts
/// among the real steps, then (when there is padding) one entry for the
/// padding PC with the padding count, then NOP fillers.
pub open spec fn prog_table_ok(
    table: Seq<[u32; 3]>,
    rom: Seq<(u32, u32)>,
    steps: Seq<TraceRow>,
    n: nat,
    pad_pc: u32,
    pad_count: nat,
) -> bool {
    &&& table.len() == n
    &&& forall|i: int|
        0 <= i < n ==> #[trigger] table[i]@ == if i < rom.len() {
            seq![rom[i].0, rom[i].1, pc_count(steps, rom[i].0) as u32]
        } else if i == rom.len() && pad_count > 0 {
            seq![pad_pc, NOP_WORD, pad_count as u32]
        } else {
            seq![0u32, NOP_WORD, 0u32]
        }
}

/// The program table.
fn prog_table_of(
    rows: &Vec<TraceRow>,
    num_real_steps: usize,
    rom: &Vec<(u32, u32)>,
) -> (t: Vec<[u32; 3]>)
    requires
        num_real_steps <= rows@.len() <= u32::MAX,
    ensures
        prog_table_ok(
            t@,
            rom@,
            rows@.take(num_real_steps as int),
            rows@.len(),
            if num_real_steps < rows@.len() { rows@[num_real_steps as int].pc } else { 0 },
            (rows@.len() - num_real_steps) as nat,
        ),
{
    broadcast use vstd::std_specs::btree::group_btree_axioms;

    proof {
        lemma_u32_key_laws();
    }
    let ghost steps = rows@.take(num_real_steps as int);
    let mut mult: std::collections::BTreeMap<u32, u32> = std::collections::BTreeMap::new();
    let mut i: usize = 0;
    while i < num_real_steps
        invariant
            num_real_steps <= rows@.len() <= u32::MAX,
            i <= num_real_steps,
            u32_keys_ordered(),
            forall|a: u32| #[trigger] mult@.contains_key(a) <==> pc_count(rows@.take(i as int), a) > 0,
            forall|a: u32| #[trigger] mult@.contains_key(a) ==> mult@[a] == pc_count(rows@.take(i as int), a),
        decreases num_real_steps - i,
    {
        let pc = rows[i].pc;
        proof {
            assert(rows@.take(i + 1).drop_last() =~= rows@.take(i as int));
            lemma_pc_count_le(rows@.take(i as int), pc);
        }
        let cur: u32 = match mult.get(&pc) {
            Some(c) => *c,
            None => 0,
        };
        mult.insert(pc, cur + 1);
        i = i + 1;
    }
    assert(rows@.take(i as int) == steps);
    let n = rows.len();
    let m = rom.len();
    let pad_count: usize = n - num_real_steps;
    let pad_pc: u32 = if pad_count > 0 {
        rows[num_real_steps].pc
    } else {
        0
    };
    let mut t: Vec<[u32; 3]> = Vec::new();
    let mut k: usize = 0;
    while k < n
        invariant
            n == rows@.len() <= u32::MAX,
            m == rom@.len(),
            pad_count == n - num_real_steps,
            k <= n,
            t@.len() == k,
            u32_keys_ordered(),
            forall|a: u32| #[trigger] mult@.contains_key(a) <==> pc_count(steps, a) > 0,
            forall|a: u32| #[trigger] mult@.contains_key(a) ==> mult@[a] == pc_count(steps, a),
            forall|j: int|
                0 <= j < k ==> #[trigger] t@[j]@ == if j < m {
                    seq![rom@[j].0, rom@[j].1, pc_count(steps, rom@[j].0) as u32]
                } else if j == m && pad_count > 0 {
                    seq![pad_pc, NOP_WORD, pad_count as u32]
                } else {
                    seq![0u32, NOP_WORD, 0u32]
                },
        decreases n - k,
    {
        let entry: [u32; 3] = if k < m {
            let e = rom[k];
            let c: u32 = match mult.get(&e.0) {
                Some(c) => *c,
                None => 0,
            };
            [e.0, e.1, c]
        } else if k == m && pad_count > 0 {
            [pad_pc, NOP_WORD, pad_count as u32]
        } else {
            [0, NOP_WORD, 0]
        };
        proof {
            if k < m {
                let a = rom@[k as int].0;
                if !mult@.contains_key(a) {
                    assert(pc_count(steps, a) == 0);
                }
                assert(entry@ =~= seq![rom@[k as int].0, rom@[k as int].1, pc_count(steps, a) as u32]);
            } else if k == m && pad_count > 0 {
                assert(entry@ =~= seq![pad_pc, NOP_WORD, pad_count as u32]);
            } else {
                assert(entry@ =~= seq![0u32, NOP_WORD, 0u32]);
            }
        }
        t.push(entry);
        k = k + 1;
    }
    t
}


/// The low and high 16-bit limbs of `d`.
pub open spec fn limb_pair(d: u32) -> Seq<u32> {
    seq![d & 0xFFFF, d >> 16]
}

/// The ordering difference of a sorted neighbour pair: of the clocks when
/// the adjacency flag `same` is 1, else of the keys (both wrapping).
pub open spec fn ordering_diff(same: u32, next_key: u32, curr_key: u32, next_clk: u32, curr_clk: u32) -> u32 {
    if same == 1 {
        wsub(next_clk, curr_clk)
    } else {
        wsub(next_key, curr_key)
    }
}

/// The limbs of an ordering difference.
fn ordering_limbs(same: u32, next_key: u32, curr_key: u32, next_clk: u32, curr_clk: u32) -> (r: [u32; 2])
    ensures
        r@ == limb_pair(ordering_diff(same, next_key, curr_key, next_clk, curr_clk)),
{
    let d = if same == 1 {
        next_clk.wrapping_sub(curr_clk)
    } else {
        next_key.wrapping_sub(curr_key)
    };
    let r = [d & 0xFFFF, d >> 16];
    assert(r@ =~= limb_pair(d));
    r
}

/// The ordering limbs of the sorted memory table: each row against the next
/// (none for the last row).
pub open spec fn ordering_mem_ok(om: Seq<[u32; 2]>, sm: Seq<[u32; 4]>, ma: Seq<[u32; 2]>) -> bool {
    &&& om.len() == sm.len()
    &&& forall|i: int|
        0 <= i < sm.len() ==> #[trigger] om[i]@ == if i + 1 < sm.len() {
            limb_pair(ordering_diff(ma[i + 1][0], sm[i + 1][0], sm[i][0], sm[i + 1][2], sm[i][2]))
        } else {
            seq![0u32, 0u32]
        }
}

/// The memory ordering limbs.
fn ordering_mem_table(sm: &Vec<[u32; 4]>, ma: &Vec<[u32; 2]>) -> (om: Vec<[u32; 2]>)
    requires
        ma@.len() == sm@.len(),
    ensures
        ordering_mem_ok(om@, sm@, ma@),
{
    let n = sm.len();
    let mut om: Vec<[u32; 2]> = Vec::new();
    let mut i: usize = 0;
    while i < n
        invariant
            n == sm@.len() == ma@.len(),
            i <= n,
            om@.len() == i,
            forall|k: int|
                0 <= k < i ==> #[trigger] om@[k]@ == if k + 1 < n {
                    limb_pair(ordering_diff(ma@[k + 1][0], sm@[k + 1][0], sm@[k][0], sm@[k + 1][2], sm@[k][2]))
                } else {
                    seq![0u32, 0u32]
                },
        decreases n - i,
    {
        let e: [u32; 2] = if i + 1 < n {
            ordering_limbs(ma[i + 1][0], sm[i + 1][0], sm[i][0], sm[i + 1][2], sm[i][2])
        } else {
            let z: [u32; 2] = [0, 0];
            assert(z@ =~= seq![0u32, 0u32]);
            z
        };
        om.push(e);
        i = i + 1;
    }
    om
}

/// The ordering limbs of the sorted register table, per slot transition
/// (A to B, B to C, C to the next row's A; the last row has none for C).
pub open spec fn ordering_reg_ok(or: Seq<[[u32; 2]; 3]>, sr: Seq<[[u32; 4]; 3]>, ra: Seq<[[u32; 2]; 3]>) -> bool {
    &&& or.len() == sr.len()
    &&& forall|i: int|
        0 <= i < sr.len() ==> {
            &&& (#[trigger] or[i])[0]@ == limb_pair(
                ordering_diff(ra[i][0][0], sr[i][1][0], sr[i][0][0], sr[i][1][2], sr[i][0][2]),
            )
            &&& or[i][1]@ == limb_pair(
                ordering_diff(ra[i][1][0], sr[i][2][0], sr[i][1][0], sr[i][2][2], sr[i][1][2]),
            )
            &&& or[i][2]@ == if i + 1 < sr.len() {
                limb_pair(ordering_diff(ra[i][2][0], sr[i + 1][0][0], sr[i][2][0], sr[i + 1][0][2], sr[i][2][2]))
            } else {
                seq![0u32, 0u32]
            }
        }
}

/// The register ordering limbs.
fn ordering_reg_table(sr: &Vec<[[u32; 4]; 3]>, ra: &Vec<[[u32; 2]; 3]>) -> (or: Vec<[[u32; 2]; 3]>)
    requires
        ra@.len() == sr@.len(),
    ensures
        ordering_reg_ok(or@, sr@, ra@),
{
    let n = sr.len();
    let mut or: Vec<[[u32; 2]; 3]> = Vec::new();
    let mut i: usize = 0;
    while i < n
        invariant
            n == sr@.len() == ra@.len(),
            i <= n,
            or@.len() == i,
            forall|k: int|
                0 <= k < i ==> {
                    &&& (#[trigger] or@[k])[0]@ == limb_pair(
                        ordering_diff(ra@[k][0][0], sr@[k][1][0], sr@[k][0][0], sr@[k][1][2], sr@[k][0][2]),
                    )
                    &&& or@[k][1]@ == limb_pair(
                        ordering_diff(ra@[k][1][0], sr@[k][2][0], sr@[k][1][0], sr@[k][2][2], sr@[k][1][2]),
                    )
                    &&& or@[k][2]@ == if k + 1 < n {
                        limb_pair(
                            ordering_diff(ra@[k][2][0], sr@[k + 1][0][0], sr@[k][2][0], sr@[k + 1][0][2], sr@[k][2][2]),
                        )
                    } else {
                        seq![0u32, 0u32]
                    }
                },
        decreases n - i,
    {
        let a = ordering_limbs(ra[i][0][0], sr[i][1][0], sr[i][0][0], sr[i][1][2], sr[i][0][2]);
        let b = ordering_limbs(ra[i][1][0], sr[i][2][0], sr[i][1][0], sr[i][2][2], sr[i][1][2]);
        let c: [u32; 2] = if i + 1 < n {
            ordering_limbs(ra[i][2][0], sr[i + 1][0][0], sr[i][2][0], sr[i + 1][0][2], sr[i][2][2])
        } else {
            let z: [u32; 2] = [0, 0];
            assert(z@ =~= seq![0u32, 0u32]);
            z
        };
        or.push([a, b, c]);
        i = i + 1;
    }
    or
}


/// The output table for a trace of `n` rows: the count word, one entry per
/// output `(addr, val, 1)`, then `(0, 0, 0)` fillers up to `n` entries.
pub open spec fn output_table_ok(t: Seq<[u32; 3]>, steps: Seq<TraceRow>, n: nat) -> bool {
    let c = output_count(steps);
    &&& t.len() == if c + 1 >= n { c + 1 } else { n }
    &&& forall|i: int|
        0 <= i < t.len() ==> #[trigger] t[i]@ == if i == 0 {
            seq![OUTPUT_TAPE_ADDR, c as u32, 1u32]
        } else if i <= c {
            seq![(OUTPUT_TAPE_ADDR + 4 + 4 * (i - 1)) as u32, output_value(steps, (i - 1) as nat), 1u32]
        } else {
            seq![0u32, 0u32, 0u32]
        }
}

/// The output table.
fn output_table_of(rows: &Vec<TraceRow>, num_real_steps: usize, n: usize) -> (t: Vec<[u32; 3]>)
    requires
        num_real_steps <= rows@.len(),
        output_count(rows@.take(num_real_steps as int)) <= MAX_OUTPUT_COUNT,
    ensures
        output_table_ok(t@, rows@.take(num_real_steps as int), n as nat),
{
    let ghost steps = rows@.take(num_real_steps as int);
    let outputs = read_outputs_from_trace(rows.as_slice(), num_real_steps);
    let c = outputs.len();
    let mut t: Vec<[u32; 3]> = Vec::new();
    let first: [u32; 3] = [OUTPUT_TAPE_ADDR, c as u32, 1];
    assert(first@ =~= seq![OUTPUT_TAPE_ADDR, c as u32, 1u32]);
    t.push(first);
    let mut j: usize = 0;
    while j < c
        invariant
            c == outputs@.len() == output_count(steps),
            c <= MAX_OUTPUT_COUNT,
            outputs@ == Seq::new(output_count(steps), |i: int| output_value(steps, i as nat)),
            j <= c,
            t@.len() == j + 1,
            forall|i: int|
                0 <= i < t@.len() ==> #[trigger] t@[i]@ == if i == 0 {
                    seq![OUTPUT_TAPE_ADDR, c as u32, 1u32]
                } else {
                    seq![(OUTPUT_TAPE_ADDR + 4 + 4 * (i - 1)) as u32, output_value(steps, (i - 1) as nat), 1u32]
                },
        decreases c - j,
    {
        let addr: u32 = OUTPUT_TAPE_ADDR + 4 + 4 * (j as u32);
        let e: [u32; 3] = [addr, outputs[j], 1];
        assert(e@ =~= seq![(OUTPUT_TAPE_ADDR + 4 + 4 * j) as u32, output_value(steps, j as nat), 1u32]);
        t.push(e);
        j = j + 1;
    }
    while t.len() < n
        invariant
            c == output_count(steps),
            c + 1 <= t@.len(),
            t@.len() <= if c + 1 >= n { c + 1 } else { n as int },
            forall|i: int|
                0 <= i < t@.len() ==> #[trigger] t@[i]@ == if i == 0 {
                    seq![OUTPUT_TAPE_ADDR, c as u32, 1u32]
                } else if i <= c {
                    seq![(OUTPUT_TAPE_ADDR + 4 + 4 * (i - 1)) as u32, output_value(steps, (i - 1) as nat), 1u32]
                } else {
                    seq![0u32, 0u32, 0u32]
                },
        decreases n - t@.len(),
    {
        let z: [u32; 3] = [0, 0, 0];
        assert(z@ =~= seq![0u32, 0u32, 0u32]);
        t.push(z);
    }
    t
}


/// The 16-bit limbs (low, high) of the eight range-checked values of a row:
/// `rs1_val, rs2_val, rd_val, imm, mem_addr, mem_val, next_pc, pc`.
pub open spec fn value_limbs(r: TraceRow) -> Seq<u32> {
    seq![
        r.rs1_val & 0xFFFF, r.rs1_val >> 16,
        r.rs2_val & 0xFFFF, r.rs2_val >> 16,
        r.rd_val & 0xFFFF, r.rd_val >> 16,
        r.imm & 0xFFFF, r.imm >> 16,
        r.mem_addr & 0xFFFF, r.mem_addr >> 16,
        r.mem_val & 0xFFFF, r.mem_val >> 16,
        r.next_pc & 0xFFFF, r.next_pc >> 16,
        r.pc & 0xFFFF, r.pc >> 16,
    ]
}

/// The 24 range-checked limbs of a row: its value limbs, then its memory
/// ordering limbs, then its three register ordering limb pairs.
pub open spec fn row_limbs(r: TraceRow, om: [u32; 2], or: [[u32; 2]; 3]) -> Seq<u32> {
    value_limbs(r) + om@ + or[0]@ + or[1]@ + or[2]@
}

/// How often `v` occurs in `s`.
pub open spec fn occurrences(s: Seq<u32>, v: u32) -> nat
    decreases s.len(),
{
    if s.len() == 0 {
        0
    } else {
        occurrences(s.drop_last(), v) + if s.last() == v {
            1nat
        } else {
            0nat
        }
    }
}

/// How often `v` occurs among all the limbs of `limbs`.
pub open spec fn limb_count(limbs: Seq<[u32; 24]>, v: u32) -> nat
    decreases limbs.len(),
{
    if limbs.len() == 0 {
        0
    } else {
        limb_count(limbs.drop_last(), v) + occurrences(limbs.last()@, v)
    }
}

proof fn lemma_occurrences_le(s: Seq<u32>, v: u32)
    ensures
        occurrences(s, v) <= s.len(),
    decreases s.len(),
{
    if s.len() > 0 {
        lemma_occurrences_le(s.drop_last(), v);
    }
}

proof fn lemma_limb_count_le(limbs: Seq<[u32; 24]>, v: u32)
    ensures
        limb_count(limbs, v) <= 24 * limbs.len(),
    decreases limbs.len(),
{
    if limbs.len() > 0 {
        lemma_limb_count_le(limbs.drop_last(), v);
        lemma_occurrences_le(limbs.last()@, v);
    }
}

/// Every limb below is a 16-bit value.
pub open spec fn limbs_small(s: Seq<u32>) -> bool {
    forall|k: int| 0 <= k < s.len() ==> #[trigger] s[k] < 0x1_0000
}

proof fn lemma_limb_pair_small(d: u32)
    ensures
        limbs_small(limb_pair(d)),
{
    assert(d & 0xFFFF < 0x1_0000) by (bit_vector);
    assert(d >> 16 < 0x1_0000) by (bit_vector);
}

/// The limb table and the range multiplicities: row `i` of `limbs` holds the
/// limbs of row `i`, and `range_mult[i]` counts (truncated to 32 bits) how
/// often the range-table value `i mod 2^16` occurs among all limbs.
pub open spec fn limbs_ok(
    limbs: Seq<[u32; 24]>,
    range_mult: Seq<u32>,
    rows: Seq<TraceRow>,
    om: Seq<[u32; 2]>,
    or: Seq<[[u32; 2]; 3]>,
) -> bool {
    &&& limbs.len() == rows.len()
    &&& forall|i: int| 0 <= i < rows.len() ==> #[trigger] limbs[i]@ == row_limbs(rows[i], om[i], or[i])
    &&& range_mult.len() == rows.len()
    &&& forall|i: int|
        0 <= i < rows.len() ==> #[trigger] range_mult[i] == limb_count(limbs, (i % 0x1_0000) as u32) as u32
}

/// The limbs of one row.
fn limbs_of_row(r: &TraceRow, om: &[u32; 2], or: &[[u32; 2]; 3]) -> (out: [u32; 24])
    ensures
        out@ == row_limbs(*r, *om, *or),
{
    let out: [u32; 24] = [
        r.rs1_val & 0xFFFF, r.rs1_val >> 16,
        r.rs2_val & 0xFFFF, r.rs2_val >> 16,
        r.rd_val & 0xFFFF, r.rd_val >> 16,
        r.imm & 0xFFFF, r.imm >> 16,
        r.mem_addr & 0xFFFF, r.mem_addr >> 16,
        r.mem_val & 0xFFFF, r.mem_val >> 16,
        r.next_pc & 0xFFFF, r.next_pc >> 16,
        r.pc & 0xFFFF, r.pc >> 16,
        om[0], om[1],
        or[0][0], or[0][1],
        or[1][0], or[1][1],
        or[2][0], or[2][1],
    ];
    assert(out@ =~= row_limbs(*r, *om, *or));
    out
}


proof fn lemma_row_limbs_small(r: TraceRow, om: [u32; 2], or: [[u32; 2]; 3])
    requires
        limbs_small(om@),
        limbs_small(or[0]@),
        limbs_small(or[1]@),
        limbs_small(or[2]@),
    ensures
        limbs_small(row_limbs(r, om, or)),
{
    assert forall|x: u32| #[trigger] (x & 0xFFFF) < 0x1_0000 && (x >> 16) < 0x1_0000 by {
        assert((x & 0xFFFF) < 0x1_0000 && (x >> 16) < 0x1_0000) by (bit_vector);
    }
    let s = row_limbs(r, om, or);
    assert forall|k: int| 0 <= k < s.len() implies #[trigger] s[k] < 0x1_0000 by {
        if k >= 16 {
            if k < 18 {
                assert(s[k] == om@[k - 16]);
            } else if k < 20 {
                assert(s[k] == or[0]@[k - 18]);
            } else if k < 22 {
                assert(s[k] == or[1]@[k - 20]);
            } else {
                assert(s[k] == or[2]@[k - 22]);
            }
        }
    }
}

/// The limb table and the range multiplicities.
fn limb_tables(rows: &Vec<TraceRow>, om: &Vec<[u32; 2]>, or: &Vec<[[u32; 2]; 3]>) -> (r: (Vec<[u32; 24]>, Vec<u32>))
    requires
        om@.len() == rows@.len(),
        or@.len() == rows@.len(),
        rows@.len() <= u32::MAX,
        forall|i: int| 0 <= i < rows@.len() ==> limbs_small((#[trigger] om@[i])@),
        forall|i: int|
            0 <= i < rows@.len() ==> limbs_small((#[trigger] or@[i])[0]@) && limbs_small(or@[i][1]@)
                && limbs_small(or@[i][2]@),
    ensures
        limbs_ok(r.0@, r.1@, rows@, om@, or@),
{
    let mut mult_table: Vec<u64> = Vec::new();
    let mut v: usize = 0;
    while v < 0x1_0000
        invariant
            v <= 0x1_0000,
            mult_table@.len() == v,
            forall|x: int| 0 <= x < v ==> mult_table@[x] == 0,
        decreases 0x1_0000 - v,
    {
        mult_table.push(0);
        v = v + 1;
    }
    let n = rows.len();
    let mut limbs: Vec<[u32; 24]> = Vec::new();
    let mut i: usize = 0;
    while i < n
        invariant
            n == rows@.len() == om@.len() == or@.len(),
            n <= u32::MAX,
            i <= n,
            forall|k: int| 0 <= k < n ==> limbs_small((#[trigger] om@[k])@),
            forall|k: int|
                0 <= k < n ==> limbs_small((#[trigger] or@[k])[0]@) && limbs_small(or@[k][1]@)
                    && limbs_small(or@[k][2]@),
            limbs@.len() == i,
            forall|k: int| 0 <= k < i ==> #[trigger] limbs@[k]@ == row_limbs(rows@[k], om@[k], or@[k]),
            mult_table@.len() == 0x1_0000,
            forall|x: u32| x < 0x1_0000 ==> #[trigger] mult_table@[x as int] == limb_count(limbs@, x),
        decreases n - i,
    {
        let row_l = limbs_of_row(&rows[i], &om[i], &or[i]);
        proof {
            lemma_row_limbs_small(rows@[i as int], om@[i as int], or@[i as int]);
        }
        let ghost before = limbs@;
        limbs.push(row_l);
        assert(limbs@.drop_last() =~= before);
        let mut k: usize = 0;
        while k < 24
            invariant
                k <= 24,
                limbs@.len() == i + 1,
                limbs@.last() == row_l,
                limbs@.drop_last() == before,
                i < n <= u32::MAX,
                limbs_small(row_l@),
                mult_table@.len() == 0x1_0000,
                forall|x: u32|
                    x < 0x1_0000 ==> #[trigger] mult_table@[x as int] == limb_count(before, x) + occurrences(
                        row_l@.take(k as int),
                        x,
                    ),
            decreases 24 - k,
        {
            let x = row_l[k];
            proof {
                assert(row_l@.take(k + 1).drop_last() =~= row_l@.take(k as int));
                assert(row_l@.take(k + 1).last() == x);
                lemma_limb_count_le(before, x);
                lemma_occurrences_le(row_l@.take(k as int), x);
                assert(before.len() == i);
            }
            let cur = mult_table[x as usize];
            mult_table.set(x as usize, cur + 1);
            proof {
                assert forall|y: u32| y < 0x1_0000 implies #[trigger] mult_table@[y as int] == limb_count(before, y)
                    + occurrences(row_l@.take(k + 1), y) by {
                    assert(row_l@.take(k + 1).drop_last() =~= row_l@.take(k as int));
                }
            }
            k = k + 1;
        }
        assert(row_l@.take(24) =~= row_l@);
        i = i + 1;
    }
    let mut range_mult: Vec<u32> = Vec::new();
    let mut j: usize = 0;
    while j < n
        invariant
            n == rows@.len(),
            j <= n,
            mult_table@.len() == 0x1_0000,
            forall|x: u32| x < 0x1_0000 ==> #[trigger] mult_table@[x as int] == limb_count(limbs@, x),
            range_mult@.len() == j,
            forall|k: int|
                0 <= k < j ==> #[trigger] range_mult@[k] == limb_count(limbs@, (k % 0x1_0000) as u32) as u32,
        decreases n - j,
    {
        let x: usize = j % 0x1_0000;
        assert(mult_table@[(x as u32) as int] == limb_count(limbs@, x as u32));
        range_mult.push(mult_table[x] as u32);
        j = j + 1;
    }
    (limbs, range_mult)
}


/// `after` is `before` with its auxiliary tables generated for `program`:
/// rows and real-step count kept; the memory and register access tables
/// stably sorted with their adjacency witnesses; the program table built from
/// the sorted, deduplicated ROM of `program` with the fetch counts of the real
/// steps; the ordering and value limbs with their range multiplicities; the
/// output table; and every table covering the rows.
#[verifier::opaque]
pub open spec fn tables_prepared(before: ExecutionTrace, program: Seq<(u32, u32)>, after: ExecutionTrace) -> bool {
    let rows = before.rows@;
    let n = rows.len();
    let num = before.num_real_steps;
    let steps = rows.take(num as int);
    &&& after.rows@ == rows
    &&& after.num_real_steps == num
    &&& sorted_entries(after.sorted_mem@, mem_keyed(rows))
    &&& mem_aux_ok(after.sorted_mem_aux@, after.sorted_mem@)
    &&& after.sorted_reg@.len() == n
    &&& sorted_reg_entries(after.sorted_reg@, reg_keyed(rows))
    &&& reg_aux_ok(after.sorted_reg_aux@, after.sorted_reg@)
    &&& exists|rom: Seq<(u32, u32)>|
        rom_of(rom, program) && prog_table_ok(
            after.prog_table@,
            rom,
            steps,
            n,
            if num < n { rows[num as int].pc } else { 0 },
            (n - num) as nat,
        )
    &&& ordering_mem_ok(
        after.ordering_mem_limbs@,
        after.sorted_mem@,
        after.sorted_mem_aux@,
    )
    &&& ordering_reg_ok(
        after.ordering_reg_limbs@,
        after.sorted_reg@,
        after.sorted_reg_aux@,
    )
    &&& output_table_ok(after.output_table@, steps, n)
    &&& tables_cover(after)
    &&& limbs_ok(
        after.limbs@,
        after.range_mult@,
        rows,
        after.ordering_mem_limbs@,
        after.ordering_reg_limbs@,
    )
}

impl ExecutionTrace {
    /// Generate the sorted auxiliary tables from the execution trace (call
    /// after padding and before `to_columns`): the memory and register access
    /// tables stably sorted with their adjacency witnesses, the program table
    /// built from `program` (sorted by address, one entry per address) with
    /// the fetch counts of the real steps, the ordering and value limbs with
    /// their range multiplicities, and the output table.
    pub fn prepare_sorted_tables(&mut self, program: &[(u32, u32)])
        requires
            1 <= old(self).rows@.len() <= u32::MAX,
            old(self).num_real_steps <= old(self).rows@.len(),
            output_count(old(self).rows@.take(old(self).num_real_steps as int)) <= MAX_OUTPUT_COUNT,
        ensures
            tables_prepared(*old(self), program@, *final(self)),
            final(self).rows@ == old(self).rows@,
            tables_cover(*final(self)),
    {
        let n = self.rows.len();
        let sorted_mem = sorted_mem_table(&self.rows);
        let sorted_mem_aux = mem_aux_table(&sorted_mem);
        let sorted_reg = sorted_reg_table(&self.rows);
        let sorted_reg_aux = reg_aux_table(&sorted_reg);
        let rom = program_rom(program);
        let prog_table = prog_table_of(&self.rows, self.num_real_steps, &rom);
        let ordering_mem_limbs = ordering_mem_table(&sorted_mem, &sorted_mem_aux);
        let ordering_reg_limbs = ordering_reg_table(&sorted_reg, &sorted_reg_aux);
        let output_table = output_table_of(&self.rows, self.num_real_steps, n);
        proof {
            let sm = sorted_mem@;
            assert(sm.len() == n) by {
                let s = choose|s: Seq<(Key3, Entry4)>|
                    {
                        &&& stably_sorted(s, mem_keyed(self.rows@))
                        &&& sm.len() == s.len()
                        &&& forall|i: int| 0 <= i < s.len() ==> #[trigger] sm[i]@ == tup4(s[i].1)
                    };
            }
            assert forall|i: int| 0 <= i < n implies limbs_small((#[trigger] ordering_mem_limbs@[i])@) by {
                if i + 1 < n {
                    lemma_limb_pair_small(
                        ordering_diff(
                            sorted_mem_aux@[i + 1][0],
                            sm[i + 1][0],
                            sm[i][0],
                            sm[i + 1][2],
                            sm[i][2],
                        ),
                    );
                }
            }
            let sr = sorted_reg@;
            let ra = sorted_reg_aux@;
            assert forall|i: int| 0 <= i < n implies limbs_small((#[trigger] ordering_reg_limbs@[i])[0]@)
                && limbs_small(ordering_reg_limbs@[i][1]@) && limbs_small(ordering_reg_limbs@[i][2]@) by {
                lemma_limb_pair_small(ordering_diff(ra[i][0][0], sr[i][1][0], sr[i][0][0], sr[i][1][2], sr[i][0][2]));
                lemma_limb_pair_small(ordering_diff(ra[i][1][0], sr[i][2][0], sr[i][1][0], sr[i][2][2], sr[i][1][2]));
                if i + 1 < n {
                    lemma_limb_pair_small(
                        ordering_diff(ra[i][2][0], sr[i + 1][0][0], sr[i][2][0], sr[i + 1][0][2], sr[i][2][2]),
                    );
                }
            }
        }
        let (limbs, range_mult) = limb_tables(&self.rows, &ordering_mem_limbs, &ordering_reg_limbs);
        self.sorted_mem = sorted_mem;
        self.sorted_mem_aux = sorted_mem_aux;
        self.sorted_reg = sorted_reg;
        self.sorted_reg_aux = sorted_reg_aux;
        self.prog_table = prog_table;
        self.ordering_mem_limbs = ordering_mem_limbs;
        self.ordering_reg_limbs = ordering_reg_limbs;
        self.output_table = output_table;
        self.limbs = limbs;
        self.range_mult = range_mult;
        proof {
            reveal(tables_prepared);
        }
    }
}


/// The one-hot opcode selectors of a class.
pub open spec fn selectors(c: crate::cpu::OpcodeClass) -> Seq<u32> {
    Seq::new(40, |k: int| if k == class_index(c) { 1u32 } else { 0u32 })
}

/// The six sorted-register cells of slot `slot` of row `i`.
pub open spec fn reg_slot_cells(t: ExecutionTrace, i: int, slot: int) -> Seq<u32> {
    t.sorted_reg@[i][slot]@ + t.sorted_reg_aux@[i][slot]@
}

/// The cells a row contributes on its own to columns `CLK` through
/// `SHIFT_CARRY_START + 4`.
pub open spec fn head_cells(r: TraceRow) -> Seq<u32> {
    let base = seq![
        r.clk, r.pc, r.instruction, r.rs1_idx, r.rs2_idx, r.rd_idx, r.rs1_val, r.rs2_val, r.rd_val,
        r.imm, r.next_pc, r.mem_addr, r.mem_val, flag(r.is_load), flag(r.is_store),
        flag(r.branch_taken), r.alu_carry, r.pc_carry,
    ];
    let sound = seq![r.mem_addr_carry, r.jalr_bit0, r.branch_diff_inv];
    base + r.bits_a@ + r.bits_b@ + r.shift_stages@ + sound + r.shift_carry@
}

/// The sorted-memory cells of row `i` (zeros when that table is empty).
pub open spec fn mem_cells(t: ExecutionTrace, i: int) -> Seq<u32> {
    if t.sorted_mem@.len() == 0 {
        zeros(6)
    } else {
        t.sorted_mem@[i]@ + t.sorted_mem_aux@[i]@
    }
}

/// The sorted-register cells of row `i` (zeros when that table is empty).
pub open spec fn reg_cells(t: ExecutionTrace, i: int) -> Seq<u32> {
    if t.sorted_reg@.len() == 0 {
        zeros(18)
    } else {
        reg_slot_cells(t, i, 0) + reg_slot_cells(t, i, 1) + reg_slot_cells(t, i, 2)
    }
}

/// The program-table, value-limb and range-table cells of row `i`.
pub open spec fn prog_limb_cells(t: ExecutionTrace, i: int) -> Seq<u32> {
    let prog = if t.prog_table@.len() == 0 {
        zeros(3)
    } else {
        t.prog_table@[i]@
    };
    let vlimbs = if t.limbs@.len() == 0 {
        zeros(16)
    } else {
        t.limbs@[i]@.take(16)
    };
    let range = if t.limbs@.len() == 0 {
        zeros(2)
    } else {
        seq![(i % 0x1_0000) as u32, t.range_mult@[i]]
    };
    prog + vlimbs + range
}

/// The cells of row `i` taken from the sorted tables, the program table,
/// the value limbs and the range table (columns `SORTED_MEM_ADDR` through
/// `RANGE_MULT`).
pub open spec fn table_cells(t: ExecutionTrace, i: int) -> Seq<u32> {
    mem_cells(t, i) + reg_cells(t, i) + prog_limb_cells(t, i)
}

/// The instruction bits and register-index inverses of a row.
pub open spec fn mid_cells(r: TraceRow) -> Seq<u32> {
    r.instr_bits@ + seq![r.rs1_idx_inv, r.rs2_idx_inv]
}

/// The ordering limbs, halted flag, output table entry and opcode selectors
/// of row `i` (columns `ORDERING_MEM_LO` to the last selector).
pub open spec fn tail_cells(t: ExecutionTrace, i: int) -> Seq<u32> {
    let r = t.rows@[i];
    let ord = if t.limbs@.len() == 0 {
        zeros(8)
    } else {
        t.limbs@[i]@.skip(16)
    };
    let out = if t.output_table@.len() == 0 {
        zeros(3)
    } else {
        t.output_table@[i]@
    };
    ord + seq![flag(r.is_halted)] + out + selectors(r.opcode_class)
}

/// The cells of row `i` of the flattened trace, in column order (before
/// reduction into the field).
pub open spec fn trace_cells(t: ExecutionTrace, i: int) -> Seq<u32> {
    head_cells(t.rows@[i]) + table_cells(t, i) + mid_cells(t.rows@[i]) + tail_cells(t, i)
}

/// The columns a step's row begins with: row `i` of the trace holds its
/// clock, PC, instruction word, the three register indices and values (rs1,
/// rs2, rd), the immediate, the next PC, the memory address and value, the
/// load, store and branch-taken flags as 0/1, and the ALU and PC carries,
/// in that order.
pub proof fn lemma_row_head_cells(t: ExecutionTrace, i: int)
    requires
        0 <= i < t.rows@.len(),
    ensures
        ({
            let r = t.rows@[i];
            let cells = trace_cells(t, i);
            &&& cells[0] == r.clk && cells[1] == r.pc && cells[2] == r.instruction
            &&& cells[3] == r.rs1_idx && cells[4] == r.rs2_idx && cells[5] == r.rd_idx
            &&& cells[6] == r.rs1_val && cells[7] == r.rs2_val && cells[8] == r.rd_val
            &&& cells[9] == r.imm && cells[10] == r.next_pc
            &&& cells[11] == r.mem_addr && cells[12] == r.mem_val
            &&& cells[13] == (if r.is_load { 1u32 } else { 0u32 })
            &&& cells[14] == (if r.is_store { 1u32 } else { 0u32 })
            &&& cells[15] == (if r.branch_taken { 1u32 } else { 0u32 })
            &&& cells[16] == r.alu_carry && cells[17] == r.pc_carry
        }),
{
    let r = t.rows@[i];
    let h = head_cells(r);
    let base = seq![
        r.clk, r.pc, r.instruction, r.rs1_idx, r.rs2_idx, r.rd_idx, r.rs1_val, r.rs2_val, r.rd_val,
        r.imm, r.next_pc, r.mem_addr, r.mem_val, flag(r.is_load), flag(r.is_store),
        flag(r.branch_taken), r.alu_carry, r.pc_carry,
    ];
    assert(base.len() == 18);
    assert forall|k: int| 0 <= k < 18 implies #[trigger] h[k] == base[k] by {
        let sound = seq![r.mem_addr_carry, r.jalr_bit0, r.branch_diff_inv];
        assert(h == base + r.bits_a@ + r.bits_b@ + r.shift_stages@ + sound + r.shift_carry@);
        assert((base + r.bits_a@ + r.bits_b@ + r.shift_stages@ + sound + r.shift_carry@)[k] == base[k]);
    }
    assert forall|k: int| 0 <= k < 18 implies #[trigger] trace_cells(t, i)[k] == h[k] by {
        assert(trace_cells(t, i) == h + table_cells(t, i) + mid_cells(r) + tail_cells(t, i));
        assert((h + table_cells(t, i) + mid_cells(r) + tail_cells(t, i))[k] == h[k]);
    }
    assert(trace_cells(t, i)[0] == h[0]);
    assert(trace_cells(t, i)[17] == h[17]);
}

proof fn lemma_mem_keyed_key(rows: Seq<TraceRow>, x: (Key3, Entry4))
    requires
        mem_keyed(rows).contains(x),
    ensures
        x.0 == (x.1.0, x.1.2, 0u32),
{
    let k = choose|k: int| 0 <= k < mem_keyed(rows).len() && mem_keyed(rows)[k] == x;
}

/// The memory table of a prepared trace is ordered by address, and by clock
/// within an address: of any two entries, the earlier has the smaller
/// address, or the same address and a clock no later.
pub proof fn lemma_sorted_mem_ordered(before: ExecutionTrace, program: Seq<(u32, u32)>, after: ExecutionTrace)
    requires
        tables_prepared(before, program, after),
    ensures
        forall|i: int, j: int|
            0 <= i < j < after.sorted_mem@.len() ==> (#[trigger] after.sorted_mem@[i])[0] < (
            #[trigger] after.sorted_mem@[j])[0] || (after.sorted_mem@[i][0] == after.sorted_mem@[j][0]
                && after.sorted_mem@[i][2] <= after.sorted_mem@[j][2]),
{
    broadcast use vstd::seq_lib::group_to_multiset_ensures;

    reveal(tables_prepared);
    let keyed = mem_keyed(before.rows@);
    let t = after.sorted_mem@;
    let s = choose|s: Seq<(Key3, Entry4)>|
        {
            &&& stably_sorted(s, keyed)
            &&& t.len() == s.len()
            &&& forall|i: int| 0 <= i < s.len() ==> #[trigger] t[i]@ == tup4(s[i].1)
        };
    assert forall|i: int, j: int| 0 <= i < j < t.len() implies (#[trigger] t[i])[0] < (#[trigger] t[j])[0] || (
    t[i][0] == t[j][0] && t[i][2] <= t[j][2]) by {
        assert(s.to_multiset().count(s[i]) > 0);
        assert(s.to_multiset().count(s[j]) > 0);
        assert(keyed.contains(s[i]));
        assert(keyed.contains(s[j]));
        lemma_mem_keyed_key(before.rows@, s[i]);
        lemma_mem_keyed_key(before.rows@, s[j]);
        assert(key_le(s[i].0, s[j].0));
        assert(t[i]@ == tup4(s[i].1));
        assert(t[j]@ == tup4(s[j].1));
        assert(t[i][0] == t[i]@[0] && t[i][2] == t[i]@[2]);
        assert(t[j][0] == t[j]@[0] && t[j][2] == t[j]@[2]);
    }
}

proof fn lemma_reg_keyed_key(rows: Seq<TraceRow>, x: (Key3, Entry4))
    requires
        reg_keyed(rows).contains(x),
    ensures
        x.0 == (x.1.0, x.1.2, x.1.3),
    decreases rows.len(),
{
    if rows.len() > 0 {
        let a = reg_keyed(rows.drop_last());
        let b = reg_triple(rows.last());
        let k = choose|k: int| 0 <= k < reg_keyed(rows).len() && reg_keyed(rows)[k] == x;
        if k < a.len() {
            assert((a + b)[k] == a[k]);
            lemma_reg_keyed_key(rows.drop_last(), x);
        } else {
            assert((a + b)[k] == b[k - a.len()]);
        }
    }
}

/// The register table of a prepared trace is ordered by register index,
/// then clock, then read before write: read in order (three entries per
/// row), of any two entries the earlier has the smaller `(idx, clk,
/// is_write)`, or the same.
pub proof fn lemma_sorted_reg_ordered(before: ExecutionTrace, program: Seq<(u32, u32)>, after: ExecutionTrace)
    requires
        tables_prepared(before, program, after),
    ensures
        forall|i: int, a: int, j: int, b: int|
            0 <= i < after.sorted_reg@.len() && 0 <= j < after.sorted_reg@.len() && 0 <= a < 3 && 0 <= b < 3 && 3 * i
                + a < 3 * j + b ==> {
                let x = #[trigger] after.sorted_reg@[i]@[a];
                let y = #[trigger] after.sorted_reg@[j]@[b];
                x[0] < y[0] || (x[0] == y[0] && (x[2] < y[2] || (x[2] == y[2] && x[3] <= y[3])))
            },
{
    broadcast use vstd::seq_lib::group_to_multiset_ensures;

    reveal(tables_prepared);
    lemma_reg_keyed_len(before.rows@);
    let keyed = reg_keyed(before.rows@);
    let t = after.sorted_reg@;
    let s = choose|s: Seq<(Key3, Entry4)>|
        {
            &&& stably_sorted(s, keyed)
            &&& s.len() == 3 * t.len()
            &&& forall|i: int|
                0 <= i < t.len() ==> {
                    &&& (#[trigger] t[i])[0]@ == tup4(s[3 * i].1)
                    &&& t[i][1]@ == tup4(s[3 * i + 1].1)
                    &&& t[i][2]@ == tup4(s[3 * i + 2].1)
                }
        };
    assert forall|i: int, a: int, j: int, b: int|
        0 <= i < t.len() && 0 <= j < t.len() && 0 <= a < 3 && 0 <= b < 3 && 3 * i + a < 3 * j + b implies {
        let x = #[trigger] t[i]@[a];
        let y = #[trigger] t[j]@[b];
        x[0] < y[0] || (x[0] == y[0] && (x[2] < y[2] || (x[2] == y[2] && x[3] <= y[3])))
    } by {
        let p = 3 * i + a;
        let q = 3 * j + b;
        assert(t[i]@[a]@ == tup4(s[p].1)) by {
            assert(t[i]@[a] == t[i][a]);
        }
        assert(t[j]@[b]@ == tup4(s[q].1)) by {
            assert(t[j]@[b] == t[j][b]);
        }
        assert(s.to_multiset().count(s[p]) > 0);
        assert(s.to_multiset().count(s[q]) > 0);
        assert(keyed.contains(s[p]));
        assert(keyed.contains(s[q]));
        lemma_reg_keyed_key(before.rows@, s[p]);
        lemma_reg_keyed_key(before.rows@, s[q]);
        assert(key_le(s[p].0, s[q].0));
        let x = t[i]@[a];
        let y = t[j]@[b];
        assert(x[0] == x@[0] && x[2] == x@[2] && x[3] == x@[3]);
        assert(y[0] == y@[0] && y[2] == y@[2] && y[3] == y@[3]);
    }
}

/// Every auxiliary table is empty or covers every row.
pub open spec fn tables_cover(t: ExecutionTrace) -> bool {
    let n = t.rows@.len();
    &&& t.sorted_mem@.len() == 0 || (t.sorted_mem@.len() >= n && t.sorted_mem_aux@.len() >= n)
    &&& t.sorted_reg@.len() == 0 || (t.sorted_reg@.len() >= n && t.sorted_reg_aux@.len() >= n)
    &&& t.prog_table@.len() == 0 || t.prog_table@.len() >= n
    &&& t.limbs@.len() == 0 || (t.limbs@.len() >= n && t.range_mult@.len() >= n)
    &&& t.output_table@.len() == 0 || t.output_table@.len() >= n
}

/// Append the words of `a` to `v`.
pub(crate) fn push_all(v: &mut Vec<u32>, a: &[u32])
    ensures
        final(v)@ == old(v)@ + a@,
{
    let mut k: usize = 0;
    while k < a.len()
        invariant
            k <= a@.len(),
            v@ == old(v)@ + a@.take(k as int),
        decreases a@.len() - k,
    {
        v.push(a[k]);
        k = k + 1;
        assert(v@ =~= old(v)@ + a@.take(k as int));
    }
    assert(a@.take(k as int) =~= a@);
}

/// Append `k` zeros to `v`.
pub(crate) fn push_zeros(v: &mut Vec<u32>, k: usize)
    ensures
        final(v)@ == old(v)@ + zeros(k as nat),
{
    let mut j: usize = 0;
    while j < k
        invariant
            j <= k,
            v@ == old(v)@ + zeros(j as nat),
        decreases k - j,
    {
        v.push(0);
        j = j + 1;
        assert(v@ =~= old(v)@ + zeros(j as nat));
    }
}


/// Append the one-hot selectors of class `c`.
fn push_selectors(v: &mut Vec<u32>, c: crate::cpu::OpcodeClass)
    ensures
        final(v)@ == old(v)@ + selectors(c),
{
    let idx = c.index();
    let mut k: usize = 0;
    while k < 40
        invariant
            k <= 40,
            idx == class_index(c),
            v@ == old(v)@ + selectors(c).take(k as int),
        decreases 40 - k,
    {
        v.push(if k == idx { 1 } else { 0 });
        k = k + 1;
        assert(v@ =~= old(v)@ + selectors(c).take(k as int));
    }
    assert(selectors(c).take(40) =~= selectors(c));
}

/// The cells of `r` in columns `CLK` through `SHIFT_CARRY_START + 4`.
fn push_head(v: &mut Vec<u32>, r: &TraceRow)
    ensures
        final(v)@ == old(v)@ + head_cells(*r),
{
    let base: [u32; 18] = [
        r.clk, r.pc, r.instruction, r.rs1_idx, r.rs2_idx, r.rd_idx, r.rs1_val, r.rs2_val, r.rd_val,
        r.imm, r.next_pc, r.mem_addr, r.mem_val, if r.is_load { 1 } else { 0 },
        if r.is_store { 1 } else { 0 }, if r.branch_taken { 1 } else { 0 }, r.alu_carry, r.pc_carry,
    ];
    push_all(v, &base);
    push_all(v, &r.bits_a);
    push_all(v, &r.bits_b);
    push_all(v, &r.shift_stages);
    let sound: [u32; 3] = [r.mem_addr_carry, r.jalr_bit0, r.branch_diff_inv];
    push_all(v, &sound);
    push_all(v, &r.shift_carry);
    assert(v@ =~= old(v)@ + head_cells(*r));
}

/// The instruction bits and index inverses of `r`.
fn push_mid(v: &mut Vec<u32>, r: &TraceRow)
    ensures
        final(v)@ == old(v)@ + mid_cells(*r),
{
    push_all(v, &r.instr_bits);
    let inv: [u32; 2] = [r.rs1_idx_inv, r.rs2_idx_inv];
    push_all(v, &inv);
    assert(v@ =~= old(v)@ + mid_cells(*r));
}

impl ExecutionTrace {
    /// The sorted-memory cells of row `i`.
    fn push_mem_cells(&self, v: &mut Vec<u32>, i: usize)
        requires
            i < self.rows@.len(),
            tables_cover(*self),
        ensures
            final(v)@ == old(v)@ + mem_cells(*self, i as int),
    {
        if self.sorted_mem.len() == 0 {
            push_zeros(v, 6);
        } else {
            push_all(v, &self.sorted_mem[i]);
            push_all(v, &self.sorted_mem_aux[i]);
        }
        assert(v@ =~= old(v)@ + mem_cells(*self, i as int));
    }

    /// The sorted-register cells of row `i`.
    fn push_reg_cells(&self, v: &mut Vec<u32>, i: usize)
        requires
            i < self.rows@.len(),
            tables_cover(*self),
        ensures
            final(v)@ == old(v)@ + reg_cells(*self, i as int),
    {
        if self.sorted_reg.len() == 0 {
            push_zeros(v, 18);
        } else {
            push_all(v, &self.sorted_reg[i][0]);
            push_all(v, &self.sorted_reg_aux[i][0]);
            push_all(v, &self.sorted_reg[i][1]);
            push_all(v, &self.sorted_reg_aux[i][1]);
            push_all(v, &self.sorted_reg[i][2]);
            push_all(v, &self.sorted_reg_aux[i][2]);
        }
        assert(v@ =~= old(v)@ + reg_cells(*self, i as int));
    }

    /// The program-table, value-limb and range-table cells of row `i`.
    fn push_prog_limb_cells(&self, v: &mut Vec<u32>, i: usize)
        requires
            i < self.rows@.len(),
            tables_cover(*self),
        ensures
            final(v)@ == old(v)@ + prog_limb_cells(*self, i as int),
    {
        if self.prog_table.len() == 0 {
            push_zeros(v, 3);
        } else {
            push_all(v, &self.prog_table[i]);
        }
        if self.limbs.len() == 0 {
            push_zeros(v, 16);
            push_zeros(v, 2);
        } else {
            let l = &self.limbs[i];
            let vl: [u32; 16] = [
                l[0], l[1], l[2], l[3], l[4], l[5], l[6], l[7], l[8], l[9], l[10], l[11], l[12], l[13],
                l[14], l[15],
            ];
            assert(vl@ =~= l@.take(16));
            push_all(v, &vl);
            let range: [u32; 2] = [(i % 0x1_0000) as u32, self.range_mult[i]];
            push_all(v, &range);
        }
        assert(v@ =~= old(v)@ + prog_limb_cells(*self, i as int));
    }

    /// The table cells of row `i`.
    fn push_tables(&self, v: &mut Vec<u32>, i: usize)
        requires
            i < self.rows@.len(),
            tables_cover(*self),
        ensures
            final(v)@ == old(v)@ + table_cells(*self, i as int),
    {
        self.push_mem_cells(v, i);
        self.push_reg_cells(v, i);
        self.push_prog_limb_cells(v, i);
        assert(v@ =~= old(v)@ + table_cells(*self, i as int));
    }

    /// The ordering limbs, halted flag, output entry and selectors of row `i`.
    fn push_tail(&self, v: &mut Vec<u32>, i: usize)
        requires
            i < self.rows@.len(),
            tables_cover(*self),
        ensures
            final(v)@ == old(v)@ + tail_cells(*self, i as int),
    {
        let r = &self.rows[i];
        if self.limbs.len() == 0 {
            push_zeros(v, 8);
        } else {
            let l = &self.limbs[i];
            let ol: [u32; 8] = [l[16], l[17], l[18], l[19], l[20], l[21], l[22], l[23]];
            assert(ol@ =~= l@.skip(16));
            push_all(v, &ol);
        }
        let halted: [u32; 1] = [if r.is_halted { 1 } else { 0 }];
        push_all(v, &halted);
        if self.output_table.len() == 0 {
            push_zeros(v, 3);
        } else {
            push_all(v, &self.output_table[i]);
        }
        push_selectors(v, r.opcode_class);
        assert(v@ =~= old(v)@ + tail_cells(*self, i as int));
    }

    /// The cells of row `i`, in column order.
    fn row_cells(&self, i: usize) -> (v: Vec<u32>)
        requires
            i < self.rows@.len(),
            tables_cover(*self),
        ensures
            v@ == trace_cells(*self, i as int),
    {
        let mut v: Vec<u32> = Vec::new();
        push_head(&mut v, &self.rows[i]);
        self.push_tables(&mut v, i);
        push_mid(&mut v, &self.rows[i]);
        self.push_tail(&mut v, i);
        assert(v@ =~= trace_cells(*self, i as int));
        v
    }
}


proof fn lemma_trace_cells_len(t: ExecutionTrace, i: int)
    requires
        0 <= i < t.rows@.len(),
        tables_cover(t),
    ensures
        trace_cells(t, i).len() == NUM_TRACE_COLS,
{
    let r = t.rows@[i];
    assert(head_cells(r).len() == 95);
    assert(mem_cells(t, i).len() == 6);
    assert(reg_cells(t, i).len() == 18);
    assert(prog_limb_cells(t, i).len() == 21);
    assert(mid_cells(r).len() == 34);
    assert(tail_cells(t, i).len() == 52);
}

impl ExecutionTrace {
    /// Flatten into `NUM_TRACE_COLS` columns of field elements: column `c`
    /// holds, for each row, that row's cell `c` reduced modulo `P`. Call
    /// `prepare_sorted_tables` first; an auxiliary table left empty gives
    /// zero columns.
    pub fn to_columns(&self) -> (cols: Vec<Vec<u32>>)
        requires
            tables_cover(*self),
        ensures
            cols@.len() == NUM_TRACE_COLS,
            forall|c: int| 0 <= c < NUM_TRACE_COLS ==> (#[trigger] cols@[c])@.len() == self.rows@.len(),
            forall|c: int, i: int|
                0 <= c < NUM_TRACE_COLS && 0 <= i < self.rows@.len() ==> #[trigger] cols@[c]@[i]
                    == trace_cells(*self, i)[c] % P,
    {
        let n = self.rows.len();
        let mut cells: Vec<Vec<u32>> = Vec::new();
        let mut i: usize = 0;
        while i < n
            invariant
                n == self.rows@.len(),
                tables_cover(*self),
                i <= n,
                cells@.len() == i,
                forall|k: int| 0 <= k < i ==> (#[trigger] cells@[k])@ == trace_cells(*self, k),
            decreases n - i,
        {
            cells.push(self.row_cells(i));
            i = i + 1;
        }
        let mut cols: Vec<Vec<u32>> = Vec::new();
        let mut c: usize = 0;
        while c < NUM_TRACE_COLS
            invariant
                n == self.rows@.len(),
                tables_cover(*self),
                cells@.len() == n,
                forall|k: int| 0 <= k < n ==> (#[trigger] cells@[k])@ == trace_cells(*self, k),
                c <= NUM_TRACE_COLS,
                cols@.len() == c,
                forall|d: int| 0 <= d < c ==> (#[trigger] cols@[d])@.len() == n,
                forall|d: int, k: int|
                    0 <= d < c && 0 <= k < n ==> #[trigger] cols@[d]@[k] == trace_cells(*self, k)[d] % P,
            decreases NUM_TRACE_COLS - c,
        {
            let mut col: Vec<u32> = Vec::new();
            let mut k: usize = 0;
            while k < n
                invariant
                    n == self.rows@.len(),
                    tables_cover(*self),
                    cells@.len() == n,
                    forall|j: int| 0 <= j < n ==> (#[trigger] cells@[j])@ == trace_cells(*self, j),
                    c < NUM_TRACE_COLS,
                    k <= n,
                    col@.len() == k,
                    forall|j: int| 0 <= j < k ==> #[trigger] col@[j] == trace_cells(*self, j)[c as int] % P,
                decreases n - k,
            {
                proof {
                    lemma_trace_cells_len(*self, k as int);
                }
                col.push(reduce(cells[k][c]));
                k = k + 1;
            }
            cols.push(col);
            c = c + 1;
        }
        cols
    }
}

} // verus!
