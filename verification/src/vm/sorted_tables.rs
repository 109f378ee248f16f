//! What the sorted tables of a successful run's trace satisfy: read after
//! write. The memory table is the run's memory accesses stably sorted by
//! `(used, addr, clk)`, the register table its register accesses sorted by
//! `(idx, clk, is_write)`; in each, a read carries the value of the entry
//! before it when that entry is an access of the same cell, and 0 when it is
//! the first access of its cell.

use vstd::prelude::*;

use super::columns::{layout_of, mem_accesses, pad_mem_accesses, pad_reg_accesses, reg_accesses, Access5, VmLayout};
use super::consistency::{lemma_run_io_and_reads, mem_after, reads_consistent, reg_after, shapes_ok};
use super::{lemma_run_trace_ok, program_wellformed, run_spec, Instruction, StepRecord};
use crate::sorting::{key_le, stably_sorted, Key3};
use crate::tables::Entry4;


verus! {

broadcast use vstd::seq_lib::group_to_multiset_ensures;

/// The entry a record contributes to the memory table.
pub open spec fn mem_entry(r: StepRecord) -> (Key3, Access5) {
    ((r.mem.3, r.mem.0, r.clk), (r.mem.0, r.mem.1, r.clk, r.mem.2, r.mem.3))
}

/// Record `m` of `t` stores to `addr`.
pub open spec fn stores_to(t: Seq<StepRecord>, m: int, addr: u32) -> bool {
    t[m].mem.3 == 1 && t[m].mem.2 == 1 && t[m].mem.0 == addr
}

proof fn lemma_mem_after_skip(t: Seq<StepRecord>, addr: u32, lo: nat, hi: nat)
    requires
        lo <= hi <= t.len(),
        forall|m: int| lo <= m < hi ==> !#[trigger] stores_to(t, m, addr),
    ensures
        mem_after(t, hi, addr) == mem_after(t, lo, addr),
    decreases hi,
{
    if hi > lo {
        assert(!stores_to(t, hi - 1, addr));
        lemma_mem_after_skip(t, addr, lo, (hi - 1) as nat);
    }
}

/// An entry of the (padded) access list: its key is `(used, addr, clk)` of
/// its payload, and a used entry is the entry of the record at its clock.
proof fn lemma_access_entry(t: Seq<StepRecord>, n: nat, x: (Key3, Access5))
    requires
        forall|i: int| 0 <= i < t.len() ==> (#[trigger] t[i]).clk == i,
        (mem_accesses(t) + pad_mem_accesses(t.len(), n)).contains(x),
    ensures
        x.0 == (x.1.4, x.1.0, x.1.2),
        x.1.4 != 0 ==> x.1.2 < t.len() && x == mem_entry(t[x.1.2 as int]),
{
    let a = mem_accesses(t) + pad_mem_accesses(t.len(), n);
    let q = choose|q: int| 0 <= q < a.len() && a[q] == x;
    if q < t.len() {
        assert(a[q] == mem_accesses(t)[q]);
    } else {
        assert(a[q] == pad_mem_accesses(t.len(), n)[q - t.len()]);
    }
}

/// The entry of record `m` sits somewhere in the sorted table.
proof fn lemma_entry_in_table(t: Seq<StepRecord>, n: nat, s: Seq<(Key3, Access5)>, m: int) -> (q: int)
    requires
        stably_sorted(s, mem_accesses(t) + pad_mem_accesses(t.len(), n)),
        0 <= m < t.len(),
    ensures
        0 <= q < s.len(),
        s[q] == mem_entry(t[m]),
{
    let a = mem_accesses(t) + pad_mem_accesses(t.len(), n);
    assert(a[m] == mem_accesses(t)[m]);
    assert(a.contains(mem_entry(t[m])));
    assert(a.to_multiset().count(mem_entry(t[m])) > 0);
    assert(s.contains(mem_entry(t[m])));
    choose|q: int| 0 <= q < s.len() && s[q] == mem_entry(t[m])
}

proof fn lemma_table_entry(t: Seq<StepRecord>, n: nat, s: Seq<(Key3, Access5)>, q: int)
    requires
        forall|i: int| 0 <= i < t.len() ==> (#[trigger] t[i]).clk == i,
        stably_sorted(s, mem_accesses(t) + pad_mem_accesses(t.len(), n)),
        0 <= q < s.len(),
    ensures
        s[q].0 == (s[q].1.4, s[q].1.0, s[q].1.2),
        s[q].1.4 != 0 ==> s[q].1.2 < t.len() && s[q] == mem_entry(t[s[q].1.2 as int]),
{
    let a = mem_accesses(t) + pad_mem_accesses(t.len(), n);
    assert(s.contains(s[q]));
    assert(s.to_multiset().count(s[q]) > 0);
    assert(a.contains(s[q]));
    lemma_access_entry(t, n, s[q]);
}

/// Read after write in the sorted memory table of records `t` padded to `n`
/// rows.
proof fn lemma_sorted_mem_read(t: Seq<StepRecord>, n: nat, s: Seq<(Key3, Access5)>, k: int)
    requires
        reads_consistent(t),
        shapes_ok(t),
        forall|i: int| 0 <= i < t.len() ==> (#[trigger] t[i]).clk == i,
        stably_sorted(s, mem_accesses(t) + pad_mem_accesses(t.len(), n)),
        0 <= k < s.len(),
        s[k].1.4 == 1,
        s[k].1.3 == 0,
    ensures
        s[k].1.1 == (if k > 0 && s[k - 1].1.4 == 1 && s[k - 1].1.0 == s[k].1.0 {
            s[k - 1].1.1
        } else {
            0
        }),
{
    lemma_table_entry(t, n, s, k);
    let i = s[k].1.2 as int;
    let addr = s[k].1.0;
    assert(t[i].mem.3 == 1 && t[i].mem.2 == 0 && t[i].mem.0 == addr);
    assert(s[k].1.1 == mem_after(t, i as nat, addr));
    if k > 0 && s[k - 1].1.4 == 1 && s[k - 1].1.0 == addr {
        lemma_table_entry(t, n, s, k - 1);
        let j = s[k - 1].1.2 as int;
        assert(key_le(s[k - 1].0, s[k].0));
        if j < i {
            assert forall|m: int| j + 1 <= m < i implies !#[trigger] stores_to(t, m, addr) by {
                if stores_to(t, m, addr) {
                    let q = lemma_entry_in_table(t, n, s, m);
                    if q <= k - 1 {
                        if q < k - 1 {
                            assert(key_le(s[q].0, s[k - 1].0));
                        }
                    } else if q > k {
                        assert(key_le(s[k].0, s[q].0));
                    }
                }
            }
            lemma_mem_after_skip(t, addr, (j + 1) as nat, i as nat);
            assert(record_is_read_or_write(t[j]));
            if t[j].mem.2 == 0 {
                assert(t[j].mem.1 == mem_after(t, j as nat, addr));
            }
        }
    } else {
        assert forall|m: int| 0 <= m < i implies !#[trigger] stores_to(t, m, addr) by {
            if stores_to(t, m, addr) {
                let q = lemma_entry_in_table(t, n, s, m);
                if q >= k {
                    if q > k {
                        assert(key_le(s[k].0, s[q].0));
                    }
                } else {
                    if q < k - 1 {
                        assert(key_le(s[q].0, s[k - 1].0));
                    }
                    assert(key_le(s[k - 1].0, s[k].0));
                    lemma_table_entry(t, n, s, k - 1);
                }
            }
        }
        lemma_mem_after_skip(t, addr, 0, i as nat);
    }
}

/// A used memory tuple is a read or a write.
pub open spec fn record_is_read_or_write(r: StepRecord) -> bool {
    r.mem.3 == 1 ==> r.mem.2 == 0 || r.mem.2 == 1
}

/// Memory read after write in the trace of a successful run: in the sorted
/// memory table that `build_columns` lays out, every load (a used read
/// entry) carries the value of the entry before it when that entry is a used
/// access of the same address, and 0 when it is the first access of its
/// address.
pub proof fn lemma_sorted_memory_reads(
    l: VmLayout,
    program: Seq<Instruction>,
    inputs: Seq<u32>,
    max_steps: nat,
    k: int,
)
    requires
        program_wellformed(program),
        inputs.len() <= u32::MAX,
        max_steps <= u32::MAX,
        run_spec(program, inputs, max_steps) == Ok::<(Seq<StepRecord>, Seq<u32>), super::RunError>((l.records, l.outputs)),
        layout_of(l, l.records, program, inputs, l.outputs),
        0 <= k < l.sorted_mem.len(),
        l.sorted_mem[k].1.4 == 1,
        l.sorted_mem[k].1.3 == 0,
    ensures
        l.sorted_mem[k].1.1 == (if k > 0 && l.sorted_mem[k - 1].1.4 == 1 && l.sorted_mem[k - 1].1.0
            == l.sorted_mem[k].1.0 {
            l.sorted_mem[k - 1].1.1
        } else {
            0
        }),
{
    lemma_run_trace_ok(program, inputs, max_steps);
    lemma_run_io_and_reads(program, inputs, max_steps);
    lemma_sorted_mem_read(l.records, l.n, l.sorted_mem, k);
}

/// The entry slot `k` of a record contributes to the register table.
pub open spec fn reg_entry(r: StepRecord, k: int) -> (Key3, Entry4) {
    ((r.reg[k].0, r.clk, r.reg[k].2), (r.reg[k].0, r.reg[k].1, r.clk, r.reg[k].2))
}

/// Record `m` of `t` writes register `reg` (slot C is the writing slot).
pub open spec fn writes_reg(t: Seq<StepRecord>, m: int, reg: u32) -> bool {
    t[m].reg[2].2 == 1 && t[m].reg[2].0 == reg
}

proof fn lemma_reg_accesses_at(t: Seq<StepRecord>)
    ensures
        reg_accesses(t).len() == 3 * t.len(),
        forall|q: int| 0 <= q < 3 * t.len() ==> #[trigger] reg_accesses(t)[q] == reg_entry(t[q / 3], q % 3),
    decreases t.len(),
{
    if t.len() > 0 {
        let u = t.drop_last();
        lemma_reg_accesses_at(u);
        assert forall|q: int| 0 <= q < 3 * t.len() implies #[trigger] reg_accesses(t)[q] == reg_entry(
            t[q / 3],
            q % 3,
        ) by {
            if q < 3 * u.len() {
                assert(reg_accesses(t)[q] == reg_accesses(u)[q]);
                assert(u[q / 3] == t[q / 3]);
            } else {
                assert(q / 3 == u.len());
            }
        }
    }
}

proof fn lemma_pad_reg_accesses(from: nat, to: nat)
    ensures
        forall|q: int|
            0 <= q < pad_reg_accesses(from, to).len() ==> (#[trigger] pad_reg_accesses(from, to)[q]).1.0 == 0
                && pad_reg_accesses(from, to)[q].1.1 == 0 && pad_reg_accesses(from, to)[q].1.3 == 0
                && pad_reg_accesses(from, to)[q].0 == (0u32, pad_reg_accesses(from, to)[q].1.2, 0u32),
    decreases to,
{
    if to > from {
        lemma_pad_reg_accesses(from, (to - 1) as nat);
        let u = pad_reg_accesses(from, (to - 1) as nat);
        assert forall|q: int| 0 <= q < pad_reg_accesses(from, to).len() implies (#[trigger] pad_reg_accesses(
            from,
            to,
        )[q]).1.0 == 0 && pad_reg_accesses(from, to)[q].1.1 == 0 && pad_reg_accesses(from, to)[q].1.3 == 0
            && pad_reg_accesses(from, to)[q].0 == (0u32, pad_reg_accesses(from, to)[q].1.2, 0u32) by {
            if q < u.len() {
                assert(pad_reg_accesses(from, to)[q] == u[q]);
            }
        }
    }
}

proof fn lemma_reg_after_skip(t: Seq<StepRecord>, reg: u32, lo: nat, hi: nat)
    requires
        shapes_ok(t),
        lo <= hi <= t.len(),
        forall|m: int| lo <= m < hi ==> !#[trigger] writes_reg(t, m, reg),
    ensures
        reg_after(t, hi, reg) == reg_after(t, lo, reg),
    decreases hi,
{
    if hi > lo {
        assert(!writes_reg(t, hi - 1, reg));
        assert(crate::vm::consistency::record_shape(t[hi - 1]));
        lemma_reg_after_skip(t, reg, lo, (hi - 1) as nat);
    }
}

/// An entry of the sorted register table: its key is `(idx, clk, is_write)`
/// of its payload, a read or write of `r0` carries 0 when it comes from
/// padding, and an entry of another register is slot `k` of the record at
/// its clock.
proof fn lemma_reg_table_entry(t: Seq<StepRecord>, n: nat, s: Seq<(Key3, Entry4)>, q: int) -> (k: int)
    requires
        forall|i: int| 0 <= i < t.len() ==> (#[trigger] t[i]).clk == i,
        stably_sorted(s, reg_accesses(t) + pad_reg_accesses(t.len(), n)),
        0 <= q < s.len(),
    ensures
        s[q].0 == (s[q].1.0, s[q].1.2, s[q].1.3),
        s[q].1.0 != 0 ==> 0 <= k < 3 && s[q].1.2 < t.len() && s[q] == reg_entry(t[s[q].1.2 as int], k),
{
    let a = reg_accesses(t) + pad_reg_accesses(t.len(), n);
    assert(s.contains(s[q]));
    assert(s.to_multiset().count(s[q]) > 0);
    assert(a.contains(s[q]));
    let p = choose|p: int| 0 <= p < a.len() && a[p] == s[q];
    lemma_reg_accesses_at(t);
    lemma_pad_reg_accesses(t.len(), n);
    if p < 3 * t.len() {
        assert(a[p] == reg_accesses(t)[p]);
        assert(t[p / 3].clk == p / 3);
        p % 3
    } else {
        assert(a[p] == pad_reg_accesses(t.len(), n)[p - 3 * t.len()]);
        0
    }
}

/// The entry of slot `k` of record `m` sits somewhere in the sorted table.
proof fn lemma_reg_entry_in_table(t: Seq<StepRecord>, n: nat, s: Seq<(Key3, Entry4)>, m: int, k: int) -> (q: int)
    requires
        stably_sorted(s, reg_accesses(t) + pad_reg_accesses(t.len(), n)),
        0 <= m < t.len(),
        0 <= k < 3,
    ensures
        0 <= q < s.len(),
        s[q] == reg_entry(t[m], k),
{
    let a = reg_accesses(t) + pad_reg_accesses(t.len(), n);
    lemma_reg_accesses_at(t);
    assert(a[3 * m + k] == reg_accesses(t)[3 * m + k]);
    assert((3 * m + k) / 3 == m && (3 * m + k) % 3 == k);
    assert(a.contains(reg_entry(t[m], k)));
    assert(a.to_multiset().count(reg_entry(t[m], k)) > 0);
    assert(s.contains(reg_entry(t[m], k)));
    choose|q: int| 0 <= q < s.len() && s[q] == reg_entry(t[m], k)
}

/// Read after write in the sorted register table of records `t` padded to
/// `n` rows.
proof fn lemma_sorted_reg_read(t: Seq<StepRecord>, n: nat, s: Seq<(Key3, Entry4)>, k: int)
    requires
        reads_consistent(t),
        shapes_ok(t),
        forall|i: int| 0 <= i < t.len() ==> (#[trigger] t[i]).clk == i,
        stably_sorted(s, reg_accesses(t) + pad_reg_accesses(t.len(), n)),
        0 <= k < s.len(),
        s[k].1.3 == 0,
        s[k].1.0 != 0,
    ensures
        s[k].1.1 == (if k > 0 && s[k - 1].1.0 == s[k].1.0 {
            s[k - 1].1.1
        } else {
            0
        }),
{
    let sl = lemma_reg_table_entry(t, n, s, k);
    let c = s[k].1.2 as int;
    let reg = s[k].1.0;
    assert(t[c].reg[sl].2 == 0);
    assert(s[k].1.1 == reg_after(t, c as nat, reg));
    if k > 0 && s[k - 1].1.0 == reg {
        let sl2 = lemma_reg_table_entry(t, n, s, k - 1);
        let c2 = s[k - 1].1.2 as int;
        assert(key_le(s[k - 1].0, s[k].0));
        assert(crate::vm::consistency::record_shape(t[c2]));
        if s[k - 1].1.3 == 0 {
            assert(t[c2].reg[sl2].2 == 0);
            assert(s[k - 1].1.1 == reg_after(t, c2 as nat, reg));
            assert forall|m: int| c2 <= m < c implies !#[trigger] writes_reg(t, m, reg) by {
                if writes_reg(t, m, reg) {
                    let q = lemma_reg_entry_in_table(t, n, s, m, 2);
                    if q <= k - 1 {
                        if q < k - 1 {
                            assert(key_le(s[q].0, s[k - 1].0));
                        }
                    } else if q > k {
                        assert(key_le(s[k].0, s[q].0));
                    }
                }
            }
            lemma_reg_after_skip(t, reg, c2 as nat, c as nat);
        } else {
            assert(sl2 == 2);
            assert(writes_reg(t, c2, reg));
            assert forall|m: int| c2 + 1 <= m < c implies !#[trigger] writes_reg(t, m, reg) by {
                if writes_reg(t, m, reg) {
                    let q = lemma_reg_entry_in_table(t, n, s, m, 2);
                    if q <= k - 1 {
                        if q < k - 1 {
                            assert(key_le(s[q].0, s[k - 1].0));
                        }
                    } else if q > k {
                        assert(key_le(s[k].0, s[q].0));
                    }
                }
            }
            lemma_reg_after_skip(t, reg, (c2 + 1) as nat, c as nat);
        }
    } else {
        assert forall|m: int| 0 <= m < c implies !#[trigger] writes_reg(t, m, reg) by {
            if writes_reg(t, m, reg) {
                let q = lemma_reg_entry_in_table(t, n, s, m, 2);
                if q >= k {
                    if q > k {
                        assert(key_le(s[k].0, s[q].0));
                    }
                } else {
                    if q < k - 1 {
                        assert(key_le(s[q].0, s[k - 1].0));
                    }
                    assert(key_le(s[k - 1].0, s[k].0));
                    lemma_reg_table_entry(t, n, s, k - 1);
                }
            }
        }
        lemma_reg_after_skip(t, reg, 0, c as nat);
    }
}

/// Register read after write in the trace of a successful run: in the
/// sorted register table that `build_columns` lays out, every read of a
/// register other than `r0` carries the value of the entry before it when
/// that entry is an access of the same register, and 0 when it is the first
/// access of its register; every read of `r0` carries 0.
pub proof fn lemma_sorted_register_reads(
    l: VmLayout,
    program: Seq<Instruction>,
    inputs: Seq<u32>,
    max_steps: nat,
    k: int,
)
    requires
        program_wellformed(program),
        inputs.len() <= u32::MAX,
        max_steps <= u32::MAX,
        run_spec(program, inputs, max_steps) == Ok::<(Seq<StepRecord>, Seq<u32>), super::RunError>((l.records, l.outputs)),
        layout_of(l, l.records, program, inputs, l.outputs),
        0 <= k < l.sorted_reg.len(),
        l.sorted_reg[k].1.3 == 0,
    ensures
        l.sorted_reg[k].1.0 != 0 ==> l.sorted_reg[k].1.1 == (if k > 0 && l.sorted_reg[k - 1].1.0
            == l.sorted_reg[k].1.0 {
            l.sorted_reg[k - 1].1.1
        } else {
            0
        }),
        l.sorted_reg[k].1.0 == 0 ==> l.sorted_reg[k].1.1 == 0,
{
    lemma_run_trace_ok(program, inputs, max_steps);
    lemma_run_io_and_reads(program, inputs, max_steps);
    if l.sorted_reg[k].1.0 != 0 {
        lemma_sorted_reg_read(l.records, l.n, l.sorted_reg, k);
    } else {
        let sl = lemma_reg_table_entry(l.records, l.n, l.sorted_reg, k);
        let t = l.records;
        let a = reg_accesses(t) + pad_reg_accesses(t.len(), l.n);
        let s = l.sorted_reg;
        assert(s.contains(s[k]));
        assert(s.to_multiset().count(s[k]) > 0);
        assert(a.contains(s[k]));
        let p = choose|p: int| 0 <= p < a.len() && a[p] == s[k];
        lemma_reg_accesses_at(t);
        lemma_pad_reg_accesses(t.len(), l.n);
        if p < 3 * t.len() {
            assert(a[p] == reg_accesses(t)[p]);
            let c = p / 3;
            assert(crate::vm::r0_is_zero(t[c]));
            assert(t[c].reg[p % 3].0 == 0 && t[c].reg[p % 3].2 == 0);
        } else {
            assert(a[p] == pad_reg_accesses(t.len(), l.n)[p - 3 * t.len()]);
        }
    }
}

/// `r0` is pinned to zero in the sorted register table: in the table that
/// `build_columns` lays out for a successful run, every entry of register 0,
/// read or write, carries the value 0.
pub proof fn lemma_sorted_r0_pinned(
    l: VmLayout,
    program: Seq<Instruction>,
    inputs: Seq<u32>,
    max_steps: nat,
    k: int,
)
    requires
        program_wellformed(program),
        inputs.len() <= u32::MAX,
        max_steps <= u32::MAX,
        run_spec(program, inputs, max_steps) == Ok::<(Seq<StepRecord>, Seq<u32>), super::RunError>((l.records, l.outputs)),
        layout_of(l, l.records, program, inputs, l.outputs),
        0 <= k < l.sorted_reg.len(),
        l.sorted_reg[k].1.0 == 0,
    ensures
        l.sorted_reg[k].1.1 == 0,
{
    lemma_run_trace_ok(program, inputs, max_steps);
    let t = l.records;
    let a = reg_accesses(t) + pad_reg_accesses(t.len(), l.n);
    let s = l.sorted_reg;
    assert(s.contains(s[k]));
    assert(s.to_multiset().count(s[k]) > 0);
    assert(a.contains(s[k]));
    let p = choose|p: int| 0 <= p < a.len() && a[p] == s[k];
    lemma_reg_accesses_at(t);
    lemma_pad_reg_accesses(t.len(), l.n);
    if p < 3 * t.len() {
        assert(a[p] == reg_accesses(t)[p]);
        let c = p / 3;
        assert(crate::vm::r0_is_zero(t[c]));
        assert(t[c].reg[p % 3].0 == 0);
    } else {
        assert(a[p] == pad_reg_accesses(t.len(), l.n)[p - 3 * t.len()]);
    }
}

} // verus!
