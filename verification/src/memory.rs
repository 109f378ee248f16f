//! Flat byte-addressed deterministic RAM for the RISC-V VM, with a log of
//! every access for the memory permutation argument.

use vstd::prelude::*;

verus! {

/// Default memory size: 16 MiB.
pub const DEFAULT_MEM_SIZE: usize = 0x100_0000;

/// Memory access record for the constraint system.
#[derive(Debug, Clone, Copy)]
pub struct MemoryAccess {
    pub addr: u32,
    pub clk: u32,
    pub is_write: bool,
    pub value: u32,
}

/// `a + k` with 32-bit wrap-around.
pub open spec fn wrap(a: u32, k: int) -> u32 {
    if a + k > u32::MAX { (a + k - 0x1_0000_0000) as u32 } else { (a + k) as u32 }
}

/// The little-endian halfword at `a`.
pub open spec fn half_at(bytes: Seq<u8>, a: u32) -> int {
    bytes[a as int] + 256 * bytes[wrap(a, 1) as int]
}

/// The little-endian word at `a`.
pub open spec fn word_at(bytes: Seq<u8>, a: u32) -> int {
    half_at(bytes, a) + 65536 * half_at(bytes, wrap(a, 2))
}

/// `bytes` with the halfword `v` stored little-endian at `a`.
pub open spec fn put_half(bytes: Seq<u8>, a: u32, v: u16) -> Seq<u8> {
    bytes.update(a as int, (v % 256) as u8).update(wrap(a, 1) as int, (v / 256) as u8)
}

/// `bytes` with the word `v` stored little-endian at `a`.
pub open spec fn put_word(bytes: Seq<u8>, a: u32, v: u32) -> Seq<u8> {
    put_half(put_half(bytes, a, (v % 65536) as u16), wrap(a, 2), (v / 65536) as u16)
}

/// The `n` bytes starting at `a` all lie inside a memory of `len` bytes.
pub open spec fn in_bounds(len: nat, a: u32, n: int) -> bool {
    forall|k: int| 0 <= k < n ==> (#[trigger] wrap(a, k)) < len
}

/// The log entries of reading `n` consecutive bytes starting at `a`.
pub open spec fn reads(bytes: Seq<u8>, a: u32, n: nat, clk: u32) -> Seq<MemoryAccess> {
    Seq::new(n, |k: int| access(wrap(a, k), clk, false, bytes[wrap(a, k) as int] as u32))
}

/// The log entries of writing `vals` to consecutive bytes starting at `a`.
pub open spec fn writes(a: u32, vals: Seq<u8>, clk: u32) -> Seq<MemoryAccess> {
    Seq::new(vals.len(), |k: int| access(wrap(a, k), clk, true, vals[k] as u32))
}

/// The two little-endian bytes of `v`.
pub open spec fn half_bytes(v: u16) -> Seq<u8> {
    seq![(v % 256) as u8, (v / 256) as u8]
}

/// The four little-endian bytes of `v`.
pub open spec fn word_bytes(v: u32) -> Seq<u8> {
    seq![(v % 256) as u8, ((v / 256) % 256) as u8, ((v / 65536) % 256) as u8, (v / 16777216) as u8]
}

/// Byte-addressed memory.
pub struct Memory {
    data: Vec<u8>,
    /// Ordered log of all memory accesses for the permutation argument.
    pub access_log: Vec<MemoryAccess>,
}

impl Memory {
    /// The ordered access log.
    pub closed spec fn log(&self) -> Seq<MemoryAccess> {
        self.access_log@
    }
}

impl View for Memory {
    type V = Seq<u8>;

    closed spec fn view(&self) -> Seq<u8> {
        self.data@
    }
}

/// One logged access.
pub open spec fn access(addr: u32, clk: u32, is_write: bool, value: u32) -> MemoryAccess {
    MemoryAccess { addr, clk, is_write, value }
}

impl Memory {
    /// A zeroed memory of `size` bytes with an empty log.
    pub fn new(size: usize) -> (m: Memory)
        ensures
            m@ == Seq::new(size as nat, |i: int| 0u8),
            m.log() == Seq::<MemoryAccess>::empty(),
    {
        let mut data: Vec<u8> = Vec::new();
        let mut i: usize = 0;
        while i < size
            invariant
                i <= size,
                data@ == Seq::new(i as nat, |j: int| 0u8),
            decreases size - i,
        {
            data.push(0u8);
            i = i + 1;
            assert(data@ =~= Seq::new(i as nat, |j: int| 0u8));
        }
        Memory { data, access_log: Vec::new() }
    }

    /// Number of bytes.
    pub fn size(&self) -> (r: usize)
        ensures
            r == self@.len(),
    {
        self.data.len()
    }

    /// Read a byte, logging the access.
    pub fn read_byte(&mut self, addr: u32, clk: u32) -> (r: u8)
        requires
            (addr as int) < old(self)@.len(),
        ensures
            r == old(self)@[addr as int],
            final(self)@ == old(self)@,
            final(self).log() == old(self).log().push(access(addr, clk, false, r as u32)),
            final(self).log() == old(self).log() + reads(old(self)@, addr, 1, clk),
    {
        assert(wrap(addr, 0) == addr);
        let a = addr as usize;
        let val = self.data[a];
        self.access_log.push(MemoryAccess { addr, clk, is_write: false, value: val as u32 });
        assert(self.access_log@ =~= old(self).access_log@ + reads(old(self)@, addr, 1, clk));
        val
    }

    /// Write a byte, logging the access.
    pub fn write_byte(&mut self, addr: u32, val: u8, clk: u32)
        requires
            (addr as int) < old(self)@.len(),
        ensures
            final(self)@ == old(self)@.update(addr as int, val),
            final(self).log() == old(self).log().push(access(addr, clk, true, val as u32)),
            final(self).log() == old(self).log() + writes(addr, seq![val], clk),
    {
        assert(wrap(addr, 0) == addr);
        let a = addr as usize;
        self.data.set(a, val);
        self.access_log.push(MemoryAccess { addr, clk, is_write: true, value: val as u32 });
        assert(self.access_log@ =~= old(self).access_log@ + writes(addr, seq![val], clk));
    }

    /// Read a 16-bit halfword (little-endian), logging both byte accesses.
    pub fn read_half(&mut self, addr: u32, clk: u32) -> (r: u16)
        requires
            in_bounds(old(self)@.len(), addr, 2),
        ensures
            r == half_at(old(self)@, addr),
            final(self)@ == old(self)@,
            final(self).log() == old(self).log() + reads(old(self)@, addr, 2, clk),
    {
        assert(wrap(addr, 0) == addr);
        assert(wrap(addr, 1) < old(self)@.len());
        let lo = self.read_byte(addr, clk) as u16;
        let hi = self.read_byte(addr.wrapping_add(1), clk) as u16;
        assert(lo | (hi << 8) == lo + 256 * hi) by (bit_vector)
            requires
                lo < 256,
                hi < 256,
        ;
        assert(self.access_log@ =~= old(self).access_log@ + reads(old(self)@, addr, 2, clk));
        lo | (hi << 8)
    }

    /// Write a 16-bit halfword (little-endian), logging both byte accesses.
    pub fn write_half(&mut self, addr: u32, val: u16, clk: u32)
        requires
            in_bounds(old(self)@.len(), addr, 2),
        ensures
            final(self)@ == put_half(old(self)@, addr, val),
            final(self).log() == old(self).log() + writes(addr, half_bytes(val), clk),
    {
        assert(wrap(addr, 0) == addr);
        assert(wrap(addr, 1) < old(self)@.len());
        assert(val as u8 == val % 256) by (bit_vector);
        assert((val >> 8) as u8 == val / 256) by (bit_vector);
        self.write_byte(addr, val as u8, clk);
        self.write_byte(addr.wrapping_add(1), (val >> 8) as u8, clk);
        assert(self.access_log@ =~= old(self).access_log@ + writes(addr, half_bytes(val), clk));
    }

    /// Read a 32-bit word (little-endian), logging the four byte accesses.
    pub fn read_word(&mut self, addr: u32, clk: u32) -> (r: u32)
        requires
            in_bounds(old(self)@.len(), addr, 4),
        ensures
            r == word_at(old(self)@, addr),
            final(self)@ == old(self)@,
            final(self).log() == old(self).log() + reads(old(self)@, addr, 4, clk),
    {
        assert(wrap(addr, 0) == addr);
        assert(wrap(addr, 1) < old(self)@.len());
        assert(wrap(addr, 2) < old(self)@.len());
        assert(wrap(addr, 3) < old(self)@.len());
        assert(wrap(wrap(addr, 2), 1) == wrap(addr, 3));
        let a2 = addr.wrapping_add(2);
        assert(in_bounds(old(self)@.len(), a2, 2)) by {
            assert(wrap(a2, 0) == a2);
        }
        let lo = self.read_half(addr, clk) as u32;
        let hi = self.read_half(a2, clk) as u32;
        assert(lo | (hi << 16) == lo + 65536 * hi) by (bit_vector)
            requires
                lo < 65536,
                hi < 65536,
        ;
        assert(wrap(a2, 1) == wrap(addr, 3));
        assert(self.access_log@ =~= old(self).access_log@ + reads(old(self)@, addr, 4, clk));
        lo | (hi << 16)
    }

    /// Write a 32-bit word (little-endian), logging the four byte accesses.
    pub fn write_word(&mut self, addr: u32, val: u32, clk: u32)
        requires
            in_bounds(old(self)@.len(), addr, 4),
        ensures
            final(self)@ == put_word(old(self)@, addr, val),
            final(self).log() == old(self).log() + writes(addr, word_bytes(val), clk),
    {
        assert(wrap(addr, 0) == addr);
        assert(wrap(addr, 1) < old(self)@.len());
        assert(wrap(addr, 2) < old(self)@.len());
        assert(wrap(addr, 3) < old(self)@.len());
        assert(wrap(wrap(addr, 2), 1) == wrap(addr, 3));
        let a2 = addr.wrapping_add(2);
        assert(in_bounds(old(self)@.len(), a2, 2)) by {
            assert(wrap(a2, 0) == a2);
        }
        assert(val as u16 == val % 65536) by (bit_vector);
        assert((val >> 16) as u16 == val / 65536) by (bit_vector);
        self.write_half(addr, val as u16, clk);
        proof {
            assert(in_bounds(self@.len(), a2, 2)) by {
                assert(wrap(a2, 0) == a2);
            }
        }
        self.write_half(a2, (val >> 16) as u16, clk);
        assert(wrap(a2, 1) == wrap(addr, 3));
        assert(((val % 65536) as u16) % 256 == val % 256) by (nonlinear_arith);
        assert(((val % 65536) as u16) / 256 == (val / 256) % 256) by (nonlinear_arith);
        assert(((val / 65536) as u16) % 256 == (val / 65536) % 256) by (nonlinear_arith);
        assert(((val / 65536) as u16) / 256 == val / 16777216) by (nonlinear_arith);
        assert(self.access_log@ =~= old(self).access_log@ + writes(addr, word_bytes(val), clk));
    }

    /// Bulk write without logging (for initial program loading).
    pub fn write_bytes_no_log(&mut self, addr: u32, data: &[u8])
        requires
            addr + data@.len() <= old(self)@.len(),
        ensures
            final(self)@ == old(self)@.subrange(0, addr as int) + data@ + old(self)@.subrange(
                addr + data@.len(),
                old(self)@.len() as int,
            ),
            final(self).log() == old(self).log(),
    {
        let start = addr as usize;
        let mut i: usize = 0;
        while i < data.len()
            invariant
                start == addr,
                i <= data.len(),
                start + data@.len() <= self.data@.len(),
                self.data@.len() == old(self)@.len(),
                self.access_log@ == old(self).access_log@,
                forall|j: int| 0 <= j < start ==> self.data@[j] == old(self)@[j],
                forall|j: int| 0 <= j < i ==> self.data@[start + j] == data@[j],
                forall|j: int| start + i <= j < self.data@.len() ==> self.data@[j] == old(self)@[j],
            decreases data.len() - i,
        {
            assert(start + i < self.data.len());
            self.data.set(start + i, data[i]);
            i = i + 1;
        }
        assert(self.data@ =~= old(self)@.subrange(0, addr as int) + data@ + old(self)@.subrange(
            addr + data@.len(),
            old(self)@.len() as int,
        ));
    }

    /// Read a word without logging (for inspection).
    pub fn peek_word(&self, addr: u32) -> (r: u32)
        requires
            addr + 4 <= self@.len(),
        ensures
            r == self@[addr as int] + 256 * self@[addr + 1] + 65536 * self@[addr + 2] + 16777216
                * self@[addr + 3],
    {
        let a = addr as usize;
        assert(a + 4 <= self.data.len());
        let b0 = self.data[a] as u32;
        let b1 = self.data[a + 1] as u32;
        let b2 = self.data[a + 2] as u32;
        let b3 = self.data[a + 3] as u32;
        b0 + 256 * b1 + 65536 * b2 + 16777216 * b3
    }

    /// Read a byte without logging (for inspection).
    pub fn peek_byte(&self, addr: u32) -> (r: u8)
        requires
            (addr as int) < self@.len(),
        ensures
            r == self@[addr as int],
    {
        self.data[addr as usize]
    }
}


/// Reading back a stored word gives the word: after `write_word(a, v)`,
/// `read_word(a)` returns `v`, and every byte outside the four written ones
/// is unchanged.
pub proof fn lemma_word_read_after_write(bytes: Seq<u8>, a: u32, v: u32)
    requires
        in_bounds(bytes.len(), a, 4),
    ensures
        put_word(bytes, a, v).len() == bytes.len(),
        word_at(put_word(bytes, a, v), a) == v,
        forall|j: int|
            0 <= j < bytes.len() && j != a && j != wrap(a, 1) && j != wrap(a, 2) && j != wrap(a, 3)
                ==> #[trigger] put_word(bytes, a, v)[j] == bytes[j],
{
    assert(wrap(a, 0) == a);
    assert(wrap(a, 1) < bytes.len());
    assert(wrap(a, 2) < bytes.len());
    assert(wrap(a, 3) < bytes.len());
    assert(wrap(wrap(a, 2), 1) == wrap(a, 3));
    let lo = (v % 65536) as u16;
    let hi = (v / 65536) as u16;
    let s = put_word(bytes, a, v);
    assert(s[a as int] == (lo % 256) as u8);
    assert(s[wrap(a, 1) as int] == (lo / 256) as u8);
    assert(s[wrap(a, 2) as int] == (hi % 256) as u8);
    assert(s[wrap(a, 3) as int] == (hi / 256) as u8);
    assert(half_at(s, a) == lo);
    assert(half_at(s, wrap(a, 2)) == hi);
}

/// Reading back a stored halfword gives the halfword, leaving other bytes
/// unchanged.
pub proof fn lemma_half_read_after_write(bytes: Seq<u8>, a: u32, v: u16)
    requires
        in_bounds(bytes.len(), a, 2),
    ensures
        put_half(bytes, a, v).len() == bytes.len(),
        half_at(put_half(bytes, a, v), a) == v,
        forall|j: int|
            0 <= j < bytes.len() && j != a && j != wrap(a, 1) ==> #[trigger] put_half(bytes, a, v)[j]
                == bytes[j],
{
    assert(wrap(a, 0) == a);
    assert(wrap(a, 1) < bytes.len());
}

} // verus!
