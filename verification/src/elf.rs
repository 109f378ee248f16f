//! Minimal ELF loader for RV32I binaries: places the loadable segments of a
//! 32-bit little-endian ELF file into VM memory.

use vstd::prelude::*;

use crate::memory::Memory;

verus! {

/// The little-endian halfword at offset `o` of `b`.
pub open spec fn le16(b: Seq<u8>, o: int) -> nat {
    (b[o] + 256 * b[o + 1]) as nat
}

/// The little-endian word at offset `o` of `b`.
pub open spec fn le32(b: Seq<u8>, o: int) -> nat {
    (b[o] + 256 * b[o + 1] + 65536 * b[o + 2] + 16777216 * b[o + 3]) as nat
}

/// Why an ELF image could not be loaded.
#[derive(Debug, Clone, Copy, PartialEq, Eq, Structural)]
pub enum ElfError {
    /// Shorter than the 52-byte ELF32 header.
    TooSmall,
    /// The file does not start with the ELF magic number.
    NotElf,
    /// Not a 32-bit ELF file.
    NotElf32,
    /// Not a little-endian ELF file.
    NotLittleEndian,
    /// A program header lies past the end of the file.
    HeaderOutOfBounds,
    /// A loadable segment's data lies past the end of the file.
    SegmentOutOfBounds { offset: u32, filesz: u32 },
}

/// `mem` with `data` written from `addr` on.
pub open spec fn place(mem: Seq<u8>, addr: int, data: Seq<u8>) -> Seq<u8> {
    mem.subrange(0, addr) + data + mem.subrange(addr + data.len(), mem.len() as int)
}

/// `n` zero bytes.
pub open spec fn zero_bytes(n: nat) -> Seq<u8> {
    Seq::new(n, |i: int| 0u8)
}

/// The ELF32 header checks: `None` when they pass, else the error.
pub open spec fn header_error(elf: Seq<u8>) -> Option<ElfError> {
    if elf.len() < 52 {
        Some(ElfError::TooSmall)
    } else if !(elf[0] == 0x7f && elf[1] == 0x45 && elf[2] == 0x4c && elf[3] == 0x46) {
        Some(ElfError::NotElf)
    } else if elf[4] != 1 {
        Some(ElfError::NotElf32)
    } else if elf[5] != 1 {
        Some(ElfError::NotLittleEndian)
    } else {
        None
    }
}

/// Loading program headers `i..phnum` (at `phoff`, `entsize` bytes each)
/// into `mem`: the outcome and the memory after it. A `PT_LOAD` segment has
/// its file bytes copied to its virtual address and the rest of its memory
/// size zeroed; other headers are skipped; the first header or segment that
/// lies outside the file stops the load with an error.
pub open spec fn load_segments(
    elf: Seq<u8>,
    mem: Seq<u8>,
    phoff: nat,
    entsize: nat,
    i: nat,
    phnum: nat,
) -> (Result<(), ElfError>, Seq<u8>)
    decreases phnum - i,
{
    if i >= phnum {
        (Ok(()), mem)
    } else {
        let off: int = (phoff + i * entsize) as int;
        if off + entsize > elf.len() {
            (Err(ElfError::HeaderOutOfBounds), mem)
        } else if le32(elf, off) != 1 {
            load_segments(elf, mem, phoff, entsize, i + 1, phnum)
        } else {
            let p_offset = le32(elf, off + 4);
            let vaddr = le32(elf, off + 8);
            let filesz = le32(elf, off + 16);
            let memsz = le32(elf, off + 20);
            if filesz > 0 && p_offset + filesz > elf.len() {
                (Err(ElfError::SegmentOutOfBounds { offset: p_offset as u32, filesz: filesz as u32 }), mem)
            } else {
                let m1 = if filesz > 0 {
                    place(mem, vaddr as int, elf.subrange(p_offset as int, (p_offset + filesz) as int))
                } else {
                    mem
                };
                let m2 = if memsz > filesz {
                    place(m1, (vaddr + filesz) as int, zero_bytes((memsz - filesz) as nat))
                } else {
                    m1
                };
                load_segments(elf, m2, phoff, entsize, i + 1, phnum)
            }
        }
    }
}

/// Every segment write that loading headers `i..phnum` performs fits in a
/// memory of `mem_len` bytes, and every header read is long enough.
pub open spec fn segments_fit(elf: Seq<u8>, mem_len: nat, phoff: nat, entsize: nat, i: nat, phnum: nat) -> bool
    decreases phnum - i,
{
    if i >= phnum {
        true
    } else {
        let off: int = (phoff + i * entsize) as int;
        if off + entsize > elf.len() {
            true
        } else {
            &&& entsize >= 4
            &&& if le32(elf, off) != 1 {
                segments_fit(elf, mem_len, phoff, entsize, i + 1, phnum)
            } else {
                let p_offset = le32(elf, off + 4);
                let vaddr = le32(elf, off + 8);
                let filesz = le32(elf, off + 16);
                let memsz = le32(elf, off + 20);
                &&& entsize >= 24
                &&& if filesz > 0 && p_offset + filesz > elf.len() {
                    true
                } else {
                    &&& (filesz > 0 ==> vaddr + filesz <= mem_len)
                    &&& (memsz > filesz ==> vaddr + filesz <= u32::MAX && vaddr + memsz <= mem_len)
                    &&& segments_fit(elf, mem_len, phoff, entsize, i + 1, phnum)
                }
            }
        }
    }
}

/// Loading segments that fit keeps the memory's length.
pub proof fn lemma_load_keeps_len(elf: Seq<u8>, mem: Seq<u8>, phoff: nat, entsize: nat, i: nat, phnum: nat)
    requires
        segments_fit(elf, mem.len(), phoff, entsize, i, phnum),
    ensures
        load_segments(elf, mem, phoff, entsize, i, phnum).1.len() == mem.len(),
    decreases phnum - i,
{
    if i < phnum {
        let off: int = (phoff + i * entsize) as int;
        if off + entsize <= elf.len() {
            if le32(elf, off) != 1 {
                lemma_load_keeps_len(elf, mem, phoff, entsize, i + 1, phnum);
            } else {
                let p_offset = le32(elf, off + 4);
                let vaddr = le32(elf, off + 8);
                let filesz = le32(elf, off + 16);
                let memsz = le32(elf, off + 20);
                if !(filesz > 0 && p_offset + filesz > elf.len()) {
                    let m1 = if filesz > 0 {
                        place(mem, vaddr as int, elf.subrange(p_offset as int, (p_offset + filesz) as int))
                    } else {
                        mem
                    };
                    assert(m1.len() == mem.len());
                    let m2 = if memsz > filesz {
                        place(m1, (vaddr + filesz) as int, zero_bytes((memsz - filesz) as nat))
                    } else {
                        m1
                    };
                    assert(m2.len() == mem.len());
                    lemma_load_keeps_len(elf, m2, phoff, entsize, i + 1, phnum);
                }
            }
        }
    }
}

/// Loading `elf` into a memory of `mem_len` bytes writes only inside it and
/// reads only inside the file.
pub open spec fn elf_fits(elf: Seq<u8>, mem_len: nat) -> bool {
    header_error(elf) is None ==> segments_fit(elf, mem_len, le32(elf, 28), le16(elf, 42), 0, le16(elf, 44))
}

/// Read a little-endian halfword.
pub fn u16_le(b: &[u8]) -> (r: u16)
    requires
        b@.len() >= 2,
    ensures
        r == le16(b@, 0),
{
    b[0] as u16 + 256 * (b[1] as u16)
}

/// Read a little-endian word.
pub fn u32_le(b: &[u8]) -> (r: u32)
    requires
        b@.len() >= 4,
    ensures
        r == le32(b@, 0),
{
    b[0] as u32 + 256 * (b[1] as u32) + 65536 * (b[2] as u32) + 16777216 * (b[3] as u32)
}


/// `n` zero bytes.
fn zero_vec(n: usize) -> (v: Vec<u8>)
    ensures
        v@ == zero_bytes(n as nat),
{
    let mut v: Vec<u8> = Vec::new();
    let mut k: usize = 0;
    while k < n
        invariant
            k <= n,
            v@ == zero_bytes(k as nat),
        decreases n - k,
    {
        v.push(0);
        k = k + 1;
        assert(v@ =~= zero_bytes(k as nat));
    }
    v
}

/// Load a RISC-V ELF binary into memory. Returns the entry point address.
/// The loadable segments are placed in the order of their program headers;
/// an error leaves in memory what the segments before it wrote.
pub fn load_elf(elf_bytes: &[u8], mem: &mut Memory) -> (r: Result<u32, ElfError>)
    requires
        elf_fits(elf_bytes@, old(mem)@.len()),
    ensures
        final(mem).log() == old(mem).log(),
        match header_error(elf_bytes@) {
            Some(e) => r == Err::<u32, ElfError>(e) && final(mem)@ == old(mem)@,
            None => {
                let (res, m) = load_segments(
                    elf_bytes@,
                    old(mem)@,
                    le32(elf_bytes@, 28),
                    le16(elf_bytes@, 42),
                    0,
                    le16(elf_bytes@, 44),
                );
                &&& final(mem)@ == m
                &&& r == match res {
                    Ok(_) => Ok::<u32, ElfError>(le32(elf_bytes@, 24) as u32),
                    Err(e) => Err(e),
                }
            },
        },
{
    if elf_bytes.len() < 52 {
        return Err(ElfError::TooSmall);
    }
    if !(elf_bytes[0] == 0x7f && elf_bytes[1] == 0x45 && elf_bytes[2] == 0x4c && elf_bytes[3] == 0x46) {
        return Err(ElfError::NotElf);
    }
    if elf_bytes[4] != 1 {
        return Err(ElfError::NotElf32);
    }
    if elf_bytes[5] != 1 {
        return Err(ElfError::NotLittleEndian);
    }
    let ghost elf = elf_bytes@;
    let ghost mem0 = mem@;
    let entry = u32_le(&elf_bytes[24..28]);
    let phoff = u32_le(&elf_bytes[28..32]);
    let phentsize = u16_le(&elf_bytes[42..44]);
    let phnum = u16_le(&elf_bytes[44..46]);
    assert(entry == le32(elf, 24));
    assert(phoff == le32(elf, 28));
    assert(phentsize == le16(elf, 42));
    assert(phnum == le16(elf, 44));
    let elen = elf_bytes.len();
    let len = elen as u64;
    let mut i: u16 = 0;
    while i < phnum
        invariant
            elf == elf_bytes@,
            len == elf.len(),
            elen == elf.len(),
            header_error(elf) is None,
            entry == le32(elf, 24),
            phoff == le32(elf, 28),
            phentsize == le16(elf, 42),
            phnum == le16(elf, 44),
            mem0 == old(mem)@,
            i <= phnum,
            load_segments(elf, mem@, phoff as nat, phentsize as nat, i as nat, phnum as nat) == load_segments(
                elf,
                mem0,
                phoff as nat,
                phentsize as nat,
                0,
                phnum as nat,
            ),
            segments_fit(elf, mem@.len(), phoff as nat, phentsize as nat, i as nat, phnum as nat),
            mem.log() == old(mem).log(),
        decreases phnum - i,
    {
        assert((i as u64) * (phentsize as u64) <= 0xFFFF * 0xFFFF) by (nonlinear_arith)
            requires
                i <= 0xFFFF,
                phentsize <= 0xFFFF,
        ;
        let off: u64 = phoff as u64 + (i as u64) * (phentsize as u64);
        let es = phentsize as u64;
        assert(off == (phoff as nat) + (i as nat) * (phentsize as nat));
        if off + es > len {
            assert(load_segments(elf, mem@, phoff as nat, phentsize as nat, i as nat, phnum as nat) == (
            Err::<(), ElfError>(ElfError::HeaderOutOfBounds), mem@));
            return Err(ElfError::HeaderOutOfBounds);
        }
        let o = off as usize;
        let e = phentsize as usize;
        let ph = &elf_bytes[o..o + e];
        assert(ph@ == elf.subrange(o as int, o + e));
        let p_type = u32_le(&ph[0..4]);
        assert(p_type == le32(elf, o as int));
        if p_type != 1 {
            i = i + 1;
            continue;
        }
        let p_offset = u32_le(&ph[4..8]);
        let p_vaddr = u32_le(&ph[8..12]);
        let p_filesz = u32_le(&ph[16..20]);
        let p_memsz = u32_le(&ph[20..24]);
        assert(p_offset == le32(elf, o + 4));
        assert(p_vaddr == le32(elf, o + 8));
        assert(p_filesz == le32(elf, o + 16));
        assert(p_memsz == le32(elf, o + 20));
        if p_filesz > 0 {
            let end: u64 = p_offset as u64 + p_filesz as u64;
            if end > len {
                return Err(ElfError::SegmentOutOfBounds { offset: p_offset, filesz: p_filesz });
            }
            mem.write_bytes_no_log(p_vaddr, &elf_bytes[p_offset as usize..end as usize]);
        }
        if p_memsz > p_filesz {
            let bss_start = p_vaddr + p_filesz;
            let bss_len = (p_memsz - p_filesz) as usize;
            let zeros = zero_vec(bss_len);
            mem.write_bytes_no_log(bss_start, zeros.as_slice());
        }
        i = i + 1;
    }
    Ok(entry)
}

/// Load a flat binary (raw instruction words) into memory at `base_addr`.
/// Returns the entry point (the base address).
pub fn load_flat_binary(code: &[u8], base_addr: u32, mem: &mut Memory) -> (r: u32)
    requires
        base_addr + code@.len() <= old(mem)@.len(),
    ensures
        r == base_addr,
        final(mem)@ == place(old(mem)@, base_addr as int, code@),
        final(mem).log() == old(mem).log(),
{
    mem.write_bytes_no_log(base_addr, code);
    base_addr
}

} // verus!
