//! The guest I/O tapes in VM memory: the input tape the host fills before a
//! run, and the output buffer it reads back after.
//!
//! Input tape layout: the number of public input words, the public words,
//! the number of private input words, the private words, each a
//! little-endian `u32`. Output buffer layout: the number of output words,
//! then the words.

use vstd::prelude::*;

use crate::cpu::fetch;
use crate::elf::place;
use crate::memory::Memory;
use crate::vm::{le_bytes, push_le_bytes};

pub use crate::cpu::{INPUT_TAPE_ADDR, OUTPUT_TAPE_ADDR};

verus! {

/// Maximum input/output size in bytes.
pub const MAX_IO_SIZE: u32 = 0x0010_0000;

/// The little-endian bytes of the words of `s`, in order.
pub open spec fn words_bytes(s: Seq<u32>) -> Seq<u8>
    decreases s.len(),
{
    if s.len() == 0 {
        seq![]
    } else {
        words_bytes(s.drop_last()) + le_bytes(s.last())
    }
}

/// The bytes of the input tape for `public` and `private` inputs.
pub open spec fn input_tape(public: Seq<u32>, private: Seq<u32>) -> Seq<u8> {
    le_bytes(public.len() as u32) + words_bytes(public) + le_bytes(private.len() as u32) + words_bytes(private)
}

proof fn lemma_words_bytes_len(s: Seq<u32>)
    ensures
        words_bytes(s).len() == 4 * s.len(),
    decreases s.len(),
{
    if s.len() > 0 {
        lemma_words_bytes_len(s.drop_last());
    }
}

/// Append the little-endian bytes of the words of `s`.
fn push_words(out: &mut Vec<u8>, s: &[u32])
    ensures
        final(out)@ == old(out)@ + words_bytes(s@),
{
    let mut k: usize = 0;
    while k < s.len()
        invariant
            k <= s@.len(),
            out@ == old(out)@ + words_bytes(s@.take(k as int)),
        decreases s@.len() - k,
    {
        push_le_bytes(out, s[k]);
        proof {
            assert(s@.take(k + 1).drop_last() =~= s@.take(k as int));
        }
        k = k + 1;
        assert(out@ =~= old(out)@ + words_bytes(s@.take(k as int)));
    }
    assert(s@.take(k as int) =~= s@);
}

/// Initialize the input tape in VM memory with public and private inputs.
pub fn init_input_tape(mem: &mut Memory, public_inputs: &[u32], private_inputs: &[u32])
    requires
        INPUT_TAPE_ADDR + 4 * (2 + public_inputs@.len() + private_inputs@.len()) <= old(mem)@.len(),
        INPUT_TAPE_ADDR + 4 * (2 + public_inputs@.len() + private_inputs@.len()) <= u32::MAX,
    ensures
        final(mem)@ == place(old(mem)@, INPUT_TAPE_ADDR as int, input_tape(public_inputs@, private_inputs@)),
        final(mem).log() == old(mem).log(),
{
    let mut tape: Vec<u8> = Vec::new();
    push_le_bytes(&mut tape, public_inputs.len() as u32);
    push_words(&mut tape, public_inputs);
    push_le_bytes(&mut tape, private_inputs.len() as u32);
    push_words(&mut tape, private_inputs);
    proof {
        lemma_words_bytes_len(public_inputs@);
        lemma_words_bytes_len(private_inputs@);
        assert(tape@ =~= input_tape(public_inputs@, private_inputs@));
    }
    mem.write_bytes_no_log(INPUT_TAPE_ADDR, tape.as_slice());
}

/// Read the output buffer from VM memory: the count word at
/// `OUTPUT_TAPE_ADDR`, then that many words.
pub fn read_outputs(mem: &Memory) -> (r: Vec<u32>)
    requires
        OUTPUT_TAPE_ADDR + 4 + 4 * fetch(mem@, OUTPUT_TAPE_ADDR) <= mem@.len(),
        OUTPUT_TAPE_ADDR + 4 * fetch(mem@, OUTPUT_TAPE_ADDR) <= u32::MAX,
    ensures
        r@ == Seq::new(
            fetch(mem@, OUTPUT_TAPE_ADDR) as nat,
            |i: int| fetch(mem@, (OUTPUT_TAPE_ADDR + 4 + 4 * i) as u32),
        ),
{
    let count = mem.peek_word(OUTPUT_TAPE_ADDR);
    let ghost c = fetch(mem@, OUTPUT_TAPE_ADDR);
    assert(count == c);
    let mut outputs: Vec<u32> = Vec::new();
    let mut i: u32 = 0;
    while i < count
        invariant
            count == c,
            OUTPUT_TAPE_ADDR + 4 + 4 * c <= mem@.len(),
            OUTPUT_TAPE_ADDR + 4 * c <= u32::MAX,
            i <= count,
            outputs@ == Seq::new(i as nat, |k: int| fetch(mem@, (OUTPUT_TAPE_ADDR + 4 + 4 * k) as u32)),
        decreases count - i,
    {
        let addr = OUTPUT_TAPE_ADDR + 4 + i * 4;
        outputs.push(mem.peek_word(addr));
        i = i + 1;
        assert(outputs@ =~= Seq::new(i as nat, |k: int| fetch(mem@, (OUTPUT_TAPE_ADDR + 4 + 4 * k) as u32)));
    }
    outputs
}

/// The word stored by `le_bytes` reads back as that word.
proof fn lemma_le_bytes_word(x: u32)
    ensures
        le_bytes(x)[0] + 256 * le_bytes(x)[1] + 65536 * le_bytes(x)[2] + 16777216 * le_bytes(x)[3] == x,
{
    assert((x % 256) + 256 * ((x / 256) % 256) + 65536 * ((x / 65536) % 256) + 16777216 * (x / 16777216) == x)
        by (bit_vector);
}

/// Byte `4 * i + k` of `words_bytes(s)` is byte `k` of word `i`.
proof fn lemma_words_bytes_at(s: Seq<u32>, i: int, k: int)
    requires
        0 <= i < s.len(),
        0 <= k < 4,
    ensures
        words_bytes(s)[4 * i + k] == le_bytes(s[i])[k],
    decreases s.len(),
{
    lemma_words_bytes_len(s.drop_last());
    if i < s.len() - 1 {
        lemma_words_bytes_at(s.drop_last(), i, k);
    }
}

/// The word at `addr + off` of memory with `data` placed at `addr`, when
/// those four bytes of `data` are `le_bytes(x)`.
proof fn lemma_fetch_placed(mem: Seq<u8>, addr: int, data: Seq<u8>, off: int, x: u32)
    requires
        0 <= addr,
        addr + data.len() <= mem.len(),
        addr + data.len() <= u32::MAX,
        0 <= off,
        off + 4 <= data.len(),
        forall|k: int| 0 <= k < 4 ==> data[off + k] == #[trigger] le_bytes(x)[k],
    ensures
        fetch(place(mem, addr, data), (addr + off) as u32) == x,
{
    let m = place(mem, addr, data);
    assert forall|k: int| 0 <= k < 4 implies m[addr + off + k] == #[trigger] le_bytes(x)[k] by {
        assert(m[addr + off + k] == data[off + k]);
    }
    lemma_le_bytes_word(x);
}

/// Reading the input tape back: after `init_input_tape` writes it, the word
/// at `INPUT_TAPE_ADDR` is the number of public inputs, the words after it
/// are the public inputs in order, then come the number of private inputs
/// and the private inputs; the memory keeps its size and every byte outside
/// the tape.
pub proof fn lemma_input_tape_roundtrip(mem: Seq<u8>, public: Seq<u32>, private: Seq<u32>)
    requires
        INPUT_TAPE_ADDR + 4 * (2 + public.len() + private.len()) <= mem.len(),
        INPUT_TAPE_ADDR + 4 * (2 + public.len() + private.len()) <= u32::MAX,
    ensures
        ({
            let m = place(mem, INPUT_TAPE_ADDR as int, input_tape(public, private));
            &&& m.len() == mem.len()
            &&& fetch(m, INPUT_TAPE_ADDR) == public.len()
            &&& forall|i: int|
                0 <= i < public.len() ==> fetch(m, (INPUT_TAPE_ADDR + 4 + 4 * i) as u32) == #[trigger] public[i]
            &&& fetch(m, (INPUT_TAPE_ADDR + 4 + 4 * public.len()) as u32) == private.len()
            &&& forall|j: int|
                0 <= j < private.len() ==> fetch(m, (INPUT_TAPE_ADDR + 8 + 4 * public.len() + 4 * j) as u32)
                    == #[trigger] private[j]
            &&& forall|k: int|
                0 <= k < mem.len() && !(INPUT_TAPE_ADDR <= k < INPUT_TAPE_ADDR + 4 * (2 + public.len()
                    + private.len())) ==> #[trigger] m[k] == mem[k]
        }),
{
    let a = INPUT_TAPE_ADDR as int;
    let np: int = public.len() as int;
    let nq: int = private.len() as int;
    let lp = le_bytes(np as u32);
    let wp = words_bytes(public);
    let lq = le_bytes(nq as u32);
    let wq = words_bytes(private);
    let t = input_tape(public, private);
    lemma_words_bytes_len(public);
    lemma_words_bytes_len(private);
    assert(t.len() == 4 * (2 + np + nq));
    let m = place(mem, a, t);
    assert forall|k: int| 0 <= k < 4 implies t[k] == #[trigger] lp[k] by {}
    lemma_fetch_placed(mem, a, t, 0, np as u32);
    assert forall|i: int| 0 <= i < np implies fetch(m, (a + 4 + 4 * i) as u32) == #[trigger] public[i] by {
        assert forall|k: int| 0 <= k < 4 implies t[4 + 4 * i + k] == #[trigger] le_bytes(public[i])[k] by {
            lemma_words_bytes_at(public, i, k);
            assert(t[4 + 4 * i + k] == wp[4 * i + k]);
        }
        lemma_fetch_placed(mem, a, t, 4 + 4 * i, public[i]);
    }
    assert forall|k: int| 0 <= k < 4 implies t[4 + 4 * np + k] == #[trigger] lq[k] by {}
    lemma_fetch_placed(mem, a, t, 4 + 4 * np, nq as u32);
    assert forall|j: int| 0 <= j < nq implies fetch(m, (a + 8 + 4 * np + 4 * j) as u32) == #[trigger] private[j] by {
        assert forall|k: int| 0 <= k < 4 implies t[8 + 4 * np + 4 * j + k] == #[trigger] le_bytes(private[j])[k] by {
            lemma_words_bytes_at(private, j, k);
            assert(t[8 + 4 * np + 4 * j + k] == wq[4 * j + k]);
        }
        lemma_fetch_placed(mem, a, t, 8 + 4 * np + 4 * j, private[j]);
    }
}

} // verus!
