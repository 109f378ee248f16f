//! Stable sorting of keyed entries, by the standard library's stable sort.

use vstd::prelude::*;

verus! {

/// A three-part sort key, ordered lexicographically.
pub type Key3 = (u32, u32, u32);

/// `a` comes no later than `b` in lexicographic order.
pub open spec fn key_le(a: Key3, b: Key3) -> bool {
    a.0 < b.0 || (a.0 == b.0 && (a.1 < b.1 || (a.1 == b.1 && a.2 <= b.2)))
}

/// `out` is `inp` stably sorted by key: a permutation of `inp` ordered by
/// key, in which the entries of each key keep their order in `inp`.
pub open spec fn stably_sorted<T>(out: Seq<(Key3, T)>, inp: Seq<(Key3, T)>) -> bool {
    &&& out.len() == inp.len()
    &&& out.to_multiset() == inp.to_multiset()
    &&& forall|i: int, j: int| 0 <= i < j < out.len() ==> key_le(#[trigger] out[i].0, #[trigger] out[j].0)
    &&& forall|k: Key3| #[trigger] with_key(out, k) == with_key(inp, k)
}

/// The entries of `s` whose key is `k`, in order.
pub open spec fn with_key<T>(s: Seq<(Key3, T)>, k: Key3) -> Seq<(Key3, T)> {
    s.filter(|p: (Key3, T)| p.0 == k)
}

/// Sorts `v` by the key of each entry, stably, with `slice::sort_by_key`.
///
/// Trusted: the standard library documents this sort as stable and ordering
/// by the key's `Ord`, which for a tuple of integers is lexicographic; the
/// contract states exactly that (a permutation, ordered by key, entries of
/// equal key in their former order).
#[verifier::external_body]
pub(crate) fn stable_sort_by_key<T>(v: &mut Vec<(Key3, T)>)
    ensures
        stably_sorted(final(v)@, old(v)@),
{
    v.sort_by_key(|p| p.0);
}

} // verus!
