//! Partitioning of a workload into chunks, one job per chunk.
//!
//! Two schemes are used by the kernels. `chunk_ranges` mirrors slicing a
//! buffer into consecutive pieces of a fixed size (the last piece may be
//! shorter); it covers the whole input. `even_ranges` deals `parts` pieces of
//! exactly `total / parts` items each, dropping the remainder, as the
//! sampling kernel does.

use vstd::prelude::*;

verus! {

/// The ranges `r` are consecutive, start at 0, and end at `len`.
pub open spec fn covers(r: Seq<(usize, usize)>, len: nat) -> bool {
    &&& (len == 0 ==> r.len() == 0)
    &&& (len > 0 ==> r.len() > 0 && r[0].0 == 0 && r.last().1 == len)
    &&& forall|i: int| 0 <= i < r.len() - 1 ==> (#[trigger] r[i]).1 == r[i + 1].0
}

/// Split `0..len` into consecutive ranges of `size` indices each; the last
/// range holds what remains. Mirrors iterating over a buffer's chunks.
pub fn chunk_ranges(len: usize, size: usize) -> (r: Vec<(usize, usize)>)
    requires
        1 <= size,
    ensures
        covers(r@, len as nat),
        forall|i: int| 0 <= i < r@.len() ==> (#[trigger] r@[i]).0 < r@[i].1,
        forall|i: int| 0 <= i < r@.len() ==> (#[trigger] r@[i]).1 <= len,
        forall|i: int| 0 <= i < r@.len() - 1 ==> (#[trigger] r@[i]).1 - r@[i].0 == size,
        r@.len() > 0 ==> r@.last().1 - r@.last().0 <= size,
{
    let mut r: Vec<(usize, usize)> = Vec::new();
    let mut start: usize = 0;
    while start < len
        invariant
            start <= len,
            1 <= size,
            len > 0 ==> (r@.len() == 0 <==> start == 0),
            r@.len() > 0 ==> r@[0].0 == 0 && r@.last().1 == start,
            forall|i: int| 0 <= i < r@.len() - 1 ==> (#[trigger] r@[i]).1 == r@[i + 1].0,
            forall|i: int| 0 <= i < r@.len() ==> (#[trigger] r@[i]).0 < r@[i].1,
            forall|i: int| 0 <= i < r@.len() ==> (#[trigger] r@[i]).1 <= len,
            forall|i: int| 0 <= i < r@.len() - 1 ==> (#[trigger] r@[i]).1 - r@[i].0 == size,
            r@.len() > 0 ==> r@.last().1 - r@.last().0 <= size,
            r@.len() > 0 ==> (r@.last().1 - r@.last().0 == size || r@.last().1 == len),
        decreases len - start,
    {
        let end = if size <= len - start {
            start + size
        } else {
            len
        };
        r.push((start, end));
        start = end;
    }
    r
}

/// Deal `parts` ranges of exactly `total / parts` indices each, starting at 0.
/// Indices past `parts * (total / parts)` are not covered, as in the original
/// partitioning of sampling work.
pub fn even_ranges(total: usize, parts: usize) -> (r: Vec<(usize, usize)>)
    requires
        1 <= parts,
    ensures
        r@.len() == parts,
        r@[0].0 == 0,
        forall|i: int| 0 <= i < r@.len() - 1 ==> (#[trigger] r@[i]).1 == r@[i + 1].0,
        forall|i: int| 0 <= i < r@.len() ==> (#[trigger] r@[i]).1 - r@[i].0 == total / parts,
{
    let size: usize = total / parts;
    proof {
        vstd::arithmetic::div_mod::lemma_fundamental_div_mod(total as int, parts as int);
        vstd::arithmetic::div_mod::lemma_mod_bound(total as int, parts as int);
    }
    let mut r: Vec<(usize, usize)> = Vec::new();
    let mut current: usize = 0;
    let mut k: usize = 0;
    while k < parts
        invariant
            k <= parts,
            r@.len() == k,
            size == total / parts,
            current == k * size,
            k * size <= parts * size <= total,
            k > 0 ==> r@[0].0 == 0,
            k > 0 ==> r@.last().1 == current,
            forall|i: int| 0 <= i < r@.len() - 1 ==> (#[trigger] r@[i]).1 == r@[i + 1].0,
            forall|i: int| 0 <= i < r@.len() ==> (#[trigger] r@[i]).0 == i * size,
            forall|i: int| 0 <= i < r@.len() ==> (#[trigger] r@[i]).1 - r@[i].0 == size,
        decreases parts - k,
    {
        proof {
            assert((k + 1) * size == k * size + size) by (nonlinear_arith);
            assert(k + 1 <= parts ==> (k + 1) * size <= parts * size) by (nonlinear_arith);
        }
        r.push((current, current + size));
        current = current + size;
        k = k + 1;
    }
    r
}

} // verus!
