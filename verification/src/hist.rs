//! Byte frequency counting: the computational core of the parallel ASCII
//! histogram. A frequency table maps each of the 128 ASCII byte values to the
//! number of its occurrences; tables computed on chunks of a buffer can be
//! merged, and merging is proved to agree with a single pass over the whole
//! buffer.

use vstd::prelude::*;

verus! {

/// Number of occurrences of the byte `v` in `s`.
pub open spec fn byte_count(s: Seq<u8>, v: u8) -> nat
    decreases s.len(),
{
    if s.len() == 0 {
        0
    } else {
        byte_count(s.drop_last(), v) + if s.last() == v {
            1nat
        } else {
            0nat
        }
    }
}

/// A byte occurs at most `s.len()` times in `s`.
pub proof fn lemma_byte_count_le_len(s: Seq<u8>, v: u8)
    ensures
        byte_count(s, v) <= s.len(),
    decreases s.len(),
{
    if s.len() > 0 {
        lemma_byte_count_le_len(s.drop_last(), v);
    }
}

/// Occurrence counts add up across concatenation.
pub proof fn lemma_byte_count_concat(s1: Seq<u8>, s2: Seq<u8>, v: u8)
    ensures
        byte_count(s1 + s2, v) == byte_count(s1, v) + byte_count(s2, v),
    decreases s2.len(),
{
    if s2.len() == 0 {
        assert((s1 + s2) =~= s1);
    } else {
        assert((s1 + s2).drop_last() =~= s1 + s2.drop_last());
        assert((s1 + s2).last() == s2.last());
        lemma_byte_count_concat(s1, s2.drop_last(), v);
    }
}

/// Count each ASCII byte value of `data` in one pass.
///
/// The result is a table of 128 entries; entry `v` is the number of
/// occurrences of the byte `v` in `data`.
pub fn ascii_frequency(data: &[u8]) -> (freq: Vec<usize>)
    requires
        forall|i: int| 0 <= i < data@.len() ==> data@[i] < 128,
    ensures
        freq@.len() == 128,
        forall|v: int| 0 <= v < 128 ==> freq@[v] == byte_count(data@, v as u8),
{
    let mut freq: Vec<usize> = Vec::new();
    let mut k: usize = 0;
    while k < 128
        invariant
            k <= 128,
            freq@.len() == k,
            forall|v: int| 0 <= v < k ==> freq@[v] == 0,
        decreases 128 - k,
    {
        freq.push(0);
        k = k + 1;
    }
    let n: usize = data.len();
    let mut i: usize = 0;
    while i < n
        invariant
            n == data@.len(),
            i <= n,
            freq@.len() == 128,
            forall|j: int| 0 <= j < data@.len() ==> data@[j] < 128,
            forall|v: int| 0 <= v < 128 ==> freq@[v] == byte_count(data@.take(i as int), v as u8),
        decreases n - i,
    {
        let b = *vstd::slice::slice_index_get(data, i);
        proof {
            assert(data@.take(i + 1).drop_last() =~= data@.take(i as int));
            lemma_byte_count_le_len(data@.take(i as int), b);
        }
        let c = freq[b as usize];
        freq.set(b as usize, c + 1);
        i = i + 1;
    }
    proof {
        assert(data@.take(n as int) =~= data@);
    }
    freq
}

/// Add a partial frequency table into an accumulator, entry by entry, as the
/// gathering thread does with each result it receives.
pub fn merge_freq(acc: &mut Vec<usize>, part: &Vec<usize>)
    requires
        old(acc)@.len() == 128,
        part@.len() == 128,
        forall|v: int| 0 <= v < 128 ==> old(acc)@[v] + part@[v] <= usize::MAX,
    ensures
        final(acc)@.len() == 128,
        forall|v: int| 0 <= v < 128 ==> final(acc)@[v] == old(acc)@[v] + part@[v],
{
    let mut v: usize = 0;
    while v < 128
        invariant
            v <= 128,
            acc@.len() == 128,
            part@.len() == 128,
            forall|w: int| 0 <= w < 128 ==> old(acc)@[w] + part@[w] <= usize::MAX,
            forall|w: int| v <= w < 128 ==> acc@[w] == old(acc)@[w],
            forall|w: int| 0 <= w < v ==> acc@[w] == old(acc)@[w] + part@[w],
        decreases 128 - v,
    {
        let a = acc[v];
        let p = part[v];
        acc.set(v, a + p);
        v = v + 1;
    }
}

/// Counting a longer prefix adds exactly the counts of the new stretch.
pub proof fn lemma_byte_count_take_split(s: Seq<u8>, m: int, h: int, v: u8)
    requires
        0 <= m <= h <= s.len(),
    ensures
        byte_count(s.take(h), v) == byte_count(s.take(m), v) + byte_count(s.subrange(m, h), v),
        byte_count(s.take(h), v) <= h,
{
    assert(s.take(m) + s.subrange(m, h) =~= s.take(h));
    lemma_byte_count_concat(s.take(m), s.subrange(m, h), v);
    lemma_byte_count_le_len(s.take(h), v);
}

/// Count frequencies chunk by chunk and merge the partial tables.
///
/// This is the scatter/gather computation performed through the pool, run to
/// completion: the buffer is split into chunks of `size` bytes, each chunk is
/// counted on its own, and the partial tables are summed. The result equals
/// the single-pass count over the whole buffer, for any input, including an
/// empty one and one shorter than a single chunk.
#[verifier::rlimit(60)]
pub fn chunked_freq_count(data: &[u8], size: usize) -> (freq: Vec<usize>)
    requires
        1 <= size,
        forall|i: int| 0 <= i < data@.len() ==> data@[i] < 128,
    ensures
        freq@.len() == 128,
        forall|v: int| 0 <= v < 128 ==> freq@[v] == byte_count(data@, v as u8),
{
    let n: usize = data.len();
    let ranges = crate::scatter::chunk_ranges(n, size);
    let mut acc: Vec<usize> = Vec::new();
    let mut k: usize = 0;
    while k < 128
        invariant
            k <= 128,
            acc@.len() == k,
            forall|v: int| 0 <= v < k ==> acc@[v] == 0,
        decreases 128 - k,
    {
        acc.push(0);
        k = k + 1;
    }
    let mut covered: usize = 0;
    let mut j: usize = 0;
    while j < ranges.len()
        invariant
            n == data@.len(),
            forall|i: int| 0 <= i < data@.len() ==> data@[i] < 128,
            crate::scatter::covers(ranges@, n as nat),
            forall|i: int| 0 <= i < ranges@.len() ==> (#[trigger] ranges@[i]).0 < ranges@[i].1,
            forall|i: int| 0 <= i < ranges@.len() ==> (#[trigger] ranges@[i]).1 <= n,
            j <= ranges@.len(),
            covered == if j == 0 { 0int } else { ranges@[j - 1].1 as int },
            covered <= n,
            acc@.len() == 128,
            forall|v: int| 0 <= v < 128 ==> acc@[v] == byte_count(data@.take(covered as int), v as u8),
        decreases ranges@.len() - j,
    {
        let (lo, hi) = ranges[j];
        let chunk = vstd::slice::slice_subrange(data, lo, hi);
        let part = ascii_frequency(chunk);
        proof {
            assert(lo == covered);
            assert forall|v: int| 0 <= v < 128 implies acc@[v] + part@[v] == byte_count(
                data@.take(hi as int),
                v as u8,
            ) && acc@[v] + part@[v] <= usize::MAX by {
                lemma_byte_count_take_split(data@, covered as int, hi as int, v as u8);
            }
        }
        merge_freq(&mut acc, &part);
        covered = hi;
        j = j + 1;
    }
    proof {
        assert(data@.take(covered as int) =~= data@);
    }
    acc
}

/// Partial frequency tables summed at the spec level, chunk by chunk.
pub open spec fn sum_freq(chunks: Seq<Seq<u8>>, v: u8) -> nat
    decreases chunks.len(),
{
    if chunks.len() == 0 {
        0
    } else {
        byte_count(chunks.first(), v) + sum_freq(chunks.drop_first(), v)
    }
}

/// Scatter/gather equivalence: however a buffer is cut into chunks, the sum
/// of the per-chunk occurrence counts of a byte equals its count in the whole
/// buffer. This holds for any list of chunks, including an empty one.
pub proof fn lemma_freq_scatter_gather(chunks: Seq<Seq<u8>>, v: u8)
    ensures
        sum_freq(chunks, v) == byte_count(chunks.flatten(), v),
    decreases chunks.len(),
{
    if chunks.len() == 0 {
        assert(chunks.flatten() =~= Seq::<u8>::empty());
    } else {
        lemma_freq_scatter_gather(chunks.drop_first(), v);
        lemma_byte_count_concat(chunks.first(), chunks.drop_first().flatten(), v);
    }
}

} // verus!
