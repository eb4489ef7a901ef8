//! Gathering the results of scattered jobs.
//!
//! Workers finish in any order, so a partial result is tagged with its chunk
//! identity and placed by that tag, never by arrival order. `gather_by_index`
//! performs the placement and succeeds exactly when each index below the
//! chunk count arrived exactly once. For kernels that fold into a shared
//! counter instead, `add_all` sums the increments, and the sum is proved
//! independent of the order in which they were applied.

use vstd::prelude::*;

verus! {

broadcast use vstd::seq_lib::group_to_multiset_ensures, vstd::multiset::group_multiset_axioms;

/// The tags of a list of tagged results, in arrival order.
pub open spec fn tags<T>(results: Seq<(usize, T)>) -> Seq<int> {
    Seq::new(results.len(), |j: int| results[j].0 as int)
}

/// There are `n` results, every tag is below `n`, and no tag repeats: each
/// chunk identity below `n` arrived exactly once.
pub open spec fn distinct_tags<T>(results: Seq<(usize, T)>, n: nat) -> bool {
    &&& results.len() == n
    &&& (forall|j: int| 0 <= j < results.len() ==> ((#[trigger] results[j]).0 as nat) < n)
    &&& (forall|j1: int, j2: int|
        0 <= j1 < j2 < results.len() ==> (#[trigger] results[j1]).0 != (#[trigger] results[j2]).0)
}

/// Pigeonhole: `n` pairwise distinct tags below `n` leave no slot empty, so
/// every value below `n` occurs among the tags.
proof fn lemma_tag_present(t: Seq<int>, n: int, wanted: int)
    requires
        t.len() == n,
        0 <= wanted < n,
        forall|j: int| 0 <= j < t.len() ==> 0 <= #[trigger] t[j] < n,
        t.no_duplicates(),
    ensures
        exists|j: int| 0 <= j < t.len() && t[j] == wanted,
{
    broadcast use vstd::set::group_set_axioms;

    if forall|j: int| 0 <= j < t.len() ==> #[trigger] t[j] != wanted {
        t.unique_seq_to_set();
        let range = vstd::set_lib::set_int_range(0, n);
        vstd::set_lib::lemma_int_range(0, n);
        let smaller = range.remove(wanted);
        assert(t.to_set().subset_of(smaller));
        vstd::set_lib::lemma_len_subset(t.to_set(), smaller);
        assert(false);
    }
}

/// Some arrival position carries the tag `i`.
pub open spec fn tag_arrives<T>(results: Seq<(usize, T)>, i: int) -> bool {
    exists|j: int| 0 <= j < results.len() && (#[trigger] results[j]).0 == i
}

/// Performing `n` receives of results with pairwise distinct tags below `n`
/// yields every chunk identity of `0..n` exactly once: each occurs at some
/// arrival position, and at no two.
pub proof fn lemma_distinct_tags_cover<T>(results: Seq<(usize, T)>, n: nat)
    requires
        distinct_tags(results, n),
    ensures
        forall|i: int| 0 <= i < n ==> #[trigger] tag_arrives(results, i),
{
    assert forall|i: int| 0 <= i < n implies #[trigger] tag_arrives(results, i) by {
        assert forall|j1: int, j2: int|
            0 <= j1 < j2 < tags(results).len() implies #[trigger] tags(results)[j1]
            != #[trigger] tags(results)[j2] by {
            assert(results[j1].0 != results[j2].0);
        }
        lemma_tag_present(tags(results), n as int, i);
        let jw = choose|jw: int| 0 <= jw < tags(results).len() && tags(results)[jw] == i;
        assert(results[jw].0 == i);
    }
}

/// Place each tagged result into the slot its tag names.
///
/// Succeeds if and only if the tags are exactly the chunk identities
/// `0..n`, one each; then slot `i` holds the result tagged `i`, whatever
/// the arrival order was. Fails on a missing count, an out-of-range tag or
/// a duplicate.
pub fn gather_by_index<T>(results: Vec<(usize, T)>, n: usize) -> (out: Option<Vec<T>>)
    ensures
        out is Some <==> distinct_tags(results@, n as nat),
        out is Some ==> out->0@.len() == n,
        out is Some ==> forall|j: int|
            0 <= j < results@.len() ==> out->0@[(#[trigger] results@[j]).0 as int]
                == results@[j].1,
{
    let mut rest = results;
    if rest.len() != n {
        return None;
    }
    let mut slots: Vec<Option<T>> = Vec::new();
    let mut k: usize = 0;
    while k < n
        invariant
            k <= n,
            slots@.len() == k,
            forall|i: int| 0 <= i < k ==> slots@[i] is None,
        decreases n - k,
    {
        slots.push(None);
        k = k + 1;
    }
    let ghost all = rest@;
    let mut j: usize = 0;
    while j < n
        invariant
            j <= n,
            all == results@,
            all.len() == n,
            rest@ == all.skip(j as int),
            slots@.len() == n,
            forall|j1: int| 0 <= j1 < j ==> ((#[trigger] all[j1]).0 as nat) < n as nat,
            forall|j1: int, j2: int| 0 <= j1 < j2 < j ==> (#[trigger] all[j1]).0 != (#[trigger] all[j2]).0,
            forall|j1: int| 0 <= j1 < j ==> slots@[(#[trigger] all[j1]).0 as int] == Some(all[j1].1),
            forall|i: int|
                0 <= i < n ==> ((#[trigger] slots@[i]) is Some <==> exists|j1: int|
                    0 <= j1 < j && (#[trigger] all[j1]).0 == i),
        decreases n - j,
    {
        let (idx, val) = rest.remove(0);
        proof {
            assert(all.skip(j as int)[0] == all[j as int]);
            assert(all.skip(j as int).remove(0) =~= all.skip(j + 1));
        }
        if idx >= n {
            proof {
                assert(all[j as int].0 == idx);
                assert(!distinct_tags(all, n as nat));
            }
            return None;
        }
        if slots[idx].is_some() {
            proof {
                let j1 = choose|j1: int| 0 <= j1 < j && (#[trigger] all[j1]).0 == idx as int;
                assert(all[j1].0 == all[j as int].0);
                assert(0 <= j1 < j < all.len());
                assert(!distinct_tags(all, n as nat));
            }
            return None;
        }
        slots.set(idx, Some(val));
        j = j + 1;
    }
    proof {
        assert(rest@.len() == 0);
        assert forall|i: int| 0 <= i < n implies (#[trigger] slots@[i]) is Some by {
            if !(slots@[i] is Some) {
                assert(forall|j1: int| 0 <= j1 < n ==> (#[trigger] all[j1]).0 != i);
                assert forall|j1: int, j2: int|
                    0 <= j1 < j2 < tags(all).len() implies #[trigger] tags(all)[j1]
                    != #[trigger] tags(all)[j2] by {
                    assert(all[j1].0 != all[j2].0);
                }
                lemma_tag_present(tags(all), n as int, i);
                let jw = choose|jw: int| 0 <= jw < tags(all).len() && tags(all)[jw] == i;
                assert(all[jw].0 == i);
            }
        }
    }
    let ghost filled = slots@;
    let mut out: Vec<T> = Vec::new();
    let mut i: usize = 0;
    while i < n
        invariant
            i <= n,
            filled.len() == n,
            slots@ == filled.skip(i as int),
            forall|m: int| 0 <= m < n ==> (#[trigger] filled[m]) is Some,
            out@.len() == i,
            forall|m: int| 0 <= m < i ==> Some(#[trigger] out@[m]) == filled[m],
        decreases n - i,
    {
        proof {
            assert(filled.skip(i as int)[0] == filled[i as int]);
            assert(filled.skip(i as int).remove(0) =~= filled.skip(i + 1));
        }
        let s = slots.remove(0);
        let v = s.unwrap();
        out.push(v);
        i = i + 1;
    }
    Some(out)
}

/// The increments summed, in application order.
pub open spec fn total(amounts: Seq<u64>) -> int
    decreases amounts.len(),
{
    if amounts.len() == 0 {
        0
    } else {
        total(amounts.drop_last()) + amounts.last()
    }
}

/// Dropping the entry at `i` lowers the sum by exactly that entry.
pub proof fn lemma_total_remove(amounts: Seq<u64>, i: int)
    requires
        0 <= i < amounts.len(),
    ensures
        total(amounts.remove(i)) == total(amounts) - amounts[i],
    decreases amounts.len(),
{
    if i == amounts.len() - 1 {
        assert(amounts.remove(i) =~= amounts.drop_last());
    } else {
        assert(amounts.remove(i).drop_last() =~= amounts.drop_last().remove(i));
        assert(amounts.remove(i).last() == amounts.last());
        lemma_total_remove(amounts.drop_last(), i);
    }
}

/// The sum of the increments does not depend on the interleaving: any two
/// application orders of the same increments leave the shared counter equal.
pub proof fn lemma_total_order_independent(a: Seq<u64>, b: Seq<u64>)
    requires
        a.to_multiset() == b.to_multiset(),
    ensures
        total(a) == total(b),
    decreases a.len(),
{
    broadcast use vstd::seq_lib::group_to_multiset_ensures, vstd::multiset::group_multiset_axioms;

    if a.len() == 0 {
        assert(b.to_multiset().len() == 0);
    } else {
        let x = a.last();
        assert(a.drop_last().push(x) =~= a);
        assert(a.to_multiset().count(x) > 0);
        assert(b.to_multiset().count(x) > 0);
        assert(b.contains(x));
        let k = choose|k: int| 0 <= k < b.len() && b[k] == x;
        let b2 = b.remove(k);
        assert(b2.to_multiset() =~= b.to_multiset().remove(x));
        assert(a.drop_last().to_multiset() =~= a.to_multiset().remove(x));
        lemma_total_order_independent(a.drop_last(), b2);
        lemma_total_remove(b, k);
    }
}

/// Add every increment of `amounts` to `counter`, as the jobs of a
/// shared-counter kernel do one mutex acquisition at a time.
pub fn add_all(counter: u64, amounts: &Vec<u64>) -> (r: u64)
    requires
        counter + total(amounts@) <= u64::MAX,
    ensures
        r == counter + total(amounts@),
{
    let mut acc = counter;
    let mut i: usize = 0;
    while i < amounts.len()
        invariant
            i <= amounts@.len(),
            acc == counter + total(amounts@.take(i as int)),
            counter + total(amounts@) <= u64::MAX,
        decreases amounts@.len() - i,
    {
        proof {
            assert(amounts@.take(i + 1).drop_last() =~= amounts@.take(i as int));
            assert(amounts@.take(i + 1).last() == amounts@[i as int]);
            lemma_total_take_le(amounts@, i + 1);
        }
        acc = acc + amounts[i];
        i = i + 1;
    }
    proof {
        assert(amounts@.take(amounts@.len() as int) =~= amounts@);
    }
    acc
}

/// Every prefix sum is bounded by the full sum.
pub proof fn lemma_total_take_le(amounts: Seq<u64>, i: int)
    requires
        0 <= i <= amounts.len(),
    ensures
        total(amounts.take(i)) <= total(amounts),
    decreases amounts.len() - i,
{
    if i < amounts.len() {
        assert(amounts.take(i + 1).drop_last() =~= amounts.take(i));
        assert(amounts.take(i + 1).last() == amounts[i]);
        lemma_total_take_le(amounts, i + 1);
    } else {
        assert(amounts.take(i) =~= amounts);
    }
}

} // verus!
