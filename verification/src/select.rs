//! Selecting the best-ranked entries of a frequency table.
//!
//! Two selections meet the same contract. The first keeps a heap of at most
//! `k + 1` entries and evicts the lowest when it overflows; the second scans
//! the whole table once for each entry that it picks.

use vstd::prelude::*;
use vstd::set_lib::{lemma_int_range, lemma_len_subset, set_int_range};
use crate::heap::{heap_pop, heap_push, holds_distinct, is_heap};
use crate::order::{lemma_outranks_asymmetric, lemma_outranks_total, lemma_outranks_transitive, outranks};
use crate::rank::{beats, candidates, distinct_words, lemma_candidates_distinct, Metric};
use crate::table::FrequencyTable;

verus! {

/// The smaller of two numbers.
pub open spec fn least(a: nat, b: nat) -> nat {
    if a < b {
        a
    } else {
        b
    }
}

/// Whether `picked` lists the `k` best candidates, or all of them where there
/// are fewer, best first: each entry outranks those listed after it and every
/// candidate that is not listed.
pub open spec fn is_selection(cands: Seq<(Seq<char>, nat)>, k: nat, picked: Seq<usize>) -> bool {
    &&& picked.len() == least(k, cands.len())
    &&& forall|i: int| 0 <= i < picked.len() ==> (#[trigger] picked[i]) < cands.len()
    &&& forall|i: int, j: int|
        0 <= i < j < picked.len() ==> outranks(
            cands[(#[trigger] picked[i]) as int],
            cands[(#[trigger] picked[j]) as int],
        )
    &&& forall|i: int, c: int|
        0 <= i < picked.len() && 0 <= c < cands.len() && !picked.contains(c as usize)
            ==> outranks(cands[(#[trigger] picked[i]) as int], #[trigger] cands[c])
}

/// The integer that an index stands for.
pub open spec fn as_integer() -> spec_fn(usize) -> int {
    |x: usize| x as int
}

/// Distinct indices below `n` are at most `n`; they are fewer where an index
/// is missing, and exactly `n` where none is.
pub proof fn lemma_distinct_indices(n: nat, picked: Seq<usize>)
    requires
        holds_distinct(n, picked),
        n <= usize::MAX,
    ensures
        picked.len() <= n,
        (exists|c: usize| c < n && !picked.contains(c)) ==> picked.len() < n,
        (forall|c: usize| c < n ==> picked.contains(c)) ==> picked.len() == n,
{
    let ints = picked.map_values(as_integer());
    ints.unique_seq_to_set();
    let held = ints.to_set();
    let range = set_int_range(0, n as int);
    lemma_int_range(0, n as int);
    lemma_len_subset(held, range);
    if exists|c: usize| c < n && !picked.contains(c) {
        let c = choose|c: usize| c < n && !picked.contains(c);
        lemma_len_subset(held, range.remove(c as int));
    }
    if forall|c: usize| c < n ==> picked.contains(c) {
        assert forall|x: int| range.contains(x) implies held.contains(x) by {
            let c = x as usize;
            assert(picked.contains(c));
            let i = choose|i: int| 0 <= i < picked.len() && picked[i] == c;
            assert(ints[i] == x);
        }
        lemma_len_subset(range, held);
    }
}

/// The entries of a selection are distinct.
pub proof fn lemma_selection_distinct(cands: Seq<(Seq<char>, nat)>, k: nat, picked: Seq<usize>)
    requires
        is_selection(cands, k, picked),
    ensures
        holds_distinct(cands.len(), picked),
{
    assert forall|i: int, j: int| 0 <= i < j < picked.len() implies picked[i] != picked[j] by {
        lemma_outranks_asymmetric(cands[picked[i] as int], cands[picked[j] as int]);
    }
}

/// Selects the `k` best entries of the table with a bounded heap: every entry
/// goes into the heap, and whenever the heap holds more than `k` entries the
/// lowest of them leaves. What is left comes out lowest first and is turned
/// round.
pub fn select_with_heap(table: &FrequencyTable, k: usize, metric: Metric) -> (picked: Vec<usize>)
    requires
        table.wf(),
    ensures
        is_selection(candidates(table.entries(), metric), k as nat, picked@),
{
    let ghost cands = candidates(table.entries(), metric);
    let n = table.len();
    proof {
        table.lemma_entries();
    }
    let mut heap: Vec<usize> = Vec::new();
    let mut i: usize = 0;
    while i < n
        invariant
            table.wf(),
            cands == candidates(table.entries(), metric),
            distinct_words(cands),
            n == cands.len(),
            i <= n,
            is_heap(cands, heap@),
            heap@.len() == least(k as nat, i as nat),
            forall|j: int| 0 <= j < heap@.len() ==> (#[trigger] heap@[j]) < i,
            i <= k ==> forall|c: usize| c < i ==> heap@.contains(c),
            forall|j: int, c: int|
                0 <= j < heap@.len() && 0 <= c < i && !heap@.contains(c as usize) ==> outranks(
                    cands[(#[trigger] heap@[j]) as int],
                    #[trigger] cands[c],
                ),
        decreases n - i,
    {
        let ghost h0 = heap@;
        heap_push(&mut heap, table, metric, i);
        let ghost h1 = heap@;
        if heap.len() > k {
            let lowest = heap_pop(&mut heap, table, metric);
            proof {
                let h2 = heap@;
                assert(h1.to_set().contains(lowest));
                assert forall|j: int| 0 <= j < h2.len() implies (#[trigger] h2[j]) < i + 1 by {
                    let x = h2[j];
                    assert(h1.to_set().contains(x));
                }
                assert forall|j: int, c: int|
                    0 <= j < h2.len() && 0 <= c < i + 1 && !h2.contains(c as usize) implies outranks(
                    cands[(#[trigger] h2[j]) as int],
                    #[trigger] cands[c],
                ) by {
                    let x = h2[j];
                    assert(h1.to_set().contains(x) && x != lowest);
                    lemma_outranks_total(cands[x as int], cands[lowest as int]);
                    if c != lowest {
                        assert(!h1.to_set().contains(c as usize));
                        if x == i {
                            lemma_outranks_transitive(
                                cands[x as int],
                                cands[lowest as int],
                                cands[c],
                            );
                        }
                    }
                }
            }
        } else {
            proof {
                assert forall|c: usize| c < i + 1 implies h1.contains(c) by {
                    assert(h1.to_set().contains(c));
                }
                assert forall|j: int| 0 <= j < h1.len() implies (#[trigger] h1[j]) < i + 1 by {
                    let x = h1[j];
                    assert(h1.to_set().contains(x));
                    if x != i {
                        assert(h0.contains(x));
                    }
                }
            }
        }
        i = i + 1;
    }
    let ghost kept = heap@;
    let mut rising: Vec<usize> = Vec::new();
    while heap.len() > 0
        invariant
            table.wf(),
            cands == candidates(table.entries(), metric),
            distinct_words(cands),
            is_heap(cands, heap@),
            heap@.len() + rising@.len() == kept.len(),
            kept.to_set() == heap@.to_set().union(rising@.to_set()),
            forall|a: int| 0 <= a < rising@.len() ==> (#[trigger] rising@[a]) < cands.len(),
            forall|a: int, b: int|
                0 <= a < b < rising@.len() ==> outranks(
                    cands[(#[trigger] rising@[b]) as int],
                    cands[(#[trigger] rising@[a]) as int],
                ),
            forall|j: int, a: int|
                0 <= j < heap@.len() && 0 <= a < rising@.len() ==> outranks(
                    cands[(#[trigger] heap@[j]) as int],
                    cands[(#[trigger] rising@[a]) as int],
                ),
        decreases heap@.len(),
    {
        let ghost h0 = heap@;
        let ghost r0 = rising@;
        let lowest = heap_pop(&mut heap, table, metric);
        rising.push(lowest);
        proof {
            let h1 = heap@;
            let r1 = rising@;
            r0.lemma_push_to_set_commute(lowest);
            assert forall|j: int, a: int| 0 <= j < h1.len() && 0 <= a < r1.len() implies outranks(
                cands[(#[trigger] h1[j]) as int],
                cands[(#[trigger] r1[a]) as int],
            ) by {
                let x = h1[j];
                assert(h1.to_set().contains(x));
                if a == r0.len() {
                    lemma_outranks_total(cands[x as int], cands[lowest as int]);
                }
            }
        }
    }
    let m = rising.len();
    let mut picked: Vec<usize> = Vec::new();
    let mut t: usize = 0;
    while t < m
        invariant
            m == rising@.len(),
            t <= m,
            picked@.len() == t,
            forall|a: int| 0 <= a < t ==> #[trigger] picked@[a] == rising@[m - 1 - a],
        decreases m - t,
    {
        picked.push(rising[m - 1 - t]);
        t = t + 1;
    }
    proof {
        assert(heap@.to_set() =~= Set::<usize>::empty()) by {
            assert forall|v: usize| !heap@.to_set().contains(v) by {}
        }
        assert forall|i: int, c: int|
            0 <= i < picked@.len() && 0 <= c < cands.len() && !picked@.contains(
                c as usize,
            ) implies outranks(cands[(#[trigger] picked@[i]) as int], #[trigger] cands[c]) by {
            let x = picked@[i];
            assert(kept.to_set().contains(x));
            if kept.contains(c as usize) {
                assert(kept.to_set().contains(c as usize));
                let a = choose|a: int| 0 <= a < rising@.len() && rising@[a] == c as usize;
                assert(picked@[m - 1 - a] == c as usize);
            }
        }
    }
    picked
}

/// Whether `entry` is among `picked`.
fn is_picked(picked: &Vec<usize>, entry: usize) -> (found: bool)
    ensures
        found == picked@.contains(entry),
{
    let mut i: usize = 0;
    while i < picked.len()
        invariant
            i <= picked@.len(),
            forall|j: int| 0 <= j < i ==> picked@[j] != entry,
        decreases picked@.len() - i,
    {
        if picked[i] == entry {
            return true;
        }
        i = i + 1;
    }
    false
}

/// Selects the `k` best entries of the table by scanning: each round looks
/// through the whole table for the best entry that has not been picked yet.
pub fn select_by_scanning(table: &FrequencyTable, k: usize, metric: Metric) -> (picked: Vec<usize>)
    requires
        table.wf(),
    ensures
        is_selection(candidates(table.entries(), metric), k as nat, picked@),
{
    let ghost cands = candidates(table.entries(), metric);
    let n = table.len();
    proof {
        table.lemma_entries();
        lemma_candidates_distinct(table.entries(), table.recorded(), metric);
    }
    let mut picked: Vec<usize> = Vec::new();
    let mut round: usize = 0;
    while round < k
        invariant
            table.wf(),
            cands == candidates(table.entries(), metric),
            distinct_words(cands),
            n == cands.len(),
            round <= k,
            is_selection(cands, round as nat, picked@),
        decreases k - round,
    {
        let mut found = false;
        let mut best: usize = 0;
        let mut c: usize = 0;
        while c < n
            invariant
                table.wf(),
                cands == candidates(table.entries(), metric),
                distinct_words(cands),
                n == cands.len(),
                c <= n,
                found ==> best < c && !picked@.contains(best),
                found ==> forall|d: int|
                    0 <= d < c && !picked@.contains(d as usize) && d != best ==> outranks(
                        cands[best as int],
                        #[trigger] cands[d],
                    ),
                !found ==> forall|d: usize| d < c ==> picked@.contains(d),
            decreases n - c,
        {
            if !is_picked(&picked, c) {
                if !found || beats(table, metric, c, best) {
                    proof {
                        if found {
                            assert forall|d: int|
                                0 <= d < c && !picked@.contains(d as usize)
                                    && d != best implies outranks(
                                cands[c as int],
                                #[trigger] cands[d],
                            ) by {
                                lemma_outranks_transitive(
                                    cands[c as int],
                                    cands[best as int],
                                    cands[d],
                                );
                            }
                        }
                    }
                    best = c;
                    found = true;
                } else {
                    proof {
                        lemma_outranks_total(cands[best as int], cands[c as int]);
                    }
                }
            }
            c = c + 1;
        }
        proof {
            lemma_selection_distinct(cands, round as nat, picked@);
            lemma_distinct_indices(n as nat, picked@);
        }
        if found {
            let ghost before = picked@;
            picked.push(best);
            proof {
                let after = picked@;
                assert forall|i: int, j: int| 0 <= i < j < after.len() implies outranks(
                    cands[(#[trigger] after[i]) as int],
                    cands[(#[trigger] after[j]) as int],
                ) by {}
                assert forall|i: int, d: int|
                    0 <= i < after.len() && 0 <= d < cands.len() && !after.contains(
                        d as usize,
                    ) implies outranks(cands[(#[trigger] after[i]) as int], #[trigger] cands[d]) by {
                    if before.contains(d as usize) {
                        let a = choose|a: int| 0 <= a < before.len() && before[a] == d as usize;
                        assert(after[a] == d as usize);
                    }
                }
            }
        }
        round = round + 1;
    }
    picked
}

} // verus!
