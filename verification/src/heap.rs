//! A binary min-heap of table entries: the entry that every other entry in
//! the heap outranks sits at the root, ready to be evicted.

use vstd::prelude::*;
use crate::order::{
    lemma_not_outranks_transitive, lemma_outranks_asymmetric, lemma_outranks_transitive, outranks,
};
use crate::rank::{beats, candidates, distinct_words, lemma_candidates_distinct, Metric};
use crate::table::FrequencyTable;

verus! {

/// The position above position `k`.
pub open spec fn parent(k: int) -> int {
    (k - 1) / 2
}

/// Whether the entry at position `k` is not outranked by the one above it.
pub open spec fn ordered_at(cands: Seq<(Seq<char>, nat)>, heap: Seq<usize>, k: int) -> bool {
    !outranks(cands[heap[parent(k)] as int], cands[heap[k] as int])
}

/// Whether `heap` holds entries of a table with `n` entries, none of them
/// twice.
pub open spec fn holds_distinct(n: nat, heap: Seq<usize>) -> bool {
    &&& forall|k: int| 0 <= k < heap.len() ==> (#[trigger] heap[k]) < n
    &&& forall|i: int, j: int| 0 <= i < j < heap.len() ==> heap[i] != heap[j]
}

/// Whether no entry in `heap` is outranked by the one above it.
pub open spec fn heap_ordered(cands: Seq<(Seq<char>, nat)>, heap: Seq<usize>) -> bool {
    forall|k: int| 1 <= k < heap.len() ==> #[trigger] ordered_at(cands, heap, k)
}

/// The heap's invariant.
pub open spec fn is_heap(cands: Seq<(Seq<char>, nat)>, heap: Seq<usize>) -> bool {
    holds_distinct(cands.len(), heap) && heap_ordered(cands, heap)
}

/// `heap` with the entries at positions `i` and `j` exchanged.
pub open spec fn exchanged(heap: Seq<usize>, i: int, j: int) -> Seq<usize> {
    heap.update(i, heap[j]).update(j, heap[i])
}

/// An exchange keeps what the heap holds.
pub proof fn lemma_exchanged(n: nat, heap: Seq<usize>, i: int, j: int)
    requires
        holds_distinct(n, heap),
        0 <= i < heap.len(),
        0 <= j < heap.len(),
    ensures
        holds_distinct(n, exchanged(heap, i, j)),
        exchanged(heap, i, j).to_set() == heap.to_set(),
{
    let after = exchanged(heap, i, j);
    assert forall|v: usize| after.contains(v) == heap.contains(v) by {
        if heap.contains(v) {
            let k = choose|k: int| 0 <= k < heap.len() && heap[k] == v;
            let k2 = if k == i {
                j
            } else if k == j {
                i
            } else {
                k
            };
            assert(after[k2] == v);
        }
        if after.contains(v) {
            let k = choose|k: int| 0 <= k < after.len() && after[k] == v;
            assert(heap[k] == v || heap[i] == v || heap[j] == v);
        }
    }
}

/// Nothing in an ordered heap is outranked by its root.
pub proof fn lemma_root_is_lowest(cands: Seq<(Seq<char>, nat)>, heap: Seq<usize>, k: int)
    requires
        distinct_words(cands),
        is_heap(cands, heap),
        0 <= k < heap.len(),
    ensures
        !outranks(cands[heap[0] as int], cands[heap[k] as int]),
    decreases k,
{
    if k == 0 {
        lemma_outranks_asymmetric(cands[heap[0] as int], cands[heap[0] as int]);
    } else {
        lemma_root_is_lowest(cands, heap, parent(k));
        assert(ordered_at(cands, heap, k));
        lemma_not_outranks_transitive(
            cands[heap[0] as int],
            cands[heap[parent(k)] as int],
            cands[heap[k] as int],
        );
    }
}

/// Exchanges the entries at positions `i` and `j`.
fn exchange(heap: &mut Vec<usize>, i: usize, j: usize)
    requires
        i < old(heap).len(),
        j < old(heap).len(),
    ensures
        final(heap)@ == exchanged(old(heap)@, i as int, j as int),
{
    let a = heap[i];
    let b = heap[j];
    heap.set(i, b);
    heap.set(j, a);
}

/// Adds entry `item` to the heap.
pub fn heap_push(heap: &mut Vec<usize>, table: &FrequencyTable, metric: Metric, item: usize)
    requires
        table.wf(),
        is_heap(candidates(table.entries(), metric), old(heap)@),
        item < table.entries().len(),
        !old(heap)@.contains(item),
    ensures
        is_heap(candidates(table.entries(), metric), final(heap)@),
        final(heap)@.len() == old(heap)@.len() + 1,
        final(heap)@.to_set() == old(heap)@.to_set().insert(item),
{
    let ghost cands = candidates(table.entries(), metric);
    let ghost before = heap@;
    proof {
        table.lemma_entries();
    }
    heap.push(item);
    let mut p: usize = heap.len() - 1;
    proof {
        before.lemma_push_to_set_commute(item);
        assert forall|k: int| 1 <= k < heap@.len() && k != p implies #[trigger] ordered_at(
            cands,
            heap@,
            k,
        ) by {
            assert(ordered_at(cands, before, k));
        }
    }
    while p > 0
        invariant
            table.wf(),
            cands == candidates(table.entries(), metric),
            distinct_words(cands),
            p < heap@.len(),
            heap@.len() == before.len() + 1,
            holds_distinct(cands.len(), heap@),
            heap@.to_set() == before.to_set().insert(item),
            forall|k: int|
                1 <= k < heap@.len() && k != p ==> #[trigger] ordered_at(cands, heap@, k),
            forall|k: int|
                1 <= k < heap@.len() && parent(k) == p && p >= 1 ==> !outranks(
                    cands[heap@[parent(p as int)] as int],
                    cands[(#[trigger] heap@[k]) as int],
                ),
        ensures
            heap@.len() == before.len() + 1,
            holds_distinct(cands.len(), heap@),
            heap@.to_set() == before.to_set().insert(item),
            heap_ordered(cands, heap@),
        decreases p,
    {
        let q = (p - 1) / 2;
        if !beats(table, metric, heap[q], heap[p]) {
            break;
        }
        let ghost held = heap@;
        exchange(heap, p, q);
        proof {
            lemma_exchanged(cands.len(), held, p as int, q as int);
            lemma_outranks_asymmetric(cands[held[q as int] as int], cands[held[p as int] as int]);
            assert forall|k: int| 1 <= k < heap@.len() && k != q implies #[trigger] ordered_at(
                cands,
                heap@,
                k,
            ) by {
                if k != p {
                    assert(ordered_at(cands, held, k));
                    if parent(k) == q && outranks(
                        cands[held[p as int] as int],
                        cands[held[k] as int],
                    ) {
                        lemma_outranks_transitive(
                            cands[held[q as int] as int],
                            cands[held[p as int] as int],
                            cands[held[k] as int],
                        );
                    }
                }
            }
            assert forall|k: int|
                1 <= k < heap@.len() && parent(k) == q && q >= 1 implies !outranks(
                cands[heap@[parent(q as int)] as int],
                cands[(#[trigger] heap@[k]) as int],
            ) by {
                assert(ordered_at(cands, held, q as int));
                if k != p {
                    assert(ordered_at(cands, held, k));
                    lemma_not_outranks_transitive(
                        cands[held[parent(q as int)] as int],
                        cands[held[q as int] as int],
                        cands[held[k] as int],
                    );
                }
            }
        }
        p = q;
    }
}

/// Takes out of the heap the entry that every other entry in it outranks.
pub fn heap_pop(heap: &mut Vec<usize>, table: &FrequencyTable, metric: Metric) -> (lowest: usize)
    requires
        table.wf(),
        is_heap(candidates(table.entries(), metric), old(heap)@),
        old(heap)@.len() > 0,
    ensures
        is_heap(candidates(table.entries(), metric), final(heap)@),
        final(heap)@.len() == old(heap)@.len() - 1,
        old(heap)@.contains(lowest),
        final(heap)@.to_set() == old(heap)@.to_set().remove(lowest),
        forall|v: usize|
            old(heap)@.contains(v) ==> !outranks(
                candidates(table.entries(), metric)[lowest as int],
                #[trigger] candidates(table.entries(), metric)[v as int],
            ),
{
    let ghost cands = candidates(table.entries(), metric);
    let ghost before = heap@;
    proof {
        table.lemma_entries();
        lemma_candidates_distinct(table.entries(), table.recorded(), metric);
    }
    let lowest = heap[0];
    proof {
        assert forall|v: usize| before.contains(v) implies !outranks(
            cands[lowest as int],
            #[trigger] cands[v as int],
        ) by {
            let k = choose|k: int| 0 <= k < before.len() && before[k] == v;
            lemma_root_is_lowest(cands, before, k);
        }
    }
    let last = heap.pop().unwrap();
    let n = heap.len();
    if n == 0 {
        return lowest;
    }
    heap.set(0, last);
    let mut p: usize = 0;
    proof {
        assert forall|v: usize| heap@.contains(v) == (before.contains(v) && v != lowest) by {
            if before.contains(v) && v != lowest {
                let k = choose|k: int| 0 <= k < before.len() && before[k] == v;
                if k == n {
                    assert(heap@[0] == v);
                } else {
                    assert(heap@[k] == v);
                }
            }
            if heap@.contains(v) {
                let k = choose|k: int| 0 <= k < heap@.len() && heap@[k] == v;
            }
        }
        assert forall|k: int| 1 <= k < heap@.len() && parent(k) != p implies #[trigger] ordered_at(
            cands,
            heap@,
            k,
        ) by {
            assert(ordered_at(cands, before, k));
        }
    }
    loop
        invariant
            table.wf(),
            cands == candidates(table.entries(), metric),
            distinct_words(cands),
            p < n,
            n == heap@.len(),
            n == before.len() - 1,
            holds_distinct(cands.len(), heap@),
            heap@.to_set() == before.to_set().remove(lowest),
            forall|k: int|
                1 <= k < heap@.len() && parent(k) != p ==> #[trigger] ordered_at(cands, heap@, k),
            forall|k: int|
                1 <= k < heap@.len() && parent(k) == p && p >= 1 ==> !outranks(
                    cands[heap@[parent(p as int)] as int],
                    cands[(#[trigger] heap@[k]) as int],
                ),
        ensures
            n == heap@.len(),
            holds_distinct(cands.len(), heap@),
            heap@.to_set() == before.to_set().remove(lowest),
            heap_ordered(cands, heap@),
        decreases n - p,
    {
        if n < 2 || p > (n - 2) / 2 {
            break;
        }
        let left = 2 * p + 1;
        let right = left + 1;
        let mut least = left;
        if right < n && beats(table, metric, heap[left], heap[right]) {
            least = right;
        }
        let ghost other = if least == left {
            right
        } else {
            left
        };
        proof {
            if right < n && least == right {
                lemma_outranks_asymmetric(
                    cands[heap@[left as int] as int],
                    cands[heap@[right as int] as int],
                );
            }
        }
        if !beats(table, metric, heap[p], heap[least]) {
            proof {
                if other < n {
                    lemma_not_outranks_transitive(
                        cands[heap@[p as int] as int],
                        cands[heap@[least as int] as int],
                        cands[heap@[other as int] as int],
                    );
                }
            }
            break;
        }
        let ghost held = heap@;
        exchange(heap, p, least);
        proof {
            lemma_exchanged(cands.len(), held, p as int, least as int);
            lemma_outranks_asymmetric(
                cands[held[p as int] as int],
                cands[held[least as int] as int],
            );
            assert forall|k: int|
                1 <= k < heap@.len() && parent(k) != least implies #[trigger] ordered_at(
                cands,
                heap@,
                k,
            ) by {
                if k != p && parent(k) != p {
                    assert(ordered_at(cands, held, k));
                }
            }
            assert forall|k: int|
                1 <= k < heap@.len() && parent(k) == least && least >= 1 implies !outranks(
                cands[heap@[parent(least as int)] as int],
                cands[(#[trigger] heap@[k]) as int],
            ) by {
                assert(ordered_at(cands, held, k));
            }
        }
        p = least;
    }
    lowest
}

} // verus!
