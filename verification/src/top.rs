//! What a ranked result is, stated over the words of a text alone.

use vstd::prelude::*;
use vstd::set_lib::lemma_map_size;
use crate::order::{lemma_outranks_asymmetric, outranks};
use crate::rank::{candidates, Metric};
use crate::select::{is_selection, least};
use crate::table::{is_tally, lemma_occurrences, occurrences};

verus! {

/// The score of `word` among `words` under `metric`.
pub open spec fn score_of(words: Seq<Seq<char>>, metric: Metric, word: Seq<char>) -> nat {
    match metric {
        Metric::Frequency => occurrences(words, word),
        Metric::Length => word.len(),
    }
}

/// The candidates that `words` give rise to: each distinct word once, with
/// its score.
pub open spec fn pool(words: Seq<Seq<char>>, metric: Metric) -> Set<(Seq<char>, nat)> {
    Set::new(|c: (Seq<char>, nat)| words.contains(c.0) && c.1 == score_of(words, metric, c.0))
}

/// Each distinct word with the number of its occurrences.
pub open spec fn by_frequency(words: Seq<Seq<char>>) -> Set<(Seq<char>, nat)> {
    pool(words, Metric::Frequency)
}

/// Each distinct word with the number of its characters.
pub open spec fn by_length(words: Seq<Seq<char>>) -> Set<(Seq<char>, nat)> {
    pool(words, Metric::Length)
}

/// Whether `picked` lists the `k` best candidates of `pool`, or all of them
/// where there are fewer, best first: each one outranks those listed after it
/// and every candidate of the pool that is not listed.
pub open spec fn is_top(pool: Set<(Seq<char>, nat)>, k: nat, picked: Seq<(Seq<char>, nat)>) -> bool {
    &&& picked.len() == least(k, pool.len())
    &&& forall|i: int| 0 <= i < picked.len() ==> pool.contains(#[trigger] picked[i])
    &&& forall|i: int, j: int|
        0 <= i < j < picked.len() ==> outranks(#[trigger] picked[i], #[trigger] picked[j])
    &&& forall|i: int, c: (Seq<char>, nat)|
        0 <= i < picked.len() && #[trigger] pool.contains(c) && !picked.contains(c) ==> outranks(
            #[trigger] picked[i],
            c,
        )
}

/// The candidates at the places `picked`.
pub open spec fn chosen(cands: Seq<(Seq<char>, nat)>, picked: Seq<usize>) -> Seq<(Seq<char>, nat)> {
    Seq::new(picked.len(), |i: int| cands[picked[i] as int])
}

/// The map from a word to its candidate.
pub open spec fn scored(words: Seq<Seq<char>>, metric: Metric) -> spec_fn(Seq<char>) -> (
    Seq<char>,
    nat,
) {
    |w: Seq<char>| (w, score_of(words, metric, w))
}

/// A pool holds one candidate for each distinct word.
pub proof fn lemma_pool_size(words: Seq<Seq<char>>, metric: Metric)
    ensures
        pool(words, metric).finite(),
        pool(words, metric).len() == words.to_set().len(),
{
    let f = scored(words, metric);
    assert(words.to_set().map(f) =~= pool(words, metric)) by {
        assert forall|c: (Seq<char>, nat)| pool(words, metric).contains(c) implies words.to_set().map(
            f,
        ).contains(c) by {
            assert(words.to_set().contains(c.0) && c == f(c.0));
        }
    }
    lemma_map_size(words.to_set(), pool(words, metric), f);
}

/// The candidates of a tally of `words` are the pool of `words`, and there
/// are as many of them as `words` has distinct words.
pub proof fn lemma_tally_pool(entries: Seq<(Seq<char>, nat)>, words: Seq<Seq<char>>, metric: Metric)
    requires
        is_tally(entries, words),
    ensures
        candidates(entries, metric).to_set() == pool(words, metric),
        entries.len() == words.to_set().len(),
        entries.len() == pool(words, metric).len(),
{
    let cands = candidates(entries, metric);
    assert forall|c: (Seq<char>, nat)| cands.contains(c) == pool(words, metric).contains(c) by {
        lemma_occurrences(words, c.0);
        if pool(words, metric).contains(c) {
            let i = choose|i: int| 0 <= i < entries.len() && (#[trigger] entries[i]).0 == c.0;
            assert(cands[i] == c);
        }
    }
    assert(cands.to_set() =~= pool(words, metric));
    cands.unique_seq_to_set();
    lemma_pool_size(words, metric);
}

/// A selection from the candidates of a tally is the top of the pool.
pub proof fn lemma_selection_is_top(
    entries: Seq<(Seq<char>, nat)>,
    words: Seq<Seq<char>>,
    metric: Metric,
    k: nat,
    picked: Seq<usize>,
)
    requires
        is_tally(entries, words),
        entries.len() <= usize::MAX,
        is_selection(candidates(entries, metric), k, picked),
    ensures
        is_top(pool(words, metric), k, chosen(candidates(entries, metric), picked)),
{
    let cands = candidates(entries, metric);
    let listed = chosen(cands, picked);
    lemma_tally_pool(entries, words, metric);
    assert forall|i: int, c: (Seq<char>, nat)|
        0 <= i < listed.len() && #[trigger] pool(words, metric).contains(c) && !listed.contains(
            c,
        ) implies outranks(#[trigger] listed[i], c) by {
        let x = choose|x: int| 0 <= x < cands.len() && cands[x] == c;
        if picked.contains(x as usize) {
            let j = choose|j: int| 0 <= j < picked.len() && picked[j] == x as usize;
            assert(listed[j] == c);
        }
    }
}

/// Where two tops of one pool agree before place `i`, no candidate at place
/// `i` of the first outranks the one at that place of the second.
proof fn lemma_top_step(
    pool: Set<(Seq<char>, nat)>,
    k: nat,
    a: Seq<(Seq<char>, nat)>,
    b: Seq<(Seq<char>, nat)>,
    i: int,
)
    requires
        is_top(pool, k, a),
        is_top(pool, k, b),
        0 <= i < a.len(),
        forall|j: int| 0 <= j < i ==> a[j] == b[j],
    ensures
        !outranks(a[i], b[i]),
{
    if outranks(a[i], b[i]) {
        lemma_outranks_asymmetric(a[i], b[i]);
        // Were `a[i]` left out of `b`, `b[i]` would outrank it.
        assert(b.contains(a[i]));
        // It stands neither before place `i`, where it would outrank itself,
        // nor after it, where `b[i]` would outrank it.
        let j = choose|j: int| 0 <= j < b.len() && b[j] == a[i];
        assert(j == i);
    }
}

/// Two tops of one pool agree on their first `n` places.
proof fn lemma_top_agree(
    pool: Set<(Seq<char>, nat)>,
    k: nat,
    a: Seq<(Seq<char>, nat)>,
    b: Seq<(Seq<char>, nat)>,
    n: int,
)
    requires
        is_top(pool, k, a),
        is_top(pool, k, b),
        0 <= n <= a.len(),
    ensures
        forall|j: int| 0 <= j < n ==> a[j] == b[j],
    decreases n,
{
    if n > 0 {
        lemma_top_agree(pool, k, a, b, n - 1);
        lemma_top_step(pool, k, a, b, n - 1);
        lemma_top_step(pool, k, b, a, n - 1);
    }
}

/// A pool has one top of each size: the ranking leaves nothing open.
pub proof fn lemma_top_unique(
    pool: Set<(Seq<char>, nat)>,
    k: nat,
    a: Seq<(Seq<char>, nat)>,
    b: Seq<(Seq<char>, nat)>,
)
    requires
        is_top(pool, k, a),
        is_top(pool, k, b),
    ensures
        a == b,
{
    lemma_top_agree(pool, k, a, b, a.len() as int);
}

/// The scores of a top never rise from one place to the next, and no
/// candidate that is left out has a higher score than one that is listed.
pub proof fn lemma_top_scores(pool: Set<(Seq<char>, nat)>, k: nat, picked: Seq<(Seq<char>, nat)>)
    requires
        is_top(pool, k, picked),
    ensures
        forall|i: int, j: int|
            0 <= i < j < picked.len() ==> (#[trigger] picked[i]).1 >= (#[trigger] picked[j]).1,
        forall|i: int, c: (Seq<char>, nat)|
            0 <= i < picked.len() && #[trigger] pool.contains(c) && !picked.contains(c) ==> (
            #[trigger] picked[i]).1 >= c.1,
{
    assert forall|i: int, j: int| 0 <= i < j < picked.len() implies (#[trigger] picked[i]).1 >= (
    #[trigger] picked[j]).1 by {}
}

} // verus!
