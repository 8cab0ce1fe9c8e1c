//! Candidates for a ranking: the entries of a frequency table, scored by
//! frequency or by length.

use vstd::prelude::*;
use crate::order::{outranks, word_precedes};
use crate::table::{is_tally, FrequencyTable};

verus! {

/// What a ranking goes by.
#[derive(Clone, Copy, Debug)]
pub enum Metric {
    /// The number of occurrences of the word.
    Frequency,
    /// The number of characters of the word.
    Length,
}

/// The candidate that an entry of the table stands for: its word, with its
/// count or its length as the score.
pub open spec fn candidate(entry: (Seq<char>, nat), metric: Metric) -> (Seq<char>, nat) {
    match metric {
        Metric::Frequency => entry,
        Metric::Length => (entry.0, entry.0.len()),
    }
}

/// The candidates of all entries, in the entries' order.
pub open spec fn candidates(entries: Seq<(Seq<char>, nat)>, metric: Metric) -> Seq<
    (Seq<char>, nat),
> {
    Seq::new(entries.len(), |i: int| candidate(entries[i], metric))
}

/// Whether no two candidates have the same word.
pub open spec fn distinct_words(cands: Seq<(Seq<char>, nat)>) -> bool {
    forall|i: int, j: int|
        0 <= i < j < cands.len() ==> (#[trigger] cands[i]).0 != (#[trigger] cands[j]).0
}

/// The candidates of a tally have distinct words.
pub proof fn lemma_candidates_distinct(
    entries: Seq<(Seq<char>, nat)>,
    seen: Seq<Seq<char>>,
    metric: Metric,
)
    requires
        is_tally(entries, seen),
    ensures
        distinct_words(candidates(entries, metric)),
        candidates(entries, metric).len() == entries.len(),
{
    assert(candidates(entries, metric).len() == entries.len());
}

/// The score of entry `i` of the table.
pub fn score(table: &FrequencyTable, metric: Metric, i: usize) -> (s: usize)
    requires
        table.wf(),
        i < table.entries().len(),
    ensures
        s == candidates(table.entries(), metric)[i as int].1,
{
    match metric {
        Metric::Frequency => table.count(i),
        Metric::Length => table.word(i).len(),
    }
}

/// Whether entry `a` of the table outranks entry `b`.
pub fn beats(table: &FrequencyTable, metric: Metric, a: usize, b: usize) -> (r: bool)
    requires
        table.wf(),
        a < table.entries().len(),
        b < table.entries().len(),
    ensures
        r == outranks(
            candidates(table.entries(), metric)[a as int],
            candidates(table.entries(), metric)[b as int],
        ),
{
    let score_a = score(table, metric, a);
    let score_b = score(table, metric, b);
    if score_a != score_b {
        score_a > score_b
    } else {
        word_precedes(table.word(a), table.word(b))
    }
}

} // verus!
