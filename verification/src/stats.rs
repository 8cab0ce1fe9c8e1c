//! The analysis of a text: how many distinct words it has, how many letters,
//! which words are the most frequent and which the longest.

use vstd::prelude::*;
use vstd::utf8::encode_utf8;
use std::time::Instant;
use crate::letters::to_lower;
use crate::rank::{candidates, Metric};
use crate::select::{select_by_scanning, select_with_heap};
use crate::table::{string_of, FrequencyTable};
use crate::tokens::{
    lemma_normalize_empty, lemma_normalize_push, lemma_scan_step, lemma_scan_totals,
    lemma_words_of_push, letter_count, letter_total, letters, normalize, normalize_token, pending,
    settled, split_tokens, views, words, words_of,
};
use crate::top::{by_frequency, by_length, chosen, is_top, lemma_selection_is_top, lemma_tally_pool};

verus! {

/// How many of the most frequent words an analysis lists.
pub const TOP_WORDS: usize = 10;

/// How many of the longest words an analysis lists.
pub const LONGEST_WORDS: usize = 5;

/// What an analysis found in a text.
#[derive(Debug)]
pub struct TextStats {
    /// The number of distinct words.
    pub word_count: usize,
    /// The number of letters in the tokens of the text.
    pub char_count: usize,
    /// The most frequent words with their counts, the most frequent first.
    pub top_words: Vec<(String, usize)>,
    /// The longest words, the longest first.
    pub longest_words: Vec<String>,
    /// The milliseconds that the analysis took.
    pub time_ms: u128,
}

/// The candidates that a list of words with counts stands for.
pub open spec fn counted(listed: Seq<(String, usize)>) -> Seq<(Seq<char>, nat)> {
    Seq::new(listed.len(), |i: int| (listed[i].0@, listed[i].1 as nat))
}

/// The candidates that a list of words stands for when each is scored by its
/// length.
pub open spec fn measured(listed: Seq<String>) -> Seq<(Seq<char>, nat)> {
    Seq::new(listed.len(), |i: int| (listed[i]@, listed[i]@.len()))
}

/// Whether `stats` is the analysis of `text`. Everything but the time taken
/// is determined by the text.
pub open spec fn describes(stats: TextStats, text: Seq<char>) -> bool {
    &&& stats.word_count == words(text).to_set().len()
    &&& stats.char_count == letters(text)
    &&& is_top(by_frequency(words(text)), TOP_WORDS as nat, counted(stats.top_words@))
    &&& is_top(by_length(words(text)), LONGEST_WORDS as nat, measured(stats.longest_words@))
}

/// A text is at least as long in bytes as in characters.
proof fn lemma_encoding_length(chars: Seq<char>)
    ensures
        chars.len() <= encode_utf8(chars).len(),
    decreases chars.len(),
{
    if chars.len() > 0 {
        lemma_encoding_length(chars.drop_first());
    }
}

/// The number of characters of a text fits in `usize`, as the number of its
/// bytes does.
fn length_fits(text: &str)
    ensures
        text@.len() <= usize::MAX,
{
    let bytes = text.as_bytes();
    let n = bytes.len();
    proof {
        lemma_encoding_length(text@);
    }
}

/// Counts the words and the letters of `text` in one pass.
pub fn tally_text(text: &str) -> (found: (FrequencyTable, usize))
    ensures
        found.0.wf(),
        found.0.recorded() == words(text@),
        found.1 == letters(text@),
{
    length_fits(text);
    let mut table = FrequencyTable::new();
    let mut char_count: usize = 0;
    let mut cur: Vec<char> = Vec::new();
    for c in it: text.chars()
        invariant
            it.seq() == text@,
            text@.len() <= usize::MAX,
            table.wf(),
            table.recorded() == words_of(settled(text@.take(it.index()))),
            cur@ == normalize(pending(text@.take(it.index()))),
            char_count == letter_total(settled(text@.take(it.index()))) + cur@.len(),
            char_count <= it.index(),
            table.recorded().len() + (if cur@.len() > 0 {
                1int
            } else {
                0int
            }) <= it.index(),
    {
        proof {
            let before = text@.take(it.index());
            lemma_scan_step(before, c);
            lemma_scan_totals(before);
            lemma_normalize_push(pending(before), c);
            assert(before.push(c) =~= text@.take(it.index() + 1));
        }
        if c.is_whitespace() {
            if cur.len() > 0 {
                table.record(cur);
                cur = Vec::new();
            }
        } else if c.is_alphabetic() {
            cur.push(to_lower(c));
            char_count = char_count + 1;
        }
    }
    proof {
        assert(text@.take(text@.len() as int) =~= text@);
        lemma_scan_totals(text@);
    }
    if cur.len() > 0 {
        table.record(cur);
    }
    (table, char_count)
}

/// Counts the words of `text`: splits it into tokens first, then goes
/// through the tokens.
pub fn count_words(text: &str) -> (table: FrequencyTable)
    ensures
        table.wf(),
        table.recorded() == words(text@),
{
    let tokens = split_tokens(text);
    let mut table = FrequencyTable::new();
    for i in 0..tokens.len()
        invariant
            views(tokens@) == crate::tokens::tokens(text@),
            table.wf(),
            table.recorded() == words_of(views(tokens@).take(i as int)),
            table.recorded().len() <= i,
    {
        let word = normalize_token(&tokens[i]);
        proof {
            let done = views(tokens@).take(i as int);
            lemma_words_of_push(done, tokens@[i as int]@);
            assert(done.push(tokens@[i as int]@) =~= views(tokens@).take(i + 1));
        }
        if word.len() > 0 {
            table.record(word);
        }
    }
    proof {
        assert(views(tokens@).take(tokens@.len() as int) =~= views(tokens@));
    }
    table
}

/// Counts the letters in the tokens of `text` in a pass of its own.
pub fn count_letters(text: &str) -> (n: usize)
    ensures
        n == letters(text@),
{
    length_fits(text);
    let mut n: usize = 0;
    for c in it: text.chars()
        invariant
            it.seq() == text@,
            text@.len() <= usize::MAX,
            n == letter_total(settled(text@.take(it.index()))) + letter_count(
                pending(text@.take(it.index())),
            ),
            n <= it.index(),
    {
        proof {
            let before = text@.take(it.index());
            lemma_scan_step(before, c);
            lemma_scan_totals(before);
            lemma_normalize_push(pending(before), c);
            lemma_normalize_empty();
            assert(before.push(c) =~= text@.take(it.index() + 1));
        }
        if !c.is_whitespace() && c.is_alphabetic() {
            n = n + 1;
        }
    }
    proof {
        assert(text@.take(text@.len() as int) =~= text@);
        lemma_scan_totals(text@);
    }
    n
}

/// The picked entries as words with their counts.
fn list_counted(table: &FrequencyTable, picked: &Vec<usize>) -> (listed: Vec<(String, usize)>)
    requires
        table.wf(),
        forall|i: int| 0 <= i < picked@.len() ==> (#[trigger] picked@[i]) < table.entries().len(),
    ensures
        counted(listed@) == chosen(candidates(table.entries(), Metric::Frequency), picked@),
{
    let ghost cands = candidates(table.entries(), Metric::Frequency);
    let mut listed: Vec<(String, usize)> = Vec::new();
    for i in 0..picked.len()
        invariant
            table.wf(),
            cands == candidates(table.entries(), Metric::Frequency),
            forall|j: int|
                0 <= j < picked@.len() ==> (#[trigger] picked@[j]) < table.entries().len(),
            listed@.len() == i,
            forall|j: int|
                0 <= j < i ==> (#[trigger] listed@[j]).0@ == cands[picked@[j] as int].0
                    && listed@[j].1 == cands[picked@[j] as int].1,
    {
        let at = picked[i];
        let word = string_of(table.word(at));
        listed.push((word, table.count(at)));
    }
    listed
}

/// The picked entries as words.
fn list_measured(table: &FrequencyTable, picked: &Vec<usize>) -> (listed: Vec<String>)
    requires
        table.wf(),
        forall|i: int| 0 <= i < picked@.len() ==> (#[trigger] picked@[i]) < table.entries().len(),
    ensures
        measured(listed@) == chosen(candidates(table.entries(), Metric::Length), picked@),
{
    let ghost cands = candidates(table.entries(), Metric::Length);
    let mut listed: Vec<String> = Vec::new();
    for i in 0..picked.len()
        invariant
            table.wf(),
            cands == candidates(table.entries(), Metric::Length),
            forall|j: int|
                0 <= j < picked@.len() ==> (#[trigger] picked@[j]) < table.entries().len(),
            listed@.len() == i,
            forall|j: int| 0 <= j < i ==> (#[trigger] listed@[j])@ == cands[picked@[j] as int].0,
    {
        let at = picked[i];
        listed.push(string_of(table.word(at)));
    }
    listed
}

/// Analyzes `text` in one pass over its characters, and selects the ranked
/// words with a bounded heap.
pub fn analyze_text_fast(text: &str) -> (stats: TextStats)
    ensures
        describes(stats, text@),
{
    let start = Instant::now();
    let (table, char_count) = tally_text(text);
    let top = select_with_heap(&table, TOP_WORDS, Metric::Frequency);
    let longest = select_with_heap(&table, LONGEST_WORDS, Metric::Length);
    let top_words = list_counted(&table, &top);
    let longest_words = list_measured(&table, &longest);
    let word_count = table.len();
    proof {
        table.lemma_entries();
        lemma_tally_pool(table.entries(), words(text@), Metric::Frequency);
        lemma_selection_is_top(
            table.entries(),
            words(text@),
            Metric::Frequency,
            TOP_WORDS as nat,
            top@,
        );
        lemma_selection_is_top(
            table.entries(),
            words(text@),
            Metric::Length,
            LONGEST_WORDS as nat,
            longest@,
        );
    }
    let time_ms = start.elapsed().as_millis();
    TextStats { word_count, char_count, top_words, longest_words, time_ms }
}

/// Analyzes `text` the plain way: one pass to split it into tokens, one over
/// the tokens to count the words, one over the text to count the letters, and
/// for each ranked word a scan of all the distinct words.
pub fn analyze_text_slow(text: &str) -> (stats: TextStats)
    ensures
        describes(stats, text@),
{
    let start = Instant::now();
    let table = count_words(text);
    let top = select_by_scanning(&table, TOP_WORDS, Metric::Frequency);
    let top_words = list_counted(&table, &top);
    let char_count = count_letters(text);
    let longest = select_by_scanning(&table, LONGEST_WORDS, Metric::Length);
    let longest_words = list_measured(&table, &longest);
    let word_count = table.len();
    proof {
        table.lemma_entries();
        lemma_tally_pool(table.entries(), words(text@), Metric::Frequency);
        lemma_selection_is_top(
            table.entries(),
            words(text@),
            Metric::Frequency,
            TOP_WORDS as nat,
            top@,
        );
        lemma_selection_is_top(
            table.entries(),
            words(text@),
            Metric::Length,
            LONGEST_WORDS as nat,
            longest@,
        );
    }
    let time_ms = start.elapsed().as_millis();
    TextStats { word_count, char_count, top_words, longest_words, time_ms }
}

} // verus!
