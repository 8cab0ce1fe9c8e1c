//! What holds of every analysis.

use vstd::prelude::*;
use crate::letters::{alphabetic, whitespace};
use crate::select::least;
use crate::stats::{counted, describes, measured, TextStats, LONGEST_WORDS, TOP_WORDS};
use crate::table::occurrences;
use crate::tokens::{
    lemma_normalize_push, lemma_scan_step, lemma_scan_totals, letter_count, letter_total, pending,
    settled, tokens, words, words_of,
};
use crate::top::{by_frequency, by_length, lemma_pool_size, lemma_top_unique};
use crate::rank::Metric;

verus! {

/// An analysis is determined by the text: two analyses of one text agree on
/// the number of words, on the number of letters, and on the ranked words,
/// place by place.
pub proof fn lemma_analysis_determined(first: TextStats, second: TextStats, text: Seq<char>)
    requires
        describes(first, text),
        describes(second, text),
    ensures
        first.word_count == second.word_count,
        first.char_count == second.char_count,
        counted(first.top_words@) == counted(second.top_words@),
        measured(first.longest_words@) == measured(second.longest_words@),
{
    lemma_top_unique(
        by_frequency(words(text)),
        TOP_WORDS as nat,
        counted(first.top_words@),
        counted(second.top_words@),
    );
    lemma_top_unique(
        by_length(words(text)),
        LONGEST_WORDS as nat,
        measured(first.longest_words@),
        measured(second.longest_words@),
    );
}

/// The most frequent words: ten of them, or every word where the text has
/// fewer; each a word of the text with the number of its occurrences; the
/// counts never rise from one place to the next; and no word that is left
/// out occurs more often than one that is listed.
pub proof fn lemma_top_words(stats: TextStats, text: Seq<char>)
    requires
        describes(stats, text),
    ensures
        stats.top_words@.len() == least(10, stats.word_count as nat),
        forall|i: int|
            0 <= i < stats.top_words@.len() ==> words(text).contains(
                (#[trigger] stats.top_words@[i]).0@,
            ) && stats.top_words@[i].1 == occurrences(words(text), stats.top_words@[i].0@),
        forall|i: int, j: int|
            0 <= i < j < stats.top_words@.len() ==> (#[trigger] stats.top_words@[i]).1 >= (
            #[trigger] stats.top_words@[j]).1,
        forall|i: int, w: Seq<char>|
            0 <= i < stats.top_words@.len() && words(text).contains(w) && (forall|j: int|
                0 <= j < stats.top_words@.len() ==> (#[trigger] stats.top_words@[j]).0@ != w) ==> (
            #[trigger] stats.top_words@[i]).1 >= #[trigger] occurrences(words(text), w),
{
    let pool = by_frequency(words(text));
    let listed = counted(stats.top_words@);
    lemma_pool_size(words(text), Metric::Frequency);
    assert forall|i: int| 0 <= i < stats.top_words@.len() implies words(text).contains(
        (#[trigger] stats.top_words@[i]).0@,
    ) && stats.top_words@[i].1 == occurrences(words(text), stats.top_words@[i].0@) by {
        assert(pool.contains(listed[i]));
    }
    assert forall|i: int, j: int| 0 <= i < j < stats.top_words@.len() implies (
    #[trigger] stats.top_words@[i]).1 >= (#[trigger] stats.top_words@[j]).1 by {
        assert(listed[i].1 >= listed[j].1);
    }
    assert forall|i: int, w: Seq<char>|
        0 <= i < stats.top_words@.len() && words(text).contains(w) && (forall|j: int|
            0 <= j < stats.top_words@.len() ==> (#[trigger] stats.top_words@[j]).0@ != w) implies (
    #[trigger] stats.top_words@[i]).1 >= #[trigger] occurrences(words(text), w) by {
        let c = (w, occurrences(words(text), w));
        assert(pool.contains(c));
        assert(listed[i].1 >= c.1);
    }
}

/// The longest words: five of them, or every word where the text has fewer,
/// never more; each a word of the text; the lengths never rise from one place
/// to the next; and no word that is left out is longer than one that is
/// listed.
pub proof fn lemma_longest_words(stats: TextStats, text: Seq<char>)
    requires
        describes(stats, text),
    ensures
        stats.longest_words@.len() == least(5, stats.word_count as nat),
        forall|i: int|
            0 <= i < stats.longest_words@.len() ==> words(text).contains(
                (#[trigger] stats.longest_words@[i])@,
            ),
        forall|i: int, j: int|
            0 <= i < j < stats.longest_words@.len() ==> (#[trigger] stats.longest_words@[i])@.len()
                >= (#[trigger] stats.longest_words@[j])@.len(),
        forall|i: int, w: Seq<char>|
            0 <= i < stats.longest_words@.len() && #[trigger] words(text).contains(w) && (forall|
                j: int,
            |
                0 <= j < stats.longest_words@.len() ==> (#[trigger] stats.longest_words@[j])@ != w)
                ==> (#[trigger] stats.longest_words@[i])@.len() >= w.len(),
{
    let pool = by_length(words(text));
    let listed = measured(stats.longest_words@);
    lemma_pool_size(words(text), Metric::Length);
    assert forall|i: int| 0 <= i < stats.longest_words@.len() implies words(text).contains(
        (#[trigger] stats.longest_words@[i])@,
    ) by {
        assert(pool.contains(listed[i]));
    }
    assert forall|i: int, j: int| 0 <= i < j < stats.longest_words@.len() implies (
    #[trigger] stats.longest_words@[i])@.len() >= (#[trigger] stats.longest_words@[j])@.len() by {
        assert(listed[i].1 >= listed[j].1);
    }
    assert forall|i: int, w: Seq<char>|
        0 <= i < stats.longest_words@.len() && #[trigger] words(text).contains(w) && (forall|j: int|
            0 <= j < stats.longest_words@.len() ==> (#[trigger] stats.longest_words@[j])@ != w)
            implies (#[trigger] stats.longest_words@[i])@.len() >= w.len() by {
        let c = (w, w.len());
        assert(pool.contains(c));
        assert(listed[i].1 >= c.1);
    }
}

/// A text without words has an empty analysis, but for its letters.
pub proof fn lemma_wordless(stats: TextStats, text: Seq<char>)
    requires
        describes(stats, text),
        words(text).len() == 0,
    ensures
        stats.word_count == 0,
        stats.top_words@.len() == 0,
        stats.longest_words@.len() == 0,
{
    lemma_pool_size(words(text), Metric::Frequency);
    lemma_pool_size(words(text), Metric::Length);
    assert(words(text).to_set() =~= Set::<Seq<char>>::empty());
}

/// A text of whitespace alone has no tokens.
pub proof fn lemma_blank_has_no_tokens(text: Seq<char>)
    requires
        forall|i: int| 0 <= i < text.len() ==> whitespace(#[trigger] text[i]),
    ensures
        tokens(text).len() == 0,
    decreases text.len(),
{
    if text.len() > 0 {
        lemma_blank_has_no_tokens(text.drop_last());
    }
}

/// The analysis of a text of whitespace alone, the empty text among them:
/// no words, no letters, nothing ranked.
pub proof fn lemma_blank_text(stats: TextStats, text: Seq<char>)
    requires
        describes(stats, text),
        forall|i: int| 0 <= i < text.len() ==> whitespace(#[trigger] text[i]),
    ensures
        stats.word_count == 0,
        stats.char_count == 0,
        stats.top_words@.len() == 0,
        stats.longest_words@.len() == 0,
{
    lemma_blank_has_no_tokens(text);
    lemma_wordless(stats, text);
}

/// In a text without letters no settled token has a word or a letter, and
/// the pending token has no letter.
proof fn lemma_letterless_scan(text: Seq<char>)
    requires
        forall|i: int| 0 <= i < text.len() ==> !alphabetic(#[trigger] text[i]),
    ensures
        words_of(settled(text)).len() == 0,
        letter_total(settled(text)) == 0,
        letter_count(pending(text)) == 0,
    decreases text.len(),
{
    if text.len() > 0 {
        let before = text.drop_last();
        let c = text.last();
        lemma_letterless_scan(before);
        assert(before.push(c) =~= text);
        lemma_scan_step(before, c);
        lemma_scan_totals(before);
        lemma_normalize_push(pending(before), c);
    }
}

/// The analysis of a text without letters, whatever else its tokens hold:
/// no words, no letters, nothing ranked.
pub proof fn lemma_letterless_text(stats: TextStats, text: Seq<char>)
    requires
        describes(stats, text),
        forall|i: int| 0 <= i < text.len() ==> !alphabetic(#[trigger] text[i]),
    ensures
        stats.word_count == 0,
        stats.char_count == 0,
        stats.top_words@.len() == 0,
        stats.longest_words@.len() == 0,
{
    lemma_letterless_scan(text);
    lemma_scan_totals(text);
    lemma_wordless(stats, text);
}

} // verus!
