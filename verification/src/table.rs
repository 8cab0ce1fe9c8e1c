//! The frequency table: each distinct word with the number of times it was
//! recorded, in the order in which the words first came.

use vstd::prelude::*;
use vstd::hash_map::StringHashMap;

verus! {

/// `String::push` appends one character to the end of a string.
pub assume_specification[ String::push ](s: &mut String, c: char)
    ensures
        final(s)@ == old(s)@.push(c),
;

/// How often `word` occurs in `seen`.
pub open spec fn occurrences(seen: Seq<Seq<char>>, word: Seq<char>) -> nat
    decreases seen.len(),
{
    if seen.len() == 0 {
        0
    } else {
        occurrences(seen.drop_last(), word) + if seen.last() == word {
            1nat
        } else {
            0nat
        }
    }
}

/// Whether `entries` counts the words of `seen`: no word twice, each with the
/// number of its occurrences, and no word of `seen` left out.
pub open spec fn is_tally(entries: Seq<(Seq<char>, nat)>, seen: Seq<Seq<char>>) -> bool {
    &&& forall|i: int, j: int|
        0 <= i < j < entries.len() ==> (#[trigger] entries[i]).0 != (#[trigger] entries[j]).0
    &&& forall|i: int|
        0 <= i < entries.len() ==> (#[trigger] entries[i]).1 > 0 && entries[i].1 == occurrences(
            seen,
            entries[i].0,
        )
    &&& forall|w: Seq<char>| #[trigger]
        occurrences(seen, w) > 0 ==> exists|i: int|
            0 <= i < entries.len() && (#[trigger] entries[i]).0 == w
}

/// The place of `word` among `entries`, or their number where it has none.
pub open spec fn place_of(entries: Seq<(Seq<char>, nat)>, word: Seq<char>) -> int
    decreases entries.len(),
{
    if entries.len() == 0 {
        0
    } else if entries[0].0 == word {
        0
    } else {
        1 + place_of(entries.drop_first(), word)
    }
}

/// `entries` after one more occurrence of `word`: a word that has an entry
/// is counted once more, a new word gets an entry of its own at the end.
pub open spec fn with_one_more(entries: Seq<(Seq<char>, nat)>, word: Seq<char>) -> Seq<
    (Seq<char>, nat),
> {
    let i = place_of(entries, word);
    if i < entries.len() {
        entries.update(i, (word, entries[i].1 + 1))
    } else {
        entries.push((word, 1))
    }
}

/// The entries that `seen` leads to when its words are recorded in order:
/// the distinct words in the order of their first occurrence, each with the
/// number of its occurrences.
pub open spec fn tally(seen: Seq<Seq<char>>) -> Seq<(Seq<char>, nat)>
    decreases seen.len(),
{
    if seen.len() == 0 {
        Seq::empty()
    } else {
        with_one_more(tally(seen.drop_last()), seen.last())
    }
}

/// The place of a word is the first place that holds it.
pub proof fn lemma_place_of(entries: Seq<(Seq<char>, nat)>, word: Seq<char>)
    ensures
        0 <= place_of(entries, word) <= entries.len(),
        place_of(entries, word) < entries.len() ==> entries[place_of(entries, word)].0 == word,
        forall|j: int| 0 <= j < place_of(entries, word) ==> (#[trigger] entries[j]).0 != word,
    decreases entries.len(),
{
    if entries.len() > 0 && entries[0].0 != word {
        let rest = entries.drop_first();
        lemma_place_of(rest, word);
        assert forall|j: int| 0 <= j < place_of(entries, word) implies (#[trigger] entries[j]).0
            != word by {
            if j > 0 {
                assert(rest[j - 1].0 != word);
            }
        }
    }
}

/// A word occurs in a sequence exactly when it is counted at least once, and
/// never more often than the sequence is long.
pub proof fn lemma_occurrences(seen: Seq<Seq<char>>, word: Seq<char>)
    ensures
        occurrences(seen, word) <= seen.len(),
        occurrences(seen, word) > 0 <==> seen.contains(word),
    decreases seen.len(),
{
    if seen.len() > 0 {
        lemma_occurrences(seen.drop_last(), word);
        if seen.contains(word) && seen.last() != word {
            let i = choose|i: int| 0 <= i < seen.len() && seen[i] == word;
            assert(seen.drop_last()[i] == word);
        }
    }
}

/// Counting after one more word.
pub proof fn lemma_occurrences_push(seen: Seq<Seq<char>>, word: Seq<char>, other: Seq<char>)
    ensures
        occurrences(seen.push(word), other) == occurrences(seen, other) + if word == other {
            1nat
        } else {
            0nat
        },
{
    assert(seen.push(word).drop_last() =~= seen);
}

/// One more occurrence of a word keeps a tally a tally.
pub proof fn lemma_with_one_more(
    entries: Seq<(Seq<char>, nat)>,
    seen: Seq<Seq<char>>,
    word: Seq<char>,
)
    requires
        is_tally(entries, seen),
    ensures
        is_tally(with_one_more(entries, word), seen.push(word)),
{
    let after = with_one_more(entries, word);
    let p = place_of(entries, word);
    lemma_place_of(entries, word);
    assert forall|x: Seq<char>| true implies #[trigger] occurrences(seen.push(word), x)
        == occurrences(seen, x) + if word == x {
        1nat
    } else {
        0nat
    } by {
        lemma_occurrences_push(seen, word, x);
    }
    assert forall|x: Seq<char>| #[trigger] occurrences(seen.push(word), x) > 0 implies exists|
        j: int,
    |
        0 <= j < after.len() && (#[trigger] after[j]).0 == x by {
        if x == word {
            if p < entries.len() {
                assert(after[p].0 == x);
            } else {
                assert(after[entries.len() as int].0 == x);
            }
        } else {
            let j = choose|j: int| 0 <= j < entries.len() && (#[trigger] entries[j]).0 == x;
            assert(after[j].0 == x);
        }
    }
}

/// The tally of a sequence of words counts its words: no word twice, each
/// with the number of its occurrences, none left out.
pub proof fn lemma_tally(seen: Seq<Seq<char>>)
    ensures
        is_tally(tally(seen), seen),
    decreases seen.len(),
{
    if seen.len() > 0 {
        lemma_tally(seen.drop_last());
        lemma_with_one_more(tally(seen.drop_last()), seen.drop_last(), seen.last());
        assert(seen.drop_last().push(seen.last()) =~= seen);
    }
}

/// A string with the characters of `word`.
pub fn string_of(word: &Vec<char>) -> (s: String)
    ensures
        s@ == word@,
{
    let mut s = String::new();
    for i in 0..word.len()
        invariant
            s@ == word@.take(i as int),
    {
        s.push(word[i]);
    }
    s
}

/// The distinct words recorded so far, each with its count.
pub struct FrequencyTable {
    index: StringHashMap<usize>,
    words: Vec<Vec<char>>,
    counts: Vec<usize>,
    seen: Ghost<Seq<Seq<char>>>,
}

impl FrequencyTable {
    /// Every word that was recorded, in order and with repetitions.
    pub closed spec fn recorded(&self) -> Seq<Seq<char>> {
        self.seen@
    }

    /// The distinct words in the order in which they first came, each with
    /// its count.
    pub closed spec fn entries(&self) -> Seq<(Seq<char>, nat)> {
        Seq::new(self.words@.len(), |i: int| (self.words@[i]@, self.counts@[i] as nat))
    }

    /// The table's invariant: the index finds each word at its place, and the
    /// entries count what was recorded.
    pub closed spec fn wf(&self) -> bool {
        &&& self.words@.len() == self.counts@.len()
        &&& forall|i: int|
            0 <= i < self.words@.len() ==> self.index@.contains_key(#[trigger] self.words@[i]@)
                && self.index@[self.words@[i]@] == i
        &&& forall|w: Seq<char>| #[trigger]
            self.index@.contains_key(w) ==> self.index@[w] < self.words@.len()
                && self.words@[self.index@[w] as int]@ == w
        &&& self.entries() == tally(self.seen@)
    }

    /// The entries of a well-formed table are the tally of what was recorded.
    pub proof fn lemma_entries(&self)
        requires
            self.wf(),
        ensures
            self.entries() == tally(self.recorded()),
            is_tally(self.entries(), self.recorded()),
    {
        lemma_tally(self.seen@);
    }

    /// The empty table.
    pub fn new() -> (table: Self)
        ensures
            table.wf(),
            table.recorded() == Seq::<Seq<char>>::empty(),
            table.entries() == Seq::<(Seq<char>, nat)>::empty(),
    {
        let table = FrequencyTable {
            index: StringHashMap::new(),
            words: Vec::new(),
            counts: Vec::new(),
            seen: Ghost(Seq::empty()),
        };
        proof {
            assert(table.entries() =~= Seq::<(Seq<char>, nat)>::empty());
        }
        table
    }

    /// The number of distinct words.
    pub fn len(&self) -> (n: usize)
        requires
            self.wf(),
        ensures
            n == self.entries().len(),
    {
        self.words.len()
    }

    /// The word of entry `i`.
    pub fn word(&self, i: usize) -> (w: &Vec<char>)
        requires
            self.wf(),
            i < self.entries().len(),
        ensures
            w@ == self.entries()[i as int].0,
    {
        &self.words[i]
    }

    /// The count of entry `i`.
    pub fn count(&self, i: usize) -> (n: usize)
        requires
            self.wf(),
            i < self.entries().len(),
        ensures
            n == self.entries()[i as int].1,
    {
        self.counts[i]
    }

    /// Records one occurrence of `word`: a first occurrence adds an entry with
    /// count one at the end, a later one adds one to the word's count.
    pub fn record(&mut self, word: Vec<char>)
        requires
            old(self).wf(),
            old(self).recorded().len() < usize::MAX,
        ensures
            final(self).wf(),
            final(self).recorded() == old(self).recorded().push(word@),
            final(self).entries() == with_one_more(old(self).entries(), word@),
    {
        let key = string_of(&word);
        let ghost before = self.entries();
        let ghost seen = self.seen@;
        let ghost w = word@;
        proof {
            lemma_tally(seen);
            lemma_place_of(before, w);
            lemma_occurrences(seen, w);
            assert(seen.push(w).drop_last() =~= seen);
        }
        let found = match self.index.get(key.as_str()) {
            Some(place) => Some(*place),
            None => None,
        };
        match found {
            Some(i) => {
                let n = self.counts[i];
                proof {
                    assert(before[i as int].0 == w);
                    assert(place_of(before, w) == i);
                }
                self.counts.set(i, n + 1);
                self.seen = Ghost(seen.push(w));
                proof {
                    assert(self.entries() =~= with_one_more(before, w));
                }
            },
            None => {
                let i = self.words.len();
                proof {
                    assert(place_of(before, w) == before.len());
                }
                self.index.insert(key, i);
                self.words.push(word);
                self.counts.push(1);
                self.seen = Ghost(seen.push(w));
                proof {
                    assert(self.entries() =~= with_one_more(before, w));
                }
            },
        }
    }
}

} // verus!
