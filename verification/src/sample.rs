//! Sample text of a requested size, made of a fixed vocabulary.

use vstd::prelude::*;
use vstd::string::StringExecFns;

verus! {

/// The number of words in the vocabulary.
pub const VOCABULARY_SIZE: usize = 10;

/// The vocabulary, in the order in which sample text runs through it.
pub open spec fn vocabulary() -> Seq<Seq<char>> {
    seq![
        "rust"@,
        "performance"@,
        "optimization"@,
        "memory"@,
        "speed"@,
        "efficiency"@,
        "benchmark"@,
        "algorithm"@,
        "data"@,
        "structure"@,
    ]
}

/// The sample text of `size` words: the words of the vocabulary in turn,
/// starting over after the last, with one space between two words.
pub open spec fn sample_text(size: nat) -> Seq<char>
    decreases size,
{
    if size == 0 {
        Seq::empty()
    } else if size == 1 {
        vocabulary()[0]
    } else {
        sample_text((size - 1) as nat).push(' ') + vocabulary()[(size - 1) % 10]
    }
}

/// Word `i` of the vocabulary.
fn vocabulary_word(i: usize) -> (word: &'static str)
    requires
        i < VOCABULARY_SIZE,
    ensures
        word@ == vocabulary()[i as int],
{
    match i {
        0 => "rust",
        1 => "performance",
        2 => "optimization",
        3 => "memory",
        4 => "speed",
        5 => "efficiency",
        6 => "benchmark",
        7 => "algorithm",
        8 => "data",
        _ => "structure",
    }
}

/// Makes the sample text of `size` words.
pub fn generate_test_text(size: usize) -> (text: String)
    ensures
        text@ == sample_text(size as nat),
{
    let mut text = String::new();
    for i in 0..size
        invariant
            text@ == sample_text(i as nat),
    {
        if i > 0 {
            text.push(' ');
        }
        text.append(vocabulary_word(i % VOCABULARY_SIZE));
    }
    text
}

} // verus!
