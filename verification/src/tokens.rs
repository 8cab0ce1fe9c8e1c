//! Splitting text into tokens and tokens into words.
//!
//! A token is a maximal run of characters that are not whitespace. The word of
//! a token is made of its letters, in order, in ASCII lower case; a token
//! without letters has no word.

use vstd::prelude::*;
use crate::letters::{alphabetic, lower, to_lower, whitespace};

verus! {

/// The tokens of `text`, in order. Read from the left: whitespace adds
/// nothing, a character that follows a character of a token extends that
/// token, and any other character starts a new token.
pub open spec fn tokens(text: Seq<char>) -> Seq<Seq<char>>
    decreases text.len(),
{
    if text.len() == 0 {
        Seq::empty()
    } else {
        let before = text.drop_last();
        let c = text.last();
        if whitespace(c) {
            tokens(before)
        } else if in_token(before) {
            tokens(before).drop_last().push(tokens(before).last().push(c))
        } else {
            tokens(before).push(seq![c])
        }
    }
}

/// Whether `text` ends inside a token.
pub open spec fn in_token(text: Seq<char>) -> bool {
    text.len() > 0 && !whitespace(text.last())
}

/// The predicate that picks the letters of a token.
pub open spec fn letter() -> spec_fn(char) -> bool {
    |c: char| alphabetic(c)
}

/// The map that lowers each letter of a word.
pub open spec fn lowered() -> spec_fn(char) -> char {
    |c: char| lower(c)
}

/// The predicate that holds of the words that are kept.
pub open spec fn nonempty() -> spec_fn(Seq<char>) -> bool {
    |w: Seq<char>| w.len() > 0
}

/// The map from a token to what is left of it as a word.
pub open spec fn normalized() -> spec_fn(Seq<char>) -> Seq<char> {
    |t: Seq<char>| normalize(t)
}

/// The letters of `token`, in order, in ASCII lower case.
pub open spec fn normalize(token: Seq<char>) -> Seq<char> {
    token.filter(letter()).map_values(lowered())
}

/// The number of letters in `token`.
pub open spec fn letter_count(token: Seq<char>) -> nat {
    token.filter(letter()).len()
}

/// The words of a sequence of tokens: each token normalized, the empty
/// results left out.
pub open spec fn words_of(tokens: Seq<Seq<char>>) -> Seq<Seq<char>> {
    tokens.map_values(normalized()).filter(nonempty())
}

/// The letters of a sequence of tokens, counted token by token.
pub open spec fn letter_total(tokens: Seq<Seq<char>>) -> nat
    decreases tokens.len(),
{
    if tokens.len() == 0 {
        0
    } else {
        letter_total(tokens.drop_last()) + letter_count(tokens.last())
    }
}

/// The words of `text`, one for each token that has a letter, in order and
/// with repetitions.
pub open spec fn words(text: Seq<char>) -> Seq<Seq<char>> {
    words_of(tokens(text))
}

/// The number of letters in the tokens of `text`.
pub open spec fn letters(text: Seq<char>) -> nat {
    letter_total(tokens(text))
}

/// The token that `text` ends in, empty where it ends outside a token.
pub open spec fn pending(text: Seq<char>) -> Seq<char> {
    if in_token(text) {
        tokens(text).last()
    } else {
        Seq::empty()
    }
}

/// The tokens of `text` that are known to be complete: all but the one that
/// `text` ends in.
pub open spec fn settled(text: Seq<char>) -> Seq<Seq<char>> {
    if in_token(text) {
        tokens(text).drop_last()
    } else {
        tokens(text)
    }
}

/// Normalizing a token with one more character.
pub proof fn lemma_normalize_push(token: Seq<char>, c: char)
    ensures
        normalize(token.push(c)) == if alphabetic(c) {
            normalize(token).push(lower(c))
        } else {
            normalize(token)
        },
        letter_count(token.push(c)) == letter_count(token) + if alphabetic(c) {
            1nat
        } else {
            0nat
        },
        normalize(token).len() == letter_count(token),
{
    token.lemma_filter_push(c, letter());
    if alphabetic(c) {
        token.filter(letter()).lemma_push_map_commute(lowered(), c);
    }
}

/// The empty token has no letters.
pub proof fn lemma_normalize_empty()
    ensures
        normalize(Seq::empty()) == Seq::<char>::empty(),
        letter_count(Seq::empty()) == 0,
{
}

/// The words and the letters of a sequence of tokens with one more token.
pub proof fn lemma_words_of_push(tokens: Seq<Seq<char>>, token: Seq<char>)
    ensures
        words_of(tokens.push(token)) == if normalize(token).len() > 0 {
            words_of(tokens).push(normalize(token))
        } else {
            words_of(tokens)
        },
        letter_total(tokens.push(token)) == letter_total(tokens) + letter_count(token),
{
    tokens.lemma_push_map_commute(normalized(), token);
    tokens.map_values(normalized()).lemma_filter_push(normalize(token), nonempty());
    assert(tokens.push(token).drop_last() =~= tokens);
}

/// Text that ends inside a token has a last token, and no token is empty.
pub proof fn lemma_tokens_nonempty(text: Seq<char>)
    ensures
        in_token(text) ==> tokens(text).len() > 0,
        forall|i: int| 0 <= i < tokens(text).len() ==> (#[trigger] tokens(text)[i]).len() > 0,
        tokens(text).len() <= text.len(),
    decreases text.len(),
{
    if text.len() > 0 {
        lemma_tokens_nonempty(text.drop_last());
    }
}

/// The predicate that holds of the characters that belong to tokens.
pub open spec fn solid() -> spec_fn(char) -> bool {
    |c: char| !whitespace(c)
}

/// The tokens of a text hold no whitespace, and strung together they are the
/// text with its whitespace taken out.
pub proof fn lemma_tokens_are_runs(text: Seq<char>)
    ensures
        forall|i: int, j: int|
            0 <= i < tokens(text).len() && 0 <= j < tokens(text)[i].len() ==> !whitespace(
                #[trigger] tokens(text)[i][j],
            ),
        tokens(text).flatten() == text.filter(solid()),
    decreases text.len(),
{
    if text.len() > 0 {
        let before = text.drop_last();
        let c = text.last();
        let earlier = tokens(before);
        lemma_tokens_are_runs(before);
        assert(before.push(c) =~= text);
        before.lemma_filter_push(c, solid());
        if !whitespace(c) && in_token(before) {
            let open = earlier.last();
            assert(earlier =~= earlier.drop_last().push(open));
            earlier.drop_last().lemma_flatten_push(open);
            earlier.drop_last().lemma_flatten_push(open.push(c));
        } else if !whitespace(c) {
            earlier.lemma_flatten_push(seq![c]);
        }
    }
}

/// The letters of a sequence of tokens are the letters of the tokens strung
/// together.
pub proof fn lemma_letter_total_flat(tokens: Seq<Seq<char>>)
    ensures
        letter_total(tokens) == tokens.flatten().filter(letter()).len(),
    decreases tokens.len(),
{
    if tokens.len() > 0 {
        let rest = tokens.drop_last();
        lemma_letter_total_flat(rest);
        assert(rest.push(tokens.last()) =~= tokens);
        rest.lemma_flatten_push(tokens.last());
    }
}

/// The letters of a text are its characters that are letters and not
/// whitespace.
pub proof fn lemma_letters_direct(text: Seq<char>)
    ensures
        letters(text) == text.filter(solid()).filter(letter()).len(),
{
    lemma_tokens_are_runs(text);
    lemma_letter_total_flat(tokens(text));
}

/// How the scan of a text moves on by one character: whitespace settles the
/// pending token, any other character extends it.
pub proof fn lemma_scan_step(text: Seq<char>, c: char)
    ensures
        whitespace(c) ==> settled(text.push(c)) == tokens(text) && pending(text.push(c))
            == Seq::<char>::empty(),
        !whitespace(c) ==> settled(text.push(c)) == settled(text) && pending(text.push(c))
            == pending(text).push(c),
{
    let longer = text.push(c);
    assert(longer.drop_last() =~= text);
}

/// The tokens of a text are its settled tokens and, where the text ends
/// inside a token, the pending one.
pub proof fn lemma_tokens_split(text: Seq<char>)
    ensures
        in_token(text) <==> pending(text).len() > 0,
        tokens(text) == if in_token(text) {
            settled(text).push(pending(text))
        } else {
            settled(text)
        },
{
}

/// The words and the letters of a text, told from its settled tokens and the
/// pending one.
pub proof fn lemma_scan_totals(text: Seq<char>)
    ensures
        words(text) == if normalize(pending(text)).len() > 0 {
            words_of(settled(text)).push(normalize(pending(text)))
        } else {
            words_of(settled(text))
        },
        letters(text) == letter_total(settled(text)) + letter_count(pending(text)),
        normalize(pending(text)).len() == letter_count(pending(text)),
{
    lemma_tokens_split(text);
    if in_token(text) {
        lemma_words_of_push(settled(text), pending(text));
    }
}

/// The map from a stored token to the characters it holds.
pub open spec fn viewed() -> spec_fn(Vec<char>) -> Seq<char> {
    |t: Vec<char>| t@
}

/// What a vector of stored words or tokens holds.
pub open spec fn views(stored: Seq<Vec<char>>) -> Seq<Seq<char>> {
    stored.map_values(viewed())
}

/// Splits `text` into its tokens.
pub fn split_tokens(text: &str) -> (out: Vec<Vec<char>>)
    ensures
        views(out@) == tokens(text@),
{
    let mut out: Vec<Vec<char>> = Vec::new();
    let mut cur: Vec<char> = Vec::new();
    for c in it: text.chars()
        invariant
            it.seq() == text@,
            views(out@) == settled(text@.take(it.index())),
            cur@ == pending(text@.take(it.index())),
    {
        proof {
            let before = text@.take(it.index());
            lemma_scan_step(before, c);
            assert(before.push(c) =~= text@.take(it.index() + 1));
            out@.lemma_push_map_commute(viewed(), cur);
        }
        if c.is_whitespace() {
            if cur.len() > 0 {
                out.push(cur);
                cur = Vec::new();
            }
        } else {
            cur.push(c);
        }
    }
    proof {
        assert(text@.take(text@.len() as int) =~= text@);
        out@.lemma_push_map_commute(viewed(), cur);
    }
    if cur.len() > 0 {
        out.push(cur);
    }
    out
}

/// The word of a token: its letters, lowered.
pub fn normalize_token(token: &Vec<char>) -> (word: Vec<char>)
    ensures
        word@ == normalize(token@),
{
    let mut word: Vec<char> = Vec::new();
    for i in 0..token.len()
        invariant
            word@ == normalize(token@.take(i as int)),
    {
        proof {
            lemma_normalize_push(token@.take(i as int), token@[i as int]);
            assert(token@.take(i as int).push(token@[i as int]) =~= token@.take(i + 1));
        }
        let c = token[i];
        if c.is_alphabetic() {
            word.push(to_lower(c));
        }
    }
    proof {
        assert(token@.take(token.len() as int) =~= token@);
    }
    word
}

} // verus!
