//! The order in which ranked words come out.
//!
//! A candidate is a word with its score. One candidate outranks another when
//! its score is higher, or the scores are equal and its word comes first in
//! lexicographic order of code points.

use vstd::prelude::*;

verus! {

/// Strict lexicographic order on words, character by character by code point;
/// a proper prefix comes before the longer word.
pub open spec fn precedes(a: Seq<char>, b: Seq<char>) -> bool
    decreases a.len(),
{
    if b.len() == 0 {
        false
    } else if a.len() == 0 {
        true
    } else if a[0] == b[0] {
        precedes(a.drop_first(), b.drop_first())
    } else {
        a[0] < b[0]
    }
}

/// Whether candidate `a` is ranked strictly before candidate `b`.
pub open spec fn outranks(a: (Seq<char>, nat), b: (Seq<char>, nat)) -> bool {
    a.1 > b.1 || (a.1 == b.1 && precedes(a.0, b.0))
}

/// No word comes before itself.
pub proof fn lemma_precedes_irreflexive(a: Seq<char>)
    ensures
        !precedes(a, a),
    decreases a.len(),
{
    if a.len() > 0 {
        lemma_precedes_irreflexive(a.drop_first());
    }
}

/// Of two words at most one comes before the other.
pub proof fn lemma_precedes_asymmetric(a: Seq<char>, b: Seq<char>)
    ensures
        !(precedes(a, b) && precedes(b, a)),
    decreases a.len(),
{
    if a.len() > 0 && b.len() > 0 && a[0] == b[0] {
        lemma_precedes_asymmetric(a.drop_first(), b.drop_first());
    }
}

/// The order on words is transitive.
pub proof fn lemma_precedes_transitive(a: Seq<char>, b: Seq<char>, c: Seq<char>)
    requires
        precedes(a, b),
        precedes(b, c),
    ensures
        precedes(a, c),
    decreases a.len(),
{
    if a.len() > 0 && a[0] == b[0] && b[0] == c[0] {
        lemma_precedes_transitive(a.drop_first(), b.drop_first(), c.drop_first());
    }
}

/// Of two different words one comes before the other.
pub proof fn lemma_precedes_total(a: Seq<char>, b: Seq<char>)
    requires
        a != b,
    ensures
        precedes(a, b) || precedes(b, a),
    decreases a.len(),
{
    if a.len() > 0 && b.len() > 0 && a[0] == b[0] {
        if a.drop_first() == b.drop_first() {
            assert(a =~= seq![a[0]] + a.drop_first());
            assert(b =~= seq![b[0]] + b.drop_first());
        }
        lemma_precedes_total(a.drop_first(), b.drop_first());
    } else if a.len() == 0 && b.len() == 0 {
        assert(a =~= b);
    }
}

/// No candidate outranks itself, and of two candidates at most one outranks
/// the other.
pub proof fn lemma_outranks_asymmetric(a: (Seq<char>, nat), b: (Seq<char>, nat))
    ensures
        !(outranks(a, b) && outranks(b, a)),
        !outranks(a, a),
{
    lemma_precedes_asymmetric(a.0, b.0);
    lemma_precedes_irreflexive(a.0);
}

/// Ranking is transitive.
pub proof fn lemma_outranks_transitive(
    a: (Seq<char>, nat),
    b: (Seq<char>, nat),
    c: (Seq<char>, nat),
)
    requires
        outranks(a, b),
        outranks(b, c),
    ensures
        outranks(a, c),
{
    if a.1 == b.1 && b.1 == c.1 {
        lemma_precedes_transitive(a.0, b.0, c.0);
    }
}

/// Of two different candidates one outranks the other.
pub proof fn lemma_outranks_total(a: (Seq<char>, nat), b: (Seq<char>, nat))
    requires
        a != b,
    ensures
        outranks(a, b) || outranks(b, a),
{
    if a.0 != b.0 {
        lemma_precedes_total(a.0, b.0);
    }
}

/// Where `a` does not outrank `b` and `b` does not outrank `c`, `a` does not
/// outrank `c`, as long as `a` and `b` are the same candidate or differ in
/// their words.
pub proof fn lemma_not_outranks_transitive(
    a: (Seq<char>, nat),
    b: (Seq<char>, nat),
    c: (Seq<char>, nat),
)
    requires
        !outranks(a, b),
        !outranks(b, c),
        a == b || a.0 != b.0,
    ensures
        !outranks(a, c),
{
    if a != b && outranks(a, c) {
        lemma_outranks_total(a, b);
        lemma_outranks_transitive(b, a, c);
    }
}

/// Decides the lexicographic order of two words.
pub fn word_precedes(a: &Vec<char>, b: &Vec<char>) -> (r: bool)
    ensures
        r == precedes(a@, b@),
{
    let mut i: usize = 0;
    proof {
        assert(a@.skip(0) =~= a@);
        assert(b@.skip(0) =~= b@);
    }
    loop
        invariant
            i <= a.len(),
            i <= b.len(),
            precedes(a@, b@) == precedes(a@.skip(i as int), b@.skip(i as int)),
        decreases a.len() - i,
    {
        if i >= b.len() {
            return false;
        }
        if i >= a.len() {
            return true;
        }
        if a[i] != b[i] {
            return a[i] < b[i];
        }
        proof {
            assert(a@.skip(i as int).drop_first() =~= a@.skip(i + 1));
            assert(b@.skip(i as int).drop_first() =~= b@.skip(i + 1));
        }
        i = i + 1;
    }
}

} // verus!
