//! What counting words means: a map from each word to the number of times it
//! was seen.

use vstd::prelude::*;

verus! {

/// The counts after one more occurrence of `word`.
pub open spec fn bump(counts: Map<Seq<char>, nat>, word: Seq<char>) -> Map<Seq<char>, nat> {
    counts.insert(
        word,
        if counts.contains_key(word) {
            counts[word] + 1
        } else {
            1
        },
    )
}

/// The counts after every word of `words` was seen once more, in order.
pub open spec fn tally(counts: Map<Seq<char>, nat>, words: Seq<Seq<char>>) -> Map<Seq<char>, nat>
    decreases words.len(),
{
    if words.len() == 0 {
        counts
    } else {
        bump(tally(counts, words.drop_last()), words.last())
    }
}

/// The number of times `word` occurs in `words`.
pub open spec fn occurrences(words: Seq<Seq<char>>, word: Seq<char>) -> nat
    decreases words.len(),
{
    if words.len() == 0 {
        0
    } else {
        occurrences(words.drop_last(), word) + if words.last() == word {
            1nat
        } else {
            0nat
        }
    }
}

/// A word is counted if it was counted before or occurs in `words`, and its
/// count is what it was before plus the number of its occurrences.
pub proof fn lemma_tally_adds_occurrences(
    counts: Map<Seq<char>, nat>,
    words: Seq<Seq<char>>,
    word: Seq<char>,
)
    ensures
        tally(counts, words).contains_key(word) <==> counts.contains_key(word) || occurrences(
            words,
            word,
        ) > 0,
        tally(counts, words).contains_key(word) ==> tally(counts, words)[word] == occurrences(
            words,
            word,
        ) + if counts.contains_key(word) {
            counts[word]
        } else {
            0
        },
    decreases words.len(),
{
    if words.len() > 0 {
        lemma_tally_adds_occurrences(counts, words.drop_last(), word);
    }
}

/// No word occurs more often than there are words.
pub proof fn lemma_occurrences_bound(words: Seq<Seq<char>>, word: Seq<char>)
    ensures
        occurrences(words, word) <= words.len(),
    decreases words.len(),
{
    if words.len() > 0 {
        lemma_occurrences_bound(words.drop_last(), word);
    }
}

} // verus!
