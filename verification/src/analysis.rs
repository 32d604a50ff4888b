//! The two ways of counting the words of a text.

use vstd::prelude::*;

use crate::baseline::FreqKVs;
use crate::entries::{
    index_of, lemma_index_of, lemma_index_of_unique, lemma_lookup_determines_entries,
    lemma_recorded_all, listed, lookup, recorded, recorded_all, FreqKV,
};
use crate::growth::{inserted_all, lemma_inserted_all};
use crate::slots::{contents, lemma_occupied_entries, occupied_entries};
use crate::table::HashTable;
use crate::tally::{lemma_occurrences_bound, lemma_tally_adds_occurrences, tally};
use crate::text::texts;

verus! {

/// Counts the words with the linear-scan table: each word is searched from
/// the start of the list; where it is found, its count goes up by one, and
/// where it is not, it is added at the end with a count of one.
///
/// Every count in the list has to leave room for as many occurrences as
/// there are words.
pub fn naive_analysis(freq: &mut FreqKVs, words: &Vec<&str>)
    requires
        forall|k: Seq<char>| #[trigger]
            old(freq)@.contains_key(k) ==> old(freq)@[k] + words@.len() <= usize::MAX,
    ensures
        old(freq).wf() ==> final(freq).wf(),
        final(freq).entries() == recorded_all(old(freq).entries(), texts(words@)),
        final(freq)@ == tally(old(freq)@, texts(words@)),
{
    let ghost start = freq.entries();
    let ghost all = texts(words@);
    let mut i: usize = 0;
    proof {
        assert(all.take(0) =~= Seq::<Seq<char>>::empty());
        assert(freq@ == lookup(start));
    }
    while i < words.len()
        invariant
            i <= words@.len(),
            all == texts(words@),
            start == old(freq).entries(),
            freq.entries() == recorded_all(start, all.take(i as int)),
            forall|k: Seq<char>| #[trigger]
                lookup(start).contains_key(k) ==> lookup(start)[k] + words@.len() <= usize::MAX,
        decreases words@.len() - i,
    {
        let word = words[i];
        let ghost seen = all.take(i as int);
        let ghost before = freq.entries();
        proof {
            assert(all.take(i + 1).drop_last() =~= seen);
            assert(all.take(i + 1).last() == word@);
            lemma_recorded_all(start, seen);
            lemma_tally_adds_occurrences(lookup(start), seen, word@);
            lemma_occurrences_bound(seen, word@);
            if listed(before, word@) {
                lemma_index_of(before, word@);
                lemma_index_of_unique(before, index_of(before, word@), word@);
            }
        }
        match freq.find_key(word) {
            Some(fkv) => {
                fkv.value += 1;
            },
            None => {
                freq.append(FreqKV { key: word.to_owned(), value: 1 });
            },
        }
        assert(freq.entries() =~= recorded(before, word@));
        i += 1;
    }
    proof {
        assert(all.take(i as int) =~= all);
        lemma_recorded_all(start, all);
    }
}

/// Counts the words with the hash table, one insert for each.
///
/// Every count in the table has to leave room for as many occurrences as
/// there are words, and twice the number of entries that the table can come
/// to hold has to be a number that the machine can hold.
pub fn better_analysis(slots: &mut HashTable, words: &Vec<&str>)
    requires
        old(slots).wf(),
        2 * (old(slots).taken_count() + words@.len()) <= usize::MAX,
        forall|k: Seq<char>| #[trigger]
            old(slots)@.contains_key(k) ==> old(slots)@[k] + words@.len() <= usize::MAX,
    ensures
        final(slots).wf(),
        final(slots).slots() == inserted_all(old(slots).slots(), texts(words@)),
        final(slots)@ == tally(old(slots)@, texts(words@)),
{
    let ghost start = slots.slots();
    let ghost held = slots.taken_count();
    let ghost all = texts(words@);
    let mut i: usize = 0;
    proof {
        assert(all.take(0) =~= Seq::<Seq<char>>::empty());
        assert(slots@ == contents(start));
    }
    while i < words.len()
        invariant
            i <= words@.len(),
            all == texts(words@),
            start == old(slots).slots(),
            held == old(slots).taken_count(),
            old(slots).wf(),
            slots.wf(),
            slots.slots() == inserted_all(start, all.take(i as int)),
            slots.taken_count() <= held + i,
            2 * (held + words@.len()) <= usize::MAX,
            forall|k: Seq<char>| #[trigger]
                contents(start).contains_key(k) ==> contents(start)[k] + words@.len() <= usize::MAX,
        decreases words@.len() - i,
    {
        let key = words[i].to_owned();
        proof {
            let seen = all.take(i as int);
            assert(all.take(i + 1).drop_last() =~= seen);
            assert(all.take(i + 1).last() == key@);
            lemma_inserted_all(start, held, seen);
            lemma_tally_adds_occurrences(contents(start), seen, key@);
            lemma_occurrences_bound(seen, key@);
        }
        slots.insert(&key);
        i += 1;
    }
    proof {
        assert(all.take(i as int) =~= all);
        lemma_inserted_all(start, held, all);
    }
}

/// A hash table and a linear-scan table that hold the same counts hold the
/// same entries, each as often; only the order may differ.
pub proof fn lemma_same_counts_same_entries(slots: HashTable, freq: FreqKVs)
    requires
        slots.wf(),
        freq.wf(),
        slots@ == freq@,
    ensures
        occupied_entries(slots.slots()).to_multiset() == freq.entries().to_multiset(),
{
    lemma_occupied_entries(slots.slots());
    lemma_lookup_determines_entries(occupied_entries(slots.slots()), freq.entries());
}

} // verus!
