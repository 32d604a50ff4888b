//! The linear-scan table: a list of entries that is searched from its start
//! for every word.

use vstd::prelude::*;

use crate::entries::{
    first_key_at, index_of, key_at, keys_unique, lemma_index_of_unique, lemma_lookup_len,
    lemma_lookup_push, lemma_permutation_keeps_lookup, listed, lookup, views, Entry, FreqKV,
};
use crate::ranking::{is_ranking, rank, ranked, top};
use crate::text::same_text;

verus! {

/// A table from words to counts, kept as a list in the order in which the
/// words were first seen.
pub struct FreqKVs {
    freq_table: Vec<FreqKV>,
}

impl View for FreqKVs {
    type V = Map<Seq<char>, nat>;

    /// Each word in the table with its count.
    open spec fn view(&self) -> Map<Seq<char>, nat> {
        lookup(self.entries())
    }
}

impl FreqKVs {
    /// The items of the table as they are stored, in order.
    pub closed spec fn items(&self) -> Seq<FreqKV> {
        self.freq_table@
    }

    /// The entries of the table, in order.
    pub open spec fn entries(&self) -> Seq<Entry> {
        views(self.items())
    }

    /// The table is well-formed: no word has two entries.
    pub open spec fn wf(&self) -> bool {
        keys_unique(self.entries())
    }

    /// A table without entries.
    pub fn new() -> (table: Self)
        ensures
            table.items() == Seq::<FreqKV>::empty(),
            table.wf(),
            table@ == Map::<Seq<char>, nat>::empty(),
    {
        let table = FreqKVs { freq_table: Vec::new() };
        assert(table@ =~= Map::<Seq<char>, nat>::empty());
        table
    }

    /// Finds the first entry for `word`, to be read or changed in place.
    pub fn find_key(&mut self, word: &str) -> (found: Option<&mut FreqKV>)
        ensures
            match found {
                Some(item) => {
                    let i = index_of(old(self).entries(), word@);
                    &&& listed(old(self).entries(), word@)
                    &&& 0 <= i < old(self).items().len()
                    &&& *item == old(self).items()[i]
                    &&& final(self).items() == old(self).items().update(i, *final(item))
                },
                None => {
                    &&& !listed(old(self).entries(), word@)
                    &&& final(self).items() == old(self).items()
                },
            },
    {
        let ghost entries = self.entries();
        let mut i: usize = 0;
        while i < self.freq_table.len()
            invariant
                i <= self.freq_table@.len(),
                self.freq_table@ == old(self).freq_table@,
                entries == views(self.freq_table@),
                forall|j: int| 0 <= j < i ==> !key_at(entries, j, word@),
            decreases self.freq_table@.len() - i,
        {
            if same_text(self.freq_table[i].key.as_str(), word) {
                proof {
                    assert(first_key_at(entries, i as int, word@));
                    lemma_index_of_unique(entries, i as int, word@);
                }
                return Some(&mut self.freq_table[i]);
            }
            i += 1;
        }
        None
    }

    /// Adds `new_item` at the end of the table. It counts for its word only
    /// where the table had no entry for it.
    pub fn append(&mut self, new_item: FreqKV)
        ensures
            final(self).items() == old(self).items().push(new_item),
            final(self)@ == if old(self)@.contains_key(new_item@.key) {
                old(self)@
            } else {
                old(self)@.insert(new_item@.key, new_item@.count)
            },
            final(self).wf() <==> old(self).wf() && !old(self)@.contains_key(new_item@.key),
    {
        proof {
            lemma_lookup_push(self.entries(), new_item@);
            assert(views(self.freq_table@.push(new_item)) =~= self.entries().push(new_item@));
        }
        self.freq_table.push(new_item);
    }

    /// Puts the entries in descending order of count; entries of equal count
    /// stay in the order in which they stood.
    pub fn sort_freq_table(&mut self)
        ensures
            final(self).entries() == ranked(old(self).entries()),
            is_ranking(final(self).entries(), old(self).entries()),
            old(self).wf() ==> final(self).wf() && final(self)@ == old(self)@,
    {
        let ranked = rank(&self.freq_table);
        proof {
            if self.wf() {
                lemma_permutation_keeps_lookup(self.entries(), views(ranked@));
            }
        }
        self.freq_table = ranked;
    }

    /// The first `limit` entries, or all of them where there are fewer.
    pub fn top(&self, limit: usize) -> (first: Vec<FreqKV>)
        ensures
            views(first@) == self.entries().take(
                if limit <= self.items().len() {
                    limit as int
                } else {
                    self.items().len() as int
                },
            ),
    {
        top(&self.freq_table, limit)
    }

    /// The number of entries.
    pub fn len(&self) -> (n: usize)
        ensures
            n == self.items().len(),
            self.wf() ==> n == self@.len(),
    {
        proof {
            if self.wf() {
                lemma_lookup_len(self.entries());
            }
        }
        self.freq_table.len()
    }
}

} // verus!
