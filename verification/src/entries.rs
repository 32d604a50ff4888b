//! Words with their counts, as a list: the model of the linear-scan table
//! and of every report.

use vstd::prelude::*;

use crate::tally::{bump, tally};

verus! {

/// A word and the number of times it was seen.
pub struct Entry {
    pub key: Seq<char>,
    pub count: nat,
}

/// A word and the number of times it was seen, as it is stored.
pub struct FreqKV {
    pub key: String,
    pub value: usize,
}

impl View for FreqKV {
    type V = Entry;

    open spec fn view(&self) -> Entry {
        Entry { key: self.key@, count: self.value as nat }
    }
}

impl Default for FreqKV {
    /// The empty word with a count of zero.
    fn default() -> (item: Self)
        ensures
            item@ == (Entry { key: Seq::empty(), count: 0 }),
    {
        FreqKV { key: String::new(), value: 0 }
    }
}

impl Clone for FreqKV {
    /// A copy with the same word and the same count.
    fn clone(&self) -> (copy: Self)
        ensures
            copy == *self,
    {
        FreqKV { key: self.key.clone(), value: self.value }
    }
}

/// The entries that a list of stored items stands for.
pub open spec fn views(items: Seq<FreqKV>) -> Seq<Entry> {
    Seq::new(items.len(), |i: int| items[i]@)
}

/// Entry `i` is for `key`.
pub open spec fn key_at(entries: Seq<Entry>, i: int, key: Seq<char>) -> bool {
    0 <= i < entries.len() && entries[i].key == key
}

/// Some entry is for `key`.
pub open spec fn listed(entries: Seq<Entry>, key: Seq<char>) -> bool {
    exists|i: int| key_at(entries, i, key)
}

/// Entry `i` is the first one for `key`.
pub open spec fn first_key_at(entries: Seq<Entry>, i: int, key: Seq<char>) -> bool {
    key_at(entries, i, key) && forall|j: int| 0 <= j < i ==> !key_at(entries, j, key)
}

/// The index of the first entry for `key`, where there is one.
pub open spec fn index_of(entries: Seq<Entry>, key: Seq<char>) -> int {
    choose|i: int| first_key_at(entries, i, key)
}

/// No two entries are for the same key.
pub open spec fn keys_unique(entries: Seq<Entry>) -> bool {
    forall|i: int, j: int|
        0 <= i < entries.len() && 0 <= j < entries.len() && i != j ==> (#[trigger] entries[i]).key
            != (#[trigger] entries[j]).key
}

/// The counts that a list of entries gives: each listed key with the count
/// of its first entry.
pub open spec fn lookup(entries: Seq<Entry>) -> Map<Seq<char>, nat> {
    Map::new(
        |k: Seq<char>| listed(entries, k),
        |k: Seq<char>| entries[index_of(entries, k)].count,
    )
}

/// The list after one more occurrence of `word`: the count of its first entry
/// goes up by one, or a new entry with a count of one comes last.
pub open spec fn recorded(entries: Seq<Entry>, word: Seq<char>) -> Seq<Entry> {
    if listed(entries, word) {
        let i = index_of(entries, word);
        entries.update(i, Entry { key: word, count: entries[i].count + 1 })
    } else {
        entries.push(Entry { key: word, count: 1 })
    }
}

/// The list after every word of `words` occurred once more, in order.
pub open spec fn recorded_all(entries: Seq<Entry>, words: Seq<Seq<char>>) -> Seq<Entry>
    decreases words.len(),
{
    if words.len() == 0 {
        entries
    } else {
        recorded(recorded_all(entries, words.drop_last()), words.last())
    }
}

/// Where an entry is for `key`, there is a first one.
pub proof fn lemma_index_of(entries: Seq<Entry>, key: Seq<char>)
    requires
        listed(entries, key),
    ensures
        first_key_at(entries, index_of(entries, key), key),
{
    let i = choose|i: int| key_at(entries, i, key);
    lemma_first_key_before(entries, key, i);
}

/// An entry for `key` has a first entry for `key` at or before it.
proof fn lemma_first_key_before(entries: Seq<Entry>, key: Seq<char>, i: int)
    requires
        key_at(entries, i, key),
    ensures
        exists|f: int| first_key_at(entries, f, key),
    decreases i,
{
    if forall|j: int| 0 <= j < i ==> !key_at(entries, j, key) {
        assert(first_key_at(entries, i, key));
    } else {
        let j = choose|j: int| 0 <= j < i && key_at(entries, j, key);
        lemma_first_key_before(entries, key, j);
    }
}

/// The first entry for a key is found at one index only.
pub proof fn lemma_index_of_unique(entries: Seq<Entry>, i: int, key: Seq<char>)
    requires
        first_key_at(entries, i, key),
    ensures
        index_of(entries, key) == i,
        lookup(entries).contains_key(key),
        lookup(entries)[key] == entries[i].count,
{
    let f = index_of(entries, key);
    assert(first_key_at(entries, f, key));
    if f < i {
        assert(!key_at(entries, f, key));
    } else if i < f {
        assert(!key_at(entries, i, key));
    }
}

/// A list that grew by one entry gives the counts it gave before, and the
/// count of the new entry where its key was not listed yet.
pub proof fn lemma_lookup_push(entries: Seq<Entry>, entry: Entry)
    ensures
        lookup(entries.push(entry)) == if listed(entries, entry.key) {
            lookup(entries)
        } else {
            lookup(entries).insert(entry.key, entry.count)
        },
        keys_unique(entries.push(entry)) <==> keys_unique(entries) && !listed(entries, entry.key),
{
    let longer = entries.push(entry);
    let last = entries.len() as int;
    assert forall|k: Seq<char>| listed(entries, k) implies listed(longer, k) && lookup(longer)[k]
        == lookup(entries)[k] by {
        lemma_index_of(entries, k);
        let i = index_of(entries, k);
        assert(key_at(longer, i, k));
        assert forall|j: int| 0 <= j < i implies !key_at(longer, j, k) by {
            assert(!key_at(entries, j, k));
        }
        lemma_index_of_unique(longer, i, k);
    }
    assert forall|k: Seq<char>| listed(longer, k) implies listed(entries, k) || k == entry.key by {
        let i = choose|i: int| key_at(longer, i, k);
        if i < last {
            assert(key_at(entries, i, k));
        }
    }
    assert(key_at(longer, last, entry.key));
    if !listed(entries, entry.key) {
        assert forall|j: int| 0 <= j < last implies !key_at(longer, j, entry.key) by {
            assert(!key_at(entries, j, entry.key));
        }
        lemma_index_of_unique(longer, last, entry.key);
        assert(lookup(longer) =~= lookup(entries).insert(entry.key, entry.count));
    } else {
        assert(lookup(longer) =~= lookup(entries));
    }
    if keys_unique(longer) {
        assert forall|i: int, j: int|
            0 <= i < entries.len() && 0 <= j < entries.len() && i != j implies (
        #[trigger] entries[i]).key != (#[trigger] entries[j]).key by {
            assert(longer[i].key != longer[j].key);
        }
        if listed(entries, entry.key) {
            let i = choose|i: int| key_at(entries, i, entry.key);
            assert(longer[i].key != longer[last].key);
        }
    }
    if keys_unique(entries) && !listed(entries, entry.key) {
        assert forall|i: int, j: int|
            0 <= i < longer.len() && 0 <= j < longer.len() && i != j implies (
        #[trigger] longer[i]).key != (#[trigger] longer[j]).key by {
            if i < last && j < last {
                assert(entries[i].key != entries[j].key);
            } else if i < last {
                assert(key_at(entries, i, longer[i].key));
            } else {
                assert(key_at(entries, j, longer[j].key));
            }
        }
    }
}

/// A list with unique keys gives as many counts as it has entries.
pub proof fn lemma_lookup_len(entries: Seq<Entry>)
    requires
        keys_unique(entries),
    ensures
        lookup(entries).dom().finite(),
        lookup(entries).len() == entries.len(),
    decreases entries.len(),
{
    if entries.len() == 0 {
        assert(lookup(entries) =~= Map::<Seq<char>, nat>::empty());
    } else {
        let front = entries.drop_last();
        let last = entries.last();
        assert(entries =~= front.push(last));
        lemma_lookup_push(front, last);
        lemma_lookup_len(front);
        assert(listed(front, last.key) == lookup(front).dom().contains(last.key));
        assert(lookup(entries).dom() =~= lookup(front).dom().insert(last.key));
    }
}

/// Recording a word counts it once more and keeps the keys unique.
pub proof fn lemma_recorded(entries: Seq<Entry>, word: Seq<char>)
    ensures
        lookup(recorded(entries, word)) == bump(lookup(entries), word),
        keys_unique(entries) ==> keys_unique(recorded(entries, word)),
{
    let after = recorded(entries, word);
    let at: int = if listed(entries, word) {
        index_of(entries, word)
    } else {
        entries.len() as int
    };
    if listed(entries, word) {
        lemma_index_of(entries, word);
    }
    assert(first_key_at(after, at, word)) by {
        assert forall|j: int| 0 <= j < at implies !key_at(after, j, word) by {
            assert(!key_at(entries, j, word));
        }
    }
    lemma_index_of_unique(after, at, word);
    if listed(entries, word) {
        lemma_index_of_unique(entries, at, word);
    }
    assert forall|k: Seq<char>| k != word implies (listed(after, k) <==> listed(entries, k)) && (
    listed(entries, k) ==> lookup(after)[k] == lookup(entries)[k]) by {
        if listed(entries, k) {
            lemma_index_of(entries, k);
            let i = index_of(entries, k);
            assert(key_at(after, i, k));
            assert forall|j: int| 0 <= j < i implies !key_at(after, j, k) by {
                assert(!key_at(entries, j, k));
            }
            lemma_index_of_unique(after, i, k);
        }
        if listed(after, k) {
            let i = choose|i: int| key_at(after, i, k);
            assert(key_at(entries, i, k));
        }
    }
    assert(lookup(after) =~= bump(lookup(entries), word));
    if keys_unique(entries) {
        assert forall|i: int, j: int|
            0 <= i < after.len() && 0 <= j < after.len() && i != j implies (#[trigger] after[i]).key
                != (#[trigger] after[j]).key by {
            if listed(entries, word) {
                assert(entries[i].key == after[i].key);
                assert(entries[j].key == after[j].key);
            } else {
                if i < entries.len() {
                    assert(key_at(entries, i, after[i].key));
                }
                if j < entries.len() {
                    assert(key_at(entries, j, after[j].key));
                }
            }
        }
    }
}

/// Recording words one by one gives their tally and keeps the keys unique.
pub proof fn lemma_recorded_all(entries: Seq<Entry>, words: Seq<Seq<char>>)
    ensures
        lookup(recorded_all(entries, words)) == tally(lookup(entries), words),
        keys_unique(entries) ==> keys_unique(recorded_all(entries, words)),
    decreases words.len(),
{
    if words.len() > 0 {
        lemma_recorded_all(entries, words.drop_last());
        lemma_recorded(recorded_all(entries, words.drop_last()), words.last());
    }
}

/// In a list with unique keys an entry occurs exactly where the counts hold
/// its key with its count.
pub proof fn lemma_entry_in_lookup(entries: Seq<Entry>, entry: Entry)
    requires
        keys_unique(entries),
    ensures
        entries.contains(entry) <==> lookup(entries).contains_key(entry.key) && lookup(
            entries,
        )[entry.key] == entry.count,
{
    if entries.contains(entry) {
        let i = choose|i: int| 0 <= i < entries.len() && entries[i] == entry;
        assert(first_key_at(entries, i, entry.key)) by {
            assert forall|j: int| 0 <= j < i implies !key_at(entries, j, entry.key) by {
                assert(entries[j].key != entries[i].key);
            }
        }
        lemma_index_of_unique(entries, i, entry.key);
    }
    if lookup(entries).contains_key(entry.key) && lookup(entries)[entry.key] == entry.count {
        lemma_index_of(entries, entry.key);
        let i = index_of(entries, entry.key);
        assert(entries[i] == entry);
    }
}

/// A list with unique keys holds no entry twice.
pub proof fn lemma_unique_keys_no_duplicates(entries: Seq<Entry>)
    requires
        keys_unique(entries),
    ensures
        entries.no_duplicates(),
{
    assert forall|i: int, j: int|
        0 <= i < entries.len() && 0 <= j < entries.len() && i != j implies entries[i]
        != entries[j] by {
        assert(entries[i].key != entries[j].key);
    }
}

/// Two lists with unique keys that give the same counts hold the same
/// entries, whatever their order.
pub proof fn lemma_lookup_determines_entries(a: Seq<Entry>, b: Seq<Entry>)
    requires
        keys_unique(a),
        keys_unique(b),
        lookup(a) == lookup(b),
    ensures
        a.to_multiset() == b.to_multiset(),
{
    lemma_unique_keys_no_duplicates(a);
    lemma_unique_keys_no_duplicates(b);
    a.lemma_multiset_has_no_duplicates();
    b.lemma_multiset_has_no_duplicates();
    assert forall|entry: Entry| a.to_multiset().count(entry) == b.to_multiset().count(entry) by {
        vstd::seq_lib::to_multiset_contains(a, entry);
        vstd::seq_lib::to_multiset_contains(b, entry);
        lemma_entry_in_lookup(a, entry);
        lemma_entry_in_lookup(b, entry);
    }
    assert(a.to_multiset() =~= b.to_multiset());
}

/// A list that holds the entries of a list with unique keys, in whatever
/// order, has unique keys and gives the same counts.
pub proof fn lemma_permutation_keeps_lookup(a: Seq<Entry>, b: Seq<Entry>)
    requires
        keys_unique(a),
        a.to_multiset() == b.to_multiset(),
    ensures
        keys_unique(b),
        lookup(b) == lookup(a),
{
    lemma_unique_keys_no_duplicates(a);
    a.lemma_multiset_has_no_duplicates();
    b.lemma_multiset_has_no_duplicates_conv();
    assert forall|entry: Entry| a.contains(entry) == b.contains(entry) by {
        vstd::seq_lib::to_multiset_contains(a, entry);
        vstd::seq_lib::to_multiset_contains(b, entry);
    }
    assert forall|p: int, q: int| 0 <= p < b.len() && 0 <= q < b.len() && p != q implies (
    #[trigger] b[p]).key != (#[trigger] b[q]).key by {
        if b[p].key == b[q].key {
            assert(b.contains(b[p]));
            assert(b.contains(b[q]));
            let i = choose|i: int| 0 <= i < a.len() && a[i] == b[p];
            let j = choose|j: int| 0 <= j < a.len() && a[j] == b[q];
            if i != j {
                assert(a[i].key != a[j].key);
            }
            assert(b[p] == b[q]);
        }
    }
    assert forall|k: Seq<char>| listed(a, k) == listed(b, k) && (listed(a, k) ==> lookup(a)[k]
        == lookup(b)[k]) by {
        if listed(a, k) {
            lemma_index_of(a, k);
            let entry = a[index_of(a, k)];
            assert(a.contains(entry));
            lemma_entry_in_lookup(a, entry);
            lemma_entry_in_lookup(b, entry);
        }
        if listed(b, k) {
            lemma_index_of(b, k);
            let entry = b[index_of(b, k)];
            assert(b.contains(entry));
            lemma_entry_in_lookup(a, entry);
            lemma_entry_in_lookup(b, entry);
        }
    }
    assert(lookup(b) =~= lookup(a));
}

} // verus!
