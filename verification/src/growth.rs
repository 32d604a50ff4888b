//! Growth by doubling, and what a run of inserts does to the table.

use vstd::prelude::*;

use crate::entries::{
    lemma_lookup_determines_entries, lemma_recorded_all, lookup, recorded_all, Entry,
};
use crate::probing::{
    lemma_placed, lemma_probe_ends, lemma_probe_finds, lemma_stored, placed, probe, stored,
};
use crate::slots::{
    contents, has_key, holds, lemma_contents_push, lemma_occupied_count_bounds,
    lemma_occupied_entries, lemma_vacant, occupied_count, occupied_entries, table_inv, vacant,
    Slot,
};
use crate::tally::{bump, tally};

verus! {

/// The table of `capacity` slots into which the occupied ones among the first
/// `upto` slots of `old` were placed again, in slot order, each at the end of
/// the probe for its key.
pub open spec fn rehashed(old: Seq<Slot>, upto: nat, capacity: nat) -> Seq<Slot>
    decreases upto,
{
    if upto == 0 {
        vacant(capacity)
    } else {
        let before = rehashed(old, (upto - 1) as nat, capacity);
        let slot = old[upto - 1];
        if slot.occupied {
            placed(before, slot)
        } else {
            before
        }
    }
}

/// The table after growth: twice the capacity, every entry placed again.
pub open spec fn grown(slots: Seq<Slot>) -> Seq<Slot> {
    rehashed(slots, slots.len(), 2 * slots.len())
}

/// The table after one insert: grown first where every slot was occupied.
pub open spec fn inserted(slots: Seq<Slot>, key: Seq<char>) -> Seq<Slot> {
    if occupied_count(slots) >= slots.len() {
        stored(grown(slots), key)
    } else {
        stored(slots, key)
    }
}

/// The table after every word of `words` was inserted, in order.
pub open spec fn inserted_all(slots: Seq<Slot>, words: Seq<Seq<char>>) -> Seq<Slot>
    decreases words.len(),
{
    if words.len() == 0 {
        slots
    } else {
        inserted(inserted_all(slots, words.drop_last()), words.last())
    }
}

/// Placing the occupied ones among the first `upto` slots of a table again,
/// in a table with more slots than that one has, gives a well-formed table
/// with the contents of those slots.
pub proof fn lemma_rehashed(old: Seq<Slot>, taken: nat, upto: nat, capacity: nat)
    requires
        table_inv(old, taken),
        upto <= old.len() < capacity,
    ensures
        rehashed(old, upto, capacity).len() == capacity,
        table_inv(rehashed(old, upto, capacity), occupied_count(old.take(upto as int))),
        contents(rehashed(old, upto, capacity)) == contents(old.take(upto as int)),
    decreases upto,
{
    let part = old.take(upto as int);
    if upto == 0 {
        lemma_vacant(capacity);
        assert(part =~= Seq::<Slot>::empty());
        assert(contents(part) =~= Map::<Seq<char>, nat>::empty());
    } else {
        let before = rehashed(old, (upto - 1) as nat, capacity);
        let front = old.take(upto - 1);
        let slot = old[upto - 1];
        lemma_rehashed(old, taken, (upto - 1) as nat, capacity);
        lemma_occupied_count_bounds(front);
        assert(part =~= front.push(slot));
        assert(part.drop_last() =~= front);
        assert forall|i: int, j: int|
            0 <= i < part.len() && 0 <= j < part.len() && i != j && #[trigger] part[i].occupied
                && #[trigger] part[j].occupied implies part[i].key != part[j].key by {
            assert(old[i].occupied && old[j].occupied);
        }
        lemma_contents_push(front, slot);
        assert(part.last() == slot);
        if slot.occupied {
            assert(old[upto - 1].occupied);
            assert(has_key(before, slot.key) == contents(before).contains_key(slot.key));
            assert(has_key(front, slot.key) == contents(front).contains_key(slot.key));
            lemma_placed(before, occupied_count(front), slot);
        }
    }
}

/// Growth doubles the capacity and keeps the table well-formed, the number
/// of its entries and every count.
pub proof fn lemma_grown(slots: Seq<Slot>, taken: nat)
    requires
        table_inv(slots, taken),
    ensures
        grown(slots).len() == 2 * slots.len(),
        table_inv(grown(slots), taken),
        contents(grown(slots)) == contents(slots),
{
    lemma_rehashed(slots, taken, slots.len(), 2 * slots.len());
    assert(slots.take(slots.len() as int) =~= slots);
}

/// An insert keeps the table well-formed and counts the key once more. The
/// table has twice the slots it had if every slot was occupied, and as many
/// as it had otherwise; afterwards it has no more occupied slots than slots.
pub proof fn lemma_inserted(slots: Seq<Slot>, taken: nat, key: Seq<char>)
    requires
        table_inv(slots, taken),
    ensures
        table_inv(
            inserted(slots, key),
            if has_key(slots, key) {
                taken
            } else {
                taken + 1
            },
        ),
        contents(inserted(slots, key)) == bump(contents(slots), key),
        inserted(slots, key).len() == if taken >= slots.len() {
            2 * slots.len()
        } else {
            slots.len()
        },
        occupied_count(inserted(slots, key)) <= inserted(slots, key).len(),
{
    if taken >= slots.len() {
        lemma_grown(slots, taken);
        lemma_stored(grown(slots), taken, key);
        assert(has_key(slots, key) == contents(slots).contains_key(key));
        assert(has_key(grown(slots), key) == contents(grown(slots)).contains_key(key));
    } else {
        lemma_stored(slots, taken, key);
    }
}

/// Inserting words one by one keeps the table well-formed, so that it never
/// has more occupied slots than slots, and gives the tally of the words.
pub proof fn lemma_inserted_all(slots: Seq<Slot>, taken: nat, words: Seq<Seq<char>>)
    requires
        table_inv(slots, taken),
    ensures
        table_inv(inserted_all(slots, words), occupied_count(inserted_all(slots, words))),
        occupied_count(inserted_all(slots, words)) <= inserted_all(slots, words).len(),
        contents(inserted_all(slots, words)) == tally(contents(slots), words),
    decreases words.len(),
{
    if words.len() > 0 {
        let before = inserted_all(slots, words.drop_last());
        lemma_inserted_all(slots, taken, words.drop_last());
        lemma_inserted(before, occupied_count(before), words.last());
    }
}

/// Tables that hold the same counts hold the same counts after the same
/// words were inserted into each, whatever the capacity of either and
/// however often either had to grow.
pub proof fn lemma_counts_whatever_capacity(
    a: Seq<Slot>,
    b: Seq<Slot>,
    words: Seq<Seq<char>>,
)
    requires
        table_inv(a, occupied_count(a)),
        table_inv(b, occupied_count(b)),
        contents(a) == contents(b),
    ensures
        contents(inserted_all(a, words)) == contents(inserted_all(b, words)),
{
    lemma_inserted_all(a, occupied_count(a), words);
    lemma_inserted_all(b, occupied_count(b), words);
}

/// A key that was just inserted is inserted again: the count goes up by one
/// and no slot is taken. Where the table does not grow for it, the second
/// probe ends at the slot at which the first insert left the key, and no
/// other slot changes.
pub proof fn lemma_inserted_again(slots: Seq<Slot>, taken: nat, key: Seq<char>)
    requires
        table_inv(slots, taken),
    ensures
        ({
            let once = inserted(slots, key);
            let twice = inserted(once, key);
            let at = probe(once, key);
            &&& contents(twice)[key] == contents(once)[key] + 1
            &&& occupied_count(twice) == occupied_count(once)
            &&& occupied_count(once) < once.len() ==> {
                &&& holds(once, at, key)
                &&& probe(twice, key) == at
                &&& twice == once.update(at, Slot { count: once[at].count + 1, ..once[at] })
            }
        }),
{
    let once = inserted(slots, key);
    let twice = inserted(once, key);
    let at = probe(once, key);
    lemma_inserted(slots, taken, key);
    let held = occupied_count(once);
    lemma_inserted(once, held, key);
    assert(has_key(once, key) == contents(once).contains_key(key));
    if held < once.len() {
        lemma_probe_ends(once, key);
        lemma_probe_finds(once, held, key);
        lemma_stored(once, held, key);
        assert(twice =~= once.update(at, Slot { count: once[at].count + 1, ..once[at] }));
        lemma_probe_ends(twice, key);
        lemma_probe_finds(twice, held, key);
        assert(holds(twice, at, key));
        let end = probe(twice, key);
        if end != at {
            assert(twice[at].occupied && twice[end].occupied);
        }
    }
}

/// Counting the same words from nothing with the hash table, of whatever
/// capacity, and with the list gives the same entries, each as often.
pub proof fn lemma_table_matches_list(capacity: nat, words: Seq<Seq<char>>)
    requires
        capacity > 0,
    ensures
        occupied_entries(inserted_all(vacant(capacity), words)).to_multiset() == recorded_all(
            Seq::<Entry>::empty(),
            words,
        ).to_multiset(),
{
    let table = inserted_all(vacant(capacity), words);
    let list = recorded_all(Seq::<Entry>::empty(), words);
    lemma_vacant(capacity);
    lemma_inserted_all(vacant(capacity), 0, words);
    lemma_occupied_entries(table);
    lemma_recorded_all(Seq::<Entry>::empty(), words);
    assert(lookup(Seq::<Entry>::empty()) =~= Map::<Seq<char>, nat>::empty());
    lemma_lookup_determines_entries(occupied_entries(table), list);
}

} // verus!
