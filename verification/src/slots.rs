//! The mathematical model of the table: a sequence of slots, what it holds
//! and when it is well-formed.

use vstd::prelude::*;

use crate::entries::{keys_unique, lemma_lookup_len, lemma_lookup_push, listed, lookup, Entry};
use crate::hasher::{hash_of, lemma_hash_of_bounds, Hashable};

verus! {

/// One cell of the table. `key` and `count` mean something only where
/// `occupied` holds.
pub struct Slot {
    pub key: Seq<char>,
    pub count: nat,
    pub occupied: bool,
}

/// The slot that holds nothing.
pub open spec fn empty_slot() -> Slot {
    Slot { key: Seq::empty(), count: 0, occupied: false }
}

/// A table of `capacity` slots, none of them occupied.
pub open spec fn vacant(capacity: nat) -> Seq<Slot> {
    Seq::new(capacity, |i: int| empty_slot())
}

/// The slot at which the probe for `key` starts in a table of `capacity` slots.
pub open spec fn home(key: Seq<char>, capacity: nat) -> int {
    hash_of(key) % (capacity as int)
}

/// The slot reached `steps` steps after `start`, going forward and wrapping
/// at `capacity`.
pub open spec fn wrap(start: int, steps: int, capacity: nat) -> int {
    if start + steps < capacity {
        start + steps
    } else {
        start + steps - capacity
    }
}

/// The number of steps that lead from `start` forward to `slot`.
pub open spec fn gap(start: int, slot: int, capacity: nat) -> int {
    if slot >= start {
        slot - start
    } else {
        slot - start + capacity
    }
}

/// Slot `i` is occupied and holds `key`.
pub open spec fn holds(slots: Seq<Slot>, i: int, key: Seq<char>) -> bool {
    0 <= i < slots.len() && slots[i].occupied && slots[i].key == key
}

/// Some slot holds `key`.
pub open spec fn has_key(slots: Seq<Slot>, key: Seq<char>) -> bool {
    exists|i: int| holds(slots, i, key)
}

/// A slot that holds `key`, where there is one.
pub open spec fn slot_of(slots: Seq<Slot>, key: Seq<char>) -> int {
    choose|i: int| holds(slots, i, key)
}

/// What the table holds: each key of an occupied slot with its count.
pub open spec fn contents(slots: Seq<Slot>) -> Map<Seq<char>, nat> {
    Map::new(|k: Seq<char>| has_key(slots, k), |k: Seq<char>| slots[slot_of(slots, k)].count)
}

/// The number of occupied slots.
pub open spec fn occupied_count(slots: Seq<Slot>) -> nat
    decreases slots.len(),
{
    if slots.len() == 0 {
        0
    } else {
        occupied_count(slots.drop_last()) + if slots.last().occupied {
            1nat
        } else {
            0nat
        }
    }
}

/// No two occupied slots hold the same key.
pub open spec fn keys_distinct(slots: Seq<Slot>) -> bool {
    forall|i: int, j: int|
        0 <= i < slots.len() && 0 <= j < slots.len() && i != j && #[trigger] slots[i].occupied
            && #[trigger] slots[j].occupied ==> slots[i].key != slots[j].key
}

/// The first `steps` slots on the probe path from `start` are all occupied.
pub open spec fn path_occupied(slots: Seq<Slot>, start: int, steps: int) -> bool {
    forall|d: int| 0 <= d < steps ==> slots[#[trigger] wrap(start, d, slots.len())].occupied
}

/// Probing for the key of slot `i` reaches slot `i` before it meets an empty
/// slot.
pub open spec fn chain_unbroken(slots: Seq<Slot>, i: int) -> bool {
    let start = home(slots[i].key, slots.len());
    path_occupied(slots, start, gap(start, i, slots.len()))
}

/// The invariant of the table: it has at least one slot, `taken` counts the
/// occupied ones, no key occurs twice, every occupied slot has a count of at
/// least one and is reached by the probe for its key.
pub open spec fn table_inv(slots: Seq<Slot>, taken: nat) -> bool {
    &&& slots.len() > 0
    &&& taken == occupied_count(slots)
    &&& taken <= slots.len()
    &&& keys_distinct(slots)
    &&& forall|i: int|
        0 <= i < slots.len() && #[trigger] slots[i].occupied ==> slots[i].count >= 1
            && chain_unbroken(slots, i)
}

/// The entries of the occupied slots, in slot order.
pub open spec fn occupied_entries(slots: Seq<Slot>) -> Seq<Entry>
    decreases slots.len(),
{
    if slots.len() == 0 {
        Seq::empty()
    } else {
        let front = occupied_entries(slots.drop_last());
        if slots.last().occupied {
            front.push(Entry { key: slots.last().key, count: slots.last().count })
        } else {
            front
        }
    }
}

/// The home slot lies in the table.
pub proof fn lemma_home_in_range(key: Seq<char>, capacity: nat)
    requires
        capacity > 0,
    ensures
        0 <= home(key, capacity) < capacity,
{
    lemma_hash_of_bounds(key);
    vstd::arithmetic::div_mod::lemma_mod_bound(hash_of(key), capacity as int);
}

/// Words with the same text have the same hash, and their probes start at
/// the same slot of a table of any capacity.
pub proof fn lemma_same_text_same_home(a: String, b: String, capacity: nat)
    requires
        a@ == b@,
    ensures
        a.hash_value() == b.hash_value(),
        home(a@, capacity) == home(b@, capacity),
{
}

/// The occupied slots are at most all of them, and all of them exactly when
/// no slot is empty.
pub proof fn lemma_occupied_count_bounds(slots: Seq<Slot>)
    ensures
        occupied_count(slots) <= slots.len(),
        occupied_count(slots) == slots.len() <==> forall|i: int|
            0 <= i < slots.len() ==> #[trigger] slots[i].occupied,
    decreases slots.len(),
{
    if slots.len() > 0 {
        let front = slots.drop_last();
        lemma_occupied_count_bounds(front);
        if occupied_count(slots) == slots.len() {
            assert forall|i: int| 0 <= i < slots.len() implies #[trigger] slots[i].occupied by {
                if i < front.len() {
                    assert(front[i].occupied);
                }
            }
        }
        if forall|i: int| 0 <= i < slots.len() ==> #[trigger] slots[i].occupied {
            assert forall|i: int| 0 <= i < front.len() implies #[trigger] front[i].occupied by {
                assert(slots[i].occupied);
            }
        }
    }
}

/// Writing one slot changes the number of occupied slots by what that slot
/// gained or lost.
pub proof fn lemma_occupied_count_update(slots: Seq<Slot>, i: int, slot: Slot)
    requires
        0 <= i < slots.len(),
    ensures
        occupied_count(slots.update(i, slot)) + (if slots[i].occupied {
            1nat
        } else {
            0nat
        }) == occupied_count(slots) + (if slot.occupied {
            1nat
        } else {
            0nat
        }),
    decreases slots.len(),
{
    let after = slots.update(i, slot);
    if i == slots.len() - 1 {
        assert(after.drop_last() =~= slots.drop_last());
    } else {
        assert(after.drop_last() =~= slots.drop_last().update(i, slot));
        lemma_occupied_count_update(slots.drop_last(), i, slot);
    }
}

/// A table without occupied slots.
pub proof fn lemma_vacant(capacity: nat)
    ensures
        vacant(capacity).len() == capacity,
        occupied_count(vacant(capacity)) == 0,
        contents(vacant(capacity)) == Map::<Seq<char>, nat>::empty(),
        capacity > 0 ==> table_inv(vacant(capacity), 0),
    decreases capacity,
{
    let slots = vacant(capacity);
    if capacity > 0 {
        assert(slots.drop_last() =~= vacant((capacity - 1) as nat));
        lemma_vacant((capacity - 1) as nat);
    }
    assert(contents(slots) =~= Map::<Seq<char>, nat>::empty());
}

/// A key that some slot holds is in the contents, with the count of that
/// slot.
pub proof fn lemma_contents_at(slots: Seq<Slot>, i: int, key: Seq<char>)
    requires
        keys_distinct(slots),
        holds(slots, i, key),
    ensures
        contents(slots).contains_key(key),
        contents(slots)[key] == slots[i].count,
        slot_of(slots, key) == i,
{
    let j = slot_of(slots, key);
    assert(holds(slots, j, key));
    if i != j {
        assert(slots[i].occupied && slots[j].occupied);
    }
}

/// The contents of a table with one more slot at its end.
pub proof fn lemma_contents_push(slots: Seq<Slot>, slot: Slot)
    requires
        keys_distinct(slots.push(slot)),
    ensures
        keys_distinct(slots),
        slot.occupied ==> !has_key(slots, slot.key),
        contents(slots.push(slot)) == if slot.occupied {
            contents(slots).insert(slot.key, slot.count)
        } else {
            contents(slots)
        },
{
    let longer = slots.push(slot);
    let last = slots.len() as int;
    assert forall|i: int, j: int|
        0 <= i < slots.len() && 0 <= j < slots.len() && i != j && #[trigger] slots[i].occupied
            && #[trigger] slots[j].occupied implies slots[i].key != slots[j].key by {
        assert(longer[i].occupied && longer[j].occupied);
    }
    if slot.occupied && has_key(slots, slot.key) {
        let j = slot_of(slots, slot.key);
        assert(holds(slots, j, slot.key));
        assert(longer[j].occupied && longer[last].occupied);
    }
    assert forall|k: Seq<char>| has_key(slots, k) implies has_key(longer, k) && contents(longer)[k]
        == contents(slots)[k] by {
        let j = slot_of(slots, k);
        assert(holds(slots, j, k));
        assert(holds(longer, j, k));
        lemma_contents_at(longer, j, k);
    }
    assert forall|k: Seq<char>| has_key(longer, k) implies has_key(slots, k) || (slot.occupied && k
        == slot.key) by {
        let j = slot_of(longer, k);
        assert(holds(longer, j, k));
        if j < last {
            assert(holds(slots, j, k));
        }
    }
    if slot.occupied {
        assert(holds(longer, last, slot.key));
        lemma_contents_at(longer, last, slot.key);
        assert(contents(longer) =~= contents(slots).insert(slot.key, slot.count));
    } else {
        assert(contents(longer) =~= contents(slots));
    }
}

/// The entries of a table without a key in two slots: as many as there are
/// occupied slots, no key twice, and with the counts that the table holds.
pub proof fn lemma_occupied_entries(slots: Seq<Slot>)
    requires
        keys_distinct(slots),
    ensures
        occupied_entries(slots).len() == occupied_count(slots),
        keys_unique(occupied_entries(slots)),
        lookup(occupied_entries(slots)) == contents(slots),
    decreases slots.len(),
{
    if slots.len() == 0 {
        assert(lookup(occupied_entries(slots)) =~= contents(slots));
    } else {
        let front = slots.drop_last();
        let last = slots.last();
        assert(slots =~= front.push(last));
        lemma_contents_push(front, last);
        lemma_occupied_entries(front);
        if last.occupied {
            let entry = Entry { key: last.key, count: last.count };
            assert(listed(occupied_entries(front), last.key) == lookup(
                occupied_entries(front),
            ).contains_key(last.key));
            assert(has_key(front, last.key) == contents(front).contains_key(last.key));
            lemma_lookup_push(occupied_entries(front), entry);
        }
    }
}

/// A table without a key in two slots holds as many keys as it has occupied
/// slots.
pub proof fn lemma_contents_len(slots: Seq<Slot>)
    requires
        keys_distinct(slots),
    ensures
        contents(slots).dom().finite(),
        contents(slots).len() == occupied_count(slots),
{
    lemma_occupied_entries(slots);
    lemma_lookup_len(occupied_entries(slots));
}

} // verus!
