//! Linear probing: where the probe for a key ends, and what storing a key
//! there does to the table.

use vstd::prelude::*;

use crate::slots::{
    chain_unbroken, contents, gap, has_key, holds, home, lemma_contents_at, lemma_home_in_range,
    lemma_occupied_count_bounds, lemma_occupied_count_update, occupied_count, slot_of, table_inv,
    wrap, Slot,
};
use crate::tally::bump;

verus! {

/// The probe for `key` goes past `slot`: it is occupied by another key.
pub open spec fn passes(slot: Slot, key: Seq<char>) -> bool {
    slot.occupied && slot.key != key
}

/// The probe for `key` ends after exactly `steps` steps: it passes the
/// slots before, and the slot it has then reached is empty or holds `key`.
pub open spec fn probe_ends_after(slots: Seq<Slot>, key: Seq<char>, steps: int) -> bool {
    let start = home(key, slots.len());
    &&& 0 <= steps < slots.len()
    &&& !passes(slots[wrap(start, steps, slots.len())], key)
    &&& forall|d: int|
        0 <= d < steps ==> passes(slots[#[trigger] wrap(start, d, slots.len())], key)
}

/// The number of steps after which the probe for `key` ends.
pub open spec fn probe_steps(slots: Seq<Slot>, key: Seq<char>) -> int {
    choose|steps: int| probe_ends_after(slots, key, steps)
}

/// The slot at which the probe for `key` ends: the first one on the path from
/// `home` that is empty or holds `key`.
pub open spec fn probe(slots: Seq<Slot>, key: Seq<char>) -> int {
    wrap(home(key, slots.len()), probe_steps(slots, key), slots.len())
}

/// The table after `slot` was written where the probe for its key ends.
pub open spec fn placed(slots: Seq<Slot>, slot: Slot) -> Seq<Slot> {
    slots.update(probe(slots, slot.key), slot)
}

/// The table after `key` was inserted without growth: the slot at which the
/// probe ends holds `key`, with a count of one if it was empty and one more
/// than before if it held `key` already.
pub open spec fn stored(slots: Seq<Slot>, key: Seq<char>) -> Seq<Slot> {
    let end = slots[probe(slots, key)];
    placed(
        slots,
        Slot {
            key,
            count: if end.occupied {
                end.count + 1
            } else {
                1
            },
            occupied: true,
        },
    )
}

/// The probe ends after one number of steps only.
pub proof fn lemma_probe_unique(slots: Seq<Slot>, key: Seq<char>, steps: int)
    requires
        probe_ends_after(slots, key, steps),
    ensures
        probe_steps(slots, key) == steps,
        probe(slots, key) == wrap(home(key, slots.len()), steps, slots.len()),
{
    let chosen = probe_steps(slots, key);
    let start = home(key, slots.len());
    assert(probe_ends_after(slots, key, chosen));
    if chosen < steps {
        assert(passes(slots[wrap(start, chosen, slots.len())], key));
    } else if steps < chosen {
        assert(passes(slots[wrap(start, steps, slots.len())], key));
    }
}

/// Where the probe does not pass the slot reached after `bound` steps, it
/// ends there or before.
proof fn lemma_probe_ends_within(slots: Seq<Slot>, key: Seq<char>, bound: int)
    requires
        0 <= bound < slots.len(),
        !passes(slots[wrap(home(key, slots.len()), bound, slots.len())], key),
    ensures
        exists|steps: int| 0 <= steps <= bound && probe_ends_after(slots, key, steps),
    decreases bound,
{
    let start = home(key, slots.len());
    if forall|d: int|
        0 <= d < bound ==> passes(slots[#[trigger] wrap(start, d, slots.len())], key) {
        assert(probe_ends_after(slots, key, bound));
    } else {
        let d = choose|d: int|
            0 <= d < bound && !passes(slots[#[trigger] wrap(start, d, slots.len())], key);
        lemma_probe_ends_within(slots, key, d);
    }
}

/// In a table with an empty slot every probe ends, at a slot of the table.
pub proof fn lemma_probe_ends(slots: Seq<Slot>, key: Seq<char>)
    requires
        occupied_count(slots) < slots.len(),
    ensures
        probe_ends_after(slots, key, probe_steps(slots, key)),
        0 <= probe(slots, key) < slots.len(),
        !passes(slots[probe(slots, key)], key),
{
    let n = slots.len();
    let start = home(key, n);
    lemma_home_in_range(key, n);
    lemma_occupied_count_bounds(slots);
    let free = choose|i: int| 0 <= i < n && !(#[trigger] slots[i]).occupied;
    let bound = gap(start, free, n);
    assert(wrap(start, bound, n) == free);
    lemma_probe_ends_within(slots, key, bound);
}

/// In a well-formed table the probe for a key ends at the slot that holds
/// it, and at an empty slot only where no slot holds it.
pub proof fn lemma_probe_finds(slots: Seq<Slot>, taken: nat, key: Seq<char>)
    requires
        table_inv(slots, taken),
        probe_ends_after(slots, key, probe_steps(slots, key)),
    ensures
        has_key(slots, key) <==> slots[probe(slots, key)].occupied,
        has_key(slots, key) ==> holds(slots, probe(slots, key), key),
{
    let n = slots.len();
    let start = home(key, n);
    let steps = probe_steps(slots, key);
    let end = probe(slots, key);
    lemma_home_in_range(key, n);
    if slots[end].occupied {
        assert(holds(slots, end, key));
    }
    if has_key(slots, key) {
        let j = slot_of(slots, key);
        assert(holds(slots, j, key));
        let reach = gap(start, j, n);
        assert(wrap(start, reach, n) == j);
        assert(chain_unbroken(slots, j));
        if reach < steps {
            assert(passes(slots[wrap(start, reach, n)], key));
        } else if steps < reach {
            assert(slots[wrap(start, steps, n)].occupied);
        }
    }
}

/// Placing an occupied slot keeps the table well-formed and sets the count
/// of its key.
pub proof fn lemma_placed(slots: Seq<Slot>, taken: nat, slot: Slot)
    requires
        table_inv(slots, taken),
        taken < slots.len(),
        slot.occupied,
        slot.count >= 1,
    ensures
        placed(slots, slot).len() == slots.len(),
        table_inv(
            placed(slots, slot),
            if has_key(slots, slot.key) {
                taken
            } else {
                taken + 1
            },
        ),
        contents(placed(slots, slot)) == contents(slots).insert(slot.key, slot.count),
        forall|i: int|
            0 <= i < slots.len() && i != probe(slots, slot.key) ==> placed(slots, slot)[i]
                == slots[i],
{
    let key = slot.key;
    let n = slots.len();
    let start = home(key, n);
    let end = probe(slots, key);
    let after = placed(slots, slot);
    lemma_home_in_range(key, n);
    lemma_probe_ends(slots, key);
    lemma_probe_finds(slots, taken, key);
    lemma_occupied_count_update(slots, end, slot);

    assert forall|i: int, j: int|
        0 <= i < n && 0 <= j < n && i != j && #[trigger] after[i].occupied
            && #[trigger] after[j].occupied implies after[i].key != after[j].key by {
        if i == end {
            if slots[end].occupied {
                assert(slots[i].occupied && slots[j].occupied);
            } else {
                assert(!holds(slots, j, key));
            }
        } else if j == end {
            if slots[end].occupied {
                assert(slots[i].occupied && slots[j].occupied);
            } else {
                assert(!holds(slots, i, key));
            }
        } else {
            assert(slots[i].occupied && slots[j].occupied);
        }
    }
    assert forall|i: int| 0 <= i < n && #[trigger] after[i].occupied implies after[i].count >= 1
        && chain_unbroken(after, i) by {
        let from = home(after[i].key, n);
        let reach = gap(from, i, n);
        assert forall|d: int| 0 <= d < reach implies after[#[trigger] wrap(
            from,
            d,
            n,
        )].occupied by {
            lemma_home_in_range(after[i].key, n);
            if i == end && !slots[end].occupied {
                assert(passes(slots[wrap(start, d, n)], key));
            } else {
                assert(slots[i].occupied);
                assert(chain_unbroken(slots, i));
                assert(slots[wrap(from, d, n)].occupied);
            }
        }
    }
    assert(contents(after) =~= contents(slots).insert(key, slot.count)) by {
        assert(holds(after, end, key));
        lemma_contents_at(after, end, key);
        assert forall|k: Seq<char>| k != key implies (has_key(after, k) <==> has_key(slots, k))
            && (has_key(slots, k) ==> contents(after)[k] == contents(slots)[k]) by {
            if has_key(slots, k) {
                let j = slot_of(slots, k);
                assert(holds(slots, j, k));
                assert(holds(after, j, k));
                lemma_contents_at(after, j, k);
            }
            if has_key(after, k) {
                let j = slot_of(after, k);
                assert(holds(after, j, k));
                assert(holds(slots, j, k));
            }
        }
    }
}

/// Storing a key keeps the table well-formed and counts the key once more;
/// no slot changes but the one at which the probe ends.
pub proof fn lemma_stored(slots: Seq<Slot>, taken: nat, key: Seq<char>)
    requires
        table_inv(slots, taken),
        taken < slots.len(),
    ensures
        stored(slots, key).len() == slots.len(),
        table_inv(
            stored(slots, key),
            if has_key(slots, key) {
                taken
            } else {
                taken + 1
            },
        ),
        contents(stored(slots, key)) == bump(contents(slots), key),
        forall|i: int|
            0 <= i < slots.len() && i != probe(slots, key) ==> stored(slots, key)[i] == slots[i],
{
    let end = probe(slots, key);
    let count: nat = if slots[end].occupied {
        slots[end].count + 1
    } else {
        1
    };
    lemma_probe_ends(slots, key);
    lemma_probe_finds(slots, taken, key);
    lemma_placed(slots, taken, Slot { key, count, occupied: true });
    if slots[end].occupied {
        lemma_contents_at(slots, end, key);
    }
}

} // verus!
