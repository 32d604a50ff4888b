//! The open-addressing hash table: linear probing, growth by doubling.

use vstd::prelude::*;

use crate::entries::{views, Entry, FreqKV};
use crate::hasher::Hashable;
use crate::growth::{grown, inserted, lemma_grown, lemma_rehashed, rehashed};
use crate::probing::{
    lemma_probe_finds, lemma_probe_unique, lemma_stored, passes, placed, probe, probe_ends_after,
    probe_steps, stored,
};
use crate::slots::{
    contents, empty_slot, gap, has_key, holds, home, lemma_contents_at, lemma_contents_len,
    lemma_contents_push, lemma_home_in_range, lemma_occupied_count_bounds, lemma_vacant,
    occupied_count, occupied_entries, path_occupied, table_inv, vacant, wrap, Slot,
};
use crate::tally::bump;

verus! {

/// The number of slots of a new table.
pub const INIT_CAP: usize = 10;

/// One cell of the table as it is stored.
struct HashCell {
    key: String,
    value: usize,
    taken: bool,
}

impl HashCell {
    /// The slot that this cell stands for.
    spec fn slot(&self) -> Slot {
        Slot { key: self.key@, count: self.value as nat, occupied: self.taken }
    }

    /// A cell that holds nothing.
    fn empty() -> (cell: HashCell)
        ensures
            cell.slot() == empty_slot(),
    {
        HashCell { key: String::new(), value: 0, taken: false }
    }
}

/// The slots that a vector of cells stands for.
spec fn slots_of(cells: Seq<HashCell>) -> Seq<Slot> {
    Seq::new(cells.len(), |i: int| cells[i].slot())
}

/// One step forward on the probe path, in machine arithmetic.
proof fn lemma_step(index: usize, capacity: usize)
    requires
        index < capacity,
    ensures
        (index + 1) % (capacity as int) == wrap(index as int, 1, capacity as nat),
{
    if index + 1 == capacity {
        vstd::arithmetic::div_mod::lemma_mod_self_0(capacity as int);
    } else {
        vstd::arithmetic::div_mod::lemma_small_mod((index + 1) as nat, capacity as nat);
    }
}

/// A probe path that is occupied for as many steps as the table has slots
/// leaves no slot empty.
proof fn lemma_full_path(slots: Seq<Slot>, start: int)
    requires
        0 <= start < slots.len(),
        path_occupied(slots, start, slots.len() as int),
    ensures
        occupied_count(slots) == slots.len(),
{
    assert forall|i: int| 0 <= i < slots.len() implies #[trigger] slots[i].occupied by {
        assert(wrap(start, gap(start, i, slots.len()), slots.len()) == i);
    }
    lemma_occupied_count_bounds(slots);
}

/// A probe that has passed every slot so far has not yet been through the
/// whole table, as long as the table has an empty slot.
proof fn lemma_probe_goes_on(slots: Seq<Slot>, key: Seq<char>, steps: int)
    requires
        occupied_count(slots) < slots.len(),
        0 <= steps < slots.len(),
        forall|d: int|
            0 <= d <= steps ==> passes(
                slots[#[trigger] wrap(home(key, slots.len()), d, slots.len())],
                key,
            ),
    ensures
        steps + 1 < slots.len(),
{
    let start = home(key, slots.len());
    lemma_home_in_range(key, slots.len());
    if steps + 1 == slots.len() {
        assert forall|d: int| 0 <= d < slots.len() implies slots[#[trigger] wrap(
            start,
            d,
            slots.len(),
        )].occupied by {
            assert(passes(slots[wrap(start, d, slots.len())], key));
        }
        lemma_full_path(slots, start);
    }
}

/// A vector of `capacity` cells that hold nothing.
fn vacant_cells(capacity: usize) -> (cells: Vec<HashCell>)
    ensures
        cells@.len() == capacity,
        slots_of(cells@) == vacant(capacity as nat),
{
    let mut cells: Vec<HashCell> = Vec::new();
    let mut n: usize = 0;
    while n < capacity
        invariant
            n <= capacity,
            cells@.len() == n,
            slots_of(cells@) == vacant(n as nat),
        decreases capacity - n,
    {
        let ghost before = cells@;
        cells.push(HashCell::empty());
        n += 1;
        assert forall|j: int| 0 <= j < n implies slots_of(cells@)[j] == empty_slot() by {
            if j < n - 1 {
                assert(slots_of(before)[j] == vacant((n - 1) as nat)[j]);
            }
        }
        assert(slots_of(cells@) =~= vacant(n as nat));
    }
    cells
}

/// Finds the slot at which the probe for `key` ends: the first on its path
/// that is empty or holds `key`.
fn locate(cells: &Vec<HashCell>, key: &String) -> (index: usize)
    requires
        occupied_count(slots_of(cells@)) < cells@.len(),
    ensures
        index < cells@.len(),
        index == probe(slots_of(cells@), key@),
        probe_ends_after(slots_of(cells@), key@, probe_steps(slots_of(cells@), key@)),
{
    let capacity = cells.len();
    let ghost slots = slots_of(cells@);
    let ghost start = home(key@, capacity as nat);
    proof {
        lemma_home_in_range(key@, capacity as nat);
    }
    let mut index = key.hash() % capacity;
    let ghost mut steps: int = 0;
    while cells[index].taken && !(cells[index].key == *key)
        invariant
            capacity == cells@.len(),
            slots == slots_of(cells@),
            occupied_count(slots) < capacity,
            start == home(key@, capacity as nat),
            0 <= start < capacity,
            0 <= steps < capacity,
            index == wrap(start, steps, capacity as nat),
            forall|d: int|
                0 <= d < steps ==> passes(slots[#[trigger] wrap(start, d, capacity as nat)], key@),
        decreases capacity - steps,
    {
        proof {
            lemma_step(index, capacity);
            assert(passes(slots[wrap(start, steps, capacity as nat)], key@));
            lemma_probe_goes_on(slots, key@, steps);
            steps = steps + 1;
        }
        index = (index + 1) % capacity;
    }
    proof {
        assert(probe_ends_after(slots, key@, steps));
        lemma_probe_unique(slots, key@, steps);
    }
    index
}

/// Finds the first empty slot on the probe path of a key that the table
/// does not hold.
fn locate_vacant(cells: &Vec<HashCell>, key: &String) -> (index: usize)
    requires
        occupied_count(slots_of(cells@)) < cells@.len(),
        !has_key(slots_of(cells@), key@),
    ensures
        index < cells@.len(),
        index == probe(slots_of(cells@), key@),
        !cells@[index as int].taken,
{
    let capacity = cells.len();
    let ghost slots = slots_of(cells@);
    let ghost start = home(key@, capacity as nat);
    proof {
        lemma_home_in_range(key@, capacity as nat);
    }
    let mut index = key.hash() % capacity;
    let ghost mut steps: int = 0;
    while cells[index].taken
        invariant
            capacity == cells@.len(),
            slots == slots_of(cells@),
            occupied_count(slots) < capacity,
            !has_key(slots, key@),
            start == home(key@, capacity as nat),
            0 <= start < capacity,
            0 <= steps < capacity,
            index == wrap(start, steps, capacity as nat),
            forall|d: int|
                0 <= d < steps ==> passes(slots[#[trigger] wrap(start, d, capacity as nat)], key@),
        decreases capacity - steps,
    {
        proof {
            lemma_step(index, capacity);
            assert(!holds(slots, index as int, key@));
            assert(passes(slots[wrap(start, steps, capacity as nat)], key@));
            lemma_probe_goes_on(slots, key@, steps);
            steps = steps + 1;
        }
        index = (index + 1) % capacity;
    }
    proof {
        assert(probe_ends_after(slots, key@, steps));
        lemma_probe_unique(slots, key@, steps);
    }
    index
}

/// What one step of growth finds: the table built so far has an empty slot
/// and does not hold the key of the slot that comes next.
proof fn lemma_rehash_step(old: Seq<Slot>, taken: nat, i: nat, capacity: nat)
    requires
        table_inv(old, taken),
        i < old.len() < capacity,
    ensures
        rehashed(old, i, capacity).len() == capacity,
        occupied_count(rehashed(old, i, capacity)) == occupied_count(old.take(i as int)),
        occupied_count(old.take(i as int)) < capacity,
        old[i as int].occupied ==> !has_key(rehashed(old, i, capacity), old[i as int].key),
        occupied_count(old.take(i as int + 1)) == occupied_count(old.take(i as int)) + if old[i as int]
            .occupied {
            1nat
        } else {
            0nat
        },
{
    let before = rehashed(old, i, capacity);
    let front = old.take(i as int);
    let part = old.take(i as int + 1);
    let slot = old[i as int];
    lemma_rehashed(old, taken, i, capacity);
    lemma_occupied_count_bounds(front);
    assert(part =~= front.push(slot));
    assert(part.drop_last() =~= front);
    assert forall|a: int, b: int|
        0 <= a < part.len() && 0 <= b < part.len() && a != b && #[trigger] part[a].occupied
            && #[trigger] part[b].occupied implies part[a].key != part[b].key by {
        assert(old[a].occupied && old[b].occupied);
    }
    lemma_contents_push(front, slot);
    if slot.occupied {
        assert(has_key(before, slot.key) == contents(before).contains_key(slot.key));
        assert(has_key(front, slot.key) == contents(front).contains_key(slot.key));
    }
}

/// A hash table from words to counts, with open addressing and linear
/// probing. It grows to twice its capacity when an insert finds every slot
/// occupied.
pub struct HashTable {
    cells: Vec<HashCell>,
    taken_count: usize,
}

impl View for HashTable {
    type V = Map<Seq<char>, nat>;

    /// Each word in the table with its count.
    open spec fn view(&self) -> Map<Seq<char>, nat> {
        contents(self.slots())
    }
}

impl HashTable {
    /// The slots of the table, in order.
    pub closed spec fn slots(&self) -> Seq<Slot> {
        slots_of(self.cells@)
    }

    /// The number of occupied slots that the table has recorded.
    pub closed spec fn taken_count(&self) -> nat {
        self.taken_count as nat
    }

    /// The table is well-formed.
    pub open spec fn wf(&self) -> bool {
        table_inv(self.slots(), self.taken_count())
    }

    /// A table of `INIT_CAP` slots, all of them empty.
    pub fn new() -> (table: Self)
        ensures
            table.wf(),
            table.slots() == vacant(INIT_CAP as nat),
            table.taken_count() == 0,
            table@ == Map::<Seq<char>, nat>::empty(),
    {
        let cells = vacant_cells(INIT_CAP);
        proof {
            lemma_vacant(INIT_CAP as nat);
        }
        HashTable { cells, taken_count: 0 }
    }

    /// Grows the table to twice its capacity and places every entry again,
    /// in slot order, each at the end of the probe for its key. No count and
    /// no key changes.
    ///
    /// Twice the capacity has to be a number that the machine can hold.
    pub fn extend(&mut self)
        requires
            old(self).wf(),
            2 * old(self).slots().len() <= usize::MAX,
        ensures
            final(self).wf(),
            final(self).slots() == grown(old(self).slots()),
            final(self).slots().len() == 2 * old(self).slots().len(),
            final(self).taken_count() == old(self).taken_count(),
            final(self)@ == old(self)@,
    {
        let capacity = self.cells.len();
        let wider = capacity * 2;
        let ghost old_slots = self.slots();
        let ghost taken = self.taken_count();
        let mut cells = vacant_cells(wider);
        let mut taken_count: usize = 0;
        let mut i: usize = 0;
        proof {
            assert(old_slots.take(0) =~= Seq::<Slot>::empty());
        }
        while i < capacity
            invariant
                i <= capacity,
                capacity == self.cells@.len(),
                wider == 2 * capacity,
                old_slots == slots_of(self.cells@),
                table_inv(old_slots, taken),
                cells@.len() == wider,
                slots_of(cells@) == rehashed(old_slots, i as nat, wider as nat),
                taken_count == occupied_count(old_slots.take(i as int)),
            decreases capacity - i,
        {
            proof {
                lemma_rehash_step(old_slots, taken, i as nat, wider as nat);
            }
            let cell = &self.cells[i];
            if cell.taken {
                let ghost before = slots_of(cells@);
                let index = locate_vacant(&cells, &cell.key);
                cells[index] = HashCell { key: cell.key.clone(), value: cell.value, taken: true };
                taken_count += 1;
                assert(slots_of(cells@) =~= placed(before, old_slots[i as int]));
            }
            i += 1;
        }
        proof {
            lemma_grown(old_slots, taken);
            assert(old_slots.take(capacity as int) =~= old_slots);
        }
        self.cells = cells;
        self.taken_count = taken_count;
    }

    /// Counts one more occurrence of `key`. Where every slot is occupied the
    /// table grows first. The probe then ends at the slot that holds `key`,
    /// whose count goes up by one, or at an empty slot, which takes `key`
    /// with a count of one.
    ///
    /// Where the table has to grow, twice its capacity has to be a number
    /// that the machine can hold, and so has the new count of `key`.
    pub fn insert(&mut self, key: &String)
        requires
            old(self).wf(),
            old(self).taken_count() >= old(self).slots().len() ==> 2 * old(self).slots().len()
                <= usize::MAX,
            old(self)@.contains_key(key@) ==> old(self)@[key@] < usize::MAX,
        ensures
            final(self).wf(),
            final(self).slots() == inserted(old(self).slots(), key@),
            final(self)@ == bump(old(self)@, key@),
            final(self).slots().len() == if old(self).taken_count() >= old(self).slots().len() {
                2 * old(self).slots().len()
            } else {
                old(self).slots().len()
            },
            final(self).taken_count() == if old(self)@.contains_key(key@) {
                old(self).taken_count()
            } else {
                old(self).taken_count() + 1
            },
            final(self).taken_count() <= final(self).slots().len(),
    {
        if self.taken_count >= self.cells.len() {
            self.extend();
        }
        let ghost before = self.slots();
        let ghost taken = self.taken_count();
        let index = locate(&self.cells, key);
        proof {
            lemma_stored(before, taken, key@);
            lemma_probe_finds(before, taken, key@);
        }
        if self.cells[index].taken {
            proof {
                lemma_contents_at(before, index as int, key@);
            }
            self.cells[index].value += 1;
        } else {
            self.cells[index] = HashCell { key: key.clone(), value: 1, taken: true };
            self.taken_count += 1;
        }
        assert(self.slots() =~= stored(before, key@));
    }

    /// The entries of the occupied slots, in slot order.
    pub fn entries(&self) -> (items: Vec<FreqKV>)
        ensures
            views(items@) == occupied_entries(self.slots()),
    {
        let ghost slots = self.slots();
        let mut items: Vec<FreqKV> = Vec::new();
        let mut i: usize = 0;
        proof {
            assert(slots.take(0) =~= Seq::<Slot>::empty());
            assert(views(items@) =~= occupied_entries(slots.take(0)));
        }
        while i < self.cells.len()
            invariant
                i <= self.cells@.len(),
                slots == slots_of(self.cells@),
                views(items@) == occupied_entries(slots.take(i as int)),
            decreases self.cells@.len() - i,
        {
            let ghost before = views(items@);
            let cell = &self.cells[i];
            if cell.taken {
                items.push(FreqKV { key: cell.key.clone(), value: cell.value });
            }
            proof {
                assert(slots.take(i + 1).drop_last() =~= slots.take(i as int));
                assert(slots.take(i + 1).last() == slots[i as int]);
                if cell.taken {
                    assert(views(items@) =~= before.push(
                        Entry { key: slots[i as int].key, count: slots[i as int].count },
                    ));
                }
            }
            i += 1;
        }
        proof {
            assert(slots.take(i as int) =~= slots);
        }
        items
    }

    /// The number of slots.
    pub fn capacity(&self) -> (n: usize)
        ensures
            n == self.slots().len(),
    {
        self.cells.len()
    }

    /// The number of words in the table.
    pub fn len(&self) -> (n: usize)
        ensures
            n == self.taken_count(),
            self.wf() ==> n == self@.len(),
    {
        proof {
            if self.wf() {
                lemma_contents_len(self.slots());
            }
        }
        self.taken_count
    }
}

} // verus!
