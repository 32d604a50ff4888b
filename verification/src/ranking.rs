//! Reports: the entries in descending order of count, and the first few of
//! them.

use vstd::multiset::Multiset;
use vstd::prelude::*;

use crate::entries::{views, Entry, FreqKV};

verus! {

/// The number of entries that a report shows at most.
pub const TOP_COUNT: usize = 10;

/// No entry has a higher count than one before it.
pub open spec fn descending(entries: Seq<Entry>) -> bool {
    forall|i: int, j: int|
        0 <= i < j < entries.len() ==> (#[trigger] entries[i]).count >= (
        #[trigger] entries[j]).count
}

/// The entries with the given count, in the order in which they stand.
pub open spec fn with_count(entries: Seq<Entry>, count: nat) -> Seq<Entry>
    decreases entries.len(),
{
    if entries.len() == 0 {
        Seq::empty()
    } else {
        let front = with_count(entries.drop_last(), count);
        if entries.last().count == count {
            front.push(entries.last())
        } else {
            front
        }
    }
}

/// `ranked` holds the entries of `entries`, each as often as it occurs
/// there, in descending order of count, and those of equal count in the
/// order in which they stand in `entries`.
pub open spec fn is_ranking(ranked: Seq<Entry>, entries: Seq<Entry>) -> bool {
    &&& ranked.to_multiset() == entries.to_multiset()
    &&& descending(ranked)
    &&& forall|count: nat| #[trigger] with_count(ranked, count) == with_count(entries, count)
}

/// A list in descending order with `entry` put in, behind every entry that
/// has at least its count.
pub open spec fn placed_by_count(ranked: Seq<Entry>, entry: Entry) -> Seq<Entry>
    decreases ranked.len(),
{
    if ranked.len() == 0 || ranked.last().count >= entry.count {
        ranked.push(entry)
    } else {
        placed_by_count(ranked.drop_last(), entry).push(ranked.last())
    }
}

/// The ranking of `entries`: each entry in turn is put behind those that
/// have at least its count.
pub open spec fn ranked(entries: Seq<Entry>) -> Seq<Entry>
    decreases entries.len(),
{
    if entries.len() == 0 {
        Seq::empty()
    } else {
        placed_by_count(ranked(entries.drop_last()), entries.last())
    }
}

/// The entries of a given count in two lists, one after the other.
pub proof fn lemma_with_count_concat(a: Seq<Entry>, b: Seq<Entry>, count: nat)
    ensures
        with_count(a + b, count) == with_count(a, count) + with_count(b, count),
    decreases b.len(),
{
    if b.len() == 0 {
        assert(a + b =~= a);
        assert(with_count(a, count) + with_count(b, count) =~= with_count(a, count));
    } else {
        assert((a + b).drop_last() =~= a + b.drop_last());
        lemma_with_count_concat(a, b.drop_last(), count);
        assert(with_count(a + b, count) =~= with_count(a, count) + with_count(b, count));
    }
}

/// A list without an entry of a given count.
pub proof fn lemma_with_count_absent(entries: Seq<Entry>, count: nat)
    requires
        forall|i: int| 0 <= i < entries.len() ==> (#[trigger] entries[i]).count != count,
    ensures
        with_count(entries, count) == Seq::<Entry>::empty(),
    decreases entries.len(),
{
    if entries.len() > 0 {
        let front = entries.drop_last();
        assert forall|i: int| 0 <= i < front.len() implies (#[trigger] front[i]).count != count by {
            assert(entries[i].count != count);
        }
        lemma_with_count_absent(front, count);
        assert(entries[entries.len() - 1].count != count);
    }
}

/// The entries of a given count in a list that grew by one entry.
proof fn lemma_with_count_push(entries: Seq<Entry>, entry: Entry, count: nat)
    ensures
        with_count(entries.push(entry), count) == if entry.count == count {
            with_count(entries, count).push(entry)
        } else {
            with_count(entries, count)
        },
{
    assert(entries.push(entry).drop_last() =~= entries);
}

/// One more entry of a list taken.
proof fn lemma_take_next(entries: Seq<Entry>, i: int)
    requires
        0 <= i < entries.len(),
    ensures
        entries.take(i + 1) == entries.take(i).push(entries[i]),
        entries.take(i + 1).to_multiset() == entries.take(i).to_multiset().insert(entries[i]),
{
    assert(entries.take(i + 1) =~= entries.take(i).push(entries[i]));
    vstd::seq_lib::to_multiset_build(entries.take(i), entries[i]);
}

/// A ranking of two rankings put one after the other ranks what they rank.
proof fn lemma_ranking_of_parts(
    ranked: Seq<Entry>,
    left: Seq<Entry>,
    right: Seq<Entry>,
    a: Seq<Entry>,
    b: Seq<Entry>,
)
    requires
        is_ranking(left, a),
        is_ranking(right, b),
        is_ranking(ranked, left + right),
    ensures
        is_ranking(ranked, a + b),
{
    vstd::seq_lib::lemma_multiset_commutative(left, right);
    vstd::seq_lib::lemma_multiset_commutative(a, b);
    assert forall|count: nat| #[trigger] with_count(ranked, count) == with_count(a + b, count) by {
        lemma_with_count_concat(left, right, count);
        lemma_with_count_concat(a, b, count);
        assert(with_count(left, count) == with_count(a, count));
        assert(with_count(right, count) == with_count(b, count));
    }
}

/// What putting an entry into a list in descending order does.
proof fn lemma_placed_by_count(ranked: Seq<Entry>, entry: Entry)
    requires
        descending(ranked),
    ensures
        placed_by_count(ranked, entry).len() == ranked.len() + 1,
        placed_by_count(ranked, entry).to_multiset() == ranked.to_multiset().insert(entry),
        descending(placed_by_count(ranked, entry)),
        forall|count: nat| #[trigger]
            with_count(placed_by_count(ranked, entry), count) == if entry.count == count {
                with_count(ranked, count).push(entry)
            } else {
                with_count(ranked, count)
            },
    decreases ranked.len(),
{
    let placed = placed_by_count(ranked, entry);
    if ranked.len() == 0 || ranked.last().count >= entry.count {
        vstd::seq_lib::to_multiset_build(ranked, entry);
        assert forall|count: nat| #[trigger]
            with_count(placed, count) == if entry.count == count {
                with_count(ranked, count).push(entry)
            } else {
                with_count(ranked, count)
            } by {
            lemma_with_count_push(ranked, entry, count);
        }
        assert forall|i: int, j: int| 0 <= i < j < placed.len() implies (#[trigger] placed[i]).count
            >= (#[trigger] placed[j]).count by {
            if j == ranked.len() {
                assert(ranked[i].count >= ranked[ranked.len() - 1].count);
            } else {
                assert(ranked[i].count >= ranked[j].count);
            }
        }
    } else {
        let front = ranked.drop_last();
        let last = ranked.last();
        let inner = placed_by_count(front, entry);
        assert forall|i: int, j: int| 0 <= i < j < front.len() implies (#[trigger] front[i]).count
            >= (#[trigger] front[j]).count by {
            assert(ranked[i].count >= ranked[j].count);
        }
        lemma_placed_by_count(front, entry);
        assert(ranked =~= front.push(last));
        vstd::seq_lib::to_multiset_build(front, last);
        vstd::seq_lib::to_multiset_build(inner, last);
        assert(placed.to_multiset() =~= ranked.to_multiset().insert(entry));
        assert forall|count: nat| #[trigger]
            with_count(placed, count) == if entry.count == count {
                with_count(ranked, count).push(entry)
            } else {
                with_count(ranked, count)
            } by {
            lemma_with_count_push(inner, last, count);
            lemma_with_count_push(front, last, count);
            assert(with_count(inner, count) == if entry.count == count {
                with_count(front, count).push(entry)
            } else {
                with_count(front, count)
            });
        }
        assert forall|i: int, j: int| 0 <= i < j < placed.len() implies (#[trigger] placed[i]).count
            >= (#[trigger] placed[j]).count by {
            if j == inner.len() {
                vstd::seq_lib::to_multiset_contains(inner, inner[i]);
                vstd::seq_lib::to_multiset_contains(front, inner[i]);
                assert(inner.contains(inner[i]));
                if inner[i] != entry {
                    let k = choose|k: int| 0 <= k < front.len() && front[k] == inner[i];
                    assert(ranked[k].count >= ranked[ranked.len() - 1].count);
                }
            } else {
                assert(inner[i].count >= inner[j].count);
            }
        }
    }
}

/// The ranking of a list is a ranking of it.
pub proof fn lemma_ranked_is_ranking(entries: Seq<Entry>)
    ensures
        is_ranking(ranked(entries), entries),
    decreases entries.len(),
{
    if entries.len() == 0 {
        assert(ranked(entries) =~= entries);
    } else {
        let front = entries.drop_last();
        let last = entries.last();
        lemma_ranked_is_ranking(front);
        lemma_placed_by_count(ranked(front), last);
        assert(entries =~= front.push(last));
        vstd::seq_lib::to_multiset_build(front, last);
        assert forall|count: nat| #[trigger]
            with_count(ranked(entries), count) == with_count(entries, count) by {
            assert(with_count(ranked(front), count) == with_count(front, count));
        }
    }
}

/// In a list that holds entries of a given count, one of its entries has
/// that count.
proof fn lemma_with_count_witness(entries: Seq<Entry>, count: nat)
    requires
        with_count(entries, count).len() > 0,
    ensures
        exists|i: int| 0 <= i < entries.len() && (#[trigger] entries[i]).count == count,
{
    if forall|i: int| 0 <= i < entries.len() ==> (#[trigger] entries[i]).count != count {
        lemma_with_count_absent(entries, count);
    }
}

/// Two lists in descending order that hold the same entries of every count,
/// in the same order, are the same list.
proof fn lemma_descending_unique(a: Seq<Entry>, b: Seq<Entry>)
    requires
        a.len() == b.len(),
        descending(a),
        descending(b),
        forall|count: nat| #[trigger] with_count(a, count) == with_count(b, count),
    ensures
        a == b,
    decreases a.len(),
{
    if a.len() == 0 {
        assert(a =~= b);
    } else {
        let x = a.last();
        let y = b.last();
        let n = a.len() - 1;
        assert(with_count(a, x.count) == with_count(b, x.count));
        assert(with_count(a, y.count) == with_count(b, y.count));
        lemma_with_count_witness(b, x.count);
        lemma_with_count_witness(a, y.count);
        let i = choose|i: int| 0 <= i < b.len() && (#[trigger] b[i]).count == x.count;
        let j = choose|j: int| 0 <= j < a.len() && (#[trigger] a[j]).count == y.count;
        assert(b[i].count >= b[n].count || i == n);
        assert(a[j].count >= a[n].count || j == n);
        assert(x.count == y.count);
        assert(with_count(a, x.count).last() == x);
        assert(with_count(b, x.count).last() == y);
        let front_a = a.drop_last();
        let front_b = b.drop_last();
        assert forall|p: int, q: int| 0 <= p < q < front_a.len() implies (
        #[trigger] front_a[p]).count >= (#[trigger] front_a[q]).count by {
            assert(a[p].count >= a[q].count);
        }
        assert forall|p: int, q: int| 0 <= p < q < front_b.len() implies (
        #[trigger] front_b[p]).count >= (#[trigger] front_b[q]).count by {
            assert(b[p].count >= b[q].count);
        }
        assert forall|count: nat| #[trigger]
            with_count(front_a, count) == with_count(front_b, count) by {
            assert(with_count(a, count) == with_count(b, count));
            if count == x.count {
                assert(with_count(front_a, count) =~= with_count(a, count).drop_last());
                assert(with_count(front_b, count) =~= with_count(b, count).drop_last());
            }
        }
        lemma_descending_unique(front_a, front_b);
        assert(a =~= front_a.push(x));
        assert(b =~= front_b.push(y));
    }
}

/// A list has one ranking only.
pub proof fn lemma_ranking_unique(candidate: Seq<Entry>, entries: Seq<Entry>)
    requires
        is_ranking(candidate, entries),
    ensures
        candidate == ranked(entries),
{
    lemma_ranked_is_ranking(entries);
    vstd::seq_lib::to_multiset_len(candidate);
    vstd::seq_lib::to_multiset_len(ranked(entries));
    assert forall|count: nat| #[trigger]
        with_count(candidate, count) == with_count(ranked(entries), count) by {
        assert(with_count(candidate, count) == with_count(entries, count));
        assert(with_count(ranked(entries), count) == with_count(entries, count));
    }
    lemma_descending_unique(candidate, ranked(entries));
}

/// What holds while two lists in descending order are merged, when the
/// first `i` entries of `left` and the first `j` of `right` have been taken:
/// `merged` holds exactly those, in descending order and those of equal count
/// with the ones from `left` first; no entry still to come has a higher count
/// than one that was taken, and every entry taken from `right` has a higher
/// count than the entries of `left` still to come.
spec fn merging(merged: Seq<Entry>, left: Seq<Entry>, right: Seq<Entry>, i: int, j: int) -> bool {
    &&& 0 <= i <= left.len()
    &&& 0 <= j <= right.len()
    &&& merged.len() == i + j
    &&& merged.to_multiset() == left.take(i).to_multiset().add(right.take(j).to_multiset())
    &&& descending(merged)
    &&& forall|p: int, q: int|
        0 <= p < merged.len() && i <= q < left.len() ==> (#[trigger] merged[p]).count >= (
        #[trigger] left[q]).count
    &&& forall|p: int, q: int|
        0 <= p < merged.len() && j <= q < right.len() ==> (#[trigger] merged[p]).count >= (
        #[trigger] right[q]).count
    &&& forall|p: int, q: int|
        0 <= p < j && i <= q < left.len() ==> (#[trigger] right[p]).count > (
        #[trigger] left[q]).count
    &&& forall|count: nat| #[trigger]
        with_count(merged, count) == with_count(left.take(i), count) + with_count(
            right.take(j),
            count,
        )
}

/// A merge starts with nothing taken.
proof fn lemma_merge_start(left: Seq<Entry>, right: Seq<Entry>)
    ensures
        merging(Seq::empty(), left, right, 0, 0),
{
    let none = Seq::<Entry>::empty();
    assert(left.take(0) =~= none);
    assert(right.take(0) =~= none);
    none.to_multiset_ensures();
    assert(none.to_multiset() =~= Multiset::<Entry>::empty());
    assert(none.to_multiset() =~= none.to_multiset().add(none.to_multiset()));
    assert forall|count: nat| #[trigger]
        with_count(none, count) == with_count(left.take(0), count) + with_count(
            right.take(0),
            count,
        ) by {
        assert(with_count(none, count) =~= with_count(none, count) + with_count(none, count));
    }
}

/// A merge goes on with the next entry of `left` where `right` has no entry
/// left or none with a higher count.
proof fn lemma_merge_left(merged: Seq<Entry>, left: Seq<Entry>, right: Seq<Entry>, i: int, j: int)
    requires
        merging(merged, left, right, i, j),
        descending(left),
        descending(right),
        i < left.len(),
        j == right.len() || left[i].count >= right[j].count,
    ensures
        merging(merged.push(left[i]), left, right, i + 1, j),
{
    let entry = left[i];
    let after = merged.push(entry);
    lemma_take_next(left, i);
    vstd::seq_lib::to_multiset_build(merged, entry);
    assert(after.to_multiset() =~= left.take(i + 1).to_multiset().add(right.take(j).to_multiset()));
    assert forall|count: nat| #[trigger]
        with_count(after, count) == with_count(left.take(i + 1), count) + with_count(
            right.take(j),
            count,
        ) by {
        lemma_with_count_push(merged, entry, count);
        lemma_with_count_push(left.take(i), entry, count);
        assert(with_count(merged, count) == with_count(left.take(i), count) + with_count(
            right.take(j),
            count,
        ));
        if entry.count == count {
            assert forall|p: int| 0 <= p < right.take(j).len() implies (#[trigger] right.take(
                j,
            )[p]).count != count by {
                assert(right[p].count > left[i].count);
            }
            lemma_with_count_absent(right.take(j), count);
        }
        assert(with_count(after, count) =~= with_count(left.take(i + 1), count) + with_count(
            right.take(j),
            count,
        ));
    }
    assert forall|p: int, q: int| 0 <= p < q < after.len() implies (#[trigger] after[p]).count >= (
    #[trigger] after[q]).count by {
        if q == merged.len() {
            assert(merged[p].count >= left[i].count);
        } else {
            assert(merged[p].count >= merged[q].count);
        }
    }
    assert forall|p: int, q: int| 0 <= p < after.len() && i + 1 <= q < left.len() implies (
    #[trigger] after[p]).count >= (#[trigger] left[q]).count by {
        if p == merged.len() {
            assert(left[i].count >= left[q].count);
        } else {
            assert(merged[p].count >= left[q].count);
        }
    }
    assert forall|p: int, q: int| 0 <= p < after.len() && j <= q < right.len() implies (
    #[trigger] after[p]).count >= (#[trigger] right[q]).count by {
        if p == merged.len() {
            assert(right[j].count >= right[q].count);
        } else {
            assert(merged[p].count >= right[q].count);
        }
    }
}

/// A merge goes on with the next entry of `right` where `left` has no entry
/// left or only entries with a lower count.
proof fn lemma_merge_right(merged: Seq<Entry>, left: Seq<Entry>, right: Seq<Entry>, i: int, j: int)
    requires
        merging(merged, left, right, i, j),
        descending(left),
        descending(right),
        j < right.len(),
        i == left.len() || left[i].count < right[j].count,
    ensures
        merging(merged.push(right[j]), left, right, i, j + 1),
{
    let entry = right[j];
    let after = merged.push(entry);
    lemma_take_next(right, j);
    vstd::seq_lib::to_multiset_build(merged, entry);
    assert(after.to_multiset() =~= left.take(i).to_multiset().add(right.take(j + 1).to_multiset()));
    assert forall|count: nat| #[trigger]
        with_count(after, count) == with_count(left.take(i), count) + with_count(
            right.take(j + 1),
            count,
        ) by {
        lemma_with_count_push(merged, entry, count);
        lemma_with_count_push(right.take(j), entry, count);
        assert(with_count(merged, count) == with_count(left.take(i), count) + with_count(
            right.take(j),
            count,
        ));
        assert(with_count(after, count) =~= with_count(left.take(i), count) + with_count(
            right.take(j + 1),
            count,
        ));
    }
    assert forall|p: int, q: int| 0 <= p < q < after.len() implies (#[trigger] after[p]).count >= (
    #[trigger] after[q]).count by {
        if q == merged.len() {
            assert(merged[p].count >= right[j].count);
        } else {
            assert(merged[p].count >= merged[q].count);
        }
    }
    assert forall|p: int, q: int| 0 <= p < after.len() && i <= q < left.len() implies (
    #[trigger] after[p]).count >= (#[trigger] left[q]).count by {
        if p == merged.len() {
            assert(left[i].count >= left[q].count);
        } else {
            assert(merged[p].count >= left[q].count);
        }
    }
    assert forall|p: int, q: int| 0 <= p < after.len() && j + 1 <= q < right.len() implies (
    #[trigger] after[p]).count >= (#[trigger] right[q]).count by {
        if p == merged.len() {
            assert(right[j].count >= right[q].count);
        } else {
            assert(merged[p].count >= right[q].count);
        }
    }
    assert forall|p: int, q: int| 0 <= p < j + 1 && i <= q < left.len() implies (
    #[trigger] right[p]).count > (#[trigger] left[q]).count by {
        if p == j {
            assert(left[i].count >= left[q].count);
        }
    }
}

/// A merge that has taken every entry has ranked the two lists put one after
/// the other.
proof fn lemma_merge_end(merged: Seq<Entry>, left: Seq<Entry>, right: Seq<Entry>)
    requires
        merging(merged, left, right, left.len() as int, right.len() as int),
    ensures
        is_ranking(merged, left + right),
{
    assert(left.take(left.len() as int) =~= left);
    assert(right.take(right.len() as int) =~= right);
    vstd::seq_lib::lemma_multiset_commutative(left, right);
    assert forall|count: nat| #[trigger]
        with_count(merged, count) == with_count(left + right, count) by {
        lemma_with_count_concat(left, right, count);
    }
}

/// Merges two lists in descending order of count into one. Of two entries
/// with the same count the one from `left` comes first.
fn merge(left: &Vec<FreqKV>, right: &Vec<FreqKV>) -> (merged: Vec<FreqKV>)
    requires
        descending(views(left@)),
        descending(views(right@)),
    ensures
        is_ranking(views(merged@), views(left@) + views(right@)),
{
    let mut merged: Vec<FreqKV> = Vec::new();
    let mut i: usize = 0;
    let mut j: usize = 0;
    proof {
        assert(views(merged@) =~= Seq::<Entry>::empty());
        lemma_merge_start(views(left@), views(right@));
    }
    while i < left.len() || j < right.len()
        invariant
            descending(views(left@)),
            descending(views(right@)),
            merging(views(merged@), views(left@), views(right@), i as int, j as int),
        decreases left@.len() - i + right@.len() - j,
    {
        let ghost before = views(merged@);
        if j >= right.len() || (i < left.len() && left[i].value >= right[j].value) {
            merged.push(left[i].clone());
            proof {
                assert(views(merged@) =~= before.push(views(left@)[i as int]));
                lemma_merge_left(before, views(left@), views(right@), i as int, j as int);
            }
            i += 1;
        } else {
            merged.push(right[j].clone());
            proof {
                assert(views(merged@) =~= before.push(views(right@)[j as int]));
                lemma_merge_right(before, views(left@), views(right@), i as int, j as int);
            }
            j += 1;
        }
    }
    proof {
        lemma_merge_end(views(merged@), views(left@), views(right@));
    }
    merged
}

/// Ranks the items from index `from` up to index `to`.
fn rank_range(items: &Vec<FreqKV>, from: usize, to: usize) -> (ranked: Vec<FreqKV>)
    requires
        from <= to <= items@.len(),
    ensures
        is_ranking(views(ranked@), views(items@).subrange(from as int, to as int)),
    decreases to - from,
{
    let ghost part = views(items@).subrange(from as int, to as int);
    if to - from <= 1 {
        let mut ranked: Vec<FreqKV> = Vec::new();
        if from < to {
            ranked.push(items[from].clone());
        }
        assert(views(ranked@) =~= part);
        ranked
    } else {
        let mid = from + (to - from) / 2;
        let left = rank_range(items, from, mid);
        let right = rank_range(items, mid, to);
        let ranked = merge(&left, &right);
        proof {
            let a = views(items@).subrange(from as int, mid as int);
            let b = views(items@).subrange(mid as int, to as int);
            assert(part =~= a + b);
            lemma_ranking_of_parts(views(ranked@), views(left@), views(right@), a, b);
        }
        ranked
    }
}

/// Ranks the items: in descending order of count, those of equal count in the
/// order in which they came.
pub fn rank(items: &Vec<FreqKV>) -> (sorted: Vec<FreqKV>)
    ensures
        views(sorted@) == ranked(views(items@)),
        is_ranking(views(sorted@), views(items@)),
{
    let sorted = rank_range(items, 0, items.len());
    proof {
        assert(views(items@).subrange(0, items@.len() as int) =~= views(items@));
        lemma_ranking_unique(views(sorted@), views(items@));
    }
    sorted
}

/// The first `limit` items, or all of them where there are fewer.
pub fn top(items: &Vec<FreqKV>, limit: usize) -> (first: Vec<FreqKV>)
    ensures
        views(first@) == views(items@).take(
            if limit <= items@.len() {
                limit as int
            } else {
                items@.len() as int
            },
        ),
{
    let count = if limit <= items.len() {
        limit
    } else {
        items.len()
    };
    let mut first: Vec<FreqKV> = Vec::new();
    let mut i: usize = 0;
    while i < count
        invariant
            i <= count <= items@.len(),
            views(first@) == views(items@).take(i as int),
        decreases count - i,
    {
        let ghost before = views(first@);
        first.push(items[i].clone());
        i += 1;
        assert(views(first@) =~= before.push(views(items@)[i - 1]));
        assert(views(first@) =~= views(items@).take(i as int));
    }
    first
}

/// The report on the items: the first `TOP_COUNT` of their ranking, or the
/// whole ranking where there are fewer.
pub fn report(items: &Vec<FreqKV>) -> (shown: Vec<FreqKV>)
    ensures
        views(shown@) == ranked(views(items@)).take(
            if TOP_COUNT <= items@.len() {
                TOP_COUNT as int
            } else {
                items@.len() as int
            },
        ),
{
    let sorted = rank(items);
    proof {
        vstd::seq_lib::to_multiset_len(views(sorted@));
        vstd::seq_lib::to_multiset_len(views(items@));
    }
    top(&sorted, TOP_COUNT)
}

} // verus!
