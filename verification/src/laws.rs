//! What holds of every tracker, stated over the model and proved once.
//!
//! A tracker's view is a [`Tally`]; `TopTracker::new` yields the empty tally,
//! `increment` applies [`Tally::record`], and `top` returns the tally's leaders.
//! Each statement below therefore holds of every tracker at every moment.

use crate::model::{
    bubbled, counted, leads, lemma_bubbled, lemma_bubbled_leads, lemma_leaders_of_ranks,
    lemma_record_leaders, position_of, Tally,
};
use vstd::prelude::*;

verus! {

/// Bounded size: the leader list never holds more entries than the capacity,
/// whatever has been recorded.
pub proof fn lemma_bounded_size<A>(tally: Tally<A>)
    ensures
        tally.leaders().len() <= tally.capacity,
{
    lemma_leaders_of_ranks(tally.capacity, tally.history);
}

/// Descending order: each leader has been seen at least as often as every
/// leader after it, and so as the one right after it.
pub proof fn lemma_descending_order<A>(tally: Tally<A>)
    ensures
        forall|i: int, j: int|
            0 <= i <= j < tally.leaders().len() ==> tally.leaders()[i].1 >= tally.leaders()[j].1,
        forall|i: int|
            0 <= i && i + 1 < tally.leaders().len() ==> (#[trigger] tally.leaders()[i]).1
                >= tally.leaders()[i + 1].1,
{
    lemma_leaders_of_ranks(tally.capacity, tally.history);
}

/// Count fidelity: the count shown beside a leader is the exact number of
/// times that identity was recorded.
pub proof fn lemma_count_fidelity<A>(tally: Tally<A>)
    ensures
        forall|i: int|
            0 <= i < tally.leaders().len() ==> (#[trigger] tally.leaders()[i]).1 == tally.count(
                tally.leaders()[i].0,
            ),
{
    lemma_leaders_of_ranks(tally.capacity, tally.history);
}

/// No identity appears twice among the leaders.
pub proof fn lemma_leaders_distinct<A>(tally: Tally<A>)
    ensures
        forall|i: int, j: int|
            0 <= i < j < tally.leaders().len() ==> tally.leaders()[i].0 != tally.leaders()[j].0,
{
    lemma_leaders_of_ranks(tally.capacity, tally.history);
}

/// The leaders are the most frequent identities: while there is room every
/// identity seen is a leader, and an identity that is not a leader has been
/// seen no more often than any leader.
pub proof fn lemma_leaders_most_frequent<A>(tally: Tally<A>, item: A)
    requires
        !leads(tally.leaders(), item),
    ensures
        tally.leaders().len() < tally.capacity ==> tally.count(item) == 0,
        forall|i: int|
            0 <= i < tally.leaders().len() ==> tally.count(item) <= (
            #[trigger] tally.leaders()[i]).1,
{
    lemma_leaders_of_ranks(tally.capacity, tally.history);
}

/// No identity has been seen more often than there were observations.
pub proof fn lemma_count_bounded<A>(tally: Tally<A>, item: A)
    ensures
        tally.count(item) <= tally.history.len(),
{
    tally.history.to_multiset_ensures();
    vstd::multiset::axiom_count_le_len(tally.history.to_multiset(), item);
}

/// Recording a run of items is recording them one by one.
pub proof fn lemma_record_all<A>(tally: Tally<A>, items: Seq<A>, item: A)
    ensures
        tally.record_all(Seq::empty()) == tally,
        tally.record_all(items.push(item)) == tally.record_all(items).record(item),
{
    assert(tally.history + Seq::<A>::empty() =~= tally.history);
    assert(tally.history + items.push(item) =~= (tally.history + items).push(item));
}

/// A snapshot is pinned by the leaders it shows: two snapshots that read as
/// the same leaders are equal, order of ties included.
pub proof fn lemma_snapshot_unique<A>(first: Seq<(A, u64)>, second: Seq<(A, u64)>)
    requires
        counted(first) == counted(second),
    ensures
        first == second,
{
    assert(first.len() == counted(first).len());
    assert(second.len() == counted(second).len());
    assert forall|i: int| 0 <= i < first.len() implies first[i] == second[i] by {
        assert(counted(first)[i] == counted(second)[i]);
    }
    assert(first =~= second);
}

/// Determinism: two snapshots taken after the same items were recorded, in
/// the same order, on fresh trackers of the same capacity are equal, ties
/// included.
pub proof fn lemma_replay_deterministic<A>(
    capacity: nat,
    items: Seq<A>,
    first: Seq<(A, u64)>,
    second: Seq<(A, u64)>,
)
    requires
        counted(first) == Tally::empty(capacity).record_all(items).leaders(),
        counted(second) == Tally::empty(capacity).record_all(items).leaders(),
    ensures
        first == second,
{
    lemma_snapshot_unique(first, second);
}

/// Starting over: when `items` have been recorded on a fresh tracker, and
/// after starting over are recorded again, the second snapshot equals the
/// first.
pub proof fn lemma_reset_replay<A>(
    capacity: nat,
    items: Seq<A>,
    first: Seq<(A, u64)>,
    second: Seq<(A, u64)>,
)
    requires
        counted(first) == Tally::empty(capacity).record_all(items).leaders(),
        counted(second) == Tally::empty(capacity).record_all(items).reset().record_all(
            items,
        ).leaders(),
    ensures
        first == second,
{
    lemma_snapshot_unique(first, second);
}

/// Eviction: once the list is full, an identity outside it enters on being
/// recorded if and only if its new count strictly exceeds the count of the
/// last leader, which is the smallest. It then takes the place of that
/// leader, and every other leader stays. Otherwise the leaders are unchanged.
pub proof fn lemma_eviction<A>(tally: Tally<A>, item: A)
    requires
        tally.leaders().len() == tally.capacity,
        !leads(tally.leaders(), item),
    ensures
        forall|i: int|
            0 <= i < tally.leaders().len() ==> (#[trigger] tally.leaders()[i]).1
                >= tally.leaders().last().1,
        leads(tally.record(item).leaders(), item) <==> tally.capacity > 0 && tally.count(item) + 1
            > tally.leaders().last().1,
        !leads(tally.record(item).leaders(), item) ==> tally.record(item).leaders()
            == tally.leaders(),
        leads(tally.record(item).leaders(), item) ==> {
            &&& tally.record(item).leaders().len() == tally.capacity
            &&& !leads(tally.record(item).leaders(), tally.leaders().last().0)
            &&& forall|x: A|
                x != tally.leaders().last().0 && leads(tally.leaders(), x) ==> #[trigger] leads(
                    tally.record(item).leaders(),
                    x,
                )
        },
{
    let before = tally.leaders();
    let after = tally.record(item).leaders();
    let total = tally.count(item) + 1;
    let last = before.len() - 1;
    lemma_leaders_of_ranks(tally.capacity, tally.history);
    lemma_leaders_of_ranks(tally.capacity, tally.history.push(item));
    lemma_record_leaders(tally, item);
    if before.len() > 0 && before[last].1 < total {
        let pending = before.update(last, (item, total as nat));
        let evicted = before[last].0;
        assert(after == bubbled(pending, last));
        lemma_bubbled(pending, last);
        assert(pending[last].0 == item);
        assert(before[last].0 != item);
        lemma_bubbled_leads(pending, last, item);
        lemma_bubbled_leads(pending, last, evicted);
        if leads(pending, evicted) {
            let i = position_of(pending, evicted);
            assert(i != last);
            assert(before[i].0 == evicted);
        }
        assert forall|x: A| x != evicted && leads(before, x) implies leads(after, x) by {
            let i = position_of(before, x);
            assert(pending[i].0 == x);
            lemma_bubbled_leads(pending, last, x);
        }
    }
}

} // verus!
