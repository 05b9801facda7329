//! The mathematical model of a tracker.
//!
//! A tracker is fully described by its capacity and by the sequence of
//! identities recorded so far. From the two follow the count of every identity
//! and the ordered list of leaders: pairs of an identity and its count.

use vstd::prelude::*;

verus! {

/// How many times `item` occurs in `history`.
pub open spec fn occurrences<A>(history: Seq<A>, item: A) -> nat {
    history.to_multiset().count(item)
}

/// Whether `item` is one of the `leaders`.
pub open spec fn leads<A>(leaders: Seq<(A, nat)>, item: A) -> bool {
    exists|i: int| 0 <= i < leaders.len() && (#[trigger] leaders[i]).0 == item
}

/// The index of `item` among the `leaders`; meaningful where `leads` holds.
pub open spec fn position_of<A>(leaders: Seq<(A, nat)>, item: A) -> int {
    choose|i: int| 0 <= i < leaders.len() && (#[trigger] leaders[i]).0 == item
}

/// Counts never increase from one entry to a later one.
pub open spec fn descending<A>(leaders: Seq<(A, nat)>) -> bool {
    forall|i: int, j: int| 0 <= i <= j < leaders.len() ==> leaders[i].1 >= leaders[j].1
}

/// No identity occupies two entries.
pub open spec fn distinct<A>(leaders: Seq<(A, nat)>) -> bool {
    forall|i: int, j: int| 0 <= i < j < leaders.len() ==> leaders[i].0 != leaders[j].0
}

/// Where an entry of the given `count` comes to rest when it starts at index
/// `from` and moves left past every neighbour with a strictly smaller count.
pub open spec fn settle_index<A>(leaders: Seq<(A, nat)>, count: nat, from: int) -> int
    decreases from,
{
    if from > 0 && leaders[from - 1].1 < count {
        settle_index(leaders, count, from - 1)
    } else {
        from
    }
}

/// The list after the entry at `index` has bubbled left to its resting place.
/// The entries it passes each shift one step to the right.
pub open spec fn bubbled<A>(leaders: Seq<(A, nat)>, index: int) -> Seq<(A, nat)> {
    leaders.remove(index).insert(
        settle_index(leaders, leaders[index].1, index),
        leaders[index],
    )
}

/// The leaders after `item` has been recorded and its count has reached
/// `total`.
///
/// A leader gets its new count and bubbles. Any other identity is appended
/// while there is room; once the list is full it replaces the last entry if
/// and only if its count strictly exceeds that entry's, and bubbles from there.
pub open spec fn record_step<A>(
    capacity: nat,
    leaders: Seq<(A, nat)>,
    item: A,
    total: nat,
) -> Seq<(A, nat)> {
    let last = leaders.len() - 1;
    if leads(leaders, item) {
        let at = position_of(leaders, item);
        bubbled(leaders.update(at, (item, total)), at)
    } else if leaders.len() < capacity {
        bubbled(leaders.push((item, total)), leaders.len() as int)
    } else if leaders.len() > 0 && leaders[last].1 < total {
        bubbled(leaders.update(last, (item, total)), last)
    } else {
        leaders
    }
}

/// The leaders of a tracker of the given capacity after `history` has been
/// recorded in order, starting from nothing.
pub open spec fn leaders_of<A>(capacity: nat, history: Seq<A>) -> Seq<(A, nat)>
    decreases history.len(),
{
    if history.len() == 0 {
        Seq::empty()
    } else {
        let item = history.last();
        record_step(
            capacity,
            leaders_of(capacity, history.drop_last()),
            item,
            occurrences(history, item),
        )
    }
}

/// What holds of the leaders of every tracker: the list is bounded by the
/// capacity, descending and free of repeats, each entry carries the exact
/// count of its identity, and no identity outside the list has been seen more
/// often than one inside it.
pub open spec fn ranks<A>(capacity: nat, history: Seq<A>, leaders: Seq<(A, nat)>) -> bool {
    &&& leaders.len() <= capacity
    &&& descending(leaders)
    &&& distinct(leaders)
    &&& forall|i: int|
        0 <= i < leaders.len() ==> (#[trigger] leaders[i]).1 == occurrences(history, leaders[i].0)
    &&& forall|x: A|
        occurrences(history, x) > 0 && leaders.len() < capacity ==> #[trigger] leads(leaders, x)
    &&& forall|x: A, i: int|
        0 <= i < leaders.len() && !#[trigger] leads(leaders, x) ==> occurrences(history, x) <= (
        #[trigger] leaders[i]).1
}

/// What holds of the list while one entry, the one at `index`, has just
/// received its count and has not bubbled yet: all that `ranks` asks, except
/// that the entries left of `index` may be smaller than the one at `index`.
pub open spec fn ranks_but_for<A>(
    capacity: nat,
    history: Seq<A>,
    leaders: Seq<(A, nat)>,
    index: int,
) -> bool {
    &&& 0 <= index < leaders.len() <= capacity
    &&& distinct(leaders)
    &&& forall|i: int, j: int|
        0 <= i <= j < leaders.len() && j != index ==> leaders[i].1 >= leaders[j].1
    &&& forall|i: int|
        0 <= i < leaders.len() ==> (#[trigger] leaders[i]).1 == occurrences(history, leaders[i].0)
    &&& forall|x: A|
        occurrences(history, x) > 0 && leaders.len() < capacity ==> #[trigger] leads(leaders, x)
    &&& forall|x: A, i: int|
        0 <= i < leaders.len() && !#[trigger] leads(leaders, x) ==> occurrences(history, x) <= (
        #[trigger] leaders[i]).1
}

/// A snapshot of identities with machine counts, read as leaders.
pub open spec fn counted<A>(pairs: Seq<(A, u64)>) -> Seq<(A, nat)> {
    Seq::new(pairs.len(), |i: int| (pairs[i].0, pairs[i].1 as nat))
}

/// The abstract state of a tracker.
pub struct Tally<A> {
    /// The most entries the leader list may hold.
    pub capacity: nat,
    /// Every identity recorded since construction, oldest first.
    pub history: Seq<A>,
}

impl<A> Tally<A> {
    /// A tracker that has recorded nothing.
    pub open spec fn empty(capacity: nat) -> Self {
        Tally { capacity, history: Seq::empty() }
    }

    /// The state after one more observation.
    pub open spec fn record(self, item: A) -> Self {
        Tally { capacity: self.capacity, history: self.history.push(item) }
    }

    /// The state after a run of observations, in order.
    pub open spec fn record_all(self, items: Seq<A>) -> Self {
        Tally { capacity: self.capacity, history: self.history + items }
    }

    /// The state after starting over: that of a fresh tracker of the same
    /// capacity.
    pub open spec fn reset(self) -> Self {
        Tally::empty(self.capacity)
    }

    /// The all-time count of `item`.
    pub open spec fn count(self, item: A) -> nat {
        occurrences(self.history, item)
    }

    /// The current leaders, most frequent first.
    pub open spec fn leaders(self) -> Seq<(A, nat)> {
        leaders_of(self.capacity, self.history)
    }
}

/// Nothing occurs in an empty history.
pub proof fn lemma_occurrences_empty<A>(item: A)
    ensures
        occurrences(Seq::<A>::empty(), item) == 0,
{
    Seq::<A>::empty().to_multiset_ensures();
    assert(!Seq::<A>::empty().contains(item));
}

/// Recording `item` raises its count by one and leaves every other count.
pub proof fn lemma_occurrences_push<A>(history: Seq<A>, item: A, other: A)
    ensures
        occurrences(history.push(item), other) == occurrences(history, other) + if item == other {
            1nat
        } else {
            0nat
        },
{
    vstd::seq_lib::to_multiset_build(history, item);
}

/// The resting place lies at or left of the start; everything between the two
/// is strictly smaller than `count`, and the entry just left of it is not.
pub proof fn lemma_settle_index<A>(leaders: Seq<(A, nat)>, count: nat, from: int)
    requires
        0 <= from <= leaders.len(),
    ensures
        0 <= settle_index(leaders, count, from) <= from,
        forall|k: int|
            settle_index(leaders, count, from) <= k < from ==> (#[trigger] leaders[k]).1 < count,
        settle_index(leaders, count, from) > 0 ==> leaders[settle_index(leaders, count, from)
            - 1].1 >= count,
    decreases from,
{
    if from > 0 && leaders[from - 1].1 < count {
        lemma_settle_index(leaders, count, from - 1);
    }
}

/// Entry by entry, what `bubbled` holds.
pub proof fn lemma_bubbled<A>(leaders: Seq<(A, nat)>, index: int)
    requires
        0 <= index < leaders.len(),
    ensures
        bubbled(leaders, index).len() == leaders.len(),
        forall|k: int|
            0 <= k < leaders.len() ==> #[trigger] bubbled(leaders, index)[k] == {
                let to = settle_index(leaders, leaders[index].1, index);
                if k < to || k > index {
                    leaders[k]
                } else if k == to {
                    leaders[index]
                } else {
                    leaders[k - 1]
                }
            },
{
    lemma_settle_index(leaders, leaders[index].1, index);
}

/// Bubbling moves entries and neither adds nor drops an identity.
pub proof fn lemma_bubbled_leads<A>(leaders: Seq<(A, nat)>, index: int, item: A)
    requires
        0 <= index < leaders.len(),
    ensures
        leads(bubbled(leaders, index), item) <==> leads(leaders, item),
{
    lemma_bubbled(leaders, index);
    lemma_settle_index(leaders, leaders[index].1, index);
    let after = bubbled(leaders, index);
    let to = settle_index(leaders, leaders[index].1, index);
    if leads(leaders, item) {
        let i = position_of(leaders, item);
        let k = if i < to || i > index {
            i
        } else if i == index {
            to
        } else {
            i + 1
        };
        assert(after[k].0 == item);
    }
    if leads(after, item) {
        let k = position_of(after, item);
        let i = if k < to || k > index {
            k
        } else if k == to {
            index
        } else {
            k - 1
        };
        assert(leaders[i].0 == item);
    }
}

/// Bubbling the one entry that may be out of place restores the full
/// invariant.
pub proof fn lemma_bubbled_ranks<A>(
    capacity: nat,
    history: Seq<A>,
    leaders: Seq<(A, nat)>,
    index: int,
)
    requires
        ranks_but_for(capacity, history, leaders, index),
    ensures
        ranks(capacity, history, bubbled(leaders, index)),
{
    lemma_bubbled(leaders, index);
    lemma_settle_index(leaders, leaders[index].1, index);
    let after = bubbled(leaders, index);
    let to = settle_index(leaders, leaders[index].1, index);
    assert forall|i: int, j: int| 0 <= i <= j < after.len() implies after[i].1 >= after[j].1 by {
        if i < to && j >= to {
            assert(leaders[i].1 >= leaders[to - 1].1);
        }
    }
    assert forall|x: A| occurrences(history, x) > 0 && after.len() < capacity implies leads(
        after,
        x,
    ) by {
        lemma_bubbled_leads(leaders, index, x);
    }
    assert forall|x: A, k: int| 0 <= k < after.len() && !leads(after, x) implies occurrences(
        history,
        x,
    ) <= after[k].1 by {
        lemma_bubbled_leads(leaders, index, x);
        let i = if k < to || k > index {
            k
        } else if k == to {
            index
        } else {
            k - 1
        };
        assert(after[k] == leaders[i]);
    }
}

/// One observation keeps the invariant: if `leaders` ranks `history`, the
/// next list ranks the history extended by `item`.
pub proof fn lemma_record_step_ranks<A>(
    capacity: nat,
    history: Seq<A>,
    leaders: Seq<(A, nat)>,
    item: A,
)
    requires
        ranks(capacity, history, leaders),
    ensures
        ranks(
            capacity,
            history.push(item),
            record_step(capacity, leaders, item, occurrences(history, item) + 1),
        ),
{
    let next = history.push(item);
    let total = occurrences(history, item) + 1;
    let last = leaders.len() - 1;
    assert forall|x: A| occurrences(next, x) == occurrences(history, x) + if item == x {
        1nat
    } else {
        0nat
    } by {
        lemma_occurrences_push(history, item, x);
    }
    if leads(leaders, item) {
        let at = position_of(leaders, item);
        let pending = leaders.update(at, (item, total as nat));
        assert forall|x: A| leads(leaders, x) implies leads(pending, x) by {
            let i = position_of(leaders, x);
            assert(pending[i].0 == x);
        }
        assert forall|x: A| leads(pending, x) implies leads(leaders, x) by {
            let i = position_of(pending, x);
            assert(leaders[i].0 == x);
        }
        assert(ranks_but_for(capacity, next, pending, at));
        lemma_bubbled_ranks(capacity, next, pending, at);
    } else if leaders.len() < capacity {
        let at = leaders.len() as int;
        let pending = leaders.push((item, total as nat));
        assert(pending[at].0 == item);
        assert forall|x: A| leads(leaders, x) implies leads(pending, x) by {
            let i = position_of(leaders, x);
            assert(pending[i].0 == x);
        }
        assert forall|x: A| leads(pending, x) && x != item implies leads(leaders, x) by {
            let i = position_of(pending, x);
            assert(leaders[i].0 == x);
        }
        assert(ranks_but_for(capacity, next, pending, at));
        lemma_bubbled_ranks(capacity, next, pending, at);
    } else if leaders.len() > 0 && leaders[last].1 < total {
        let pending = leaders.update(last, (item, total as nat));
        let evicted = leaders[last].0;
        assert(pending[last].0 == item);
        assert forall|x: A| leads(leaders, x) && x != evicted implies leads(pending, x) by {
            let i = position_of(leaders, x);
            assert(pending[i].0 == x);
        }
        assert forall|x: A| leads(pending, x) && x != item implies leads(leaders, x) by {
            let i = position_of(pending, x);
            assert(leaders[i].0 == x);
        }
        assert forall|x: A, i: int|
            0 <= i < pending.len() && !leads(pending, x) implies occurrences(next, x)
            <= pending[i].1 by {
            assert(occurrences(history, x) <= leaders[last].1);
            assert(leaders[i].1 >= leaders[last].1);
        }
        assert(ranks_but_for(capacity, next, pending, last));
        lemma_bubbled_ranks(capacity, next, pending, last);
    } else {
        assert forall|x: A, i: int|
            0 <= i < leaders.len() && !leads(leaders, x) implies occurrences(next, x)
            <= leaders[i].1 by {
            assert(leaders[i].1 >= leaders[last].1);
        }
    }
}

/// The leaders of every history rank it.
pub proof fn lemma_leaders_of_ranks<A>(capacity: nat, history: Seq<A>)
    ensures
        ranks(capacity, history, leaders_of(capacity, history)),
    decreases history.len(),
{
    if history.len() == 0 {
        assert forall|x: A| occurrences(history, x) == 0 by {
            assert(history =~= Seq::<A>::empty());
            lemma_occurrences_empty(x);
        }
    } else {
        let earlier = history.drop_last();
        let item = history.last();
        assert(earlier.push(item) =~= history);
        lemma_leaders_of_ranks(capacity, earlier);
        lemma_occurrences_push(earlier, item, item);
        lemma_record_step_ranks(capacity, earlier, leaders_of(capacity, earlier), item);
    }
}

/// How one observation changes the leaders of a tally.
pub proof fn lemma_record_leaders<A>(tally: Tally<A>, item: A)
    ensures
        tally.record(item).count(item) == tally.count(item) + 1,
        tally.record(item).leaders() == record_step(
            tally.capacity,
            tally.leaders(),
            item,
            tally.count(item) + 1,
        ),
{
    let next = tally.history.push(item);
    assert(next.drop_last() =~= tally.history);
    lemma_occurrences_push(tally.history, item, item);
}

} // verus!
