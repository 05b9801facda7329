//! The tracker itself: a hash-keyed index of every identity seen, plus a small
//! array of the current leaders kept in descending order of count.

use crate::model::{
    bubbled, counted, leaders_of, leads, lemma_leaders_of_ranks, lemma_occurrences_empty,
    lemma_occurrences_push, lemma_record_leaders, occurrences, position_of, record_step,
    settle_index, Tally,
};
use std::collections::HashMap;
use std::hash::Hash;
use vstd::prelude::*;
use vstd::std_specs::hash::obeys_key_model;

verus! {

/// What the index remembers of one identity.
#[derive(Clone, Copy)]
struct ItemSummary {
    /// The current index of this identity in `top_items`, if it is a leader.
    /// Nothing more than a cached back-reference.
    position: Option<usize>,
    /// How many times the identity was recorded.
    count: u64,
}

/// One entry of the leader list.
struct TopItem<A> {
    /// The identity recorded.
    item: A,
    /// How many times it was recorded.
    count: u64,
}

/// Keeps track of high frequency items.
///
/// `TopTracker` maintains a sorted list of the most frequent items. Recording
/// an item costs one hashed lookup plus as many swaps as the item moves up;
/// memory grows with the number of distinct items.
pub struct TopTracker<A> {
    /// Number of top items to track.
    n: usize,
    /// The top items, most frequent first.
    top_items: Vec<TopItem<A>>,
    /// Every item ever recorded, with its details.
    item_summaries: HashMap<A, ItemSummary>,
    /// Every item ever recorded, in order.
    history: Ghost<Seq<A>>,
}

/// The leader list as the model sees it.
spec fn entries<A>(items: Seq<TopItem<A>>) -> Seq<(A, nat)> {
    Seq::new(items.len(), |i: int| (items[i].item, items[i].count as nat))
}

/// No identity occupies two entries.
spec fn items_distinct<A>(items: Seq<TopItem<A>>) -> bool {
    forall|i: int, j: int| 0 <= i < j < items.len() ==> items[i].item != items[j].item
}

/// Every entry, but for one of `skip`, is known to the index under its own
/// position and count.
spec fn entries_indexed<A>(
    items: Seq<TopItem<A>>,
    summaries: Map<A, ItemSummary>,
    skip: Option<A>,
) -> bool {
    forall|i: int|
        0 <= i < items.len() && Some((#[trigger] items[i]).item) != skip ==> {
            &&& summaries.contains_key(items[i].item)
            &&& summaries[items[i].item].position == Some(i as usize)
            &&& summaries[items[i].item].count == items[i].count
        }
}

/// Every cached position, but for the one of `skip`, points at an entry of
/// its own identity.
spec fn positions_valid<A>(
    items: Seq<TopItem<A>>,
    summaries: Map<A, ItemSummary>,
    skip: Option<A>,
) -> bool {
    forall|x: A|
        #[trigger] summaries.contains_key(x) && Some(x) != skip ==> (match summaries[x].position {
            Some(i) => i < items.len() && items[i as int].item == x,
            None => true,
        })
}

/// The index holds exactly the identities that occur in `history`, each with
/// its number of occurrences.
spec fn counts_match<A>(summaries: Map<A, ItemSummary>, history: Seq<A>) -> bool {
    forall|x: A|
        #![trigger summaries.contains_key(x)]
        #![trigger occurrences(history, x)]
        {
            &&& summaries.contains_key(x) <==> occurrences(history, x) > 0
            &&& summaries.contains_key(x) ==> summaries[x].count == occurrences(history, x)
        }
}

/// The list with the entries at `at - 1` and `at` exchanged.
spec fn swapped<A>(items: Seq<TopItem<A>>, at: int) -> Seq<TopItem<A>> {
    items.update(at - 1, items[at]).update(at, items[at - 1])
}

/// One step of bubbling: when the entry at `at` trades places with its left
/// neighbour and the neighbour is told its new position, the index still
/// agrees with the list everywhere but at the moving entry.
proof fn lemma_swap_step<A>(items: Seq<TopItem<A>>, summaries: Map<A, ItemSummary>, at: usize)
    requires
        0 < at < items.len(),
        items_distinct(items),
        entries_indexed(items, summaries, Some(items[at as int].item)),
        positions_valid(items, summaries, Some(items[at as int].item)),
    ensures
        ({
            let passed = items[at - 1];
            let told = summaries.insert(
                passed.item,
                ItemSummary { position: Some(at), count: passed.count },
            );
            &&& items_distinct(swapped(items, at as int))
            &&& entries_indexed(swapped(items, at as int), told, Some(items[at as int].item))
            &&& positions_valid(swapped(items, at as int), told, Some(items[at as int].item))
            &&& told.dom() == summaries.dom()
            &&& forall|x: A| #[trigger] told.contains_key(x) ==> told[x].count == summaries[x].count
        }),
{
    let passed = items[at - 1];
    let told = summaries.insert(
        passed.item,
        ItemSummary { position: Some(at), count: passed.count },
    );
    let after = swapped(items, at as int);
    let origin = |i: int|
        if i == at {
            at - 1
        } else if i == at - 1 {
            at as int
        } else {
            i
        };
    assert(passed.item != items[at as int].item);
    assert(told.dom() =~= summaries.dom());
    assert forall|i: int, j: int| 0 <= i < j < after.len() implies after[i].item
        != after[j].item by {
        assert(after[i] == items[origin(i)] && after[j] == items[origin(j)]);
        if origin(i) < origin(j) {
            assert(items[origin(i)].item != items[origin(j)].item);
        } else {
            assert(items[origin(j)].item != items[origin(i)].item);
        }
    }
    assert forall|i: int|
        0 <= i < after.len() && (#[trigger] after[i]).item != items[at as int].item implies {
        &&& told.contains_key(after[i].item)
        &&& told[after[i].item].position == Some(i as usize)
        &&& told[after[i].item].count == after[i].count
    } by {
        assert(after[i] == items[origin(i)]);
        if i != at {
            if i < at - 1 {
                assert(items[i].item != items[at - 1].item);
            } else {
                assert(items[at - 1].item != items[i].item);
            }
        }
    }
}

impl<A> View for TopTracker<A> {
    type V = Tally<A>;

    closed spec fn view(&self) -> Tally<A> {
        Tally { capacity: self.n as nat, history: self.history@ }
    }
}

impl<A: Eq + Hash + Copy> TopTracker<A> {
    /// The representation is consistent.
    ///
    /// The leader list is the one that the model derives from the capacity
    /// and the history, so it is bounded, descending and exact. The index
    /// holds every identity recorded, with its exact count. The position
    /// cached for an identity is `Some(i)` if and only if entry `i` of the
    /// leader list is that identity's, and that entry shows the same count.
    pub closed spec fn wf(&self) -> bool {
        &&& obeys_key_model::<A>()
        &&& entries(self.top_items@) == leaders_of(self.n as nat, self.history@)
        &&& entries_indexed(self.top_items@, self.item_summaries@, None)
        &&& positions_valid(self.top_items@, self.item_summaries@, None)
        &&& counts_match(self.item_summaries@, self.history@)
    }

    /// Creates a `TopTracker` tracking the top `n` items.
    ///
    /// With `n == 0` the tracker only counts: its leader list stays empty.
    ///
    /// The item type has to behave as a hash key should: hashing is
    /// deterministic, and `==` holds exactly between identical values.
    pub fn new(n: usize) -> (tracker: Self)
        requires
            obeys_key_model::<A>(),
        ensures
            tracker.wf(),
            tracker@ == Tally::<A>::empty(n as nat),
            tracker@.leaders() == Seq::<(A, nat)>::empty(),
            forall|item: A| #[trigger] tracker@.count(item) == 0,
    {
        // Nothing is reserved up front: `n` may exceed what could ever be
        // allocated, and the leader list grows no faster than items arrive.
        let tracker = TopTracker {
            n,
            top_items: Vec::new(),
            item_summaries: HashMap::new(),
            history: Ghost(Seq::empty()),
        };
        proof {
            assert(entries(tracker.top_items@) =~= Seq::<(A, nat)>::empty());
            assert forall|x: A| occurrences(tracker.history@, x) == 0 by {
                lemma_occurrences_empty(x);
            }
        }
        tracker
    }

    /// Record an item's observation.
    ///
    /// The item's count goes up by one. If the item leads already, its entry
    /// gets the new count; else it is appended while there is room, or takes
    /// the place of the last leader if it has now been seen strictly more
    /// often. The entry then bubbles up to where it belongs.
    ///
    /// Counts are kept in a `u64`, so the item must not have been recorded
    /// `u64::MAX` times already; [`count`](TopTracker::count) tells.
    pub fn increment(&mut self, item: A)
        requires
            old(self).wf(),
            old(self)@.count(item) < u64::MAX,
        ensures
            final(self).wf(),
            final(self)@ == old(self)@.record(item),
            final(self)@.count(item) == old(self)@.count(item) + 1,
            forall|other: A|
                other != item ==> #[trigger] final(self)@.count(other) == old(self)@.count(other),
            final(self)@.leaders() == record_step(
                old(self)@.capacity,
                old(self)@.leaders(),
                item,
                old(self)@.count(item) + 1,
            ),
    {
        let ghost before = self.history@;
        let ghost leaders = entries(self.top_items@);
        proof {
            lemma_leaders_of_ranks(self.n as nat, before);
            lemma_record_leaders(self@, item);
        }
        let (position, total) = match self.item_summaries.get(&item) {
            Some(summary) => (summary.position, summary.count + 1),
            None => (None, 1),
        };
        let len = self.top_items.len();
        proof {
            if leads(leaders, item) {
                let at = position_of(leaders, item);
                assert(self.top_items@[at].item == item);
            }
            if let Some(at) = position {
                assert(leaders[at as int].0 == item);
            }
        }
        let index = match position {
            Some(at) => {
                self.top_items.set(at, TopItem { item, count: total });
                proof {
                    assert(entries(self.top_items@) =~= leaders.update(
                        at as int,
                        (item, total as nat),
                    ));
                }
                Some(at)
            },
            None => {
                if len < self.n {
                    self.top_items.push(TopItem { item, count: total });
                    proof {
                        assert(entries(self.top_items@) =~= leaders.push((item, total as nat)));
                    }
                    Some(len)
                } else if len > 0 && self.top_items[len - 1].count < total {
                    let evicted = self.top_items[len - 1].item;
                    let evicted_count = self.top_items[len - 1].count;
                    self.item_summaries.insert(
                        evicted,
                        ItemSummary { position: None, count: evicted_count },
                    );
                    self.top_items.set(len - 1, TopItem { item, count: total });
                    proof {
                        assert(entries(self.top_items@) =~= leaders.update(
                            len - 1,
                            (item, total as nat),
                        ));
                    }
                    Some(len - 1)
                } else {
                    None
                }
            },
        };
        let position = match index {
            Some(at) => Some(self.bubble(at)),
            None => None,
        };
        self.item_summaries.insert(item, ItemSummary { position, count: total });
        proof {
            self.history@ = before.push(item);
            lemma_leaders_of_ranks(self.n as nat, self.history@);
            assert forall|x: A| occurrences(self.history@, x) == occurrences(before, x) + if item
                == x {
                1nat
            } else {
                0nat
            } by {
                lemma_occurrences_push(before, item, x);
            }
            let after = entries(self.top_items@);
            assert(after == leaders_of(self.n as nat, self.history@));
            assert forall|i: int|
                0 <= i < self.top_items@.len() && (#[trigger] self.top_items@[i]).item
                    == item implies position == Some(i as usize) by {
                assert(after[i].0 == item);
                match position {
                    Some(at) => {
                        assert(after[at as int].0 == item);
                    },
                    None => {
                        assert(leaders[i].0 == item);
                    },
                }
            }
        }
    }

    /// The top items tracked, most frequent first, as a snapshot of their own.
    ///
    /// Note: In the case of a tie, the order follows from the order in which
    /// the items were recorded; callers should not rely on it.
    pub fn top(&self) -> (snapshot: Vec<(A, u64)>)
        requires
            self.wf(),
        ensures
            counted(snapshot@) == self@.leaders(),
            snapshot@.len() <= self@.capacity,
            forall|i: int, j: int|
                0 <= i <= j < snapshot@.len() ==> snapshot@[i].1 >= snapshot@[j].1,
            forall|i: int|
                0 <= i < snapshot@.len() ==> (#[trigger] snapshot@[i]).1 == self@.count(
                    snapshot@[i].0,
                ),
    {
        let mut snapshot: Vec<(A, u64)> = Vec::with_capacity(self.top_items.len());
        let mut i: usize = 0;
        while i < self.top_items.len()
            invariant
                i <= self.top_items@.len(),
                snapshot@.len() == i,
                forall|k: int|
                    0 <= k < i ==> #[trigger] snapshot@[k] == (
                        self.top_items@[k].item,
                        self.top_items@[k].count,
                    ),
            decreases self.top_items@.len() - i,
        {
            snapshot.push((self.top_items[i].item, self.top_items[i].count));
            i = i + 1;
        }
        proof {
            lemma_leaders_of_ranks(self.n as nat, self.history@);
            assert(counted(snapshot@) =~= entries(self.top_items@));
            assert forall|i: int, j: int| 0 <= i <= j < snapshot@.len() implies snapshot@[i].1
                >= snapshot@[j].1 by {
                assert(counted(snapshot@)[i].1 >= counted(snapshot@)[j].1);
            }
            assert forall|i: int| 0 <= i < snapshot@.len() implies (#[trigger] snapshot@[i]).1
                == self@.count(snapshot@[i].0) by {
                assert(counted(snapshot@)[i].1 == occurrences(
                    self.history@,
                    counted(snapshot@)[i].0,
                ));
            }
        }
        snapshot
    }

    /// Moves the entry at `index` left past every neighbour with a strictly
    /// smaller count, and returns where it came to rest. Each entry it passes
    /// is told its new position; the moving entry's own summary is left to
    /// the caller.
    fn bubble(&mut self, index: usize) -> (at: usize)
        requires
            obeys_key_model::<A>(),
            index < old(self).top_items@.len(),
            items_distinct(old(self).top_items@),
            entries_indexed(
                old(self).top_items@,
                old(self).item_summaries@,
                Some(old(self).top_items@[index as int].item),
            ),
            positions_valid(
                old(self).top_items@,
                old(self).item_summaries@,
                Some(old(self).top_items@[index as int].item),
            ),
        ensures
            final(self).n == old(self).n,
            final(self).history == old(self).history,
            at <= index,
            at == settle_index(
                entries(old(self).top_items@),
                old(self).top_items@[index as int].count as nat,
                index as int,
            ),
            entries(final(self).top_items@) == bubbled(entries(old(self).top_items@), index as int),
            final(self).top_items@.len() == old(self).top_items@.len(),
            final(self).top_items@[at as int] == old(self).top_items@[index as int],
            entries_indexed(
                final(self).top_items@,
                final(self).item_summaries@,
                Some(old(self).top_items@[index as int].item),
            ),
            positions_valid(
                final(self).top_items@,
                final(self).item_summaries@,
                Some(old(self).top_items@[index as int].item),
            ),
            final(self).item_summaries@.dom() == old(self).item_summaries@.dom(),
            forall|x: A| #[trigger]
                final(self).item_summaries@.contains_key(x) ==> final(self).item_summaries@[x].count
                    == old(self).item_summaries@[x].count,
    {
        let ghost start = self.top_items@;
        let ghost moving = start[index as int];
        let mut at = index;
        proof {
            assert(self.top_items@ =~= start.remove(index as int).insert(at as int, moving));
        }
        while at != 0 && self.top_items[at - 1].count < self.top_items[at].count
            invariant
                obeys_key_model::<A>(),
                at <= index < start.len(),
                start == old(self).top_items@,
                moving == start[index as int],
                self.n == old(self).n,
                self.history == old(self).history,
                self.top_items@ == start.remove(index as int).insert(at as int, moving),
                settle_index(entries(start), moving.count as nat, index as int) == settle_index(
                    entries(start),
                    moving.count as nat,
                    at as int,
                ),
                items_distinct(self.top_items@),
                entries_indexed(self.top_items@, self.item_summaries@, Some(moving.item)),
                positions_valid(self.top_items@, self.item_summaries@, Some(moving.item)),
                self.item_summaries@.dom() == old(self).item_summaries@.dom(),
                forall|x: A| #[trigger]
                    self.item_summaries@.contains_key(x) ==> self.item_summaries@[x].count == old(
                        self,
                    ).item_summaries@[x].count,
            decreases at,
        {
            let ghost current = self.top_items@;
            let ghost summaries = self.item_summaries@;
            let passed_item = self.top_items[at - 1].item;
            let passed_count = self.top_items[at - 1].count;
            let mover_item = self.top_items[at].item;
            let mover_count = self.top_items[at].count;
            self.top_items.set(at - 1, TopItem { item: mover_item, count: mover_count });
            self.top_items.set(at, TopItem { item: passed_item, count: passed_count });
            self.item_summaries.insert(
                passed_item,
                ItemSummary { position: Some(at), count: passed_count },
            );
            proof {
                lemma_swap_step(current, summaries, at);
                assert(self.top_items@ =~= swapped(current, at as int));
                assert(self.top_items@ =~= start.remove(index as int).insert(at - 1, moving));
            }
            at = at - 1;
        }
        proof {
            assert(entries(self.top_items@) =~= bubbled(entries(start), index as int));
        }
        at
    }

    /// How many times `item` has been recorded, leader or not.
    pub fn count(&self, item: &A) -> (total: u64)
        requires
            self.wf(),
        ensures
            total == self@.count(*item),
    {
        match self.item_summaries.get(item) {
            Some(summary) => summary.count,
            None => 0,
        }
    }
}

} // verus!
