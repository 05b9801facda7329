use std::collections::HashMap;
use top_100_ips::top_tracker::TopTracker;

#[test]
fn empty_trackers_have_no_top_items() {
    let tracker: TopTracker<u8> = TopTracker::new(10);

    assert_eq!(tracker.top().len(), 0);
}

#[test]
fn tracking_0_items_has_no_top_items() {
    let mut tracker = TopTracker::new(0);
    tracker.increment(0);

    assert_eq!(tracker.top().len(), 0);
}

#[test]
fn more_top_items_than_unique_events() {
    let mut tracker = TopTracker::new(10);
    tracker.increment('A');
    tracker.increment('B');
    tracker.increment('C');

    assert_eq!(tracker.top(), vec![('A', 1), ('B', 1), ('C', 1)]);
}

#[test]
fn keeps_track_of_frequency() {
    let mut tracker = TopTracker::new(3);
    for i in 1..=5 {
        for _ in 0..i {
            // Add n, n times.
            tracker.increment(i);
            println!("{:?}", tracker.top());
        }
    }

    assert_eq!(tracker.top(), vec![(5, 5), (4, 4), (3, 3)]);
}

/// A small deterministic stream of items in `0..spread`.
fn stream(seed: u64, length: usize, spread: u64) -> Vec<u64> {
    let mut state = seed;
    let mut items = Vec::with_capacity(length);
    for _ in 0..length {
        state = state
            .wrapping_mul(6364136223846793005)
            .wrapping_add(1442695040888963407);
        // Square the draw so that small items come up far more often.
        let draw = (state >> 33) % (spread * spread);
        items.push((draw as f64).sqrt() as u64 % spread);
    }
    items
}

fn top_n(items: &[u64], size: usize) -> Vec<(u64, u64)> {
    let mut tracker = TopTracker::new(size);
    for item in items {
        tracker.increment(*item);
    }
    tracker.top()
}

fn tally(items: &[u64]) -> HashMap<u64, u64> {
    let mut counts = HashMap::new();
    for item in items {
        *counts.entry(*item).or_insert(0) += 1;
    }
    counts
}

#[test]
fn three_items_fill_three_slots() {
    let mut tracker = TopTracker::new(3);
    tracker.increment('A');
    tracker.increment('B');
    tracker.increment('C');

    let mut top = tracker.top();
    top.sort();
    assert_eq!(top, vec![('A', 1), ('B', 1), ('C', 1)]);
}

#[test]
fn repeated_items_bubble_to_top() {
    let mut tracker = TopTracker::new(100);

    // The address 192.168.1.100 occurs 100 times, 192.168.1.99 occurs 99
    // times, and so on. The first round lays them out in ascending order, so
    // every later round bubbles each entry as far as it can go.
    for i in 1..=100u8 {
        for j in i..=100u8 {
            tracker.increment([192, 168, 1, j]);
        }
    }

    let top = tracker.top();
    assert_eq!(top.len(), 100);
    assert_eq!(top[0], ([192, 168, 1, 100], 100));
    assert_eq!(top[100 - 35], ([192, 168, 1, 35], 35));
    assert_eq!(top[99], ([192, 168, 1, 1], 1));
    for (place, entry) in top.iter().enumerate() {
        assert_eq!(*entry, ([192, 168, 1, 100 - place as u8], 100 - place as u64));
    }
}

#[test]
fn capacity_zero_stays_empty_but_counts() {
    let mut tracker = TopTracker::new(0);
    for item in stream(7, 500, 9) {
        tracker.increment(item);
        assert!(tracker.top().is_empty());
    }
    let counts = tally(&stream(7, 500, 9));
    for (item, count) in counts {
        assert_eq!(tracker.count(&item), count);
    }
    assert_eq!(tracker.count(&1000), 0);
}

#[test]
fn never_keeps_too_many() {
    for size in 0..12 {
        let items = stream(size as u64 + 1, 400, 30);
        let mut tracker = TopTracker::new(size);
        for item in &items {
            tracker.increment(*item);
            assert!(tracker.top().len() <= size);
        }
        let distinct = tally(&items).len();
        assert_eq!(tracker.top().len(), size.min(distinct));
    }
}

#[test]
fn top_is_sorted_at_every_step() {
    let mut tracker = TopTracker::new(8);
    for item in stream(11, 1000, 40) {
        tracker.increment(item);
        let top = tracker.top();
        for pair in top.windows(2) {
            assert!(pair[0].1 >= pair[1].1);
        }
    }
}

#[test]
fn reported_counts_are_exact() {
    let items = stream(3, 2000, 50);
    let mut seen: HashMap<u64, u64> = HashMap::new();
    let mut tracker = TopTracker::new(10);
    for item in &items {
        tracker.increment(*item);
        *seen.entry(*item).or_insert(0) += 1;
        for (leader, count) in tracker.top() {
            assert_eq!(count, seen[&leader]);
            assert_eq!(tracker.count(&leader), count);
        }
    }
    for (item, count) in &seen {
        assert_eq!(tracker.count(item), *count);
    }
}

#[test]
fn count_follows_each_increment() {
    let mut tracker = TopTracker::new(1);
    assert_eq!(tracker.count(&'x'), 0);
    tracker.increment('x');
    assert_eq!(tracker.count(&'x'), 1);
    tracker.increment('y');
    tracker.increment('x');
    assert_eq!(tracker.count(&'x'), 2);
    assert_eq!(tracker.count(&'y'), 1);
    assert_eq!(tracker.count(&'z'), 0);
    assert_eq!(tracker.top(), vec![('x', 2)]);
}

#[test]
fn leaders_are_the_most_frequent() {
    let items = stream(5, 3000, 60);
    let top = top_n(&items, 7);
    let counts = tally(&items);
    assert_eq!(top.len(), 7);
    let smallest = top[top.len() - 1].1;
    for (item, count) in &counts {
        if !top.iter().any(|(leader, _)| leader == item) {
            assert!(*count <= smallest);
        }
    }
    let mut expected: Vec<u64> = counts.values().copied().collect();
    expected.sort_by(|a, b| b.cmp(a));
    expected.truncate(7);
    let shown: Vec<u64> = top.iter().map(|(_, count)| *count).collect();
    assert_eq!(shown, expected);
}

#[test]
fn leaders_never_repeat() {
    let top = top_n(&stream(13, 3000, 25), 20);
    for (place, (item, _)) in top.iter().enumerate() {
        for (other, _) in &top[place + 1..] {
            assert!(item != other);
        }
    }
}

#[test]
fn replay_gives_the_same_top() {
    for size in [0usize, 1, 3, 10] {
        let items = stream(17, 1500, 35);
        assert_eq!(top_n(&items, size), top_n(&items, size));
    }
}

#[test]
fn fresh_tracker_after_use_repeats_the_first_pass() {
    let items = stream(19, 1200, 20);
    let mut tracker = TopTracker::new(5);
    for item in &items {
        tracker.increment(*item);
    }
    let first = tracker.top();

    tracker = TopTracker::new(5);
    assert!(tracker.top().is_empty());
    assert_eq!(tracker.count(&items[0]), 0);
    for item in &items {
        tracker.increment(*item);
    }
    assert_eq!(tracker.top(), first);
}

#[test]
fn snapshot_is_not_touched_by_later_records() {
    let mut tracker = TopTracker::new(2);
    tracker.increment(1);
    tracker.increment(2);
    let snapshot = tracker.top();
    tracker.increment(2);
    tracker.increment(2);
    tracker.increment(3);
    assert_eq!(snapshot, vec![(1, 1), (2, 1)]);
    assert_eq!(tracker.top(), vec![(2, 3), (1, 1)]);
}

#[test]
fn outsider_enters_only_with_a_strictly_larger_count() {
    let mut tracker = TopTracker::new(2);
    for item in ['a', 'a', 'a', 'b', 'b'] {
        tracker.increment(item);
    }
    assert_eq!(tracker.top(), vec![('a', 3), ('b', 2)]);

    // One and two observations do not exceed the smallest leader's two.
    tracker.increment('c');
    assert_eq!(tracker.top(), vec![('a', 3), ('b', 2)]);
    tracker.increment('c');
    assert_eq!(tracker.top(), vec![('a', 3), ('b', 2)]);

    // The third does: 'c' replaces 'b' and bubbles no further than a tie.
    tracker.increment('c');
    assert_eq!(tracker.top(), vec![('a', 3), ('c', 3)]);

    // 'b' kept its count while outside, and comes back once it leads again.
    assert_eq!(tracker.count(&'b'), 2);
    tracker.increment('b');
    assert_eq!(tracker.top(), vec![('a', 3), ('c', 3)]);
    tracker.increment('b');
    assert_eq!(tracker.top(), vec![('b', 4), ('a', 3)]);
    assert_eq!(tracker.count(&'c'), 3);
}

#[test]
fn leader_bubbles_past_smaller_neighbours_only() {
    let mut tracker = TopTracker::new(4);
    for item in [1, 1, 1, 2, 2, 3, 3, 4] {
        tracker.increment(item);
    }
    assert_eq!(tracker.top(), vec![(1, 3), (2, 2), (3, 2), (4, 1)]);

    // 4 reaches two: it stops behind the entries that already have two.
    tracker.increment(4);
    assert_eq!(tracker.top(), vec![(1, 3), (2, 2), (3, 2), (4, 2)]);

    // 4 reaches three: it passes both twos and stops behind the three.
    tracker.increment(4);
    assert_eq!(tracker.top(), vec![(1, 3), (4, 3), (2, 2), (3, 2)]);

    // 3 reaches three: it passes 2 and stops behind the threes.
    tracker.increment(3);
    assert_eq!(tracker.top(), vec![(1, 3), (4, 3), (3, 3), (2, 2)]);

    // 2 reaches four after two more: it passes everything.
    tracker.increment(2);
    tracker.increment(2);
    assert_eq!(tracker.top(), vec![(2, 4), (1, 3), (4, 3), (3, 3)]);
}

#[test]
fn single_slot_follows_the_current_maximum() {
    let mut tracker = TopTracker::new(1);
    tracker.increment("left");
    assert_eq!(tracker.top(), vec![("left", 1)]);
    tracker.increment("right");
    assert_eq!(tracker.top(), vec![("left", 1)]);
    tracker.increment("right");
    assert_eq!(tracker.top(), vec![("right", 2)]);
    tracker.increment("left");
    assert_eq!(tracker.top(), vec![("right", 2)]);
    tracker.increment("left");
    assert_eq!(tracker.top(), vec![("left", 3)]);
}

#[test]
fn any_capacity_is_accepted() {
    let mut tracker = TopTracker::new(usize::MAX);
    assert!(tracker.top().is_empty());
    for item in [3u8, 1, 3, 2, 3, 1] {
        tracker.increment(item);
    }
    assert_eq!(tracker.top(), vec![(3, 3), (1, 2), (2, 1)]);
}
