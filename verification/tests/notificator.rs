use timely::progress::count_map::CountMap;
use timely::progress::notificator::{capped_neg, Notificator};

fn ledger(entries: &[(u64, i64)]) -> CountMap<u64> {
    let mut map = CountMap::new();
    for (time, delta) in entries {
        map.update(time, *delta);
    }
    map
}

fn sorted(mut entries: Vec<(u64, i64)>) -> Vec<(u64, i64)> {
    entries.sort();
    entries
}

#[test]
fn nothing_is_ready_without_requests() {
    let mut notificator: Notificator<u64> = Notificator::new();
    assert_eq!(notificator.next(), None);
    let mut frontier = [ledger(&[(0, 1)])];
    notificator.update_frontier_from_cm(&mut frontier);
    assert!(frontier[0].is_empty());
    assert_eq!(notificator.next(), None);
}

#[test]
fn request_before_any_frontier_is_held() {
    let mut notificator: Notificator<u64> = Notificator::new();
    notificator.notify_at(&5);
    assert_eq!(notificator.next(), None);
    let mut internal = CountMap::new();
    notificator.pull_progress(&mut internal);
    assert_eq!(internal.drain(), vec![(5, 1)]);
    let mut frontier = [ledger(&[(0, 1)])];
    notificator.update_frontier_from_cm(&mut frontier);
    assert_eq!(notificator.next(), None);
}

#[test]
fn request_is_delivered_once_the_frontier_has_passed() {
    let mut notificator: Notificator<u64> = Notificator::new();
    let mut frontier = [ledger(&[(5, 1)])];
    notificator.update_frontier_from_cm(&mut frontier);
    notificator.notify_at(&5);
    let mut internal = CountMap::new();
    notificator.pull_progress(&mut internal);
    assert_eq!(internal.drain(), vec![(5, 1)]);

    let mut same = [CountMap::new()];
    notificator.update_frontier_from_cm(&mut same);
    assert_eq!(notificator.next(), None);

    let mut advance = [ledger(&[(5, -1), (6, 1)])];
    notificator.update_frontier_from_cm(&mut advance);
    assert_eq!(notificator.next(), Some((5, 1)));
    assert_eq!(notificator.next(), None);
    notificator.pull_progress(&mut internal);
    assert_eq!(internal.drain(), vec![(5, -1)]);
}

#[test]
fn requests_for_one_time_add_up() {
    let mut notificator: Notificator<u64> = Notificator::new();
    let mut frontier = [ledger(&[(0, 1)])];
    notificator.update_frontier_from_cm(&mut frontier);
    notificator.notify_at(&5);
    notificator.notify_at(&5);
    notificator.notify_at(&5);
    notificator.notify_at(&9);
    let mut close = [ledger(&[(0, -1), (7, 1)])];
    notificator.update_frontier_from_cm(&mut close);
    assert_eq!(notificator.next(), Some((5, 3)));
    assert_eq!(notificator.next(), None);
    let mut internal = CountMap::new();
    notificator.pull_progress(&mut internal);
    assert_eq!(sorted(internal.drain()), vec![(9, 1)]);
}

#[test]
fn every_input_must_have_passed() {
    let mut notificator: Notificator<u64> = Notificator::new();
    let mut frontier = [ledger(&[(0, 1)]), ledger(&[(0, 1)])];
    notificator.update_frontier_from_cm(&mut frontier);
    notificator.notify_at(&3);
    let mut first = [ledger(&[(0, -1), (4, 1)]), CountMap::new()];
    notificator.update_frontier_from_cm(&mut first);
    assert_eq!(notificator.next(), None);
    let mut second = [CountMap::new(), ledger(&[(0, -1), (3, 1)])];
    notificator.update_frontier_from_cm(&mut second);
    assert_eq!(notificator.next(), None);
    let mut third = [CountMap::new(), ledger(&[(3, -1)])];
    notificator.update_frontier_from_cm(&mut third);
    assert_eq!(notificator.next(), Some((3, 1)));
}

#[test]
fn closed_inputs_release_everything() {
    let mut notificator: Notificator<u64> = Notificator::new();
    let mut frontier = [ledger(&[(0, 1)])];
    notificator.update_frontier_from_cm(&mut frontier);
    notificator.notify_at(&1);
    notificator.notify_at(&1_000_000);
    let mut close = [ledger(&[(0, -1)])];
    notificator.update_frontier_from_cm(&mut close);
    let mut ready = Vec::new();
    while let Some(entry) = notificator.next() {
        ready.push(entry);
    }
    assert_eq!(sorted(ready), vec![(1, 1), (1_000_000, 1)]);
}

#[test]
fn ready_request_waits_again_when_the_frontier_returns() {
    let mut notificator: Notificator<u64> = Notificator::new();
    let mut frontier = [ledger(&[(8, 1)])];
    notificator.update_frontier_from_cm(&mut frontier);
    notificator.notify_at(&5);
    let mut touch = [CountMap::new()];
    notificator.update_frontier_from_cm(&mut touch);
    let mut back = [ledger(&[(2, 1)])];
    notificator.update_frontier_from_cm(&mut back);
    assert_eq!(notificator.next(), None);
    let mut forth = [ledger(&[(2, -1)])];
    notificator.update_frontier_from_cm(&mut forth);
    assert_eq!(notificator.next(), Some((5, 1)));
}

#[test]
fn frontiers_grow_with_the_number_of_inputs() {
    let mut notificator: Notificator<u64> = Notificator::new();
    let mut one = [ledger(&[(9, 1)])];
    notificator.update_frontier_from_cm(&mut one);
    notificator.notify_at(&4);
    let mut two = [CountMap::new(), ledger(&[(1, 1)])];
    notificator.update_frontier_from_cm(&mut two);
    assert_eq!(notificator.next(), None);
    let mut empty: [CountMap<u64>; 0] = [];
    notificator.update_frontier_from_cm(&mut empty);
    assert_eq!(notificator.next(), None);
    let mut two = [CountMap::new(), ledger(&[(1, -1)])];
    notificator.update_frontier_from_cm(&mut two);
    assert_eq!(notificator.next(), Some((4, 1)));
}

#[test]
fn pull_progress_merges_into_the_accumulator() {
    let mut notificator: Notificator<u64> = Notificator::new();
    notificator.notify_at(&5);
    notificator.notify_at(&6);
    let mut internal = ledger(&[(5, 2), (6, -1)]);
    notificator.pull_progress(&mut internal);
    assert_eq!(internal.drain(), vec![(5, 3)]);
    notificator.pull_progress(&mut internal);
    assert!(internal.is_empty());
}

#[test]
fn every_request_counts_at_least_once() {
    let mut notificator: Notificator<u64> = Notificator::new();
    notificator.settled();
    let mut frontier = [ledger(&[(0, 1)])];
    notificator.update_frontier_from_cm(&mut frontier);
    for time in [4u64, 2, 4, 4, 7] {
        notificator.notify_at(&time);
    }
    notificator.settled();
    let mut close = [ledger(&[(0, -1)])];
    notificator.update_frontier_from_cm(&mut close);
    notificator.settled();
    let mut ready = Vec::new();
    while let Some((time, count)) = notificator.next() {
        assert!(count >= 1);
        ready.push((time, count));
    }
    assert_eq!(sorted(ready), vec![(2, 1), (4, 3), (7, 1)]);
}

#[test]
fn negation_stops_at_the_largest_count() {
    assert_eq!(capped_neg(3), -3);
    assert_eq!(capped_neg(-3), 3);
    assert_eq!(capped_neg(0), 0);
    assert_eq!(capped_neg(i64::MIN), i64::MAX);
}
