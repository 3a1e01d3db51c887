use kafka_sink::admission::SinkAsOf;
use kafka_sink::pending::PendingMap;
use kafka_sink::rows::{Batch, EncodedRow};
use kafka_sink::stash::{Stash, Update};
use timely::progress::Antichain;

fn row(tag: u8, count: u64) -> EncodedRow {
    EncodedRow { key: Some(vec![tag]), value: None, count }
}

fn tags(batch: &Batch) -> Vec<(u8, u64)> {
    (0..batch.len()).map(|i| (batch.row(i).key.as_ref().unwrap()[0], batch.row(i).count)).collect()
}

#[test]
fn batch_keeps_arrival_order_and_total() {
    let mut batch = Batch::new(9, row(1, 2));
    batch.push(row(2, 1));
    batch.push(row(1, 4));
    assert_eq!(batch.ts(), 9);
    assert_eq!(batch.len(), 3);
    assert_eq!(batch.total(), 7);
    assert_eq!(tags(&batch), vec![(1, 2), (2, 1), (1, 4)]);
}

#[test]
fn pending_map_hands_out_closed_timestamps_ascending() {
    let mut map = PendingMap::new();
    assert!(map.is_empty());
    assert_eq!(map.min_key(), None);
    map.push(7, row(1, 1));
    map.push(3, row(2, 1));
    map.push(9, row(3, 1));
    map.push(3, row(4, 2));
    map.push(5, row(5, 1));
    assert_eq!(map.len(), 4);
    assert_eq!(map.min_key(), Some(3));
    assert_eq!(map.total_at(3), 3);
    assert_eq!(map.total_at(4), 0);
    // The input frontier is at 8, the durability frontier at 6: 3 and 5 are closed.
    let closed = map.take_closed(&Antichain::from_elem(8), &Antichain::from_elem(6));
    assert_eq!(closed.iter().map(|b| b.ts()).collect::<Vec<_>>(), vec![3, 5]);
    assert_eq!(tags(&closed[0]), vec![(2, 1), (4, 2)]);
    assert_eq!(map.min_key(), Some(7));
    // Nothing more closes under the same frontiers.
    assert!(map.take_closed(&Antichain::from_elem(8), &Antichain::from_elem(6)).is_empty());
    // Empty frontiers close everything.
    let rest = map.take_closed(&Antichain::new(), &Antichain::new());
    assert_eq!(rest.iter().map(|b| b.ts()).collect::<Vec<_>>(), vec![7, 9]);
    assert!(map.is_empty());
}

#[test]
fn timestamp_at_the_frontier_stays_pending() {
    let mut map = PendingMap::new();
    map.push(5, row(1, 1));
    assert!(map.take_closed(&Antichain::from_elem(5), &Antichain::new()).is_empty());
    assert!(map.take_closed(&Antichain::new(), &Antichain::from_elem(5)).is_empty());
    assert_eq!(map.take_closed(&Antichain::from_elem(6), &Antichain::new()).len(), 1);
}

fn update(row: u32, time: u64) -> Update<u32> {
    Update { row, time, diff: 1 }
}

fn counted(row: u32, time: u64, diff: i64) -> Update<u32> {
    Update { row, time, diff }
}

fn rows(updates: &[Update<u32>]) -> Vec<u32> {
    updates.iter().map(|u| u.row).collect()
}

fn stash_all(stash: &mut Stash<u32>, capability: u64, data: Vec<Update<u32>>) {
    for u in &data {
        assert!(stash.takes(u.time, u.diff));
    }
    stash.stash_input(capability, data);
}

#[test]
fn stash_drops_what_is_not_in_time() {
    let as_of = SinkAsOf { frontier: Antichain::from_elem(5), strict: true };
    let mut stash: Stash<u32> = Stash::new(as_of, Some(6));
    stash_all(&mut stash, 1, vec![update(10, 5), update(11, 6), update(12, 7), update(13, 9), update(14, 8)]);
    let sessions = stash.drain(100);
    assert_eq!(sessions.len(), 1);
    assert_eq!(sessions[0].capability, 1);
    assert_eq!(rows(&sessions[0].updates), vec![12, 13, 14]);
    assert!(stash.is_empty());
}

#[test]
fn stash_drops_updates_without_copies() {
    let as_of = SinkAsOf { frontier: Antichain::from_elem(0), strict: false };
    let mut stash: Stash<u32> = Stash::new(as_of, Some(3));
    stash_all(
        &mut stash,
        1,
        vec![counted(10, 4, 2), counted(11, 4, 0), counted(12, 5, 1), counted(13, 2, -1), counted(14, 3, 0)],
    );
    let sessions = stash.drain(100);
    assert_eq!(sessions.len(), 1);
    assert_eq!(rows(&sessions[0].updates), vec![10, 12]);
    assert_eq!(sessions[0].updates[0].diff, 2);
    // A negative count on an update that is in time is never taken.
    assert!(!stash.takes(4, -1));
    assert!(stash.takes(3, -1));
    assert!(stash.takes(4, 0));
}

#[test]
fn nothing_at_or_below_the_gate_timestamp_is_ever_handed_on() {
    let as_of = SinkAsOf { frontier: Antichain::from_elem(0), strict: false };
    let mut stash: Stash<u32> = Stash::new(as_of, Some(7));
    let mut handed = Vec::new();
    for round in 0..6u64 {
        let data = (0..10u64).map(|t| update((round * 10 + t) as u32, t + round)).collect();
        stash_all(&mut stash, round, data);
        for session in stash.drain(3) {
            handed.extend(session.updates);
        }
    }
    while !stash.is_empty() {
        for session in stash.drain(4) {
            handed.extend(session.updates);
        }
    }
    assert!(handed.iter().all(|u| u.time > 7));
    // Every update beyond the restart gate timestamp came through, once.
    let expected: usize = (0..6u64).map(|round| (0..10u64).filter(|t| t + round > 7).count()).sum();
    assert_eq!(handed.len(), expected);
    let mut seen: Vec<u32> = rows(&handed);
    seen.sort();
    seen.dedup();
    assert_eq!(seen.len(), expected);
}

#[test]
fn stash_is_drained_by_fuel_from_the_least_capability() {
    let as_of = SinkAsOf { frontier: Antichain::from_elem(0), strict: false };
    let mut stash: Stash<u32> = Stash::new(as_of, None);
    stash_all(&mut stash, 4, vec![update(40, 4), update(41, 4)]);
    stash_all(&mut stash, 2, vec![update(20, 2), update(21, 3), update(22, 2)]);
    stash_all(&mut stash, 4, vec![update(42, 5)]);
    assert!(stash.drain(0).is_empty());
    assert!(stash.holds(2));
    assert!(stash.holds(4));
    assert!(!stash.holds(3));
    let first = stash.drain(2);
    assert_eq!(first.len(), 1);
    assert_eq!(first[0].capability, 2);
    assert_eq!(rows(&first[0].updates), vec![20, 21]);
    assert!(!stash.is_empty());
    let second = stash.drain(3);
    assert_eq!(second.len(), 2);
    assert_eq!((second[0].capability, rows(&second[0].updates)), (2, vec![22]));
    assert_eq!((second[1].capability, rows(&second[1].updates)), (4, vec![40, 41]));
    assert!(!stash.is_empty());
    let third = stash.drain(5);
    assert_eq!(third.len(), 1);
    assert_eq!((third[0].capability, rows(&third[0].updates)), (4, vec![42]));
    assert!(stash.is_empty());
    assert!(stash.drain(5).is_empty());
}

#[test]
fn capability_without_updates_leaves_with_an_empty_session() {
    let as_of = SinkAsOf { frontier: Antichain::from_elem(10), strict: false };
    let mut stash: Stash<u32> = Stash::new(as_of, None);
    stash_all(&mut stash, 3, vec![update(1, 2)]);
    assert!(!stash.is_empty());
    let sessions = stash.drain(1);
    assert_eq!(sessions.len(), 1);
    assert_eq!(sessions[0].capability, 3);
    assert!(sessions[0].updates.is_empty());
    assert!(stash.is_empty());
}
