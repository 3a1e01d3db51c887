use kafka_sink::admission::{admits, gated, in_time, should_emit, SinkAsOf};
use kafka_sink::election::{initial_write_frontier, is_active_write_worker};
use kafka_sink::frontier::{durability_frontier, single_or_none, try_single};
use timely::progress::Antichain;

#[test]
fn durability_frontier_is_the_meet() {
    let none: Vec<Antichain<u64>> = Vec::new();
    assert!(durability_frontier(&none).elements().is_empty());
    let one = vec![Antichain::from_elem(5)];
    assert_eq!(durability_frontier(&one).elements(), &[5]);
    let two = vec![Antichain::from_elem(5), Antichain::from_elem(3), Antichain::from_elem(9)];
    assert_eq!(durability_frontier(&two).elements(), &[3]);
    let with_empty = vec![Antichain::new(), Antichain::from_elem(4)];
    assert_eq!(durability_frontier(&with_empty).elements(), &[4]);
    let all_empty: Vec<Antichain<u64>> = vec![Antichain::new(), Antichain::new()];
    assert!(durability_frontier(&all_empty).elements().is_empty());
}

#[test]
fn single_or_none_reads_the_element() {
    assert_eq!(single_or_none(&Antichain::new()), None);
    assert_eq!(single_or_none(&Antichain::from_elem(7)), Some(7));
    assert_eq!(single_or_none(&Antichain::from_elem(0)), Some(0));
}

#[test]
fn try_single_tells_more_than_one_element() {
    assert_eq!(try_single(&Antichain::new()), Some(None));
    assert_eq!(try_single(&Antichain::from_elem(7)), Some(Some(7)));
    let mut two: Antichain<u64> = Antichain::new();
    two.extend(vec![3u64, 9]);
    // Of a total order an antichain keeps the least element only.
    assert_eq!(try_single(&two), Some(Some(3)));
}

#[test]
fn should_emit_is_inclusive_or_strict() {
    let inclusive = SinkAsOf { frontier: Antichain::from_elem(5), strict: false };
    assert!(!should_emit(&inclusive, 4));
    assert!(should_emit(&inclusive, 5));
    assert!(should_emit(&inclusive, 6));
    let strict = SinkAsOf { frontier: Antichain::from_elem(5), strict: true };
    assert!(!should_emit(&strict, 4));
    assert!(!should_emit(&strict, 5));
    assert!(should_emit(&strict, 6));
    let closed = SinkAsOf { frontier: Antichain::new(), strict: false };
    assert!(!should_emit(&closed, 0));
    assert!(!should_emit(&closed, u64::MAX));
}

#[test]
fn gated_is_at_or_below_the_gate_timestamp() {
    assert!(!gated(None, 0));
    assert!(gated(Some(7), 0));
    assert!(gated(Some(7), 7));
    assert!(!gated(Some(7), 8));
}

#[test]
fn admits_needs_time_and_copies() {
    let as_of = SinkAsOf { frontier: Antichain::from_elem(5), strict: false };
    assert!(admits(&as_of, Some(7), 8, 1));
    assert!(admits(&as_of, None, 5, 3));
    assert!(!admits(&as_of, Some(7), 8, 0));
    assert!(!admits(&as_of, Some(7), 7, 1));
    assert!(!admits(&as_of, None, 4, 1));
    // A negative count on an update that is not in time does no harm.
    assert!(!admits(&as_of, None, 4, -1));
    assert!(in_time(&as_of, Some(7), 8));
    assert!(!in_time(&as_of, Some(7), 6));
}

#[test]
fn exactly_one_worker_writes() {
    assert!(is_active_write_worker(7, 3, 1));
    assert!(!is_active_write_worker(7, 3, 0));
    assert!(!is_active_write_worker(7, 3, 2));
    assert!(is_active_write_worker(u64::MAX, 1, 0));
    for hashed in [0u64, 1, 12345, u64::MAX] {
        for peers in 1..6usize {
            let writers = (0..peers).filter(|w| is_active_write_worker(hashed, peers, *w)).count();
            assert_eq!(writers, 1);
        }
    }
}

#[test]
fn initial_write_frontier_by_role() {
    assert_eq!(initial_write_frontier(true).elements(), &[0]);
    assert!(initial_write_frontier(false).elements().is_empty());
}
