use std::collections::VecDeque;

use kafka_sink::admission::SinkAsOf;
use kafka_sink::config::KafkaSinkConnector;
use kafka_sink::consistency::{KafkaSinkConsistencyConnector, TxnStatus};
use kafka_sink::model::Schedule;
use kafka_sink::retry::BrokerError;
use kafka_sink::sink::{produce_to_kafka, Action, KafkaSinkState, Record};
use timely::progress::Antichain;

/// What the broker took, in order.
#[derive(Debug, Clone, PartialEq, Eq)]
enum Took {
    Init,
    Begin,
    Commit,
    Abort,
    Flush,
    Data(Vec<u8>),
    Marker(TxnStatus, u64, Option<i64>),
}

struct Log {
    took: Vec<Took>,
    script: VecDeque<Result<(), BrokerError>>,
    frontiers: Vec<Vec<u64>>,
    progress: Vec<u64>,
}

fn log() -> Log {
    Log { took: Vec::new(), script: VecDeque::new(), frontiers: Vec::new(), progress: Vec::new() }
}

fn observe(s: &KafkaSinkState, log: &mut Log) {
    log.frontiers.push(s.write_frontier().elements().to_vec());
    log.progress.push(s.latest_progress_ts());
}

fn activate(s: &mut KafkaSinkState, frontier: Antichain<u64>, log: &mut Log) -> Schedule {
    assert!(s.is_shutdown() || s.admits_frontier(&frontier));
    let mut action = s.activate(false, &frontier, &Antichain::new());
    loop {
        observe(s, log);
        let call = match &action {
            Action::Yield(schedule) => return *schedule,
            Action::Sleep { .. } => None,
            Action::InFlightCount => None,
            Action::InitTransactions => Some(Took::Init),
            Action::BeginTransaction => Some(Took::Begin),
            Action::CommitTransaction => Some(Took::Commit),
            Action::AbortTransaction => Some(Took::Abort),
            Action::Flush => Some(Took::Flush),
            Action::Send(Record::Data { key, .. }) => Some(Took::Data(key.clone().unwrap())),
            Action::Send(Record::Consistency(r)) => {
                Some(Took::Marker(r.status, r.transaction_id.parse().unwrap(), r.message_count))
            }
        };
        action = match (call, action) {
            (Some(call), _) => {
                let outcome = log.script.pop_front().unwrap_or(Ok(()));
                if outcome.is_ok() {
                    log.took.push(call);
                }
                s.on_result(outcome)
            }
            (None, Action::Sleep { .. }) => s.on_wake(),
            (None, _) => s.on_in_flight(0),
        };
    }
}

fn queue(s: &mut KafkaSinkState, key: &str, time: u64, diff: i64) -> bool {
    assert!(s.takes(time, diff));
    s.queue_update(Some(key.as_bytes().to_vec()), None, time, diff)
}

fn sink(exactly_once: bool, consistent: bool, gate_ts: Option<u64>) -> KafkaSinkState {
    let connector = KafkaSinkConnector {
        addrs: "localhost:9092".to_string(),
        topic: "t".to_string(),
        topic_prefix: "p".to_string(),
        key_indices: None,
        relation_key_indices: None,
        published_schema_info: None,
        consistency: if consistent {
            Some(KafkaSinkConsistencyConnector { topic: "ct".to_string(), schema_id: 1, gate_ts })
        } else {
            None
        },
        exactly_once,
        fuel: 10,
        config_options: Vec::new(),
    };
    let as_of = SinkAsOf { frontier: Antichain::from_elem(0), strict: false };
    produce_to_kafka("u1", "kafka-u1".to_string(), "0", connector, as_of, true)
}

fn data(log: &Log) -> Vec<String> {
    log.took
        .iter()
        .filter_map(|t| match t {
            Took::Data(k) => Some(String::from_utf8(k.clone()).unwrap()),
            _ => None,
        })
        .collect()
}

#[test]
fn every_copy_goes_out_once() {
    let mut s = sink(false, false, None);
    let mut log = log();
    queue(&mut s, "a", 2, 3);
    queue(&mut s, "b", 4, 1);
    queue(&mut s, "c", 2, 2);
    activate(&mut s, Antichain::from_elem(3), &mut log);
    assert_eq!(data(&log), vec!["a", "a", "a", "c", "c"]);
    queue(&mut s, "d", 4, 2);
    activate(&mut s, Antichain::from_elem(4), &mut log);
    assert_eq!(data(&log).len(), 5);
    activate(&mut s, Antichain::from_elem(9), &mut log);
    assert_eq!(data(&log), vec!["a", "a", "a", "c", "c", "b", "d", "d"]);
    activate(&mut s, Antichain::new(), &mut log);
    assert_eq!(data(&log).len(), 8);
    assert_eq!(s.metrics().messages_sent_counter, 8);
    assert_eq!(s.metrics().rows_queued, 0);
}

#[test]
fn progress_and_write_frontier_never_go_back() {
    let mut s = sink(true, true, Some(3));
    let mut log = log();
    observe(&s, &mut log);
    queue(&mut s, "a", 5, 1);
    activate(&mut s, Antichain::from_elem(2), &mut log);
    activate(&mut s, Antichain::from_elem(6), &mut log);
    queue(&mut s, "b", 8, 1);
    queue(&mut s, "c", 9, 1);
    activate(&mut s, Antichain::from_elem(9), &mut log);
    // A send that fails for good shuts the sink down in the middle of a batch.
    log.script.extend(vec![Ok(()), Ok(()), Err(BrokerError::Other)]);
    assert_eq!(activate(&mut s, Antichain::from_elem(20), &mut log), Schedule::Now);
    assert!(s.is_shutdown());
    activate(&mut s, Antichain::from_elem(20), &mut log);
    observe(&s, &mut log);
    for pair in log.progress.windows(2) {
        assert!(pair[0] <= pair[1]);
    }
    for pair in log.frontiers.windows(2) {
        assert!(pair[1].is_empty() || (pair[0].len() == 1 && pair[1].len() == 1 && pair[0][0] <= pair[1][0]));
    }
    assert_eq!(log.progress.first(), Some(&3));
    assert_eq!(log.frontiers.first(), Some(&vec![0]));
    assert!(log.frontiers.contains(&vec![8]));
    assert_eq!(log.frontiers.last(), Some(&vec![]));
    assert_eq!(s.latest_progress_ts(), 8);
}

#[test]
fn reported_progress_is_strictly_below_what_may_come() {
    let mut s = sink(false, true, None);
    let mut log = log();
    queue(&mut s, "a", 5, 1);
    queue(&mut s, "b", 12, 1);
    // Timestamp 5 closes; 12 stays pending behind the frontier at 9.
    activate(&mut s, Antichain::from_elem(9), &mut log);
    assert_eq!(
        log.took,
        vec![
            Took::Marker(TxnStatus::Begin, 5, None),
            Took::Data(b"a".to_vec()),
            Took::Marker(TxnStatus::End, 5, Some(1)),
            Took::Flush,
            Took::Marker(TxnStatus::End, 8, None),
        ]
    );
    assert_eq!(s.write_frontier().elements(), &[8]);
    log.took.clear();
    // The frontier passes the pending timestamp: progress stops just below it.
    let mut durable = s.activate(false, &Antichain::from_elem(20), &Antichain::from_elem(10));
    loop {
        durable = match durable {
            Action::Yield(schedule) => {
                assert_eq!(schedule, Schedule::AfterMillis(100));
                break;
            }
            Action::Send(Record::Consistency(r)) => {
                log.took.push(Took::Marker(r.status, r.transaction_id.parse().unwrap(), r.message_count));
                s.on_result(Ok(()))
            }
            Action::InFlightCount => s.on_in_flight(0),
            _ => s.on_result(Ok(())),
        };
    }
    assert_eq!(log.took, vec![Took::Marker(TxnStatus::End, 11, None)]);
    assert_eq!(s.write_frontier().elements(), &[11]);
}

#[test]
fn committed_transactions_hold_whole_batches() {
    let mut s = sink(true, true, None);
    let mut log = log();
    queue(&mut s, "a", 2, 2);
    queue(&mut s, "b", 4, 1);
    // The second batch fails at its data record.
    log.script.extend(vec![Ok(()); 10]);
    log.script.push_back(Err(BrokerError::Other));
    assert_eq!(activate(&mut s, Antichain::from_elem(9), &mut log), Schedule::Now);
    assert_eq!(
        log.took,
        vec![
            Took::Init,
            Took::Begin,
            Took::Marker(TxnStatus::Begin, 2, None),
            Took::Data(b"a".to_vec()),
            Took::Data(b"a".to_vec()),
            Took::Marker(TxnStatus::End, 2, Some(2)),
            Took::Commit,
            Took::Flush,
            Took::Begin,
            Took::Marker(TxnStatus::Begin, 4, None),
        ]
    );
    // What lies between a begin and its commit is one whole batch; the batch that failed
    // was never committed.
    let commits = log.took.iter().filter(|t| **t == Took::Commit).count();
    assert_eq!(commits, 1);
    assert!(s.is_shutdown());
    assert_eq!(s.latest_progress_ts(), 0);
}

#[test]
fn next_incarnation_starts_beyond_the_committed_timestamp() {
    let mut first = sink(true, true, None);
    let mut log1 = log();
    queue(&mut first, "a", 5, 1);
    queue(&mut first, "b", 6, 1);
    // Timestamp 5 commits; the process dies before 6 does.
    log1.script.extend(vec![Ok(()); 8]);
    log1.script.push_back(Err(BrokerError::Canceled));
    activate(&mut first, Antichain::from_elem(9), &mut log1);
    assert_eq!(data(&log1), vec!["a"]);
    assert_eq!(log1.took.iter().filter(|t| **t == Took::Commit).count(), 1);

    // The restart gate timestamp is the last END that was committed.
    let mut second = sink(true, true, Some(5));
    assert_eq!(second.latest_progress_ts(), 5);
    let mut log2 = log();
    assert!(!queue(&mut second, "a", 5, 1));
    assert!(queue(&mut second, "b", 6, 1));
    activate(&mut second, Antichain::from_elem(9), &mut log2);
    assert_eq!(data(&log2), vec!["b"]);
    assert_eq!(
        log2.took.iter().find(|t| matches!(t, Took::Marker(..))),
        Some(&Took::Marker(TxnStatus::Begin, 6, None))
    );
}

#[test]
fn counts_of_a_timestamp_fit_the_message_count() {
    let mut s = sink(false, false, None);
    assert!(s.takes(3, i64::MAX - 1));
    assert!(s.queue_update(None, None, 3, i64::MAX - 1));
    assert!(s.takes(3, 1));
    assert!(!s.takes(3, 2));
    assert!(s.takes(4, i64::MAX));
    assert!(s.queue_update(None, None, 3, 1));
    assert!(!s.takes(3, 1));
}
