use std::collections::VecDeque;

use kafka_sink::admission::SinkAsOf;
use kafka_sink::config::KafkaSinkConnector;
use kafka_sink::consistency::{ConsistencyRecord, KafkaSinkConsistencyConnector, TxnStatus};
use kafka_sink::model::{Phase, Schedule, SendState};
use kafka_sink::retry::BrokerError;
use kafka_sink::sink::{produce_to_kafka, Action, KafkaSinkState, Record};
use timely::progress::Antichain;

/// What the broker saw, in order.
#[derive(Debug, Clone, PartialEq, Eq)]
enum Seen {
    Init,
    Begin,
    Commit,
    Abort,
    Flush,
    Data(Option<Vec<u8>>, Option<Vec<u8>>),
    Marker(i32, String, String, &'static str, Option<i64>),
}

/// A broker that answers from a script; without a script every call succeeds.
struct Broker {
    seen: Vec<Seen>,
    script: VecDeque<Result<(), BrokerError>>,
    slept: Vec<u64>,
    in_flight: i32,
}

impl Broker {
    fn new() -> Broker {
        Broker { seen: Vec::new(), script: VecDeque::new(), slept: Vec::new(), in_flight: 0 }
    }

    fn answer(&mut self, call: Seen) -> Result<(), BrokerError> {
        let outcome = self.script.pop_front().unwrap_or(Ok(()));
        if outcome.is_ok() {
            self.seen.push(call);
        }
        outcome
    }

    fn data(&self) -> Vec<(Option<Vec<u8>>, Option<Vec<u8>>)> {
        let mut out = Vec::new();
        for s in &self.seen {
            if let Seen::Data(k, v) = s {
                out.push((k.clone(), v.clone()));
            }
        }
        out
    }

    fn markers(&self) -> Vec<Seen> {
        self.seen.iter().filter(|s| matches!(s, Seen::Marker(..))).cloned().collect()
    }
}

fn marker(r: &ConsistencyRecord) -> Seen {
    let status = match r.status {
        TxnStatus::Begin => "BEGIN",
        TxnStatus::End => "END",
    };
    assert_eq!(r.status.name(), status);
    Seen::Marker(r.schema_id, r.topic_prefix.clone(), r.transaction_id.clone(), status, r.message_count)
}

/// Performs the actions of one activation.
fn drive(s: &mut KafkaSinkState, first: Action, broker: &mut Broker) -> Schedule {
    let mut action = first;
    loop {
        action = match action {
            Action::Yield(schedule) => return schedule,
            Action::Sleep { millis } => {
                broker.slept.push(millis);
                assert!(s.is_sleeping());
                s.on_wake()
            }
            Action::InFlightCount => {
                assert_eq!(s.phase(), Phase::InFlight);
                s.on_in_flight(broker.in_flight)
            }
            Action::InitTransactions => s.on_result(broker.answer(Seen::Init)),
            Action::BeginTransaction => s.on_result(broker.answer(Seen::Begin)),
            Action::CommitTransaction => s.on_result(broker.answer(Seen::Commit)),
            Action::AbortTransaction => s.on_result(broker.answer(Seen::Abort)),
            Action::Flush => s.on_result(broker.answer(Seen::Flush)),
            Action::Send(Record::Data { topic, key, value }) => {
                assert_eq!(topic, "t");
                s.on_result(broker.answer(Seen::Data(key, value)))
            }
            Action::Send(Record::Consistency(r)) => {
                assert_eq!(r.topic, "ct");
                assert_eq!(r.key(), "p");
                s.on_result(broker.answer(marker(&r)))
            }
        };
    }
}

fn activate(s: &mut KafkaSinkState, shutdown: bool, frontier: &Antichain<u64>, broker: &mut Broker) -> Schedule {
    assert_eq!(s.phase(), Phase::Idle);
    if !(s.is_shutdown() || shutdown) {
        assert!(s.admits_frontier(frontier));
    }
    let first = s.activate(shutdown, frontier, &Antichain::new());
    drive(s, first, broker)
}

fn queue(s: &mut KafkaSinkState, key: &str, value: &str, time: u64, diff: i64) -> bool {
    assert!(s.takes(time, diff));
    s.queue_update(Some(key.as_bytes().to_vec()), Some(value.as_bytes().to_vec()), time, diff)
}

fn connector(exactly_once: bool, consistency: Option<KafkaSinkConsistencyConnector>) -> KafkaSinkConnector {
    KafkaSinkConnector {
        addrs: "localhost:9092".to_string(),
        topic: "t".to_string(),
        topic_prefix: "p".to_string(),
        key_indices: None,
        relation_key_indices: None,
        published_schema_info: None,
        consistency,
        exactly_once,
        fuel: 10,
        config_options: Vec::new(),
    }
}

fn ct(gate_ts: Option<u64>) -> Option<KafkaSinkConsistencyConnector> {
    Some(KafkaSinkConsistencyConnector { topic: "ct".to_string(), schema_id: 42, gate_ts })
}

fn sink(exactly_once: bool, consistency: Option<KafkaSinkConsistencyConnector>) -> KafkaSinkState {
    let as_of = SinkAsOf { frontier: Antichain::from_elem(0), strict: false };
    produce_to_kafka("u1", "kafka-u1".to_string(), "0", connector(exactly_once, consistency), as_of, true)
}

fn rec(key: &str, value: &str) -> (Option<Vec<u8>>, Option<Vec<u8>>) {
    (Some(key.as_bytes().to_vec()), Some(value.as_bytes().to_vec()))
}

#[test]
fn single_timestamp_batch_without_consistency_topic() {
    let mut s = sink(false, None);
    let mut broker = Broker::new();
    assert!(queue(&mut s, "kA", "vA", 5, 1));
    assert!(queue(&mut s, "kB", "vB", 5, 2));
    assert_eq!(s.metrics().rows_queued, 2);
    let schedule = activate(&mut s, false, &Antichain::from_elem(6), &mut broker);
    assert_eq!(schedule, Schedule::Complete);
    assert_eq!(broker.data(), vec![rec("kA", "vA"), rec("kB", "vB"), rec("kB", "vB")]);
    assert!(broker.markers().is_empty());
    assert_eq!(
        broker.seen,
        vec![
            Seen::Data(rec("kA", "vA").0, rec("kA", "vA").1),
            Seen::Data(rec("kB", "vB").0, rec("kB", "vB").1),
            Seen::Data(rec("kB", "vB").0, rec("kB", "vB").1),
            Seen::Flush,
        ]
    );
    assert_eq!(s.write_frontier().elements(), &[5]);
    assert_eq!(s.latest_progress_ts(), 5);
    assert_eq!(s.metrics().messages_sent_counter, 3);
    assert_eq!(s.metrics().rows_queued, 0);
    assert_eq!(s.send_state(), SendState::Running);
    assert!(!s.is_shutdown());
}

#[test]
fn exactly_once_with_consistency_topic() {
    let mut s = sink(true, ct(None));
    let mut broker = Broker::new();
    queue(&mut s, "kA", "vA", 5, 1);
    queue(&mut s, "kB", "vB", 5, 2);
    let schedule = activate(&mut s, false, &Antichain::from_elem(6), &mut broker);
    assert_eq!(schedule, Schedule::Complete);
    assert_eq!(
        broker.seen,
        vec![
            Seen::Init,
            Seen::Begin,
            Seen::Marker(42, "p".to_string(), "5".to_string(), "BEGIN", None),
            Seen::Data(rec("kA", "vA").0, rec("kA", "vA").1),
            Seen::Data(rec("kB", "vB").0, rec("kB", "vB").1),
            Seen::Data(rec("kB", "vB").0, rec("kB", "vB").1),
            Seen::Marker(42, "p".to_string(), "5".to_string(), "END", Some(3)),
            Seen::Commit,
            Seen::Flush,
        ]
    );
    assert_eq!(s.write_frontier().elements(), &[5]);
    assert_eq!(s.latest_progress_ts(), 5);
    assert_eq!(s.metrics().messages_sent_counter, 5);
}

#[test]
fn gate_on_restart() {
    let mut s = sink(false, ct(Some(7)));
    assert_eq!(s.latest_progress_ts(), 7);
    let mut broker = Broker::new();
    assert!(!queue(&mut s, "k5", "v5", 5, 1));
    assert!(!queue(&mut s, "k6", "v6", 6, 1));
    assert!(!queue(&mut s, "k7", "v7", 7, 1));
    assert!(queue(&mut s, "k8", "v8", 8, 1));
    assert_eq!(s.pending_len(), 1);
    activate(&mut s, false, &Antichain::from_elem(9), &mut broker);
    assert_eq!(broker.data(), vec![rec("k8", "v8")]);
    assert_eq!(
        broker.markers(),
        vec![
            Seen::Marker(42, "p".to_string(), "8".to_string(), "BEGIN", None),
            Seen::Marker(42, "p".to_string(), "8".to_string(), "END", Some(1)),
        ]
    );
    assert_eq!(s.latest_progress_ts(), 8);
    assert_eq!(s.write_frontier().elements(), &[8]);
}

#[test]
fn progress_without_data() {
    let mut s = sink(false, ct(None));
    let mut broker = Broker::new();
    let schedule = activate(&mut s, false, &Antichain::from_elem(0), &mut broker);
    assert_eq!(schedule, Schedule::Complete);
    assert!(broker.seen.is_empty());
    assert_eq!(s.write_frontier().elements(), &[0]);
    let schedule = activate(&mut s, false, &Antichain::from_elem(10), &mut broker);
    assert_eq!(schedule, Schedule::Complete);
    assert_eq!(broker.seen, vec![Seen::Marker(42, "p".to_string(), "9".to_string(), "END", None)]);
    assert_eq!(s.write_frontier().elements(), &[9]);
    assert_eq!(s.latest_progress_ts(), 9);
    assert!(broker.data().is_empty());
    // The same frontier again reports nothing new.
    activate(&mut s, false, &Antichain::from_elem(10), &mut broker);
    assert_eq!(broker.seen.len(), 1);
    assert_eq!(s.write_frontier().elements(), &[9]);
}

#[test]
fn queue_full_is_retried() {
    let mut s = sink(false, None);
    let mut broker = Broker::new();
    broker.script.push_back(Err(BrokerError::QueueFull));
    queue(&mut s, "k", "v", 5, 1);
    let schedule = activate(&mut s, false, &Antichain::from_elem(6), &mut broker);
    assert_eq!(schedule, Schedule::Complete);
    assert_eq!(broker.data(), vec![rec("k", "v")]);
    assert_eq!(s.metrics().message_send_errors_counter, 1);
    assert_eq!(s.metrics().messages_sent_counter, 1);
    assert_eq!(broker.slept, vec![125]);
    assert!(!s.is_shutdown());
}

#[test]
fn commit_that_requires_abort_shuts_down() {
    let mut s = sink(true, ct(None));
    let mut broker = Broker::new();
    queue(&mut s, "k", "v", 5, 1);
    // init, begin, BEGIN, data, END succeed; the commit fails and asks for an abort.
    for _ in 0..5 {
        broker.script.push_back(Ok(()));
    }
    broker.script.push_back(Err(BrokerError::Transaction { requires_abort: true, retriable: false }));
    let schedule = activate(&mut s, false, &Antichain::from_elem(6), &mut broker);
    assert_eq!(schedule, Schedule::Now);
    assert!(s.is_shutdown());
    assert_eq!(broker.seen.last(), Some(&Seen::Abort));
    assert!(!broker.seen.contains(&Seen::Commit));
    let markers_before = broker.markers();
    assert_eq!(
        markers_before,
        vec![
            Seen::Marker(42, "p".to_string(), "5".to_string(), "BEGIN", None),
            Seen::Marker(42, "p".to_string(), "5".to_string(), "END", Some(1)),
        ]
    );
    // The next activation flushes once and clears the write frontier.
    let schedule = activate(&mut s, false, &Antichain::from_elem(7), &mut broker);
    assert_eq!(schedule, Schedule::Complete);
    assert_eq!(broker.seen.last(), Some(&Seen::Flush));
    assert!(s.write_frontier().elements().is_empty());
    assert_eq!(broker.markers(), markers_before);
    assert_eq!(s.latest_progress_ts(), 0);
}
