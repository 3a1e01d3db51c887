use std::collections::VecDeque;

use kafka_sink::admission::SinkAsOf;
use kafka_sink::config::KafkaSinkConnector;
use kafka_sink::consistency::{KafkaSinkConsistencyConnector, TxnStatus};
use kafka_sink::model::{Phase, Schedule, SendState};
use kafka_sink::retry::BrokerError;
use kafka_sink::sink::{produce_to_kafka, Action, KafkaSinkState, Record};
use timely::progress::Antichain;

/// A call that the broker took, or that failed (`ok` false).
#[derive(Debug, Clone, PartialEq, Eq)]
struct Call {
    what: String,
    ok: bool,
}

struct Fake {
    calls: Vec<Call>,
    script: VecDeque<Result<(), BrokerError>>,
    slept: Vec<u64>,
    in_flight: i32,
}

fn fake() -> Fake {
    Fake { calls: Vec::new(), script: VecDeque::new(), slept: Vec::new(), in_flight: 0 }
}

fn took(fake: &Fake) -> Vec<String> {
    fake.calls.iter().filter(|c| c.ok).map(|c| c.what.clone()).collect()
}

fn describe(action: &Action) -> String {
    match action {
        Action::InitTransactions => "init".to_string(),
        Action::BeginTransaction => "begin".to_string(),
        Action::CommitTransaction => "commit".to_string(),
        Action::AbortTransaction => "abort".to_string(),
        Action::Flush => "flush".to_string(),
        Action::Send(Record::Data { key, value, .. }) => format!(
            "data {}={}",
            String::from_utf8_lossy(key.as_deref().unwrap_or(b"-")),
            String::from_utf8_lossy(value.as_deref().unwrap_or(b"-"))
        ),
        Action::Send(Record::Consistency(r)) => format!(
            "{} {}{}",
            match r.status {
                TxnStatus::Begin => "BEGIN",
                TxnStatus::End => "END",
            },
            r.transaction_id,
            match r.message_count {
                Some(n) => format!(" {}", n),
                None => String::new(),
            }
        ),
        Action::Sleep { millis } => format!("sleep {}", millis),
        Action::InFlightCount => "in-flight".to_string(),
        Action::Yield(_) => "yield".to_string(),
    }
}

fn drive(s: &mut KafkaSinkState, first: Action, fake: &mut Fake) -> Schedule {
    let mut action = first;
    loop {
        action = match action {
            Action::Yield(schedule) => return schedule,
            Action::Sleep { millis } => {
                fake.slept.push(millis);
                s.on_wake()
            }
            Action::InFlightCount => s.on_in_flight(fake.in_flight),
            other => {
                assert!(s.awaits_result());
                let outcome = fake.script.pop_front().unwrap_or(Ok(()));
                fake.calls.push(Call { what: describe(&other), ok: outcome.is_ok() });
                s.on_result(outcome)
            }
        };
    }
}

fn run(s: &mut KafkaSinkState, frontier: Antichain<u64>, durability: Antichain<u64>, fake: &mut Fake) -> Schedule {
    assert!(s.is_shutdown() || s.admits_frontier(&frontier));
    let first = s.activate(false, &frontier, &durability);
    drive(s, first, fake)
}

fn queue(s: &mut KafkaSinkState, key: &str, time: u64, diff: i64) -> bool {
    assert!(s.takes(time, diff));
    s.queue_update(Some(key.as_bytes().to_vec()), None, time, diff)
}

fn sink(exactly_once: bool, consistent: bool, writer: bool, as_of: SinkAsOf) -> KafkaSinkState {
    let connector = KafkaSinkConnector {
        addrs: "localhost:9092".to_string(),
        topic: "t".to_string(),
        topic_prefix: "p".to_string(),
        key_indices: None,
        relation_key_indices: None,
        published_schema_info: None,
        consistency: if consistent {
            Some(KafkaSinkConsistencyConnector { topic: "ct".to_string(), schema_id: 1, gate_ts: None })
        } else {
            None
        },
        exactly_once,
        fuel: 10,
        config_options: Vec::new(),
    };
    produce_to_kafka("u1", "kafka-u1".to_string(), "0", connector, as_of, writer)
}

fn from_zero() -> SinkAsOf {
    SinkAsOf { frontier: Antichain::from_elem(0), strict: false }
}

fn strs(v: &[&str]) -> Vec<String> {
    v.iter().map(|s| s.to_string()).collect()
}

#[test]
fn timestamps_go_out_in_ascending_order() {
    let mut s = sink(false, false, true, from_zero());
    let mut f = fake();
    queue(&mut s, "c", 7, 1);
    queue(&mut s, "a", 3, 1);
    queue(&mut s, "b", 5, 2);
    queue(&mut s, "a2", 3, 1);
    run(&mut s, Antichain::from_elem(8), Antichain::new(), &mut f);
    assert_eq!(
        took(&f),
        strs(&["data a=-", "data a2=-", "flush", "data b=-", "data b=-", "flush", "data c=-", "flush"])
    );
    assert_eq!(s.latest_progress_ts(), 7);
    assert_eq!(s.write_frontier().elements(), &[7]);
}

#[test]
fn durability_frontier_holds_timestamps_back() {
    let mut s = sink(false, false, true, from_zero());
    let mut f = fake();
    queue(&mut s, "a", 3, 1);
    queue(&mut s, "b", 5, 1);
    let schedule = run(&mut s, Antichain::from_elem(9), Antichain::from_elem(4), &mut f);
    assert_eq!(took(&f), strs(&["data a=-", "flush"]));
    assert_eq!(schedule, Schedule::AfterMillis(100));
    assert_eq!(s.pending_len(), 1);
    // The write frontier stays below the least pending timestamp.
    assert_eq!(s.write_frontier().elements(), &[4]);
    let schedule = run(&mut s, Antichain::from_elem(9), Antichain::from_elem(6), &mut f);
    assert_eq!(took(&f), strs(&["data a=-", "flush", "data b=-", "flush"]));
    assert_eq!(schedule, Schedule::Complete);
    assert_eq!(s.write_frontier().elements(), &[8]);
}

#[test]
fn without_a_consistency_topic_only_batches_move_the_latest_progress() {
    let mut s = sink(false, false, true, from_zero());
    let mut f = fake();
    // No END goes out: the write frontier moves, the latest progress stays.
    run(&mut s, Antichain::from_elem(10), Antichain::new(), &mut f);
    assert!(f.calls.is_empty());
    assert_eq!(s.write_frontier().elements(), &[9]);
    assert_eq!(s.latest_progress_ts(), 0);
    queue(&mut s, "a", 12, 1);
    run(&mut s, Antichain::from_elem(20), Antichain::new(), &mut f);
    assert_eq!(took(&f), strs(&["data a=-", "flush"]));
    assert_eq!(s.write_frontier().elements(), &[19]);
    assert_eq!(s.latest_progress_ts(), 12);
}

#[test]
fn messages_in_flight_bring_the_operator_back() {
    let mut s = sink(false, false, true, from_zero());
    let mut f = fake();
    f.in_flight = 3;
    let schedule = run(&mut s, Antichain::from_elem(1), Antichain::new(), &mut f);
    assert_eq!(schedule, Schedule::AfterMillis(5000));
    assert_eq!(s.metrics().messages_in_flight, 3);
    f.in_flight = 0;
    assert_eq!(run(&mut s, Antichain::from_elem(1), Antichain::new(), &mut f), Schedule::Complete);
    assert_eq!(s.metrics().messages_in_flight, 0);
    f.in_flight = -1;
    assert_eq!(run(&mut s, Antichain::from_elem(1), Antichain::new(), &mut f), Schedule::Complete);
    assert_eq!(s.metrics().messages_in_flight, u64::MAX);
}

#[test]
fn other_worker_keeps_an_empty_write_frontier() {
    let mut s = sink(true, true, false, from_zero());
    let mut f = fake();
    assert!(!s.is_active_worker());
    assert!(s.write_frontier().elements().is_empty());
    // It is never handed an update of the sink.
    assert!(!s.takes(5, 1));
    assert_eq!(run(&mut s, Antichain::from_elem(10), Antichain::new(), &mut f), Schedule::Complete);
    assert_eq!(run(&mut s, Antichain::new(), Antichain::new(), &mut f), Schedule::Complete);
    assert!(f.calls.is_empty());
    assert!(s.write_frontier().elements().is_empty());
    assert_eq!(s.send_state(), SendState::Init);
}

#[test]
fn end_of_input_clears_the_write_frontier() {
    let mut s = sink(false, false, true, from_zero());
    let mut f = fake();
    queue(&mut s, "a", 3, 1);
    run(&mut s, Antichain::new(), Antichain::new(), &mut f);
    assert_eq!(took(&f), strs(&["data a=-", "flush"]));
    assert!(s.write_frontier().elements().is_empty());
    assert!(!s.is_shutdown());
    // No frontier comes back, and no update is taken any more.
    assert!(!s.admits_frontier(&Antichain::from_elem(9)));
    assert!(!s.takes(9, 1));
    assert!(s.admits_frontier(&Antichain::new()));
}

#[test]
fn send_error_that_is_not_transient_shuts_down() {
    let mut s = sink(false, false, true, from_zero());
    let mut f = fake();
    queue(&mut s, "a", 3, 2);
    f.script.push_back(Ok(()));
    f.script.push_back(Err(BrokerError::Other));
    let schedule = run(&mut s, Antichain::from_elem(8), Antichain::new(), &mut f);
    assert_eq!(schedule, Schedule::Now);
    assert!(s.is_shutdown());
    assert_eq!(took(&f), strs(&["data a=-"]));
    assert_eq!(s.metrics().messages_sent_counter, 1);
    assert_eq!(s.metrics().message_send_errors_counter, 1);
    assert_eq!(s.write_frontier().elements(), &[0]);
    assert_eq!(s.phase(), Phase::Idle);
    let schedule = run(&mut s, Antichain::from_elem(8), Antichain::new(), &mut f);
    assert_eq!(schedule, Schedule::Complete);
    assert_eq!(took(&f), strs(&["data a=-", "flush"]));
    assert!(s.write_frontier().elements().is_empty());
}

#[test]
fn retriable_transaction_error_repeats_the_call() {
    let mut s = sink(true, false, true, from_zero());
    let mut f = fake();
    queue(&mut s, "a", 3, 1);
    let again = Err(BrokerError::Transaction { requires_abort: false, retriable: true });
    f.script.push_back(again);
    f.script.push_back(again);
    f.script.push_back(Ok(()));
    f.script.push_back(again);
    let schedule = run(&mut s, Antichain::from_elem(8), Antichain::new(), &mut f);
    assert_eq!(schedule, Schedule::Complete);
    assert_eq!(
        f.calls.iter().map(|c| c.what.as_str()).collect::<Vec<_>>(),
        vec!["init", "init", "init", "begin", "begin", "data a=-", "commit", "flush"]
    );
    assert_eq!(f.slept, vec![125, 250, 125]);
    assert!(!s.is_shutdown());
    assert_eq!(s.write_frontier().elements(), &[7]);
}

#[test]
fn shutdown_seen_by_the_driver_ends_the_sink() {
    let mut s = sink(false, true, true, from_zero());
    let mut f = fake();
    queue(&mut s, "a", 3, 1);
    let first = s.activate(true, &Antichain::from_elem(8), &Antichain::new());
    let schedule = drive(&mut s, first, &mut f);
    assert_eq!(schedule, Schedule::Complete);
    assert_eq!(took(&f), strs(&["flush"]));
    assert!(s.is_shutdown());
    assert!(s.write_frontier().elements().is_empty());
    // The last flush may fail: the write frontier is cleared all the same.
    let mut t = sink(false, true, true, from_zero());
    let mut g = fake();
    g.script.push_back(Err(BrokerError::Other));
    let first = t.activate(true, &Antichain::from_elem(8), &Antichain::new());
    assert_eq!(drive(&mut t, first, &mut g), Schedule::Complete);
    assert!(t.write_frontier().elements().is_empty());
}

#[test]
fn progress_record_in_its_own_transaction() {
    let mut s = sink(true, true, true, from_zero());
    let mut f = fake();
    queue(&mut s, "a", 3, 1);
    run(&mut s, Antichain::from_elem(4), Antichain::new(), &mut f);
    assert_eq!(took(&f), strs(&["init", "begin", "BEGIN 3", "data a=-", "END 3 1", "commit", "flush"]));
    assert_eq!(s.write_frontier().elements(), &[3]);
    f.calls.clear();
    run(&mut s, Antichain::from_elem(10), Antichain::new(), &mut f);
    assert_eq!(took(&f), strs(&["begin", "END 9", "commit"]));
    assert_eq!(s.latest_progress_ts(), 9);
    assert_eq!(s.write_frontier().elements(), &[9]);
}

#[test]
fn failed_progress_leaves_progress_as_it_was() {
    let mut s = sink(true, true, true, from_zero());
    let mut f = fake();
    // Before the first batch the producer is not ready: the begin fails.
    f.script.push_back(Err(BrokerError::Other));
    let schedule = run(&mut s, Antichain::from_elem(10), Antichain::new(), &mut f);
    assert_eq!(schedule, Schedule::Complete);
    assert!(took(&f).is_empty());
    assert_eq!(s.latest_progress_ts(), 0);
    assert_eq!(s.write_frontier().elements(), &[0]);
    assert!(!s.is_shutdown());
    // A commit that fails leaves it too.
    f.script.push_back(Ok(()));
    f.script.push_back(Ok(()));
    f.script.push_back(Err(BrokerError::Other));
    run(&mut s, Antichain::from_elem(10), Antichain::new(), &mut f);
    assert_eq!(took(&f), strs(&["begin", "END 9"]));
    assert_eq!(s.latest_progress_ts(), 0);
    assert_eq!(s.write_frontier().elements(), &[0]);
    assert!(!s.is_shutdown());
}

#[test]
fn updates_that_cannot_be_taken() {
    let mut s = sink(false, false, true, SinkAsOf { frontier: Antichain::from_elem(2), strict: true });
    let mut f = fake();
    // Not beyond the as-of frontier: dropped, whatever the count.
    assert!(s.takes(2, -1));
    assert!(!s.queue_update(None, None, 2, -1));
    // Without copies: dropped.
    assert!(!queue(&mut s, "z", 3, 0));
    assert_eq!(s.pending_len(), 0);
    assert!(!s.is_shutdown());
    // A negative count on an update that is in time is never taken.
    assert!(!s.takes(3, -1));
    run(&mut s, Antichain::from_elem(5), Antichain::new(), &mut f);
    // Behind the input frontier as last seen: never taken.
    assert!(!s.takes(4, 1));
    assert!(s.takes(5, 1));
    // The frontier does not go back.
    assert!(!s.admits_frontier(&Antichain::from_elem(4)));
    assert!(s.admits_frontier(&Antichain::from_elem(5)));
    let mut two = Antichain::new();
    two.extend(vec![6u64, 7]);
    assert!(s.admits_frontier(&two));
    assert_eq!(s.name(), "kafka-u1");
    assert_eq!(s.topic(), "t");
    assert!(!s.awaits_result());
}

#[test]
fn rows_without_key_or_value() {
    let mut s = sink(false, false, true, from_zero());
    let mut f = fake();
    assert!(s.takes(1, 1));
    assert!(s.queue_update(None, Some(b"v".to_vec()), 1, 1));
    assert!(s.queue_update(None, None, 1, 1));
    run(&mut s, Antichain::from_elem(2), Antichain::new(), &mut f);
    assert_eq!(took(&f), strs(&["data -=v", "data -=-", "flush"]));
}
