//! The sink's state machine, as it runs.
//!
//! The driver owns the broker client and the dataflow operator. On each activation it
//! queues the updates that arrived, calls [`KafkaSinkState::activate`], and then performs
//! the action it is handed and reports the outcome, until the action is a yield.

use crate::admission::{in_time, spec_admits, spec_in_time, SinkAsOf};
use crate::config::KafkaSinkConnector;
use crate::consistency::{
    consistency_record, ConsistencyRecord, KafkaSinkConsistencyConnector, TxnStatus,
};
use crate::frontier::{
    antichain_clear, antichain_clone, antichain_elements, antichain_from_elem, antichain_insert,
    antichain_less_equal, antichain_new, antichain_to_vec, any_less_equal, single_or_none,
};
use crate::metrics::{dec, inc, spec_fresh_metrics, SinkMetrics};
use crate::model::{
    spec_new, spec_no_history, ActionView, Config, ConsistencyView, History, Phase, RecordOut,
    Schedule, SendState, SinkView, IN_FLIGHT_DELAY_MS, PENDING_DELAY_MS,
};
use crate::pending::{batches_view, PendingMap};
use crate::retry::{BrokerError, RetryPolicy, RetryState, RetryStep};
use crate::rows::{bytes_view, Batch, BatchView, EncodedRow, RecordView, RowView};
use crate::steps::lemma_new;
use std::collections::VecDeque;
use timely::progress::Antichain;
use vstd::prelude::*;

verus! {

/// A record for the broker.
pub enum Record {
    /// For the sink's topic.
    Data { topic: String, key: Option<Vec<u8>>, value: Option<Vec<u8>> },
    /// For the consistency topic, keyed by the topic prefix.
    Consistency(ConsistencyRecord),
}

impl View for Record {
    type V = RecordOut;

    open spec fn view(&self) -> RecordOut {
        match self {
            Record::Data { topic, key, value } => RecordOut::Data {
                topic: topic@,
                record: RecordView { key: bytes_view(*key), value: bytes_view(*value) },
            },
            Record::Consistency(record) => RecordOut::Consistency(record@),
        }
    }
}

/// What the driver is asked to do next.
pub enum Action {
    /// Call `init_transactions`, and report the outcome.
    InitTransactions,
    /// Call `begin_transaction`, and report the outcome.
    BeginTransaction,
    /// Call `commit_transaction`, and report the outcome.
    CommitTransaction,
    /// Call `abort_transaction`, and report the outcome.
    AbortTransaction,
    /// Call `flush`, and report the outcome.
    Flush,
    /// Hand the record to the producer, and report the outcome.
    Send(Record),
    /// Wait, then wake the sink.
    Sleep { millis: u64 },
    /// Report the number of messages in flight.
    InFlightCount,
    /// The activation is over.
    Yield(Schedule),
}

impl View for Action {
    type V = ActionView;

    open spec fn view(&self) -> ActionView {
        match self {
            Action::InitTransactions => ActionView::InitTransactions,
            Action::BeginTransaction => ActionView::BeginTransaction,
            Action::CommitTransaction => ActionView::CommitTransaction,
            Action::AbortTransaction => ActionView::AbortTransaction,
            Action::Flush => ActionView::Flush,
            Action::Send(record) => ActionView::Send(record@),
            Action::Sleep { millis } => ActionView::Sleep { millis: *millis },
            Action::InFlightCount => ActionView::InFlightCount,
            Action::Yield(schedule) => ActionView::Yield(*schedule),
        }
    }
}

/// The settings of the consistency topic, as mathematics.
pub open spec fn consistency_view(consistency: Option<KafkaSinkConsistencyConnector>) -> Option<
    ConsistencyView,
> {
    match consistency {
        Some(c) => Some(ConsistencyView { topic: c.topic@, schema_id: c.schema_id, gate_ts: c.gate_ts }),
        None => None,
    }
}

/// The state of one sink on one worker.
pub struct KafkaSinkState {
    name: String,
    topic: String,
    topic_prefix: String,
    shutdown_flag: bool,
    metrics: SinkMetrics,
    policy: RetryPolicy,
    transactional: bool,
    consistency: Option<KafkaSinkConsistencyConnector>,
    as_of: SinkAsOf,
    pending_rows: PendingMap,
    ready_rows: VecDeque<Batch>,
    send_state: SendState,
    is_active_worker: bool,
    progress_update: Option<u64>,
    latest_progress_ts: u64,
    write_frontier: Antichain<u64>,
    input_frontier: Antichain<u64>,
    phase: Phase,
    sleeping: bool,
    retry: RetryState,
    history: Ghost<History>,
}

impl View for KafkaSinkState {
    type V = SinkView;

    closed spec fn view(&self) -> SinkView {
        SinkView {
            config: Config {
                name: self.name@,
                topic: self.topic@,
                topic_prefix: self.topic_prefix@,
                transactional: self.transactional,
                consistency: consistency_view(self.consistency),
                as_of: self.as_of@,
                policy: self.policy,
            },
            shutdown: self.shutdown_flag,
            is_active_worker: self.is_active_worker,
            send_state: self.send_state,
            pending: self.pending_rows@,
            ready: batches_view(self.ready_rows@),
            latest_progress_ts: self.latest_progress_ts,
            progress_update: self.progress_update,
            write_frontier: antichain_elements(self.write_frontier),
            input_frontier: antichain_elements(self.input_frontier),
            metrics: self.metrics@,
            phase: self.phase,
            sleeping: self.sleeping,
            retry: self.retry,
            history: self.history@,
        }
    }
}

/// What a sink with these settings is set up with.
pub open spec fn spec_config(
    connector: KafkaSinkConnector,
    name: Seq<char>,
    as_of: SinkAsOf,
    policy: RetryPolicy,
) -> Config {
    Config {
        name,
        topic: connector.topic@,
        topic_prefix: connector.topic_prefix@,
        transactional: connector.exactly_once,
        consistency: consistency_view(connector.consistency),
        as_of: as_of@,
        policy,
    }
}

/// The row that an update of `diff` copies stands for.
pub open spec fn spec_row(key: Option<Vec<u8>>, value: Option<Vec<u8>>, diff: i64) -> RowView {
    RowView { key: bytes_view(key), value: bytes_view(value), count: diff as nat }
}

impl KafkaSinkState {
    /// The state of a sink at its start. Its metrics are labelled by the topic, the sink and
    /// the worker.
    pub fn new(
        connector: KafkaSinkConnector,
        sink_name: String,
        sink_id: &str,
        worker_id: &str,
        as_of: SinkAsOf,
        active_write_worker: bool,
        latest_progress_ts: u64,
    ) -> (state: KafkaSinkState)
        ensures
            state.wf(),
            state@ == spec_new(
                spec_config(connector, sink_name@, as_of, state@.config.policy),
                active_write_worker,
                latest_progress_ts,
                state@.metrics,
            ),
            state@.config.policy == (RetryPolicy {
                initial_backoff_ms: crate::retry::DEFAULT_INITIAL_BACKOFF_MS,
                clamp_backoff_ms: crate::retry::CLAMP_BACKOFF_MS,
            }),
            state@.metrics == spec_fresh_metrics(connector.topic@, sink_id@, worker_id@),
    {
        let metrics = SinkMetrics::new(connector.topic.as_str(), sink_id, worker_id);
        let policy = RetryPolicy::sink_default();
        let write_frontier = if active_write_worker {
            antichain_from_elem(0)
        } else {
            antichain_new()
        };
        let state = KafkaSinkState {
            name: sink_name,
            topic: connector.topic,
            topic_prefix: connector.topic_prefix,
            shutdown_flag: false,
            metrics,
            policy,
            transactional: connector.exactly_once,
            consistency: connector.consistency,
            as_of,
            pending_rows: PendingMap::new(),
            ready_rows: VecDeque::new(),
            send_state: SendState::Init,
            is_active_worker: active_write_worker,
            progress_update: None,
            latest_progress_ts,
            write_frontier,
            input_frontier: antichain_from_elem(0),
            phase: Phase::Idle,
            sleeping: false,
            retry: RetryState::fresh(),
            history: Ghost(spec_no_history()),
        };
        proof {
            lemma_new(
                spec_config(connector, sink_name@, as_of, policy),
                active_write_worker,
                latest_progress_ts,
                state@.metrics,
            );
            assert(state@.ready =~= Seq::<BatchView>::empty());
            assert(state@ == spec_new(
                spec_config(connector, sink_name@, as_of, policy),
                active_write_worker,
                latest_progress_ts,
                state@.metrics,
            ));
        }
        state
    }

    /// Whether the sink can take the update now: see [`SinkView::accepts`]. An update that is
    /// not in time is dropped, so it is always taken; so is one without copies. One with a
    /// negative count is never taken.
    pub open spec fn spec_takes(view: SinkView, time: u64, diff: i64) -> bool {
        spec_in_time(view.config.as_of, view.gate_ts(), time) ==> diff >= 0 && (diff > 0
            ==> view.accepts(time, RowView { key: None, value: None, count: diff as nat }))
    }

    /// Tells whether [`KafkaSinkState::queue_update`] can be called with this update.
    pub fn takes(&self, time: u64, diff: i64) -> (r: bool)
        requires
            self.wf(),
        ensures
            r == Self::spec_takes(self@, time, diff),
    {
        if !in_time(&self.as_of, self.gate_ts(), time) {
            return true;
        }
        if diff < 0 {
            return false;
        }
        if diff == 0 {
            return true;
        }
        if !matches!(self.phase, Phase::Idle) || self.shutdown_flag {
            return false;
        }
        let queued = self.pending_rows.total_at(time);
        if queued > (i64::MAX as u64) - (diff as u64) {
            return false;
        }
        if !antichain_less_equal(&self.input_frontier, time) {
            return false;
        }
        let held = antichain_to_vec(&self.write_frontier);
        held.len() == 1
    }

    fn gate_ts(&self) -> (gate: Option<u64>)
        ensures
            gate == self@.gate_ts(),
    {
        match &self.consistency {
            Some(c) => c.gate_ts,
            None => None,
        }
    }

    /// Takes an update from the input. An update that is not beyond the as-of frontier, or
    /// not beyond the restart gate, or without copies is dropped. Any other is queued under its
    /// timestamp, behind the rows that the timestamp already has, and marks this worker as
    /// the one that receives the sink's data.
    pub fn queue_update(&mut self, key: Option<Vec<u8>>, value: Option<Vec<u8>>, time: u64, diff: i64) -> (queued:
        bool)
        requires
            old(self).wf(),
            Self::spec_takes(old(self)@, time, diff),
        ensures
            final(self).wf(),
            queued == spec_admits(old(self)@.config.as_of, old(self)@.gate_ts(), time, diff),
            queued ==> final(self)@ == old(self)@.queue_update(time, spec_row(key, value, diff)),
            !queued ==> final(self)@ == old(self)@,
    {
        if !in_time(&self.as_of, self.gate_ts(), time) {
            return false;
        }
        if diff == 0 {
            return false;
        }
        let row = EncodedRow { key, value, count: diff as u64 };
        proof {
            assert(row@ == spec_row(key, value, diff));
            self@.lemma_queue_update(time, row@);
            self.pending_rows.lemma_wf();
            let i = crate::pending::lemma_position(self@.pending, time, 0);
        }
        self.pending_rows.push(time, row);
        self.is_active_worker = true;
        self.metrics.rows_queued = inc(self.metrics.rows_queued);
        true
    }

    /// The state is one that a sink can reach, and the queues are sound.
    pub closed spec fn wf(&self) -> bool {
        &&& self@.inv()
        &&& self.queues_wf()
    }

    /// A state that is well formed is one that a sink can reach.
    pub proof fn lemma_wf(&self)
        requires
            self.wf(),
        ensures
            self@.inv(),
    {
    }

    /// Whether the sink has shut down.
    pub fn is_shutdown(&self) -> (r: bool)
        ensures
            r == self@.shutdown,
    {
        self.shutdown_flag
    }

    /// The timestamp of the latest progress: of the last batch written or the last END reported.
    pub fn latest_progress_ts(&self) -> (ts: u64)
        ensures
            ts == self@.latest_progress_ts,
    {
        self.latest_progress_ts
    }

    /// The write frontier: the sink's lower bound of what it may still write.
    pub fn write_frontier(&self) -> (frontier: &Antichain<u64>)
        ensures
            antichain_elements(*frontier) == self@.write_frontier,
    {
        &self.write_frontier
    }

    /// The sink's metrics.
    pub fn metrics(&self) -> (metrics: &SinkMetrics)
        ensures
            metrics@ == self@.metrics,
    {
        &self.metrics
    }

    /// The phase that the sink is in.
    pub fn phase(&self) -> (phase: Phase)
        ensures
            phase == self@.phase,
    {
        self.phase
    }

    /// Whether the sink waits for the end of a pause.
    pub fn is_sleeping(&self) -> (r: bool)
        ensures
            r == self@.sleeping,
    {
        self.sleeping
    }

    /// Whether this worker is the one that writes the sink, or has received updates of it.
    pub fn is_active_worker(&self) -> (r: bool)
        ensures
            r == self@.is_active_worker,
    {
        self.is_active_worker
    }

    /// Whether the producer has been made ready.
    pub fn send_state(&self) -> (state: SendState)
        ensures
            state == self@.send_state,
    {
        self.send_state
    }

    /// The name of the sink's topic.
    pub fn topic(&self) -> (topic: &String)
        ensures
            topic@ == self@.config.topic,
    {
        &self.topic
    }

    /// The name of the sink.
    pub fn name(&self) -> (name: &String)
        ensures
            name@ == self@.config.name,
    {
        &self.name
    }

    /// Whether the sink waits for the outcome of a broker call that it asked for.
    pub fn awaits_result(&self) -> (r: bool)
        ensures
            r == self@.awaits_result(),
    {
        !self.sleeping && !matches!(self.phase, Phase::Idle) && !matches!(self.phase, Phase::InFlight)
    }

    /// The number of timestamps with pending rows.
    pub fn pending_len(&self) -> (n: usize)
        requires
            self.wf(),
        ensures
            n == self@.pending.len(),
    {
        self.pending_rows.len()
    }

    /// The number of batches that are ready to be written.
    pub fn ready_len(&self) -> (n: usize)
        ensures
            n == self@.ready.len(),
    {
        self.ready_rows.len()
    }

    /// The queues are sound.
    pub closed spec fn queues_wf(&self) -> bool {
        &&& self.pending_rows.wf()
        &&& forall|i: int| 0 <= i < self.ready_rows@.len() ==> (#[trigger] self.ready_rows@[i]).wf()
    }

    fn marker(&self, ts: u64, status: TxnStatus, count: Option<i64>) -> (record: Record)
        requires
            self@.config.consistency is Some,
        ensures
            record@ == RecordOut::Consistency(self@.marker(ts, status, count)),
    {
        let c = self.consistency.as_ref().unwrap();
        Record::Consistency(
            consistency_record(&c.topic, c.schema_id, &self.topic_prefix, ts, status, count),
        )
    }

    /// The broker call of the current phase.
    fn call(&self) -> (action: Action)
        requires
            self@.phase_inv(),
            self.queues_wf(),
        ensures
            action@ == self@.call_of(),
    {
        if self.retry.aborting {
            return Action::AbortTransaction;
        }
        match self.phase {
            Phase::Idle => Action::Yield(Schedule::Complete),
            Phase::ShutdownFlush | Phase::Flush => Action::Flush,
            Phase::InitTransactions => Action::InitTransactions,
            Phase::Begin | Phase::ProgressBegin { .. } => Action::BeginTransaction,
            Phase::Commit | Phase::ProgressCommit { .. } => Action::CommitTransaction,
            Phase::BeginMarker => {
                assert(self@.ready[0] == self.ready_rows@[0]@);
                let ts = self.ready_rows[0].ts();
                Action::Send(self.marker(ts, TxnStatus::Begin, None))
            },
            Phase::EndMarker => {
                assert(self@.ready[0] == self.ready_rows@[0]@);
                let front = &self.ready_rows[0];
                let total = front.total();
                Action::Send(self.marker(front.ts(), TxnStatus::End, Some(total as i64)))
            },
            Phase::ProgressEnd { strict } => Action::Send(self.marker(strict, TxnStatus::End, None)),
            Phase::Data { row, copy } => {
                assert(self@.ready[0] == self.ready_rows@[0]@);
                let front = &self.ready_rows[0];
                let rows = front.len();
                assert(row < rows);
                let encoded = front.row(row as usize);
                Action::Send(
                    Record::Data {
                        topic: self.topic.clone(),
                        key: clone_bytes(&encoded.key),
                        value: clone_bytes(&encoded.value),
                    },
                )
            },
            Phase::InFlight => Action::InFlightCount,
        }
    }

    fn enter(&mut self, phase: Phase) -> (action: Action)
        requires
            old(self)@.enter(phase).0.phase_inv(),
            old(self).queues_wf(),
        ensures
            (final(self)@, action@) == old(self)@.enter(phase),
            final(self).queues_wf(),
    {
        self.phase = phase;
        self.retry = RetryState::fresh();
        self.sleeping = false;
        self.call()
    }

    fn reschedule(&mut self) -> (action: Action)
        requires
            old(self)@.reschedule().0.phase_inv(),
            old(self).queues_wf(),
        ensures
            (final(self)@, action@) == old(self)@.reschedule(),
            final(self).queues_wf(),
    {
        if !self.pending_rows.is_empty() {
            self.phase = Phase::Idle;
            self.retry = RetryState::fresh();
            self.sleeping = false;
            Action::Yield(Schedule::AfterMillis(PENDING_DELAY_MS))
        } else {
            self.enter(Phase::InFlight)
        }
    }

    fn bail(&mut self) -> (action: Action)
        requires
            old(self).queues_wf(),
        ensures
            (final(self)@, action@) == old(self)@.bail(),
            final(self).queues_wf(),
    {
        self.shutdown_flag = true;
        self.phase = Phase::Idle;
        self.retry = RetryState::fresh();
        self.sleeping = false;
        Action::Yield(Schedule::Now)
    }

    fn finish_progress(&mut self, strict: u64) -> (action: Action)
        requires
            old(self)@.finish_progress(strict).0.phase_inv(),
            old(self).queues_wf(),
        ensures
            (final(self)@, action@) == old(self)@.finish_progress(strict),
            final(self).queues_wf(),
    {
        antichain_clear(&mut self.write_frontier);
        antichain_insert(&mut self.write_frontier, strict);
        proof {
            let none = Seq::<u64>::empty();
            assert(!any_less_equal(none, strict));
            assert(none.filter(|x: u64| !(strict <= x)) =~= none) by {
                broadcast use vstd::seq_lib::group_filter_ensures;
            }
            assert(crate::frontier::inserted(none, strict) =~= seq![strict]);
        }
        self.reschedule()
    }

    /// The least of the input frontier's element and the pending timestamps.
    fn min_frontier(&self) -> (min: Option<u64>)
        requires
            self@.input_frontier.len() <= 1,
            self.queues_wf(),
        ensures
            min == crate::model::spec_min_frontier(self@.input_frontier, self@.pending),
    {
        let frontier = single_or_none(&self.input_frontier);
        let pending = self.pending_rows.min_key();
        match frontier {
            Some(f) => match pending {
                Some(p) => if p < f {
                    Some(p)
                } else {
                    Some(f)
                },
                None => Some(f),
            },
            None => pending,
        }
    }

    fn clear_txn(&mut self)
        ensures
            final(self)@ == (SinkView {
                history: History { txn: Seq::empty(), ..old(self)@.history },
                ..old(self)@
            }),
            final(self).queues_wf() == old(self).queues_wf(),
    {
        proof {
            self.history@ = History { txn: Seq::empty(), ..self.history@ };
        }
    }

    fn maybe_emit_progress(&mut self) -> (action: Action)
        requires
            old(self)@.maybe_emit_progress().0.inv(),
            old(self)@.input_frontier.len() <= 1,
            old(self).queues_wf(),
        ensures
            (final(self)@, action@) == old(self)@.maybe_emit_progress(),
            final(self).queues_wf(),
    {
        match self.min_frontier() {
            None => {
                antichain_clear(&mut self.write_frontier);
                self.reschedule()
            },
            Some(min_frontier) => {
                let strict = min_frontier.saturating_sub(1);
                if strict > self.latest_progress_ts {
                    if self.consistency.is_some() {
                        self.clear_txn();
                        if self.transactional {
                            self.enter(Phase::ProgressBegin { strict })
                        } else {
                            self.enter(Phase::ProgressEnd { strict })
                        }
                    } else {
                        self.finish_progress(strict)
                    }
                } else {
                    self.finish_progress(strict)
                }
            },
        }
    }

    fn after_drain(&mut self) -> (action: Action)
        requires
            old(self)@.after_drain().0.inv(),
            old(self)@.input_frontier.len() <= 1,
            old(self).queues_wf(),
        ensures
            (final(self)@, action@) == old(self)@.after_drain(),
            final(self).queues_wf(),
    {
        match self.progress_update {
            Some(ts) => {
                if ts > self.latest_progress_ts {
                    self.latest_progress_ts = ts;
                }
            },
            None => {},
        }
        self.progress_update = None;
        if self.is_active_worker {
            self.maybe_emit_progress()
        } else {
            self.reschedule()
        }
    }

    fn start_next(&mut self) -> (action: Action)
        requires
            old(self)@.start_next().0.inv(),
            old(self)@.input_frontier.len() <= 1,
            old(self).queues_wf(),
        ensures
            (final(self)@, action@) == old(self)@.start_next(),
            final(self).queues_wf(),
    {
        if self.ready_rows.len() > 0 {
            self.clear_txn();
            let first = if self.transactional {
                Phase::Begin
            } else if self.consistency.is_some() {
                Phase::BeginMarker
            } else {
                Phase::Data { row: 0, copy: 0 }
            };
            self.enter(first)
        } else {
            self.after_drain()
        }
    }

    fn log_marker(&mut self)
        requires
            old(self)@.phase is BeginMarker || old(self)@.phase is EndMarker || old(self)@.phase is ProgressEnd,
        ensures
            final(self)@ == (SinkView {
                history: History {
                    txn: old(self)@.history.txn.push(
                        crate::model::Sent::Marker(old(self)@.record_of()->Consistency_0),
                    ),
                    ..old(self)@.history
                },
                ..old(self)@
            }),
            final(self).queues_wf() == old(self).queues_wf(),
    {
        proof {
            let entry = crate::model::Sent::Marker(self@.record_of()->Consistency_0);
            self.history@ = History { txn: self.history@.txn.push(entry), ..self.history@ };
        }
    }

    fn log_commit(&mut self)
        ensures
            final(self)@ == (SinkView {
                history: History {
                    committed: old(self)@.history.committed.push(old(self)@.history.txn),
                    txn: Seq::empty(),
                    ..old(self)@.history
                },
                ..old(self)@
            }),
            final(self).queues_wf() == old(self).queues_wf(),
    {
        proof {
            self.history@ = History {
                committed: self.history@.committed.push(self.history@.txn),
                txn: Seq::empty(),
                ..self.history@
            };
        }
    }

    /// The call of the current phase succeeded.
    fn advance(&mut self) -> (action: Action)
        requires
            old(self)@.inv(),
            old(self)@.is_busy(),
            old(self)@.advance().0.inv(),
            old(self).queues_wf(),
        ensures
            (final(self)@, action@) == old(self)@.advance(),
            final(self).queues_wf(),
    {
        match self.phase {
            Phase::InitTransactions => {
                self.send_state = SendState::Running;
                self.start_next()
            },
            Phase::Begin => {
                self.clear_txn();
                if self.consistency.is_some() {
                    self.enter(Phase::BeginMarker)
                } else {
                    self.enter(Phase::Data { row: 0, copy: 0 })
                }
            },
            Phase::BeginMarker => {
                self.log_marker();
                self.enter(Phase::Data { row: 0, copy: 0 })
            },
            Phase::Data { row, copy } => {
                assert(self@.ready[0] == self.ready_rows@[0]@);
                let front = &self.ready_rows[0];
                let rows = front.len();
                assert(row < rows);
                let count = front.row(row as usize).count;
                let next = if copy + 1 < count {
                    Phase::Data { row, copy: copy + 1 }
                } else if row + 1 < rows as u64 {
                    Phase::Data { row: row + 1, copy: 0 }
                } else if self.consistency.is_some() {
                    Phase::EndMarker
                } else if self.transactional {
                    Phase::Commit
                } else {
                    Phase::Flush
                };
                if copy + 1 >= count {
                    self.metrics.rows_queued = dec(self.metrics.rows_queued);
                }
                proof {
                    let ts = self@.front().ts;
                    let record = self@.front().rows[row as int].record();
                    self.history@ = History {
                        txn: self.history@.txn.push(crate::model::Sent::Data { ts, record }),
                        data: self.history@.data.push((ts, record)),
                        ..self.history@
                    };
                }
                self.enter(next)
            },
            Phase::EndMarker => {
                self.log_marker();
                if self.transactional {
                    self.enter(Phase::Commit)
                } else {
                    self.enter(Phase::Flush)
                }
            },
            Phase::Commit => {
                self.log_commit();
                self.enter(Phase::Flush)
            },
            Phase::Flush => {
                assert(self@.ready[0] == self.ready_rows@[0]@);
                let ghost before = self.ready_rows@;
                let done = self.ready_rows.pop_front();
                proof {
                    assert(batches_view(self.ready_rows@) =~= batches_view(before).drop_first());
                }
                match done {
                    Some(batch) => {
                        self.progress_update = Some(batch.ts());
                    },
                    None => {},
                }
                self.start_next()
            },
            Phase::ProgressBegin { strict } => {
                self.clear_txn();
                self.enter(Phase::ProgressEnd { strict })
            },
            Phase::ProgressEnd { strict } => {
                self.log_marker();
                if self.transactional {
                    self.enter(Phase::ProgressCommit { strict })
                } else {
                    self.latest_progress_ts = strict;
                    self.finish_progress(strict)
                }
            },
            Phase::ProgressCommit { strict } => {
                self.log_commit();
                self.latest_progress_ts = strict;
                self.finish_progress(strict)
            },
            _ => self.reschedule(),
        }
    }

    fn count_send(&mut self, sent: bool)
        ensures
            final(self)@ == old(self)@.count_send(
                if sent {
                    Ok(())
                } else {
                    Err(BrokerError::Other)
                },
            ),
            final(self).queues_wf() == old(self).queues_wf(),
    {
        if sent {
            self.metrics.messages_sent_counter = inc(self.metrics.messages_sent_counter);
        } else {
            self.metrics.message_send_errors_counter = inc(self.metrics.message_send_errors_counter);
        }
    }

    /// Takes the outcome of the broker call that the sink asked for, and says what to do
    /// next.
    ///
    /// The last flush of a sink that shuts down clears the write frontier, whatever its
    /// outcome. A transactional call of a batch is retried as the retry policy says; a send
    /// is counted and retried while the queue is full; a failure of either shuts the sink
    /// down and ends the activation. The calls around a progress record are not retried: a
    /// failure leaves progress as it was.
    pub fn on_result(&mut self, result: Result<(), BrokerError>) -> (action: Action)
        requires
            old(self).wf(),
            old(self)@.awaits_result(),
        ensures
            final(self).wf(),
            (final(self)@, action@) == old(self)@.on_result(result),
    {
        proof {
            self@.lemma_on_result(result);
        }
        let policy = self.policy;
        match self.phase {
            Phase::ShutdownFlush => {
                antichain_clear(&mut self.write_frontier);
                self.phase = Phase::Idle;
                Action::Yield(Schedule::Complete)
            },
            Phase::InitTransactions | Phase::Begin | Phase::Commit | Phase::Flush => {
                let ghost before = self@;
                let was = self.retry;
                let step = self.retry.retry_on_txn_error(&policy, result);
                match step {
                    RetryStep::Done => {
                        self.retry = was;
                        assert(self@ == before);
                        self.advance()
                    },
                    RetryStep::Sleep { millis } => {
                        self.sleeping = true;
                        Action::Sleep { millis }
                    },
                    RetryStep::Abort => Action::AbortTransaction,
                    RetryStep::Fail { .. } => self.bail(),
                }
            },
            Phase::BeginMarker | Phase::Data { .. } | Phase::EndMarker => {
                let ghost before = self@;
                self.count_send(result.is_ok());
                assert(self@ == before.count_send(result));
                let was = self.retry;
                let step = self.retry.send(&policy, result);
                match step {
                    RetryStep::Done => {
                        self.retry = was;
                        self.advance()
                    },
                    RetryStep::Sleep { millis } => {
                        self.sleeping = true;
                        Action::Sleep { millis }
                    },
                    _ => self.bail(),
                }
            },
            Phase::ProgressEnd { .. } => {
                let ghost before = self@;
                self.count_send(result.is_ok());
                assert(self@ == before.count_send(result));
                let was = self.retry;
                let step = self.retry.send(&policy, result);
                match step {
                    RetryStep::Done => {
                        self.retry = was;
                        self.advance()
                    },
                    RetryStep::Sleep { millis } => {
                        self.sleeping = true;
                        Action::Sleep { millis }
                    },
                    _ => {
                        self.retry = was;
                        self.shutdown_flag = true;
                        self.reschedule()
                    },
                }
            },
            _ => {
                if result.is_ok() {
                    self.advance()
                } else {
                    self.reschedule()
                }
            },
        }
    }

    /// The pause that the sink asked for is over: the call is made again.
    pub fn on_wake(&mut self) -> (action: Action)
        requires
            old(self).wf(),
            old(self)@.sleeping,
        ensures
            final(self).wf(),
            (final(self)@, action@) == old(self)@.on_wake(),
    {
        proof {
            self@.lemma_on_wake();
        }
        self.sleeping = false;
        self.call()
    }

    /// Takes the number of messages in flight: the gauge shows it, and while it is positive
    /// the operator comes back to look again.
    pub fn on_in_flight(&mut self, count: i32) -> (action: Action)
        requires
            old(self).wf(),
            old(self)@.phase is InFlight,
        ensures
            final(self).wf(),
            (final(self)@, action@) == old(self)@.on_in_flight(count),
    {
        proof {
            self@.lemma_on_in_flight(count);
        }
        self.metrics.messages_in_flight = if count >= 0 {
            count as u64
        } else {
            u64::MAX - ((-(count + 1)) as u64)
        };
        self.phase = Phase::Idle;
        if count > 0 {
            Action::Yield(Schedule::AfterMillis(IN_FLIGHT_DELAY_MS))
        } else {
            Action::Yield(Schedule::Complete)
        }
    }

    /// Tells whether an activation can start with this input frontier: see
    /// [`SinkView::admits_frontier`].
    pub fn admits_frontier(&self, frontier: &Antichain<u64>) -> (r: bool)
        requires
            self.wf(),
        ensures
            r == self@.admits_frontier(antichain_elements(*frontier)),
    {
        let elements = antichain_to_vec(frontier);
        if elements.len() == 0 {
            true
        } else if elements.len() > 1 {
            false
        } else {
            let bound = elements[0];
            let ahead = antichain_less_equal(&self.input_frontier, bound);
            proof {
                let next = antichain_elements(*frontier);
                let seen = self@.input_frontier;
                if ahead {
                    assert forall|t: u64| #[trigger] any_less_equal(next, t) implies any_less_equal(
                        seen,
                        t,
                    ) by {
                        let c = choose|c: int| 0 <= c < next.len() && #[trigger] next[c] <= t;
                        crate::pending::lemma_less_equal_upward(seen, bound, t);
                    }
                } else {
                    assert(next[0] <= bound);
                    assert(any_less_equal(next, bound));
                }
            }
            ahead
        }
    }

    /// Moves the closed timestamps to the ready queue.
    fn promote(&mut self, frontier: &Antichain<u64>, durability: &Antichain<u64>)
        requires
            old(self).wf(),
            old(self)@.phase is Idle,
            !old(self)@.shutdown,
            old(self)@.admits_frontier(antichain_elements(*frontier)),
        ensures
            final(self)@ == old(self)@.promote(
                antichain_elements(*frontier),
                antichain_elements(*durability),
            ),
            final(self).queues_wf(),
    {
        let ghost before = self@;
        let ghost f = antichain_elements(*frontier);
        let ghost d = antichain_elements(*durability);
        proof {
            self.pending_rows.lemma_wf();
        }
        let closed = self.pending_rows.take_closed(frontier, durability);
        let ghost moved = batches_view(closed@);
        proof {
            let n = moved.len() as int;
            assert(before.pending.subrange(0, n) =~= moved);
            assert(before.pending.subrange(n, before.pending.len() as int) =~= self.pending_rows@);
            assert(before.is_split(f, d, n)) by {
                assert forall|j: int| 0 <= j < n implies crate::pending::is_closed(
                    f,
                    d,
                    (#[trigger] before.pending[j]).ts,
                ) by {
                    assert(before.pending[j] == moved[j]);
                }
                assert forall|j: int| n <= j < before.pending.len() implies !crate::pending::is_closed(
                    f,
                    d,
                    (#[trigger] before.pending[j]).ts,
                ) by {
                    assert(before.pending[j] == self.pending_rows@[j - n]);
                }
            }
            let unique = before.lemma_split(f, d, 0);
            self.history@ = History { closed: self.history@.closed + moved, ..self.history@ };
        }
        let ghost ready_before = self.ready_rows@;
        let ghost all = closed@;
        let mut ready: VecDeque<Batch> = VecDeque::new();
        std::mem::swap(&mut self.ready_rows, &mut ready);
        for batch in it: closed
            invariant
                it.seq() == all,
                ready@ == ready_before + all.subrange(0, it.index() as int),
        {
            let ghost had = ready@;
            ready.push_back(batch);
            assert(ready@ =~= ready_before + all.subrange(0, it.index() + 1));
        }
        let ghost i: int = all.len() as int;
        self.ready_rows = ready;
        self.input_frontier = antichain_clone(frontier);
        proof {
            assert(all.subrange(0, i) =~= all);
            assert(batches_view(self.ready_rows@) =~= batches_view(ready_before) + moved);
        }
    }

    /// Starts an activation. `shutdown` is the shutdown flag as the driver sees it; the
    /// frontiers are those of the input and of the durability of the sources.
    ///
    /// A sink that shuts down asks for one last flush. Any other moves every timestamp that
    /// both frontiers have passed to the ready queue, in ascending order, makes the producer
    /// ready before its first batch, and starts on the batches; without a batch it goes on
    /// to report progress.
    pub fn activate(&mut self, shutdown: bool, frontier: &Antichain<u64>, durability: &Antichain<u64>) -> (action:
        Action)
        requires
            old(self).wf(),
            old(self)@.phase is Idle,
            !(old(self)@.shutdown || shutdown) ==> old(self)@.admits_frontier(
                antichain_elements(*frontier),
            ),
        ensures
            final(self).wf(),
            (final(self)@, action@) == old(self)@.activate(
                shutdown,
                antichain_elements(*frontier),
                antichain_elements(*durability),
            ),
    {
        proof {
            self@.lemma_activate(
                shutdown,
                antichain_elements(*frontier),
                antichain_elements(*durability),
            );
        }
        if self.shutdown_flag || shutdown {
            self.shutdown_flag = true;
            self.enter(Phase::ShutdownFlush)
        } else {
            self.promote(frontier, durability);
            if self.is_active_worker && matches!(self.send_state, SendState::Init)
                && self.ready_rows.len() > 0 {
                if self.transactional {
                    self.enter(Phase::InitTransactions)
                } else {
                    self.send_state = SendState::Running;
                    self.start_next()
                }
            } else {
                self.start_next()
            }
        }
    }
}

/// The progress that a sink starts from: the restart gate recovered from the consistency topic, or
/// the least timestamp without one.
pub open spec fn spec_start_progress(connector: KafkaSinkConnector) -> u64 {
    match connector.spec_gate_ts() {
        Some(gate) => gate,
        None => 0,
    }
}

/// Sets up the sink of one worker: the state machine that writes the encoded rows to the
/// broker, at its start.
///
/// `active_write_worker` says whether this worker is the one that the sink's updates are
/// routed to. Progress starts at the restart gate, so that nothing at or below it is reported or
/// written again.
pub fn produce_to_kafka(
    sink_id: &str,
    name: String,
    worker_id: &str,
    connector: KafkaSinkConnector,
    as_of: SinkAsOf,
    active_write_worker: bool,
) -> (state: KafkaSinkState)
    ensures
        state.wf(),
        state@ == spec_new(
            spec_config(connector, name@, as_of, state@.config.policy),
            active_write_worker,
            spec_start_progress(connector),
            state@.metrics,
        ),
        state@.config.policy == (RetryPolicy {
            initial_backoff_ms: crate::retry::DEFAULT_INITIAL_BACKOFF_MS,
            clamp_backoff_ms: crate::retry::CLAMP_BACKOFF_MS,
        }),
        state@.metrics == spec_fresh_metrics(connector.topic@, sink_id@, worker_id@),
{
    let latest_progress_ts = match connector.gate_ts() {
        Some(gate) => gate,
        None => 0,
    };
    KafkaSinkState::new(
        connector,
        name,
        sink_id,
        worker_id,
        as_of,
        active_write_worker,
        latest_progress_ts,
    )
}

fn clone_bytes(bytes: &Option<Vec<u8>>) -> (copy: Option<Vec<u8>>)
    ensures
        bytes_view(copy) == bytes_view(*bytes),
{
    match bytes {
        Some(b) => {
            let mut copy: Vec<u8> = Vec::new();
            let mut i: usize = 0;
            while i < b.len()
                invariant
                    i <= b@.len(),
                    copy@ == b@.subrange(0, i as int),
                decreases b@.len() - i,
            {
                copy.push(b[i]);
                i += 1;
                assert(copy@ =~= b@.subrange(0, i as int));
            }
            assert(copy@ =~= b@);
            Some(copy)
        },
        None => None,
    }
}

} // verus!
