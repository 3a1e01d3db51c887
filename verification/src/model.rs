//! The sink's state machine as mathematics: the state, what the driver is asked to do, and
//! the transition that each event causes.
//!
//! The driver performs one action at a time and reports its outcome; the machine decides what
//! comes next. An activation starts from `Phase::Idle` and ends with `ActionView::Yield`.

use crate::admission::{spec_in_time, AsOfView};
use crate::frontier::any_less_equal;
use crate::consistency::{spec_consistency_record, ConsistencyRecordView, TxnStatus};
use crate::metrics::{spec_dec, spec_inc, MetricsView};
use crate::pending::{is_closed, is_position, pushed_at, rows_at};
use crate::retry::{
    spec_fresh, spec_retry_on_txn_error, spec_retry_send, BrokerError, RetryPolicy, RetryState,
    RetryStep,
};
use crate::rows::{total_count, BatchView, RecordView, RowView};
use vstd::prelude::*;

verus! {

/// Whether the producer has been made ready for its first batch.
#[derive(Clone, Copy, Debug, PartialEq, Eq, Structural)]
pub enum SendState {
    Init,
    Running,
}

/// Where an activation stands: which broker call it waits for.
#[derive(Clone, Copy, Debug, PartialEq, Eq, Structural)]
pub enum Phase {
    /// Between activations.
    Idle,
    /// The last flush of a sink that shuts down.
    ShutdownFlush,
    /// `init_transactions`, before the first batch.
    InitTransactions,
    /// `begin_transaction` for the batch at the front of the ready queue.
    Begin,
    /// The BEGIN marker of the front batch.
    BeginMarker,
    /// Copy number `copy` of row number `row` of the front batch.
    Data { row: u64, copy: u64 },
    /// The END marker of the front batch.
    EndMarker,
    /// `commit_transaction` for the front batch.
    Commit,
    /// The flush that ends the front batch.
    Flush,
    /// `begin_transaction` for a progress record.
    ProgressBegin { strict: u64 },
    /// The END record that reports progress up to `strict`.
    ProgressEnd { strict: u64 },
    /// `commit_transaction` for a progress record.
    ProgressCommit { strict: u64 },
    /// The count of messages in flight.
    InFlight,
}

/// When the operator wants to run again.
#[derive(Clone, Copy, Debug, PartialEq, Eq, Structural)]
pub enum Schedule {
    /// At once.
    Now,
    /// After a delay.
    AfterMillis(u64),
    /// Not before new input arrives.
    Complete,
}

/// The delay before the next activation while rows are pending.
pub const PENDING_DELAY_MS: u64 = 100;

/// The delay before the next activation while messages are in flight.
pub const IN_FLIGHT_DELAY_MS: u64 = 5000;

/// A record on its way to the broker.
pub enum RecordOut {
    /// To the sink's topic.
    Data { topic: Seq<char>, record: RecordView },
    /// To the consistency topic.
    Consistency(ConsistencyRecordView),
}

/// What the driver is asked to do.
pub enum ActionView {
    InitTransactions,
    BeginTransaction,
    CommitTransaction,
    AbortTransaction,
    Flush,
    Send(RecordOut),
    Sleep { millis: u64 },
    InFlightCount,
    Yield(Schedule),
}

/// The consistency topic's settings, as far as the machine reads them.
pub struct ConsistencyView {
    pub topic: Seq<char>,
    pub schema_id: i32,
    pub gate_ts: Option<u64>,
}

/// One record that the broker accepted, in the order of acceptance.
pub enum Sent {
    Data { ts: u64, record: RecordView },
    Marker(ConsistencyRecordView),
}

/// What has happened so far. None of it is stored at run time.
pub struct History {
    /// Every batch that was ever moved to the ready queue, in that order.
    pub closed: Seq<BatchView>,
    /// Every data record that the broker accepted, with its timestamp.
    pub data: Seq<(u64, RecordView)>,
    /// What the broker accepted since the current batch or progress record began.
    pub txn: Seq<Sent>,
    /// The content of every transaction that was committed.
    pub committed: Seq<Seq<Sent>>,
}

/// What a sink is set up with; it never changes.
pub struct Config {
    pub name: Seq<char>,
    pub topic: Seq<char>,
    pub topic_prefix: Seq<char>,
    pub transactional: bool,
    pub consistency: Option<ConsistencyView>,
    pub as_of: AsOfView,
    pub policy: RetryPolicy,
}

impl Config {
    /// The restart gate timestamp, if there is one.
    pub open spec fn gate_ts(self) -> Option<u64> {
        spec_gate(self.consistency)
    }

    /// The control record of `status` for `ts`.
    pub open spec fn marker(self, ts: u64, status: TxnStatus, count: Option<i64>) -> ConsistencyRecordView {
        spec_consistency_record(
            self.consistency->0.topic,
            self.consistency->0.schema_id,
            self.topic_prefix,
            ts,
            status,
            count,
        )
    }
}

/// The state of a sink, as mathematics.
pub struct SinkView {
    pub config: Config,
    pub shutdown: bool,
    pub is_active_worker: bool,
    pub send_state: SendState,
    pub pending: Seq<BatchView>,
    pub ready: Seq<BatchView>,
    pub latest_progress_ts: u64,
    pub progress_update: Option<u64>,
    pub write_frontier: Seq<u64>,
    pub input_frontier: Seq<u64>,
    pub metrics: MetricsView,
    pub phase: Phase,
    pub sleeping: bool,
    pub retry: RetryState,
    pub history: History,
}

/// The history of a sink that has done nothing yet.
pub open spec fn spec_no_history() -> History {
    History { closed: Seq::empty(), data: Seq::empty(), txn: Seq::empty(), committed: Seq::empty() }
}

/// A sink at its start. The worker that writes is active and holds the write frontier at
/// the least timestamp; every other worker holds an empty one. The input frontier starts at
/// the least timestamp.
pub open spec fn spec_new(
    config: Config,
    active_write_worker: bool,
    latest_progress_ts: u64,
    metrics: MetricsView,
) -> SinkView {
    SinkView {
        config,
        shutdown: false,
        is_active_worker: active_write_worker,
        send_state: SendState::Init,
        pending: Seq::empty(),
        ready: Seq::empty(),
        latest_progress_ts,
        progress_update: None,
        write_frontier: if active_write_worker {
            seq![0u64]
        } else {
            Seq::empty()
        },
        input_frontier: seq![0u64],
        metrics,
        phase: Phase::Idle,
        sleeping: false,
        retry: spec_fresh(),
        history: spec_no_history(),
    }
}

/// The timestamp before `t`; zero has none and stays.
pub open spec fn sat_pred(t: u64) -> u64 {
    if t == 0 {
        0
    } else {
        (t - 1) as u64
    }
}

/// The greater of two timestamps.
pub open spec fn spec_max(a: u64, b: u64) -> u64 {
    if a >= b {
        a
    } else {
        b
    }
}

/// The least of the input frontier's element and the pending timestamps, if there is any.
pub open spec fn spec_min_frontier(frontier: Seq<u64>, pending: Seq<BatchView>) -> Option<u64> {
    if frontier.len() > 0 {
        if pending.len() > 0 && pending[0].ts < frontier[0] {
            Some(pending[0].ts)
        } else {
            Some(frontier[0])
        }
    } else if pending.len() > 0 {
        Some(pending[0].ts)
    } else {
        None
    }
}

/// The restart gate timestamp of the consistency topic, if there is one.
pub open spec fn spec_gate(consistency: Option<ConsistencyView>) -> Option<u64> {
    match consistency {
        Some(c) => c.gate_ts,
        None => None,
    }
}

impl SinkView {
    /// The restart gate timestamp, if there is one.
    pub open spec fn gate_ts(self) -> Option<u64> {
        self.config.gate_ts()
    }

    /// The batch at the front of the ready queue.
    pub open spec fn front(self) -> BatchView {
        self.ready[0]
    }

    /// The control record of `status` for `ts`.
    pub open spec fn marker(self, ts: u64, status: TxnStatus, count: Option<i64>) -> ConsistencyRecordView {
        self.config.marker(ts, status, count)
    }

    /// The first call of a batch.
    pub open spec fn first_stage(self) -> Phase {
        if self.config.transactional {
            Phase::Begin
        } else if self.config.consistency is Some {
            Phase::BeginMarker
        } else {
            Phase::Data { row: 0, copy: 0 }
        }
    }

    /// The call that follows the last data record of a batch.
    pub open spec fn after_data(self) -> Phase {
        if self.config.consistency is Some {
            Phase::EndMarker
        } else if self.config.transactional {
            Phase::Commit
        } else {
            Phase::Flush
        }
    }

    /// The record that the current phase sends, where it sends one.
    pub open spec fn record_of(self) -> RecordOut {
        match self.phase {
            Phase::BeginMarker => RecordOut::Consistency(
                self.marker(self.front().ts, TxnStatus::Begin, None),
            ),
            Phase::EndMarker => RecordOut::Consistency(
                self.marker(
                    self.front().ts,
                    TxnStatus::End,
                    Some(total_count(self.front().rows) as i64),
                ),
            ),
            Phase::ProgressEnd { strict } => RecordOut::Consistency(
                self.marker(strict, TxnStatus::End, None),
            ),
            Phase::Data { row, copy } => RecordOut::Data {
                topic: self.config.topic,
                record: self.front().rows[row as int].record(),
            },
            _ => arbitrary(),
        }
    }

    /// The broker call that the current phase stands for.
    pub open spec fn call_of(self) -> ActionView {
        if self.retry.aborting {
            ActionView::AbortTransaction
        } else {
            match self.phase {
                Phase::Idle => ActionView::Yield(Schedule::Complete),
                Phase::ShutdownFlush | Phase::Flush => ActionView::Flush,
                Phase::InitTransactions => ActionView::InitTransactions,
                Phase::Begin | Phase::ProgressBegin { .. } => ActionView::BeginTransaction,
                Phase::Commit | Phase::ProgressCommit { .. } => ActionView::CommitTransaction,
                Phase::BeginMarker | Phase::EndMarker | Phase::Data { .. } | Phase::ProgressEnd {
                    ..
                } => ActionView::Send(self.record_of()),
                Phase::InFlight => ActionView::InFlightCount,
            }
        }
    }

    /// The sink enters `phase` and asks for its call.
    pub open spec fn enter(self, phase: Phase) -> (SinkView, ActionView) {
        let next = SinkView { phase, retry: spec_fresh(), sleeping: false, ..self };
        (next, next.call_of())
    }

    /// The end of an activation: rows that still wait bring the operator back soon; else the
    /// count of messages in flight decides.
    pub open spec fn reschedule(self) -> (SinkView, ActionView) {
        if self.pending.len() > 0 {
            (
                SinkView { phase: Phase::Idle, retry: spec_fresh(), sleeping: false, ..self },
                ActionView::Yield(Schedule::AfterMillis(PENDING_DELAY_MS)),
            )
        } else {
            self.enter(Phase::InFlight)
        }
    }

    /// An error that ends the activation: the sink shuts down and asks to run again at once.
    pub open spec fn bail(self) -> (SinkView, ActionView) {
        (
            SinkView {
                shutdown: true,
                phase: Phase::Idle,
                retry: spec_fresh(),
                sleeping: false,
                ..self
            },
            ActionView::Yield(Schedule::Now),
        )
    }

    /// The write frontier moves to `strict`.
    pub open spec fn finish_progress(self, strict: u64) -> (SinkView, ActionView) {
        (SinkView { write_frontier: seq![strict], ..self }).reschedule()
    }

    /// Progress after the drain: the write frontier moves to just below the least time that
    /// may still come. Where that is news and a consistency topic is configured, an END
    /// record reports it first and the latest progress moves with it; without a consistency
    /// topic there is no END, and the latest progress stays.
    pub open spec fn maybe_emit_progress(self) -> (SinkView, ActionView) {
        match spec_min_frontier(self.input_frontier, self.pending) {
            None => (SinkView { write_frontier: Seq::empty(), ..self }).reschedule(),
            Some(min_frontier) => {
                let strict = sat_pred(min_frontier);
                if strict > self.latest_progress_ts {
                    if self.config.consistency is Some {
                        let cleared = SinkView {
                            history: History { txn: Seq::empty(), ..self.history },
                            ..self
                        };
                        if self.config.transactional {
                            cleared.enter(Phase::ProgressBegin { strict })
                        } else {
                            cleared.enter(Phase::ProgressEnd { strict })
                        }
                    } else {
                        self.finish_progress(strict)
                    }
                } else {
                    self.finish_progress(strict)
                }
            },
        }
    }

    /// What follows the drain of the ready queue.
    pub open spec fn after_drain(self) -> (SinkView, ActionView) {
        let updated = SinkView {
            latest_progress_ts: match self.progress_update {
                Some(ts) => spec_max(self.latest_progress_ts, ts),
                None => self.latest_progress_ts,
            },
            progress_update: None,
            ..self
        };
        if updated.is_active_worker {
            updated.maybe_emit_progress()
        } else {
            updated.reschedule()
        }
    }

    /// The next batch, if one is ready.
    pub open spec fn start_next(self) -> (SinkView, ActionView) {
        if self.ready.len() > 0 {
            (SinkView { history: History { txn: Seq::empty(), ..self.history }, ..self }).enter(
                self.first_stage(),
            )
        } else {
            self.after_drain()
        }
    }

    /// The position after copy `copy` of row `row` went out.
    pub open spec fn after_copy(self, row: u64, copy: u64) -> Phase {
        if copy + 1 < self.front().rows[row as int].count {
            Phase::Data { row, copy: (copy + 1) as u64 }
        } else if row + 1 < self.front().rows.len() {
            Phase::Data { row: (row + 1) as u64, copy: 0 }
        } else {
            self.after_data()
        }
    }

    /// The call of the current phase succeeded.
    pub open spec fn advance(self) -> (SinkView, ActionView) {
        let h = self.history;
        match self.phase {
            Phase::InitTransactions => (SinkView {
                send_state: SendState::Running,
                ..self
            }).start_next(),
            Phase::Begin => (SinkView { history: History { txn: Seq::empty(), ..h }, ..self }).enter(
                if self.config.consistency is Some {
                    Phase::BeginMarker
                } else {
                    Phase::Data { row: 0, copy: 0 }
                },
            ),
            Phase::BeginMarker => (SinkView {
                history: History {
                    txn: h.txn.push(Sent::Marker(self.record_of()->Consistency_0)),
                    ..h
                },
                ..self
            }).enter(Phase::Data { row: 0, copy: 0 }),
            Phase::Data { row, copy } => {
                let record = self.front().rows[row as int].record();
                let last = copy + 1 >= self.front().rows[row as int].count;
                (SinkView {
                    metrics: MetricsView {
                        rows_queued: if last {
                            spec_dec(self.metrics.rows_queued)
                        } else {
                            self.metrics.rows_queued
                        },
                        ..self.metrics
                    },
                    history: History {
                        txn: h.txn.push(Sent::Data { ts: self.front().ts, record }),
                        data: h.data.push((self.front().ts, record)),
                        ..h
                    },
                    ..self
                }).enter(self.after_copy(row, copy))
            },
            Phase::EndMarker => (SinkView {
                history: History {
                    txn: h.txn.push(Sent::Marker(self.record_of()->Consistency_0)),
                    ..h
                },
                ..self
            }).enter(
                if self.config.transactional {
                    Phase::Commit
                } else {
                    Phase::Flush
                },
            ),
            Phase::Commit => (SinkView {
                history: History { committed: h.committed.push(h.txn), txn: Seq::empty(), ..h },
                ..self
            }).enter(Phase::Flush),
            Phase::Flush => (SinkView {
                progress_update: Some(self.front().ts),
                ready: self.ready.drop_first(),
                ..self
            }).start_next(),
            Phase::ProgressBegin { strict } => (SinkView {
                history: History { txn: Seq::empty(), ..h },
                ..self
            }).enter(Phase::ProgressEnd { strict }),
            Phase::ProgressEnd { strict } => {
                let sent = SinkView {
                    history: History {
                        txn: h.txn.push(Sent::Marker(self.record_of()->Consistency_0)),
                        ..h
                    },
                    ..self
                };
                if self.config.transactional {
                    sent.enter(Phase::ProgressCommit { strict })
                } else {
                    (SinkView { latest_progress_ts: strict, ..sent }).finish_progress(strict)
                }
            },
            Phase::ProgressCommit { strict } => (SinkView {
                latest_progress_ts: strict,
                history: History { committed: h.committed.push(h.txn), txn: Seq::empty(), ..h },
                ..self
            }).finish_progress(strict),
            _ => self.reschedule(),
        }
    }

    /// The phase waits for a transactional call of a batch.
    pub open spec fn is_txn_phase(self) -> bool {
        self.phase is InitTransactions || self.phase is Begin || self.phase is Commit
            || self.phase is Flush
    }

    /// The phase waits for a send of a batch.
    pub open spec fn is_batch_send_phase(self) -> bool {
        self.phase is BeginMarker || self.phase is Data || self.phase is EndMarker
    }

    /// The phase waits for the outcome of a broker call.
    pub open spec fn awaits_result(self) -> bool {
        !self.sleeping && !(self.phase is Idle) && !(self.phase is InFlight)
    }

    /// A send was tried: a success counts as a message sent, a failure as a send error.
    pub open spec fn count_send(self, result: Result<(), BrokerError>) -> SinkView {
        SinkView {
            metrics: if result is Ok {
                MetricsView {
                    messages_sent: spec_inc(self.metrics.messages_sent),
                    ..self.metrics
                }
            } else {
                MetricsView {
                    message_send_errors: spec_inc(self.metrics.message_send_errors),
                    ..self.metrics
                }
            },
            ..self
        }
    }

    /// The driver reports the outcome of the call it was asked to make.
    pub open spec fn on_result(self, result: Result<(), BrokerError>) -> (SinkView, ActionView) {
        if self.phase is ShutdownFlush {
            (
                SinkView { write_frontier: Seq::empty(), phase: Phase::Idle, ..self },
                ActionView::Yield(Schedule::Complete),
            )
        } else if self.is_txn_phase() {
            let (retry, step) = spec_retry_on_txn_error(self.retry, self.config.policy, result);
            let next = SinkView { retry, ..self };
            match step {
                RetryStep::Done => self.advance(),
                RetryStep::Sleep { millis } => (
                    SinkView { sleeping: true, ..next },
                    ActionView::Sleep { millis },
                ),
                RetryStep::Abort => (next, ActionView::AbortTransaction),
                RetryStep::Fail { .. } => next.bail(),
            }
        } else if self.is_batch_send_phase() {
            let counted = self.count_send(result);
            let (retry, step) = spec_retry_send(self.retry, self.config.policy, result);
            match step {
                RetryStep::Done => counted.advance(),
                RetryStep::Sleep { millis } => (
                    SinkView { retry, sleeping: true, ..counted },
                    ActionView::Sleep { millis },
                ),
                _ => counted.bail(),
            }
        } else {
            match self.phase {
                Phase::ProgressEnd { .. } => {
                    let counted = self.count_send(result);
                    let (retry, step) = spec_retry_send(self.retry, self.config.policy, result);
                    match step {
                        RetryStep::Done => counted.advance(),
                        RetryStep::Sleep { millis } => (
                            SinkView { retry, sleeping: true, ..counted },
                            ActionView::Sleep { millis },
                        ),
                        _ => (SinkView { shutdown: true, ..counted }).reschedule(),
                    }
                },
                _ => if result is Ok {
                    self.advance()
                } else {
                    self.reschedule()
                },
            }
        }
    }

    /// The pause is over: the call is made again.
    pub open spec fn on_wake(self) -> (SinkView, ActionView) {
        let next = SinkView { sleeping: false, ..self };
        (next, next.call_of())
    }

    /// The gauge of messages in flight takes the count as the cast to unsigned has it.
    pub open spec fn on_in_flight(self, count: i32) -> (SinkView, ActionView) {
        (
            SinkView {
                metrics: MetricsView {
                    messages_in_flight: if count >= 0 {
                        count as u64
                    } else {
                        (0x1_0000_0000_0000_0000 + count) as u64
                    },
                    ..self.metrics
                },
                phase: Phase::Idle,
                ..self
            },
            ActionView::Yield(
                if count > 0 {
                    Schedule::AfterMillis(IN_FLIGHT_DELAY_MS)
                } else {
                    Schedule::Complete
                },
            ),
        )
    }

    /// What the sink asks of an update before it queues it: the sink is idle and runs, the
    /// update is in time and not below the input frontier as last seen, its count is
    /// positive and fits, and this worker holds the write frontier.
    pub open spec fn accepts(self, time: u64, row: RowView) -> bool {
        &&& self.phase is Idle
        &&& !self.shutdown
        &&& row.count > 0
        &&& total_count(rows_at(self.pending, time)) + row.count <= i64::MAX
        &&& spec_in_time(self.config.as_of, self.gate_ts(), time)
        &&& any_less_equal(self.input_frontier, time)
        &&& self.write_frontier.len() == 1
    }

    /// Where `time` stands among the pending timestamps.
    pub open spec fn position(self, time: u64) -> int {
        choose|i: int| is_position(self.pending, time, i)
    }

    /// An admitted update is queued: `count` copies of the record, behind what `time` has.
    pub open spec fn queue_update(self, time: u64, row: RowView) -> SinkView {
        SinkView {
            is_active_worker: true,
            pending: pushed_at(self.pending, time, row, self.position(time)),
            metrics: MetricsView { rows_queued: spec_inc(self.metrics.rows_queued), ..self.metrics },
            ..self
        }
    }

    /// `n` pending timestamps are closed, and they are the first `n`.
    pub open spec fn is_split(self, frontier: Seq<u64>, durability: Seq<u64>, n: int) -> bool {
        &&& 0 <= n <= self.pending.len()
        &&& forall|j: int| 0 <= j < n ==> is_closed(frontier, durability, (#[trigger] self.pending[j]).ts)
        &&& forall|j: int|
            n <= j < self.pending.len() ==> !is_closed(
                frontier,
                durability,
                (#[trigger] self.pending[j]).ts,
            )
    }

    /// The closed timestamps move to the ready queue, in ascending order.
    pub open spec fn promote(self, frontier: Seq<u64>, durability: Seq<u64>) -> SinkView {
        let n = choose|n: int| self.is_split(frontier, durability, n);
        let closed = self.pending.subrange(0, n);
        SinkView {
            input_frontier: frontier,
            pending: self.pending.subrange(n, self.pending.len() as int),
            ready: self.ready + closed,
            history: History { closed: self.history.closed + closed, ..self.history },
            ..self
        }
    }

    /// What the sink asks of the frontier that an activation brings: it holds at most one
    /// element and is not behind the frontier of the activation before.
    pub open spec fn admits_frontier(self, frontier: Seq<u64>) -> bool {
        &&& frontier.len() <= 1
        &&& forall|t: u64| #[trigger]
            any_less_equal(frontier, t) ==> any_less_equal(self.input_frontier, t)
    }

    /// An activation starts. A sink that shuts down flushes once; any other takes the
    /// frontiers, moves the closed timestamps to the ready queue and starts on them.
    pub open spec fn activate(self, shutdown: bool, frontier: Seq<u64>, durability: Seq<u64>) -> (
        SinkView,
        ActionView,
    ) {
        if self.shutdown || shutdown {
            (SinkView { shutdown: true, ..self }).enter(Phase::ShutdownFlush)
        } else {
            let promoted = self.promote(frontier, durability);
            if promoted.is_active_worker && promoted.send_state is Init && promoted.ready.len() > 0 {
                if promoted.config.transactional {
                    promoted.enter(Phase::InitTransactions)
                } else {
                    (SinkView { send_state: SendState::Running, ..promoted }).start_next()
                }
            } else {
                promoted.start_next()
            }
        }
    }
}

} // verus!
