//! What the sink guarantees, over every run.
//!
//! A run is a sequence of inputs: updates that arrive, activations, outcomes of broker calls,
//! wake-ups. Each law is stated of a sink state that a run can reach, or of one step of a run.

use crate::admission::spec_in_time;
use crate::frontier::any_less_equal;
use crate::model::{ActionView, Phase, RecordOut, SinkView};
use crate::pending::ascending;
use crate::reachable::stream;
use crate::retry::BrokerError;
use crate::rows::{expansion, lemma_expansion_len, total_count, BatchView, RowView};
use vstd::prelude::*;

verus! {

/// One input of a run.
pub enum Input {
    /// An update arrives, with the row that it stands for.
    Update { time: u64, row: RowView },
    /// The operator is activated.
    Activate { shutdown: bool, frontier: Seq<u64>, durability: Seq<u64> },
    /// The broker call that the sink asked for returns.
    Outcome(Result<(), BrokerError>),
    /// The pause that the sink asked for is over.
    Wake,
    /// The number of messages in flight is read.
    InFlight(i32),
}

impl SinkView {
    /// The input can come in this state.
    pub open spec fn enabled(self, input: Input) -> bool {
        match input {
            Input::Update { time, row } => self.accepts(time, row),
            Input::Activate { shutdown, frontier, durability } => self.phase is Idle && (!(
            self.shutdown || shutdown) ==> self.admits_frontier(frontier)),
            Input::Outcome(_) => self.awaits_result(),
            Input::Wake => self.sleeping,
            Input::InFlight(_) => self.phase is InFlight,
        }
    }

    /// The state after the input.
    pub open spec fn step(self, input: Input) -> SinkView {
        match input {
            Input::Update { time, row } => self.queue_update(time, row),
            Input::Activate { shutdown, frontier, durability } => self.activate(
                shutdown,
                frontier,
                durability,
            ).0,
            Input::Outcome(result) => self.on_result(result).0,
            Input::Wake => self.on_wake().0,
            Input::InFlight(count) => self.on_in_flight(count).0,
        }
    }

    /// What the sink asks of the driver after the input; an update asks nothing.
    pub open spec fn asks(self, input: Input) -> Option<ActionView> {
        match input {
            Input::Update { .. } => None,
            Input::Activate { shutdown, frontier, durability } => Some(
                self.activate(shutdown, frontier, durability).1,
            ),
            Input::Outcome(result) => Some(self.on_result(result).1),
            Input::Wake => Some(self.on_wake().1),
            Input::InFlight(count) => Some(self.on_in_flight(count).1),
        }
    }

    /// Every input of the run can come when its turn is.
    pub open spec fn admits_run(self, inputs: Seq<Input>) -> bool
        decreases inputs.len(),
    {
        inputs.len() > 0 ==> self.enabled(inputs[0]) && self.step(inputs[0]).admits_run(
            inputs.drop_first(),
        )
    }

    /// The state after the run.
    pub open spec fn run(self, inputs: Seq<Input>) -> SinkView
        decreases inputs.len(),
    {
        if inputs.len() == 0 {
            self
        } else {
            self.step(inputs[0]).run(inputs.drop_first())
        }
    }

    /// Every step leads from a reachable state to a reachable state.
    pub proof fn law_step_reachable(self, input: Input)
        requires
            self.inv(),
            self.enabled(input),
        ensures
            self.step(input).inv(),
    {
        match input {
            Input::Update { time, row } => self.lemma_queue_update(time, row),
            Input::Activate { shutdown, frontier, durability } => self.lemma_activate(
                shutdown,
                frontier,
                durability,
            ),
            Input::Outcome(result) => self.lemma_on_result(result),
            Input::Wake => self.lemma_on_wake(),
            Input::InFlight(count) => self.lemma_on_in_flight(count),
        }
    }

    /// Whatever happens to a sink from its start on, it stays in a reachable state: every law
    /// that is stated of reachable states holds all along.
    pub proof fn law_reachable_from_start(
        config: crate::model::Config,
        active_write_worker: bool,
        latest_progress_ts: u64,
        metrics: crate::metrics::MetricsView,
        inputs: Seq<Input>,
    )
        requires
            crate::model::spec_new(
                config,
                active_write_worker,
                latest_progress_ts,
                metrics,
            ).admits_run(inputs),
        ensures
            crate::model::spec_new(config, active_write_worker, latest_progress_ts, metrics).run(
                inputs,
            ).inv(),
    {
        crate::steps::lemma_new(config, active_write_worker, latest_progress_ts, metrics);
        crate::model::spec_new(
            config,
            active_write_worker,
            latest_progress_ts,
            metrics,
        ).law_run_reachable(inputs);
    }

    /// What a sink is set up with never changes: its topics, its mode, its as-of frontier,
    /// its restart gate timestamp and its retry policy; nor do the labels of its metrics.
    pub proof fn law_config_constant(self, input: Input)
        requires
            self.inv(),
            self.enabled(input),
        ensures
            self.step(input).config == self.config,
            self.step(input).metrics.labels() == self.metrics.labels(),
    {
        match input {
            Input::Outcome(result) => {
                self.lemma_on_result(result);
            },
            _ => {},
        }
    }

    /// Every run leads from a reachable state to a reachable state.
    pub proof fn law_run_reachable(self, inputs: Seq<Input>)
        requires
            self.inv(),
            self.admits_run(inputs),
        ensures
            self.run(inputs).inv(),
        decreases inputs.len(),
    {
        if inputs.len() > 0 {
            self.law_step_reachable(inputs[0]);
            self.step(inputs[0]).law_run_reachable(inputs.drop_first());
        }
    }

    /// The progress and the write frontier of `self` are not behind those of `before`: the
    /// write frontier is where it was or further on, or it was cleared.
    pub open spec fn not_behind(self, before: SinkView) -> bool {
        &&& before.latest_progress_ts <= self.latest_progress_ts
        &&& frontier_advanced(before.write_frontier, self.write_frontier)
    }

    /// The work after the drain leaves progress and the write frontier no further back.
    proof fn lemma_after_drain_monotone(self)
        requires
            self.between_batches(),
            self.ready.len() == 0,
        ensures
            self.after_drain().0.not_behind(self),
            self.write_frontier.len() == 1 && self.after_drain().0.write_frontier.len() == 0
                ==> self.after_drain().0.input_frontier.len() == 0 && self.after_drain().0.pending.len()
                == 0,
    {
        self.lemma_after_drain();
    }

    proof fn lemma_start_next_monotone(self)
        requires
            self.between_batches(),
        ensures
            self.start_next().0.not_behind(self),
            self.write_frontier.len() == 1 && self.start_next().0.write_frontier.len() == 0
                ==> self.start_next().0.input_frontier.len() == 0 && self.start_next().0.pending.len()
                == 0,
    {
        if self.ready.len() == 0 {
            self.lemma_after_drain_monotone();
        }
    }

    proof fn lemma_advance_monotone(self)
        requires
            self.inv(),
            self.is_busy(),
        ensures
            self.advance().0.not_behind(self),
            self.write_frontier.len() == 1 && self.advance().0.write_frontier.len() == 0
                ==> self.advance().0.input_frontier.len() == 0 && self.advance().0.pending.len() == 0,
    {
        self.lemma_advance();
        match self.phase {
            Phase::InitTransactions => {
                (SinkView {
                    send_state: crate::model::SendState::Running,
                    ..self
                }).lemma_start_next_monotone();
            },
            Phase::Flush => {
                let popped = SinkView {
                    progress_update: Some(self.front().ts),
                    ready: self.ready.drop_first(),
                    ..self
                };
                self.lemma_flushed();
                popped.lemma_start_next_monotone();
            },
            Phase::ProgressEnd { strict } => {
                self.lemma_finish(strict);
            },
            Phase::ProgressCommit { strict } => {
                self.lemma_finish(strict);
            },
            _ => {},
        }
    }

    /// Monotone progress. No step takes the latest progress or the write frontier back: the
    /// write frontier stays, moves on, or is cleared; and it is cleared only when the sink
    /// shuts down or when no input is left.
    pub proof fn law_monotone_progress_step(self, input: Input)
        requires
            self.inv(),
            self.enabled(input),
        ensures
            self.step(input).not_behind(self),
            self.write_frontier.len() == 1 && self.step(input).write_frontier.len() == 0
                ==> self.step(input).shutdown || (self.step(input).input_frontier.len() == 0
                && self.step(input).pending.len() == 0),
    {
        match input {
            Input::Update { time, row } => {},
            Input::Activate { shutdown, frontier, durability } => {
                if !(self.shutdown || shutdown) {
                    self.lemma_promote(frontier, durability);
                    let promoted = self.promote(frontier, durability);
                    if promoted.is_active_worker && promoted.send_state is Init
                        && promoted.ready.len() > 0 {
                        if !promoted.config.transactional {
                            (SinkView {
                                send_state: crate::model::SendState::Running,
                                ..promoted
                            }).lemma_start_next_monotone();
                        }
                    } else {
                        promoted.lemma_start_next_monotone();
                    }
                }
            },
            Input::Outcome(result) => {
                self.lemma_on_result(result);
                if self.phase is ShutdownFlush {
                } else if self.is_txn_phase() {
                    if !self.retry.aborting && result is Ok {
                        self.lemma_advance_monotone();
                    }
                } else {
                    let counted = self.count_send(result);
                    if self.is_batch_send_phase() || self.phase is ProgressEnd {
                        assert(counted.inv());
                        if result is Ok {
                            counted.lemma_advance_monotone();
                        }
                    } else if result is Ok {
                        self.lemma_advance_monotone();
                    }
                }
            },
            Input::Wake => {},
            Input::InFlight(count) => {},
        }
    }

    /// Monotone progress, over a run.
    pub proof fn law_monotone_progress(self, inputs: Seq<Input>)
        requires
            self.inv(),
            self.admits_run(inputs),
        ensures
            self.run(inputs).not_behind(self),
        decreases inputs.len(),
    {
        if inputs.len() > 0 {
            self.law_step_reachable(inputs[0]);
            self.law_monotone_progress_step(inputs[0]);
            self.step(inputs[0]).law_monotone_progress(inputs.drop_first());
        }
    }

    /// A sink that shuts down ends with an empty write frontier: the last flush clears it
    /// whatever its outcome, and nothing sets it again.
    pub proof fn law_shutdown_clears(self, input: Input)
        requires
            self.inv(),
            self.enabled(input),
            self.shutdown,
        ensures
            self.step(input).shutdown,
            self.phase is ShutdownFlush && input is Outcome ==> self.step(input).write_frontier.len()
                == 0,
            self.write_frontier.len() == 0 ==> self.step(input).write_frontier.len() == 0,
    {
    }

    /// While a batch goes out, the write frontier is held, and it has not passed the
    /// batch's timestamp.
    pub proof fn law_frontier_behind_batch(self)
        requires
            self.inv(),
            self.is_batch_phase(),
        ensures
            self.write_frontier.len() == 1,
            self.ready.len() > 0,
            self.write_frontier[0] <= self.ready[0].ts,
    {
    }

    /// With a consistency topic the write frontier never exceeds the latest progress, which
    /// is the timestamp of the last END that went out or the restart gate timestamp.
    pub proof fn law_frontier_within_progress(self)
        requires
            self.inv(),
            self.config.consistency is Some,
        ensures
            self.write_frontier.len() <= 1,
            self.write_frontier.len() == 1 ==> self.write_frontier[0] <= self.latest_progress_ts,
    {
    }
}

/// Every record of the stream of `batches` is a row's record of one of the batches, under
/// that batch's timestamp.
pub proof fn lemma_stream_member(batches: Seq<BatchView>, i: int) -> (at: (int, int))
    requires
        0 <= i < stream(batches).len(),
    ensures
        0 <= at.0 < batches.len(),
        0 <= at.1 < batches[at.0].rows.len(),
        stream(batches)[i] == (batches[at.0].ts, batches[at.0].rows[at.1].record()),
    decreases batches.len(),
{
    let head = stream(batches.drop_last());
    if i < head.len() {
        let at = lemma_stream_member(batches.drop_last(), i);
        at
    } else {
        let row = lemma_expansion_member(batches.last().rows, i - head.len());
        (batches.len() - 1, row)
    }
}

/// Where the records of batch `k` stand in the stream: behind those of the batches before it.
pub open spec fn start_of(batches: Seq<BatchView>, k: int) -> int {
    stream(batches.subrange(0, k)).len() as int
}

/// Every place of the stream belongs to one batch: it lies among the places of that
/// batch's records, and holds the record that the batch's expansion has there.
pub proof fn lemma_stream_locate(batches: Seq<BatchView>, i: int) -> (k: int)
    requires
        0 <= i < stream(batches).len(),
    ensures
        0 <= k < batches.len(),
        start_of(batches, k) <= i < start_of(batches, k) + total_count(batches[k].rows),
        stream(batches)[i] == (
            batches[k].ts,
            expansion(batches[k].rows)[i - start_of(batches, k)],
        ),
    decreases batches.len(),
{
    let front = batches.drop_last();
    let head = stream(front);
    lemma_expansion_len(batches.last().rows);
    if i < head.len() {
        let k = lemma_stream_locate(front, i);
        assert(front.subrange(0, k) =~= batches.subrange(0, k));
        k
    } else {
        assert(batches.subrange(0, batches.len() - 1) =~= front);
        batches.len() - 1
    }
}

/// The places of different batches do not meet: those of an earlier batch end where those
/// of the next begin, or before.
pub proof fn lemma_starts_ascend(batches: Seq<BatchView>, a: int, b: int)
    requires
        0 <= a < b <= batches.len(),
    ensures
        start_of(batches, a) + total_count(batches[a].rows) <= start_of(batches, b),
    decreases b - a,
{
    crate::reachable::lemma_stream_take(batches, a);
    if a + 1 < b {
        lemma_starts_ascend(batches, a + 1, b);
    }
}

/// Every record of the expansion of `rows` is the record of one of the rows.
pub proof fn lemma_expansion_member(rows: Seq<RowView>, i: int) -> (row: int)
    requires
        0 <= i < expansion(rows).len(),
    ensures
        0 <= row < rows.len(),
        expansion(rows)[i] == rows[row].record(),
    decreases rows.len(),
{
    let head = expansion(rows.drop_last());
    if i < head.len() {
        lemma_expansion_member(rows.drop_last(), i)
    } else {
        rows.len() - 1
    }
}

/// The stream of batches with ascending timestamps is in timestamp order.
pub proof fn lemma_stream_ordered(batches: Seq<BatchView>, i: int, j: int)
    requires
        ascending(batches),
        0 <= i <= j < stream(batches).len(),
    ensures
        stream(batches)[i].0 <= stream(batches)[j].0,
    decreases batches.len(),
{
    let head = stream(batches.drop_last());
    assert(ascending(batches.drop_last())) by {
        assert forall|a: int, b: int| 0 <= a < b < batches.drop_last().len() implies batches.drop_last()[a].ts
            < batches.drop_last()[b].ts by {
            assert(batches[a].ts < batches[b].ts);
        }
    }
    if j < head.len() {
        lemma_stream_ordered(batches.drop_last(), i, j);
    } else if i < head.len() {
        let at = lemma_stream_member(batches.drop_last(), i);
        assert(batches[at.0].ts < batches[batches.len() - 1].ts);
    }
}

impl SinkView {
    /// No duplicate emission. The data records that the broker accepted are the front of
    /// the stream of the closed batches: batch after batch in ascending timestamps, each
    /// row's record as often as the row counts, and no more. So the records of a timestamp
    /// come from its batch alone, each copy at most once.
    pub proof fn law_no_duplicate_emission(self)
        requires
            self.inv(),
        ensures
            ascending(self.history.closed),
            self.history.data.len() <= stream(self.history.closed).len(),
            self.history.data == stream(self.history.closed).subrange(
                0,
                self.history.data.len() as int,
            ),
    {
    }

    /// Every data record that the broker accepted is a row's record of a closed batch, under
    /// the batch's timestamp, which is in time: beyond the as-of frontier and the restart gate.
    pub proof fn law_data_from_batches(self, i: int) -> (at: (int, int))
        requires
            self.inv(),
            0 <= i < self.history.data.len(),
        ensures
            0 <= at.0 < self.history.closed.len(),
            0 <= at.1 < self.history.closed[at.0].rows.len(),
            self.history.data[i] == (
                self.history.closed[at.0].ts,
                self.history.closed[at.0].rows[at.1].record(),
            ),
            spec_in_time(self.config.as_of, self.gate_ts(), self.history.data[i].0),
    {
        lemma_stream_member(self.history.closed, i)
    }

    /// The data records of one timestamp. The records that the broker accepted under the
    /// timestamp of a closed batch stand together, they are the first records of the batch's
    /// expansion in its order, and they are no more than the batch counts: no copy of a row
    /// went out twice, and no record went out under another timestamp's name.
    pub proof fn law_records_of_timestamp(self, k: int, i: int)
        requires
            self.inv(),
            0 <= k < self.history.closed.len(),
            0 <= i < self.history.data.len(),
        ensures
            self.history.data[i].0 == self.history.closed[k].ts <==> start_of(
                self.history.closed,
                k,
            ) <= i < start_of(self.history.closed, k) + total_count(self.history.closed[k].rows),
            self.history.data[i].0 == self.history.closed[k].ts ==> self.history.data[i].1
                == expansion(self.history.closed[k].rows)[i - start_of(self.history.closed, k)],
    {
        let closed = self.history.closed;
        let at = lemma_stream_locate(closed, i);
        if at < k {
            lemma_starts_ascend(closed, at, k);
            assert(closed[at].ts < closed[k].ts);
        } else if at > k {
            lemma_starts_ascend(closed, k, at);
            assert(closed[k].ts < closed[at].ts);
        }
    }

    /// Ordering. The data records that the broker accepted are in timestamp order.
    pub proof fn law_ordering(self, i: int, j: int)
        requires
            self.inv(),
            0 <= i <= j < self.history.data.len(),
        ensures
            self.history.data[i].0 <= self.history.data[j].0,
    {
        lemma_stream_ordered(self.history.closed, i, j);
    }

    /// Strict-less progress. The END record that reports progress carries a timestamp
    /// strictly below the input frontier and strictly below every pending timestamp.
    pub proof fn law_strict_progress(self, strict: u64)
        requires
            self.inv(),
            self.phase == (Phase::ProgressEnd { strict }),
        ensures
            !self.retry.aborting ==> self.call_of() == ActionView::Send(
                RecordOut::Consistency(
                    self.marker(strict, crate::consistency::TxnStatus::End, None),
                ),
            ),
            forall|t: u64| any_less_equal(self.input_frontier, t) ==> strict < t,
            forall|j: int| 0 <= j < self.pending.len() ==> strict < (#[trigger] self.pending[j]).ts,
    {
        assert forall|j: int| 0 <= j < self.pending.len() implies strict < (
        #[trigger] self.pending[j]).ts by {
            if j > 0 {
                assert(self.pending[0].ts < self.pending[j].ts);
            }
        }
        assert forall|t: u64| any_less_equal(self.input_frontier, t) implies strict < t by {
            let c = choose|c: int|
                0 <= c < self.input_frontier.len() && #[trigger] self.input_frontier[c] <= t;
        }
    }

    /// Batch atomicity. With transactions, what is committed is committed batch by batch:
    /// every committed transaction holds one closed batch in full, that is its BEGIN marker,
    /// each row's record as often as the row counts, and its END marker with their number;
    /// or it holds one progress record and nothing else.
    pub proof fn law_batch_atomicity(self, k: int)
        requires
            self.inv(),
            0 <= k < self.history.committed.len(),
        ensures
            self.config.transactional,
            self.config.is_whole(self.history.closed, self.history.committed[k]),
    {
    }

    /// With transactions every data record and every marker of a batch goes out inside a
    /// transaction: between the broker's acceptance of `begin_transaction` and the call of
    /// `commit_transaction`, nothing else is called but sends, and the commit is called only
    /// once the whole batch is out.
    pub proof fn law_commit_after_whole_batch(self)
        requires
            self.inv(),
            self.phase is Commit,
        ensures
            self.ready.len() > 0,
            self.history.txn == self.config.batch_entries(self.ready[0]),
    {
    }

    /// The order within a batch. When the flush of a batch is due, the broker has accepted
    /// for it, since its begin: the BEGIN marker, then each row's record as often as the row
    /// counts, then the END marker with their number, and nothing else; with transactions,
    /// all of it is committed by then.
    pub proof fn law_batch_order(self)
        requires
            self.inv(),
            self.phase is Flush,
        ensures
            self.ready.len() > 0,
            !self.config.transactional ==> self.history.txn == self.config.batch_entries(
                self.ready[0],
            ),
            self.config.transactional ==> self.history.committed.len() > 0
                && self.history.committed.last() == self.config.batch_entries(self.ready[0]),
    {
    }

    /// Progress covers the batches. When an END record reports progress, every closed batch
    /// has gone out in full, and none of them is beyond the timestamp that is reported.
    pub proof fn law_progress_covers_batches(self, strict: u64, k: int)
        requires
            self.inv(),
            self.phase == (Phase::ProgressEnd { strict }),
            0 <= k < self.history.closed.len(),
        ensures
            self.ready.len() == 0,
            self.history.data == stream(self.history.closed),
            self.history.closed[k].ts <= strict,
    {
        let closed = self.history.closed;
        assert(closed.subrange(0, closed.len() as int) =~= closed);
        assert(self.history.data =~= stream(closed));
        assert(!any_less_equal(self.input_frontier, closed[k].ts));
        if self.input_frontier.len() > 0 {
            assert(self.input_frontier[0] > closed[k].ts);
        }
        if self.pending.len() > 0 {
            assert(closed[k].ts < self.pending[0].ts);
        }
    }

    /// Restart idempotence. A sink that starts with a gate writes nothing at or below it:
    /// if the restart gate is at or beyond a timestamp that an earlier incarnation had committed,
    /// no data record of this incarnation carries that timestamp or an earlier one.
    pub proof fn law_restart_idempotence(self, committed_ts: u64, i: int)
        requires
            self.inv(),
            self.gate_ts() is Some,
            committed_ts <= self.gate_ts()->0,
            0 <= i < self.history.data.len(),
        ensures
            self.history.data[i].0 > committed_ts,
    {
        let at = self.law_data_from_batches(i);
    }

    /// Worker exclusivity. A worker that has received no update of the sink asks the broker
    /// for nothing but the last flush of a shutdown, and leaves its write frontier as it is
    /// or clears it: an empty write frontier stays empty.
    pub proof fn law_idle_worker(self, input: Input)
        requires
            self.inv(),
            self.enabled(input),
            !self.is_active_worker,
            !(input is Update),
        ensures
            !self.step(input).is_active_worker,
            self.step(input).history.data.len() == 0,
            self.step(input).write_frontier == self.write_frontier || self.step(
                input,
            ).write_frontier.len() == 0,
            self.asks(input) == Some(ActionView::Flush) || self.asks(input) == Some(
                ActionView::InFlightCount,
            ) || self.asks(input) is Some && self.asks(input)->0 is Yield,
    {
        self.law_step_reachable(input);
        lemma_stream_empty(self.step(input).history.closed);
        match input {
            Input::Activate { shutdown, frontier, durability } => {
                if !(self.shutdown || shutdown) {
                    self.lemma_promote(frontier, durability);
                }
            },
            _ => {},
        }
    }
}

/// No input of the run is an update.
pub open spec fn without_updates(inputs: Seq<Input>) -> bool {
    forall|i: int| 0 <= i < inputs.len() ==> !((#[trigger] inputs[i]) is Update)
}

impl SinkView {
    /// Worker exclusivity, over a run. A worker that is not the writer and is handed no
    /// update keeps an empty write frontier, and the broker accepts no data record from it.
    pub proof fn law_other_workers_stay_empty(self, inputs: Seq<Input>)
        requires
            self.inv(),
            !self.is_active_worker,
            self.write_frontier.len() == 0,
            self.admits_run(inputs),
            without_updates(inputs),
        ensures
            !self.run(inputs).is_active_worker,
            self.run(inputs).write_frontier.len() == 0,
            self.run(inputs).history.data.len() == 0,
        decreases inputs.len(),
    {
        if inputs.len() == 0 {
            lemma_stream_empty(self.history.closed);
        } else {
            self.law_step_reachable(inputs[0]);
            self.law_idle_worker(inputs[0]);
            assert(without_updates(inputs.drop_first())) by {
                assert forall|i: int| 0 <= i < inputs.drop_first().len() implies !((
                #[trigger] inputs.drop_first()[i]) is Update) by {
                    assert(inputs.drop_first()[i] == inputs[i + 1]);
                }
            }
            self.step(inputs[0]).law_other_workers_stay_empty(inputs.drop_first());
        }
    }
}

/// No batches, no stream.
pub proof fn lemma_stream_empty(batches: Seq<BatchView>)
    requires
        batches.len() == 0,
    ensures
        stream(batches).len() == 0,
{
}

/// The write frontier `after` is where `before` was or further on, or it is cleared.
pub open spec fn frontier_advanced(before: Seq<u64>, after: Seq<u64>) -> bool {
    after.len() == 0 || (before.len() == 1 && after.len() == 1 && before[0] <= after[0])
}

} // verus!
