//! Every transition of the sink keeps what holds of the reachable states.

use crate::admission::spec_in_time;
use crate::frontier::any_less_equal;
use crate::model::{sat_pred, spec_min_frontier, Phase, SendState, Sent, SinkView};
use crate::pending::{
    all_wf, ascending, is_closed, is_position, lemma_less_equal_upward, lemma_position,
    lemma_rows_at, pushed_at, rows_at,
};
use crate::reachable::{lemma_stream_append, lemma_stream_ends, lemma_stream_take, sent_data, stream, tagged};
use crate::retry::BrokerError;
use crate::rows::{
    lemma_expansion_index, lemma_len_le_total, lemma_total_count_monotone,
    lemma_total_count_prefix, lemma_total_count_push,
    total_count, BatchView, RecordView, RowView,
};
use vstd::prelude::*;

verus! {

/// Queuing a row keeps the timestamps ascending and the batches well formed, and brings in
/// no timestamp but `time`.
pub proof fn lemma_pushed(batches: Seq<BatchView>, time: u64, row: RowView, i: int)
    requires
        ascending(batches),
        all_wf(batches),
        is_position(batches, time, i),
        row.count > 0,
        total_count(rows_at(batches, time)) + row.count <= i64::MAX,
    ensures
        ascending(pushed_at(batches, time, row, i)),
        all_wf(pushed_at(batches, time, row, i)),
        pushed_at(batches, time, row, i).len() > 0,
        forall|j: int|
            0 <= j < pushed_at(batches, time, row, i).len() ==> (#[trigger] pushed_at(
                batches,
                time,
                row,
                i,
            )[j]).ts == time || exists|k: int|
                0 <= k < batches.len() && (#[trigger] batches[k]).ts == pushed_at(
                    batches,
                    time,
                    row,
                    i,
                )[j].ts,
{
    let after = pushed_at(batches, time, row, i);
    lemma_rows_at(batches, time, i);
    if i < batches.len() && batches[i].ts == time {
        lemma_total_count_push(batches[i].rows, row);
        assert forall|j: int| 0 <= j < after.len() implies (#[trigger] after[j]).wf() by {
            if j != i {
                assert(batches[j].wf());
            } else {
                assert(batches[i].wf());
                let rows = batches[i].rows.push(row);
                assert forall|r: int| 0 <= r < rows.len() implies (#[trigger] rows[r]).count
                    > 0 by {
                    if r < batches[i].rows.len() {
                        assert(batches[i].rows[r].count > 0);
                    }
                }
            }
        }
        assert forall|j: int| 0 <= j < after.len() implies (#[trigger] after[j]).ts == time
            || exists|k: int| 0 <= k < batches.len() && (#[trigger] batches[k]).ts == after[j].ts by {
            assert(batches[j].ts == after[j].ts);
        }
        assert forall|a: int, b: int| 0 <= a < b < after.len() implies after[a].ts < after[b].ts by {
            assert(batches[a].ts < batches[b].ts);
        }
    } else {
        lemma_total_count_push(Seq::empty(), row);
        assert(Seq::<RowView>::empty().push(row) =~= seq![row]);
        assert(total_count(Seq::<RowView>::empty()) == 0);
        assert forall|j: int| 0 <= j < after.len() implies (#[trigger] after[j]).wf() by {
            if j < i {
                assert(batches[j].wf());
            } else if j > i {
                assert(batches[j - 1].wf());
            }
        }
        assert forall|j: int| 0 <= j < after.len() implies (#[trigger] after[j]).ts == time
            || exists|k: int| 0 <= k < batches.len() && (#[trigger] batches[k]).ts == after[j].ts by {
            if j < i {
                assert(batches[j].ts == after[j].ts);
            } else if j > i {
                assert(batches[j - 1].ts == after[j].ts);
            }
        }
        assert forall|a: int, b: int| 0 <= a < b < after.len() implies after[a].ts < after[b].ts by {
            if b < i {
                assert(batches[a].ts < batches[b].ts);
            } else if b == i {
                assert(batches[a].ts < time);
            } else if a < i {
                assert(batches[a].ts < batches[b - 1].ts);
            } else if a == i {
                assert(batches[b - 1].ts >= time);
                if b - 1 > i {
                    assert(batches[i].ts < batches[b - 1].ts);
                }
            } else {
                assert(batches[a - 1].ts < batches[b - 1].ts);
            }
        }
    }
}

/// A sink at its start is in a reachable state.
pub proof fn lemma_new(
    config: crate::model::Config,
    active_write_worker: bool,
    latest_progress_ts: u64,
    metrics: crate::metrics::MetricsView,
)
    ensures
        crate::model::spec_new(config, active_write_worker, latest_progress_ts, metrics).inv(),
{
    let v = crate::model::spec_new(config, active_write_worker, latest_progress_ts, metrics);
    assert(v.history.closed.subrange(0, 0) =~= Seq::<BatchView>::empty());
    assert(v.ready =~= v.history.closed.subrange(v.done(), v.history.closed.len() as int));
    assert(stream(v.history.closed) =~= Seq::<(u64, RecordView)>::empty());
    assert(v.history.data =~= stream(v.history.closed).subrange(0, 0));
}

impl SinkView {
    /// An update that the sink accepts is queued.
    pub proof fn lemma_queue_update(self, time: u64, row: RowView)
        requires
            self.inv(),
            self.accepts(time, row),
        ensures
            self.queue_update(time, row).inv(),
    {
        let next = self.queue_update(time, row);
        let i = lemma_position(self.pending, time, 0);
        assert(self.position(time) == i);
        lemma_pushed(self.pending, time, row, i);
        let closed = self.history.closed;
        let f = self.input_frontier[0];
        assert(f <= time) by {
            let c = choose|c: int|
                0 <= c < self.input_frontier.len() && #[trigger] self.input_frontier[c] <= time;
        }
        assert forall|a: int, j: int| 0 <= a < closed.len() && 0 <= j < next.pending.len() implies (
        #[trigger] closed[a]).ts < (#[trigger] next.pending[j]).ts by {
            if next.pending[j].ts == time {
                if closed[a].ts >= time {
                    lemma_less_equal_upward(self.input_frontier, time, closed[a].ts);
                }
            } else {
                let k = choose|k: int|
                    0 <= k < self.pending.len() && (#[trigger] self.pending[k]).ts
                        == next.pending[j].ts;
                assert(closed[a].ts < self.pending[k].ts);
            }
        }
        assert forall|j: int| 0 <= j < next.pending.len() implies spec_in_time(
            next.config.as_of,
            next.gate_ts(),
            (#[trigger] next.pending[j]).ts,
        ) by {
            if next.pending[j].ts != time {
                let k = choose|k: int|
                    0 <= k < self.pending.len() && (#[trigger] self.pending[k]).ts
                        == next.pending[j].ts;
            }
        }
        let w = self.write_frontier[0];
        assert forall|j: int| 0 <= j < next.pending.len() implies w <= sat_pred(
            (#[trigger] next.pending[j]).ts,
        ) by {
            if next.pending[j].ts != time {
                let k = choose|k: int|
                    0 <= k < self.pending.len() && (#[trigger] self.pending[k]).ts
                        == next.pending[j].ts;
            }
        }
        assert(next.history_inv());
    }

    /// A pause ends.
    pub proof fn lemma_on_wake(self)
        requires
            self.inv(),
            self.sleeping,
        ensures
            self.on_wake().0.inv(),
    {
    }

    /// The number of messages in flight is read.
    pub proof fn lemma_on_in_flight(self, count: i32)
        requires
            self.inv(),
            self.phase is InFlight,
        ensures
            self.on_in_flight(count).0.inv(),
    {
    }

    /// The last flush of a shutdown returns.
    pub proof fn lemma_shutdown_flush(self, result: Result<(), BrokerError>)
        requires
            self.inv(),
            self.awaits_result(),
            self.phase is ShutdownFlush,
        ensures
            self.on_result(result).0.inv(),
    {
    }

    /// The ready queue is drained: progress is reported, or the activation ends.
    pub proof fn lemma_after_drain(self)
        requires
            self.between_batches(),
            self.ready.len() == 0,
        ensures
            self.after_drain().0.inv(),
    {
        let next = self.after_drain().0;
        if self.is_active_worker {
            match spec_min_frontier(self.input_frontier, self.pending) {
                None => {},
                Some(m) => {
                    let strict = sat_pred(m);
                    assert forall|j: int| 0 <= j < self.pending.len() implies strict <= sat_pred(
                        (#[trigger] self.pending[j]).ts,
                    ) by {
                        if j > 0 {
                            assert(self.pending[0].ts < self.pending[j].ts);
                        }
                    }
                },
            }
        }
    }

    /// The sink starts on the next batch, or on what follows the drain.
    pub proof fn lemma_start_next(self)
        requires
            self.between_batches(),
        ensures
            self.start_next().0.inv(),
    {
        if self.ready.len() > 0 {
            let next = self.start_next().0;
            lemma_total_count_prefix(self.front().rows, 0);
            assert(self.history.closed[self.done()] == self.ready[0]);
            assert(self.front().wf());
            assert(sent_data(self.front()).subrange(0, 0) =~= Seq::<Sent>::empty());
            if next.phase is Data {
                assert(next.history.txn =~= next.config.begin_entries(next.front()) + sent_data(
                    next.front(),
                ).subrange(0, next.offset()));
            }
        } else {
            self.lemma_after_drain();
        }
    }

    /// A data record went out.
    pub proof fn lemma_advance_data(self)
        requires
            self.inv(),
            self.phase is Data,
        ensures
            self.advance().0.inv(),
    {
        let next = self.advance().0;
        let row = self.phase->row as int;
        let copy = self.phase->copy as int;
        let front = self.front();
        let closed = self.history.closed;
        let done = self.done();
        let off = self.offset();
        assert(closed[done] == self.ready[0]);
        assert(front.wf());
        lemma_expansion_index(front.rows, row, copy);
        lemma_total_count_prefix(front.rows, row);
        lemma_len_le_total(front.rows);
        lemma_total_count_monotone(front.rows, row + 1);
        lemma_stream_take(closed, done);
        let record = front.rows[row].record();
        assert(tagged(front)[off] == (front.ts, record));
        assert(sent_data(front)[off] == (Sent::Data { ts: front.ts, record }));
        assert(next.history.data =~= stream(closed).subrange(0, next.history.data.len() as int));
        assert(next.offset() == off + 1);
        assert(sent_data(front).subrange(0, off + 1) =~= sent_data(front).subrange(0, off).push(
            Sent::Data { ts: front.ts, record },
        ));
        assert(next.history.txn =~= self.config.begin_entries(front) + sent_data(front).subrange(
            0,
            off + 1,
        ));
        if !(next.phase is Data) {
            assert(off + 1 == total_count(front.rows));
            assert(sent_data(front).subrange(0, off + 1) =~= sent_data(front));
            if next.phase is Commit {
                assert(self.config.end_entries(front) =~= Seq::<Sent>::empty());
                assert(next.history.txn =~= self.config.batch_entries(front));
            }
        }
    }

    /// The flush of a batch returned.
    pub proof fn lemma_advance_flush(self)
        requires
            self.inv(),
            self.phase is Flush,
        ensures
            self.advance().0.inv(),
    {
        self.lemma_flushed();
        (SinkView {
            progress_update: Some(self.front().ts),
            ready: self.ready.drop_first(),
            ..self
        }).lemma_start_next();
    }

    /// After the flush of a batch the sink stands between two batches.
    pub proof fn lemma_flushed(self)
        requires
            self.inv(),
            self.phase is Flush,
        ensures
            (SinkView {
                progress_update: Some(self.front().ts),
                ready: self.ready.drop_first(),
                ..self
            }).between_batches(),
    {
        let closed = self.history.closed;
        let done = self.done();
        let popped = SinkView {
            progress_update: Some(self.front().ts),
            ready: self.ready.drop_first(),
            ..self
        };
        lemma_stream_take(closed, done);
        assert(popped.ready =~= closed.subrange(done + 1, closed.len() as int));
        assert forall|j: int| 0 <= j < popped.ready.len() implies #[trigger] popped.ready[j]
            == self.ready[j + 1] by {}
        assert(popped.frontier_inv()) by {
            if popped.write_frontier.len() == 1 {
                assert forall|j: int| 0 <= j < popped.ready.len() implies popped.write_frontier[0]
                    <= sat_pred((#[trigger] popped.ready[j]).ts) by {
                    assert(popped.ready[j] == self.ready[j + 1]);
                }
            }
        }
    }

    /// The call of the current phase succeeded.
    pub proof fn lemma_advance(self)
        requires
            self.inv(),
            self.is_busy(),
        ensures
            self.advance().0.inv(),
    {
        let h = self.history;
        let closed = h.closed;
        match self.phase {
            Phase::InitTransactions => {
                (SinkView { send_state: SendState::Running, ..self }).lemma_start_next();
            },
            Phase::Begin => {
                let next = self.advance().0;
                lemma_total_count_prefix(self.front().rows, 0);
                assert(closed[self.done()] == self.ready[0]);
                assert(self.front().wf());
                assert(sent_data(self.front()).subrange(0, 0) =~= Seq::<Sent>::empty());
                if next.phase is Data {
                    assert(next.history.txn =~= next.config.begin_entries(next.front())
                        + sent_data(next.front()).subrange(0, next.offset()));
                }
            },
            Phase::BeginMarker => {
                let next = self.advance().0;
                lemma_total_count_prefix(self.front().rows, 0);
                assert(closed[self.done()] == self.ready[0]);
                assert(self.front().wf());
                assert(sent_data(self.front()).subrange(0, 0) =~= Seq::<Sent>::empty());
                assert(next.history.txn =~= next.config.begin_entries(next.front()) + sent_data(
                    next.front(),
                ).subrange(0, next.offset()));
            },
            Phase::Data { .. } => {
                self.lemma_advance_data();
            },
            Phase::EndMarker => {
                let next = self.advance().0;
                assert(next.history.txn =~= self.config.batch_entries(self.front()));
            },
            Phase::Commit => {
                let next = self.advance().0;
                assert(closed[self.done()] == self.ready[0]);
                assert(self.config.is_whole(closed, h.txn));
            },
            Phase::Flush => {
                self.lemma_advance_flush();
            },
            Phase::ProgressBegin { strict } => {},
            Phase::ProgressEnd { strict } => {
                let next = self.advance().0;
                assert(h.txn.push(Sent::Marker(self.record_of()->Consistency_0))
                    =~= self.config.progress_entries(strict));
                if !self.config.transactional {
                    self.lemma_finish(strict);
                }
            },
            Phase::ProgressCommit { strict } => {
                assert(self.config.is_whole(closed, h.txn));
                self.lemma_finish(strict);
            },
            _ => {},
        }
    }

    /// A progress phase ends well: the write frontier moves up to what was reported.
    pub proof fn lemma_finish(self, strict: u64)
        requires
            self.inv(),
            self.phase == (Phase::ProgressEnd { strict }) || self.phase == (Phase::ProgressCommit {
                strict,
            }),
        ensures
            forall|j: int|
                0 <= j < self.pending.len() ==> strict <= sat_pred((#[trigger] self.pending[j]).ts),
            self.input_frontier.len() == 1 ==> strict <= sat_pred(self.input_frontier[0]),
    {
        assert forall|j: int| 0 <= j < self.pending.len() implies strict <= sat_pred(
            (#[trigger] self.pending[j]).ts,
        ) by {
            if j > 0 {
                assert(self.pending[0].ts < self.pending[j].ts);
            }
        }
    }

    /// The driver reports the outcome of a broker call.
    pub proof fn lemma_on_result(self, result: Result<(), BrokerError>)
        requires
            self.inv(),
            self.awaits_result(),
        ensures
            self.on_result(result).0.inv(),
    {
        if self.phase is ShutdownFlush {
            self.lemma_shutdown_flush(result);
        } else if self.is_txn_phase() {
            if !self.retry.aborting && result is Ok {
                self.lemma_advance();
            }
        } else if self.is_batch_send_phase() {
            let counted = self.count_send(result);
            assert(counted.inv());
            if result is Ok {
                counted.lemma_advance();
            }
        } else {
            match self.phase {
                Phase::ProgressEnd { .. } => {
                    let counted = self.count_send(result);
                    assert(counted.inv());
                    if result is Ok {
                        counted.lemma_advance();
                    }
                },
                _ => {
                    if result is Ok {
                        self.lemma_advance();
                    }
                },
            }
        }
    }

    /// Every closed timestamp stays closed when the frontier moves on, and a split of the
    /// pending timestamps into closed and open ones exists and is the only one.
    pub proof fn lemma_split(self, frontier: Seq<u64>, durability: Seq<u64>, from: int) -> (n: int)
        requires
            ascending(self.pending),
            0 <= from <= self.pending.len(),
            forall|j: int|
                0 <= j < from ==> is_closed(frontier, durability, (#[trigger] self.pending[j]).ts),
        ensures
            self.is_split(frontier, durability, n),
            forall|k: int| self.is_split(frontier, durability, k) ==> k == n,
        decreases self.pending.len() - from,
    {
        if from < self.pending.len() && is_closed(frontier, durability, self.pending[from].ts) {
            self.lemma_split(frontier, durability, from + 1)
        } else {
            assert forall|j: int| from <= j < self.pending.len() implies !is_closed(
                frontier,
                durability,
                (#[trigger] self.pending[j]).ts,
            ) by {
                let low = self.pending[from].ts;
                let high = self.pending[j].ts;
                if j > from {
                    assert(self.pending[from].ts < self.pending[j].ts);
                }
                if any_less_equal(frontier, low) {
                    lemma_less_equal_upward(frontier, low, high);
                } else {
                    lemma_less_equal_upward(durability, low, high);
                }
            }
            assert forall|k: int| self.is_split(frontier, durability, k) implies k == from by {
                if k < from {
                    assert(is_closed(frontier, durability, self.pending[k].ts));
                } else if k > from {
                    assert(is_closed(frontier, durability, self.pending[from].ts));
                }
            }
            from
        }
    }

    /// The closed timestamps are moved to the ready queue, and the sink stands between two
    /// batches.
    pub proof fn lemma_promote(self, frontier: Seq<u64>, durability: Seq<u64>)
        requires
            self.inv(),
            self.phase is Idle,
            !self.shutdown,
            self.admits_frontier(frontier),
        ensures
            self.promote(frontier, durability).between_batches() || (self.promote(
                frontier,
                durability,
            ).send_state is Init && (SinkView {
                send_state: SendState::Running,
                ..self.promote(frontier, durability)
            }).between_batches()),
            self.promote(frontier, durability).ready.len() > 0 ==> self.promote(
                frontier,
                durability,
            ).is_active_worker,
            self.promote(frontier, durability).phase is Idle,
            !self.promote(frontier, durability).shutdown,
            self.promote(frontier, durability).send_state == self.send_state,
    {
        let n = self.lemma_split(frontier, durability, 0);
        let next = self.promote(frontier, durability);
        let fresh = self.pending.subrange(0, n);
        let closed = self.history.closed;
        assert(self.done() == closed.len());
        assert(self.ready =~= Seq::<BatchView>::empty());
        assert(next.ready =~= fresh);
        assert(next.history.closed.subrange(closed.len() as int, next.history.closed.len() as int)
            =~= fresh);
        assert(next.history.closed.subrange(0, closed.len() as int) =~= closed);
        lemma_stream_append(closed, fresh);
        lemma_stream_ends(closed);
        assert(next.history.data =~= stream(next.history.closed).subrange(
            0,
            next.history.data.len() as int,
        ));
        assert forall|t: u64| any_less_equal(self.input_frontier, t) || !any_less_equal(
            frontier,
            t,
        ) by {}
        assert forall|i: int| 0 <= i < next.history.closed.len() implies !any_less_equal(
            frontier,
            (#[trigger] next.history.closed[i]).ts,
        ) by {
            if i < closed.len() {
                assert(!any_less_equal(self.input_frontier, closed[i].ts));
            } else {
                assert(is_closed(frontier, durability, self.pending[i - closed.len()].ts));
            }
        }
        assert forall|i: int, j: int|
            0 <= i < j < next.history.closed.len() implies next.history.closed[i].ts
            < next.history.closed[j].ts by {
            if j < closed.len() {
                assert(closed[i].ts < closed[j].ts);
            } else if i < closed.len() {
                assert(closed[i].ts < self.pending[j - closed.len()].ts);
            } else {
                assert(self.pending[i - closed.len()].ts < self.pending[j - closed.len()].ts);
            }
        }
        assert forall|i: int| 0 <= i < next.history.closed.len() implies (
        #[trigger] next.history.closed[i]).wf() by {
            if i < closed.len() {
                assert(closed[i].wf());
            } else {
                assert(self.pending[i - closed.len()].wf());
            }
        }
        assert forall|i: int, j: int|
            0 <= i < next.history.closed.len() && 0 <= j < next.pending.len() implies (
        #[trigger] next.history.closed[i]).ts < (#[trigger] next.pending[j]).ts by {
            assert(next.pending[j] == self.pending[j + n]);
            if i < closed.len() {
                assert(closed[i].ts < self.pending[j + n].ts);
            } else {
                assert(self.pending[i - closed.len()].ts < self.pending[j + n].ts);
            }
        }
        assert forall|i: int| 0 <= i < next.history.closed.len() implies spec_in_time(
            next.config.as_of,
            next.gate_ts(),
            (#[trigger] next.history.closed[i]).ts,
        ) by {
            if i < closed.len() {
                assert(spec_in_time(self.config.as_of, self.gate_ts(), closed[i].ts));
            } else {
                assert(spec_in_time(
                    self.config.as_of,
                    self.gate_ts(),
                    self.pending[i - closed.len()].ts,
                ));
            }
        }
        assert forall|j: int| 0 <= j < next.pending.len() implies spec_in_time(
            next.config.as_of,
            next.gate_ts(),
            (#[trigger] next.pending[j]).ts,
        ) && (#[trigger] next.pending[j]).wf() by {
            assert(next.pending[j] == self.pending[j + n]);
        }
        assert(ascending(next.pending)) by {
            assert forall|i: int, j: int| 0 <= i < j < next.pending.len() implies next.pending[i].ts
                < next.pending[j].ts by {
                assert(self.pending[i + n].ts < self.pending[j + n].ts);
            }
        }
        assert(next.queues_inv());
        if frontier.len() == 1 {
            assert(any_less_equal(frontier, frontier[0]));
            assert(any_less_equal(self.input_frontier, frontier[0]));
            let c = choose|c: int|
                0 <= c < self.input_frontier.len() && #[trigger] self.input_frontier[c]
                    <= frontier[0];
            assert(self.input_frontier[0] <= frontier[0]);
        }
        if next.write_frontier.len() == 1 {
            let w = next.write_frontier[0];
            assert forall|j: int| 0 <= j < next.pending.len() implies w <= sat_pred(
                (#[trigger] next.pending[j]).ts,
            ) by {
                assert(next.pending[j] == self.pending[j + n]);
            }
            assert forall|j: int| 0 <= j < next.ready.len() implies w <= sat_pred(
                (#[trigger] next.ready[j]).ts,
            ) by {
                assert(next.ready[j] == self.pending[j]);
            }
        }
        assert(next.frontier_inv());
        assert(next.committed_inv()) by {
            assert forall|k: int| 0 <= k < next.history.committed.len() implies next.config.is_whole(
                next.history.closed,
                #[trigger] next.history.committed[k],
            ) by {
                let entries = self.history.committed[k];
                assert(self.config.is_whole(closed, entries));
                if exists|b: int|
                    0 <= b < closed.len() && entries == self.config.batch_entries(
                        #[trigger] closed[b],
                    ) {
                    let b = choose|b: int|
                        0 <= b < closed.len() && entries == self.config.batch_entries(
                            #[trigger] closed[b],
                        );
                    assert(next.history.closed[b] == closed[b]);
                }
            }
        }
        assert(next.data_at(0));
    }

    /// An activation starts.
    pub proof fn lemma_activate(self, shutdown: bool, frontier: Seq<u64>, durability: Seq<u64>)
        requires
            self.inv(),
            self.phase is Idle,
            !(self.shutdown || shutdown) ==> self.admits_frontier(frontier),
        ensures
            self.activate(shutdown, frontier, durability).0.inv(),
    {
        if self.shutdown || shutdown {
        } else {
            self.lemma_promote(frontier, durability);
            let promoted = self.promote(frontier, durability);
            if promoted.is_active_worker && promoted.send_state is Init && promoted.ready.len()
                > 0 {
                if promoted.config.transactional {
                    assert(promoted.enter(Phase::InitTransactions).0.inv());
                } else {
                    (SinkView { send_state: SendState::Running, ..promoted }).lemma_start_next();
                }
            } else {
                promoted.lemma_start_next();
            }
        }
    }
}

} // verus!
