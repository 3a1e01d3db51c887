//! What holds of every state that the sink can reach.

use crate::admission::spec_in_time;
use crate::consistency::TxnStatus;
use crate::frontier::any_less_equal;
use crate::model::{sat_pred, spec_min_frontier, Config, Phase, Sent, SinkView};
use crate::pending::{all_wf, ascending};
use crate::rows::{expansion, total_count, BatchView, RecordView};
use vstd::prelude::*;

verus! {

/// The records of a batch, each with the batch's timestamp.
pub open spec fn tagged(batch: BatchView) -> Seq<(u64, RecordView)> {
    expansion(batch.rows).map_values(|r: RecordView| (batch.ts, r))
}

/// The data records of a sequence of batches: batch after batch, each expanded.
pub open spec fn stream(batches: Seq<BatchView>) -> Seq<(u64, RecordView)>
    decreases batches.len(),
{
    if batches.len() == 0 {
        Seq::empty()
    } else {
        stream(batches.drop_last()) + tagged(batches.last())
    }
}

/// The data records of a batch as the log of a transaction has them.
pub open spec fn sent_data(batch: BatchView) -> Seq<Sent> {
    expansion(batch.rows).map_values(|r: RecordView| Sent::Data { ts: batch.ts, record: r })
}

/// The stream of batches put together is their streams put together.
pub proof fn lemma_stream_append(a: Seq<BatchView>, b: Seq<BatchView>)
    ensures
        stream(a + b) == stream(a) + stream(b),
    decreases b.len(),
{
    if b.len() == 0 {
        assert(a + b =~= a);
        assert(stream(a) + stream(b) =~= stream(a));
    } else {
        lemma_stream_append(a, b.drop_last());
        assert((a + b).drop_last() =~= a + b.drop_last());
        assert(stream(a + b) =~= stream(a) + stream(b));
    }
}

/// The stream of the first `k + 1` batches is that of the first `k` followed by batch `k`,
/// and the stream of all batches starts with it.
pub proof fn lemma_stream_take(batches: Seq<BatchView>, k: int)
    requires
        0 <= k < batches.len(),
    ensures
        stream(batches.subrange(0, k + 1)) == stream(batches.subrange(0, k)) + tagged(batches[k]),
        stream(batches) == stream(batches.subrange(0, k)) + tagged(batches[k]) + stream(
            batches.subrange(k + 1, batches.len() as int),
        ),
        tagged(batches[k]).len() == total_count(batches[k].rows),
{
    let head = batches.subrange(0, k + 1);
    let tail = batches.subrange(k + 1, batches.len() as int);
    assert(head.drop_last() =~= batches.subrange(0, k));
    assert(batches =~= head + tail);
    lemma_stream_append(head, tail);
    crate::rows::lemma_expansion_len(batches[k].rows);
}

/// The stream of no batches is empty; the stream of all is the stream.
pub proof fn lemma_stream_ends(batches: Seq<BatchView>)
    ensures
        stream(batches.subrange(0, 0)) == Seq::<(u64, RecordView)>::empty(),
        batches.subrange(0, batches.len() as int) == batches,
{
    assert(batches.subrange(0, batches.len() as int) =~= batches);
}

impl Config {
    /// The BEGIN marker of a batch, where a consistency topic is configured.
    pub open spec fn begin_entries(self, batch: BatchView) -> Seq<Sent> {
        if self.consistency is Some {
            seq![Sent::Marker(self.marker(batch.ts, TxnStatus::Begin, None))]
        } else {
            Seq::empty()
        }
    }

    /// The END marker of a batch, where a consistency topic is configured.
    pub open spec fn end_entries(self, batch: BatchView) -> Seq<Sent> {
        if self.consistency is Some {
            seq![
                Sent::Marker(
                    self.marker(batch.ts, TxnStatus::End, Some(total_count(batch.rows) as i64)),
                ),
            ]
        } else {
            Seq::empty()
        }
    }

    /// Everything that the broker accepts for a batch: the BEGIN marker, every data record,
    /// the END marker with their number; the markers only with a consistency topic.
    pub open spec fn batch_entries(self, batch: BatchView) -> Seq<Sent> {
        self.begin_entries(batch) + sent_data(batch) + self.end_entries(batch)
    }

    /// The entries of a progress record.
    pub open spec fn progress_entries(self, strict: u64) -> Seq<Sent> {
        seq![Sent::Marker(self.marker(strict, TxnStatus::End, None))]
    }

    /// A transaction holds one whole batch out of `closed`, or one progress record.
    pub open spec fn is_whole(self, closed: Seq<BatchView>, entries: Seq<Sent>) -> bool {
        ||| exists|k: int|
            0 <= k < closed.len() && entries == self.batch_entries(#[trigger] closed[k])
        ||| exists|strict: u64| entries == #[trigger] self.progress_entries(strict)
    }
}

impl SinkView {
    /// How many closed batches are done with.
    pub open spec fn done(self) -> int {
        self.history.closed.len() - self.ready.len()
    }

    /// The phase is part of the work on the front batch.
    pub open spec fn is_batch_phase(self) -> bool {
        self.phase is Begin || self.phase is BeginMarker || self.phase is Data
            || self.phase is EndMarker || self.phase is Commit || self.phase is Flush
    }

    /// The phase is part of a progress report.
    pub open spec fn is_progress_phase(self) -> bool {
        self.phase is ProgressBegin || self.phase is ProgressEnd || self.phase is ProgressCommit
    }

    /// The phase is part of the work on batches or progress.
    pub open spec fn is_busy(self) -> bool {
        self.is_batch_phase() || self.is_progress_phase() || self.phase is InitTransactions
    }

    /// How many data records of the front batch the broker has accepted.
    pub open spec fn offset(self) -> int {
        match self.phase {
            Phase::Data { row, copy } => total_count(self.front().rows.subrange(0, row as int))
                + copy,
            Phase::EndMarker | Phase::Commit | Phase::Flush => total_count(self.front().rows) as int,
            _ => 0,
        }
    }

    /// The queues. Pending and closed timestamps ascend, and every closed one is below every
    /// pending one; the ready queue is the end of the closed batches; every closed timestamp is
    /// before the input frontier; every queued timestamp is in time; and a worker that is not
    /// active has queued nothing.
    pub open spec fn queues_inv(self) -> bool {
        let closed = self.history.closed;
        &&& ascending(self.pending)
        &&& all_wf(self.pending)
        &&& ascending(closed)
        &&& all_wf(closed)
        &&& 0 <= self.done() <= closed.len()
        &&& self.ready == closed.subrange(self.done(), closed.len() as int)
        &&& forall|i: int, j: int|
            0 <= i < closed.len() && 0 <= j < self.pending.len() ==> (#[trigger] closed[i]).ts < (
            #[trigger] self.pending[j]).ts
        &&& forall|i: int|
            0 <= i < closed.len() ==> !any_less_equal(self.input_frontier, (#[trigger] closed[i]).ts)
        &&& forall|i: int|
            0 <= i < closed.len() ==> spec_in_time(
                self.config.as_of,
                self.gate_ts(),
                (#[trigger] closed[i]).ts,
            )
        &&& forall|j: int|
            0 <= j < self.pending.len() ==> spec_in_time(
                self.config.as_of,
                self.gate_ts(),
                (#[trigger] self.pending[j]).ts,
            )
        &&& !self.is_active_worker ==> self.pending.len() == 0 && closed.len() == 0
    }

    /// The frontiers. Each holds one element at most. With a consistency topic the write
    /// frontier is not beyond the latest progress. It stays strictly below the input frontier
    /// and every queued timestamp (at zero, below or at). An active worker that runs holds
    /// the write frontier until no input is left.
    pub open spec fn frontier_inv(self) -> bool {
        &&& self.input_frontier.len() <= 1
        &&& self.write_frontier.len() <= 1
        &&& self.write_frontier.len() == 1 ==> {
            let w = self.write_frontier[0];
            &&& self.config.consistency is Some ==> w <= self.latest_progress_ts
            &&& self.input_frontier.len() == 1 ==> w <= sat_pred(self.input_frontier[0])
            &&& forall|j: int|
                0 <= j < self.pending.len() ==> w <= sat_pred((#[trigger] self.pending[j]).ts)
            &&& forall|j: int|
                0 <= j < self.ready.len() ==> w <= sat_pred((#[trigger] self.ready[j]).ts)
        }
        &&& self.is_active_worker && (self.is_busy() || !self.shutdown) ==> {
            ||| self.write_frontier.len() == 1
            ||| self.input_frontier.len() == 0 && self.pending.len() == 0 && self.ready.len() == 0
        }
    }

    /// The phases. Each phase has what its call needs: a front batch for the calls of a batch,
    /// a consistency topic for the markers, transactions for begin and commit; a sink that is
    /// busy runs and is active; a sink that rests and runs has an empty ready queue.
    pub open spec fn phase_inv(self) -> bool {
        &&& self.sleeping ==> self.is_txn_phase() || self.is_batch_send_phase()
            || self.phase is ProgressEnd
        &&& self.retry.aborting ==> self.is_txn_phase()
        &&& self.is_busy() ==> !self.shutdown && self.is_active_worker
        &&& self.is_batch_phase() ==> self.ready.len() > 0 && self.send_state is Running
        &&& self.phase is InitTransactions ==> self.ready.len() > 0 && self.config.transactional
            && self.send_state is Init
        &&& self.phase is Begin || self.phase is Commit ==> self.config.transactional
        &&& self.phase is BeginMarker || self.phase is EndMarker ==> self.config.consistency is Some
        &&& self.phase matches Phase::Data { row, copy } ==> row < self.front().rows.len() && copy
            < self.front().rows[row as int].count
        &&& self.is_progress_phase() ==> self.ready.len() == 0 && self.config.consistency is Some
            && self.progress_update is None
        &&& self.phase is ProgressBegin || self.phase is ProgressCommit ==> self.config.transactional
        &&& (self.phase is Idle || self.phase is InFlight) && !self.shutdown ==> self.ready.len()
            == 0 && self.progress_update is None
        &&& self.phase is InFlight ==> self.pending.len() == 0
        &&& self.phase is ShutdownFlush ==> self.shutdown
    }

    /// The progress that a progress phase reports is news, and is just below the least time
    /// that may still come.
    pub open spec fn progress_inv(self) -> bool {
        forall|strict: u64|
            self.phase == (Phase::ProgressBegin { strict }) || self.phase == (Phase::ProgressEnd {
                strict,
            }) || self.phase == (Phase::ProgressCommit { strict }) ==> {
                &&& strict > self.latest_progress_ts
                &&& spec_min_frontier(self.input_frontier, self.pending) is Some
                &&& strict == sat_pred(spec_min_frontier(self.input_frontier, self.pending)->0)
            }
    }

    /// The entries that the current transaction holds in each phase.
    pub open spec fn txn_inv(self) -> bool {
        let txn = self.history.txn;
        match self.phase {
            Phase::BeginMarker => txn == Seq::<Sent>::empty(),
            Phase::Data { .. } => txn == self.config.begin_entries(self.front()) + sent_data(
                self.front(),
            ).subrange(0, self.offset()),
            Phase::EndMarker => txn == self.config.begin_entries(self.front()) + sent_data(self.front()),
            Phase::Commit => txn == self.config.batch_entries(self.front()),
            Phase::Flush => if self.config.transactional {
                &&& txn == Seq::<Sent>::empty()
                &&& self.history.committed.len() > 0
                &&& self.history.committed.last() == self.config.batch_entries(self.front())
            } else {
                txn == self.config.batch_entries(self.front())
            },
            Phase::ProgressEnd { .. } => txn == Seq::<Sent>::empty(),
            Phase::ProgressCommit { strict } => txn == self.config.progress_entries(strict),
            _ => true,
        }
    }

    /// The data records that the broker accepted are the front of the stream of the closed
    /// batches.
    pub open spec fn data_inv(self) -> bool {
        let whole = stream(self.history.closed);
        &&& self.history.data.len() <= whole.len()
        &&& self.history.data == whole.subrange(0, self.history.data.len() as int)
    }

    /// The broker accepted every record of the batches that are done with, and `sent` records
    /// of the front batch.
    pub open spec fn data_at(self, sent: int) -> bool {
        self.history.data.len() == stream(self.history.closed.subrange(0, self.done())).len()
            + sent
    }

    /// Every committed transaction holds one whole batch or one progress record; without
    /// transactions nothing is committed.
    pub open spec fn committed_inv(self) -> bool {
        &&& forall|k: int|
            0 <= k < self.history.committed.len() ==> self.config.is_whole(
                self.history.closed,
                #[trigger] self.history.committed[k],
            )
        &&& !self.config.transactional ==> self.history.committed.len() == 0
    }

    /// The history: what went out is what the closed batches hold, up to where the sink stands.
    pub open spec fn history_inv(self) -> bool {
        &&& self.data_inv()
        &&& !(self.shutdown && !self.is_busy()) ==> self.data_at(self.offset())
        &&& self.txn_inv()
        &&& self.committed_inv()
    }

    /// The state between two batches of an activation: the sink runs, and nothing of the
    /// front batch has gone out.
    pub open spec fn between_batches(self) -> bool {
        &&& self.queues_inv()
        &&& self.frontier_inv()
        &&& !self.shutdown
        &&& self.data_inv()
        &&& self.data_at(0)
        &&& self.committed_inv()
        &&& self.ready.len() > 0 ==> self.is_active_worker && self.send_state is Running
    }

    /// What holds of every state that a sink can reach.
    pub open spec fn inv(self) -> bool {
        &&& self.queues_inv()
        &&& self.frontier_inv()
        &&& self.phase_inv()
        &&& self.progress_inv()
        &&& self.history_inv()
    }
}

} // verus!
