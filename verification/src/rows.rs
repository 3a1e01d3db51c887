//! Encoded rows and the batches they form per timestamp.

use vstd::prelude::*;

verus! {

/// An encoded update, waiting to be written `count` times.
pub struct EncodedRow {
    pub key: Option<Vec<u8>>,
    pub value: Option<Vec<u8>>,
    pub count: u64,
}

/// The record that a row stands for: its optional key and optional value.
pub struct RecordView {
    pub key: Option<Seq<u8>>,
    pub value: Option<Seq<u8>>,
}

/// The mathematical content of an [`EncodedRow`].
pub struct RowView {
    pub key: Option<Seq<u8>>,
    pub value: Option<Seq<u8>>,
    pub count: nat,
}

impl RowView {
    /// The record that the row stands for.
    pub open spec fn record(self) -> RecordView {
        RecordView { key: self.key, value: self.value }
    }
}

/// The bytes of an optional key or value.
pub open spec fn bytes_view(bytes: Option<Vec<u8>>) -> Option<Seq<u8>> {
    match bytes {
        Some(b) => Some(b@),
        None => None,
    }
}

impl View for EncodedRow {
    type V = RowView;

    open spec fn view(&self) -> RowView {
        RowView {
            key: bytes_view(self.key),
            value: bytes_view(self.value),
            count: self.count as nat,
        }
    }
}

/// The mathematical content of a sequence of rows.
pub open spec fn rows_view(rows: Seq<EncodedRow>) -> Seq<RowView> {
    rows.map_values(|r: EncodedRow| r@)
}

/// How many records a sequence of rows stands for: the sum of the counts.
pub open spec fn total_count(rows: Seq<RowView>) -> nat
    decreases rows.len(),
{
    if rows.len() == 0 {
        0
    } else {
        total_count(rows.drop_last()) + rows.last().count
    }
}

/// The records that a sequence of rows stands for: each row's record `count` times, rows in
/// order.
pub open spec fn expansion(rows: Seq<RowView>) -> Seq<RecordView>
    decreases rows.len(),
{
    if rows.len() == 0 {
        Seq::empty()
    } else {
        expansion(rows.drop_last()) + Seq::new(rows.last().count, |i: int| rows.last().record())
    }
}

/// The rows of one timestamp, in arrival order.
pub struct BatchView {
    pub ts: u64,
    pub rows: Seq<RowView>,
}

impl BatchView {
    /// A batch holds at least one row, every row counts at least once, and the number of
    /// records fits the message count of an END marker.
    pub open spec fn wf(self) -> bool {
        &&& self.rows.len() > 0
        &&& forall|i: int| 0 <= i < self.rows.len() ==> (#[trigger] self.rows[i]).count > 0
        &&& total_count(self.rows) <= i64::MAX
    }
}

/// The rows queued for one timestamp.
pub struct Batch {
    ts: u64,
    rows: Vec<EncodedRow>,
    /// The number of records that the rows stand for, kept so that it is not summed again;
    /// the view does without it.
    total: u64,
}

impl View for Batch {
    type V = BatchView;

    closed spec fn view(&self) -> BatchView {
        BatchView { ts: self.ts, rows: rows_view(self.rows@) }
    }
}

impl Batch {
    /// The stored total agrees with the rows.
    pub closed spec fn wf(&self) -> bool {
        &&& self@.wf()
        &&& self.total == total_count(self@.rows)
    }

    /// A batch of one row.
    pub fn new(ts: u64, row: EncodedRow) -> (batch: Batch)
        requires
            0 < row.count <= i64::MAX,
        ensures
            batch@ == (BatchView { ts, rows: seq![row@] }),
            batch.wf(),
    {
        let total: u64 = row.count;
        let mut rows: Vec<EncodedRow> = Vec::new();
        rows.push(row);
        proof {
            assert(rows_view(rows@) =~= seq![row@]);
            lemma_total_count_push(Seq::empty(), row@);
            assert(Seq::<RowView>::empty().push(row@) =~= seq![row@]);
        }
        Batch { ts, rows, total }
    }

    /// Appends a row, behind those that came before.
    pub fn push(&mut self, row: EncodedRow)
        requires
            old(self).wf(),
            row.count > 0,
            total_count(old(self)@.rows) + row.count <= i64::MAX,
        ensures
            final(self)@ == (BatchView { ts: old(self)@.ts, rows: old(self)@.rows.push(row@) }),
            final(self).wf(),
    {
        proof {
            lemma_total_count_push(self@.rows, row@);
            assert(rows_view(self.rows@.push(row)) =~= rows_view(self.rows@).push(row@));
        }
        self.total = self.total + row.count;
        self.rows.push(row);
    }

    /// A sound batch is well formed.
    pub proof fn lemma_wf(&self)
        requires
            self.wf(),
        ensures
            self@.wf(),
    {
    }

    /// The timestamp of the batch.
    pub fn ts(&self) -> (ts: u64)
        ensures
            ts == self@.ts,
    {
        self.ts
    }

    /// The number of rows.
    pub fn len(&self) -> (n: usize)
        ensures
            n == self@.rows.len(),
    {
        self.rows.len()
    }

    /// Row number `i`, in arrival order.
    pub fn row(&self, i: usize) -> (row: &EncodedRow)
        requires
            i < self@.rows.len(),
        ensures
            row@ == self@.rows[i as int],
    {
        &self.rows[i]
    }

    /// The number of records that the batch stands for.
    pub fn total(&self) -> (n: u64)
        requires
            self.wf(),
        ensures
            n == total_count(self@.rows),
            n <= i64::MAX,
    {
        self.total
    }
}

/// One more row stands for its count more records.
pub proof fn lemma_total_count_push(rows: Seq<RowView>, row: RowView)
    ensures
        total_count(rows.push(row)) == total_count(rows) + row.count,
{
    assert(rows.push(row).drop_last() =~= rows);
}

/// The expansion is as long as the rows count.
pub proof fn lemma_expansion_len(rows: Seq<RowView>)
    ensures
        expansion(rows).len() == total_count(rows),
    decreases rows.len(),
{
    if rows.len() > 0 {
        lemma_expansion_len(rows.drop_last());
    }
}

/// The rows before row `row` stand for as many records as those before `row - 1` and row
/// `row - 1` together; all rows before the end are all rows.
pub proof fn lemma_total_count_prefix(rows: Seq<RowView>, row: int)
    requires
        0 <= row < rows.len(),
    ensures
        total_count(rows.subrange(0, row + 1)) == total_count(rows.subrange(0, row))
            + rows[row].count,
        total_count(rows.subrange(0, 0)) == 0,
        rows.subrange(0, rows.len() as int) == rows,
{
    assert(rows.subrange(0, row + 1).drop_last() =~= rows.subrange(0, row));
    assert(rows.subrange(0, rows.len() as int) =~= rows);
}

/// Copy number `copy` of row number `row` stands in the expansion behind every copy of
/// the rows before it and the earlier copies of its own row.
pub proof fn lemma_expansion_index(rows: Seq<RowView>, row: int, copy: int)
    requires
        0 <= row < rows.len(),
        0 <= copy < rows[row].count,
    ensures
        total_count(rows.subrange(0, row)) + copy < expansion(rows).len(),
        expansion(rows).len() == total_count(rows),
        expansion(rows)[total_count(rows.subrange(0, row)) + copy] == rows[row].record(),
    decreases rows.len(),
{
    lemma_expansion_len(rows);
    lemma_expansion_len(rows.drop_last());
    if row == rows.len() - 1 {
        assert(rows.subrange(0, row) =~= rows.drop_last());
    } else {
        lemma_expansion_index(rows.drop_last(), row, copy);
        assert(rows.drop_last().subrange(0, row) =~= rows.subrange(0, row));
    }
}

/// Rows that each count at least once stand for at least as many records as there are
/// rows.
pub proof fn lemma_len_le_total(rows: Seq<RowView>)
    requires
        forall|i: int| 0 <= i < rows.len() ==> (#[trigger] rows[i]).count > 0,
    ensures
        rows.len() <= total_count(rows),
    decreases rows.len(),
{
    if rows.len() > 0 {
        assert forall|i: int| 0 <= i < rows.drop_last().len() implies (#[trigger] rows.drop_last()[i]).count
            > 0 by {
            assert(rows[i].count > 0);
        }
        lemma_len_le_total(rows.drop_last());
    }
}

/// A part of the rows stands for no more records than all of them.
pub proof fn lemma_total_count_monotone(rows: Seq<RowView>, row: int)
    requires
        0 <= row <= rows.len(),
    ensures
        total_count(rows.subrange(0, row)) <= total_count(rows),
    decreases rows.len() - row,
{
    if row < rows.len() {
        lemma_total_count_prefix(rows, row);
        lemma_total_count_monotone(rows, row + 1);
    } else {
        assert(rows.subrange(0, row) =~= rows);
    }
}

} // verus!
