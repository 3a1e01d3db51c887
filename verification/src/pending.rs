//! The map of pending rows: per timestamp, the rows that wait for the timestamp to close.
//!
//! The rows are kept in a hash map. Its contents are spoken of as the sequence of its
//! batches in ascending order of timestamp, which is the order in which closing hands them
//! out.

use crate::frontier::{any_less_equal, antichain_elements, antichain_less_equal};
use crate::rows::{total_count, Batch, BatchView, EncodedRow, RowView};
use std::collections::HashMap;
use timely::progress::Antichain;
use vstd::std_specs::iter::IteratorSpec;
use vstd::prelude::*;

verus! {

/// Timestamps strictly ascending.
pub open spec fn ascending(batches: Seq<BatchView>) -> bool {
    forall|i: int, j: int| 0 <= i < j < batches.len() ==> batches[i].ts < batches[j].ts
}

/// Every batch is well formed.
pub open spec fn all_wf(batches: Seq<BatchView>) -> bool {
    forall|i: int| 0 <= i < batches.len() ==> (#[trigger] batches[i]).wf()
}

/// `i` is where `time` stands among the ascending timestamps of `batches`.
pub open spec fn is_position(batches: Seq<BatchView>, time: u64, i: int) -> bool {
    &&& 0 <= i <= batches.len()
    &&& forall|j: int| 0 <= j < i ==> (#[trigger] batches[j]).ts < time
    &&& forall|j: int| i <= j < batches.len() ==> (#[trigger] batches[j]).ts >= time
}

/// The rows queued for `time`, none if the timestamp is absent.
pub open spec fn rows_at(batches: Seq<BatchView>, time: u64) -> Seq<RowView> {
    if exists|i: int| 0 <= i < batches.len() && (#[trigger] batches[i]).ts == time {
        let i = choose|i: int| 0 <= i < batches.len() && (#[trigger] batches[i]).ts == time;
        batches[i].rows
    } else {
        Seq::empty()
    }
}

/// `batches` after `row` was queued for `time`, where `i` is the position of `time`.
pub open spec fn pushed_at(batches: Seq<BatchView>, time: u64, row: RowView, i: int) -> Seq<
    BatchView,
> {
    if i < batches.len() && batches[i].ts == time {
        batches.update(i, BatchView { ts: time, rows: batches[i].rows.push(row) })
    } else {
        batches.insert(i, BatchView { ts: time, rows: seq![row] })
    }
}

/// A timestamp is closed once neither the input frontier nor the durability frontier holds
/// an element at or below it.
pub open spec fn is_closed(frontier: Seq<u64>, durability: Seq<u64>, time: u64) -> bool {
    !any_less_equal(frontier, time) && !any_less_equal(durability, time)
}

/// The mathematical content of a sequence of batches.
pub open spec fn batches_view(batches: Seq<Batch>) -> Seq<BatchView> {
    batches.map_values(|b: Batch| b@)
}

/// An element at or below a time is at or below every later time.
pub proof fn lemma_less_equal_upward(elements: Seq<u64>, low: u64, high: u64)
    requires
        low <= high,
        any_less_equal(elements, low),
    ensures
        any_less_equal(elements, high),
{
    let i = choose|i: int| 0 <= i < elements.len() && #[trigger] elements[i] <= low;
    assert(elements[i] <= high);
}

/// Among ascending timestamps every time has a position, and only one.
pub proof fn lemma_position(batches: Seq<BatchView>, time: u64, from: int) -> (i: int)
    requires
        ascending(batches),
        0 <= from <= batches.len(),
        forall|j: int| 0 <= j < from ==> (#[trigger] batches[j]).ts < time,
    ensures
        is_position(batches, time, i),
        forall|k: int| is_position(batches, time, k) ==> k == i,
    decreases batches.len() - from,
{
    if from < batches.len() && batches[from].ts < time {
        lemma_position(batches, time, from + 1)
    } else {
        assert forall|j: int| from <= j < batches.len() implies (#[trigger] batches[j]).ts
            >= time by {
            if j > from {
                assert(batches[from].ts < batches[j].ts);
            }
        }
        assert forall|k: int| is_position(batches, time, k) implies k == from by {
            if k < from {
                assert(batches[k].ts < time);
            } else if k > from {
                assert(batches[from].ts < time);
            }
        }
        from
    }
}

/// The rows queued for the time at position `i`.
pub proof fn lemma_rows_at(batches: Seq<BatchView>, time: u64, i: int)
    requires
        ascending(batches),
        is_position(batches, time, i),
    ensures
        i < batches.len() && batches[i].ts == time ==> rows_at(batches, time) == batches[i].rows,
        !(i < batches.len() && batches[i].ts == time) ==> rows_at(batches, time) == Seq::<
            RowView,
        >::empty(),
{
    if exists|c: int| 0 <= c < batches.len() && (#[trigger] batches[c]).ts == time {
        let c = choose|c: int| 0 <= c < batches.len() && (#[trigger] batches[c]).ts == time;
        if c < i {
            assert(batches[c].ts < time);
        } else if c > i {
            assert(batches[i].ts >= time);
            assert(batches[i].ts < batches[c].ts);
        }
    } else {
        if i < batches.len() && batches[i].ts == time {
            assert(batches[i].ts == time);
        }
    }
}

/// The least key of a map, if it has any.
pub fn least_key<V>(map: &HashMap<u64, V>) -> (least: Option<u64>)
    ensures
        match least {
            Some(k) => map@.contains_key(k) && forall|j: u64| map@.contains_key(j) ==> k <= j,
            None => forall|j: u64| !map@.contains_key(j),
        },
{
    let mut least: Option<u64> = None;
    let ghost all = map.keys().remaining();
    proof {
        vstd::std_specs::hash::axiom_spec_keys_iter(map);
    }
    for k in it: map.keys()
        invariant
            it.seq() == all,
            all.unref().to_set() == map@.dom(),
            match least {
                Some(b) => map@.contains_key(b) && forall|i: int|
                    0 <= i < it.index() ==> b <= *(#[trigger] all[i]),
                None => it.index() == 0,
            },
    {
        assert(all.unref()[it.index() as int] == *k);
        assert(all.unref().to_set().contains(*k));
        least = match least {
            Some(b) => if *k < b {
                Some(*k)
            } else {
                Some(b)
            },
            None => Some(*k),
        };
    }
    proof {
        assert forall|j: u64| map@.contains_key(j) implies (match least {
            Some(b) => b <= j,
            None => false,
        }) by {
            assert(all.unref().to_set().contains(j));
            let i = choose|i: int| 0 <= i < all.unref().len() && all.unref()[i] == j;
            assert(*all[i] == j);
        }
    }
    least
}

/// Strictly ascending.
pub open spec fn increasing(keys: Seq<u64>) -> bool {
    forall|i: int, j: int| 0 <= i < j < keys.len() ==> keys[i] < keys[j]
}

/// The pending rows, by timestamp. The timestamps are handed out in ascending order.
pub struct PendingMap {
    rows: HashMap<u64, Batch>,
    order: Ghost<Seq<u64>>,
}

impl View for PendingMap {
    type V = Seq<BatchView>;

    /// The batches in ascending order of their timestamps.
    closed spec fn view(&self) -> Seq<BatchView> {
        Seq::new(self.order@.len(), |i: int| self.rows@[self.order@[i]]@)
    }
}

impl PendingMap {
    /// The map holds one sound batch under each of its timestamps, and the order lists
    /// the timestamps, ascending.
    pub closed spec fn wf(&self) -> bool {
        &&& increasing(self.order@)
        &&& forall|k: u64|
            #![trigger self.rows@.contains_key(k)]
            #![trigger self.order@.contains(k)]
            self.rows@.contains_key(k) <==> self.order@.contains(k)
        &&& forall|k: u64| #[trigger]
            self.rows@.contains_key(k) ==> self.rows@[k].wf() && self.rows@[k]@.ts == k
    }

    /// A sound map holds ascending timestamps and well-formed batches.
    pub proof fn lemma_wf(&self)
        requires
            self.wf(),
        ensures
            ascending(self@),
            all_wf(self@),
    {
        assert forall|i: int| 0 <= i < self@.len() implies (#[trigger] self@[i]).wf()
            && self@[i].ts == self.order@[i] by {
            assert(self.order@.contains(self.order@[i]));
            self.rows@[self.order@[i]].lemma_wf();
        }
        assert forall|i: int, j: int| 0 <= i < j < self@.len() implies self@[i].ts < self@[j].ts by {
            assert(self@[i].ts == self.order@[i]);
            assert(self@[j].ts == self.order@[j]);
        }
    }

    /// The timestamp of batch number `i` is timestamp number `i` of the order, and the map
    /// holds the batch under it.
    proof fn lemma_at(&self, i: int)
        requires
            self.wf(),
            0 <= i < self.order@.len(),
        ensures
            self.rows@.contains_key(self.order@[i]),
            self@[i] == self.rows@[self.order@[i]]@,
            self@[i].ts == self.order@[i],
            self.rows@[self.order@[i]].wf(),
    {
        assert(self.order@.contains(self.order@[i]));
    }

    /// A map without rows.
    pub fn new() -> (map: PendingMap)
        ensures
            map@ == Seq::<BatchView>::empty(),
            map.wf(),
    {
        let map = PendingMap { rows: HashMap::new(), order: Ghost(Seq::empty()) };
        assert(map@ =~= Seq::<BatchView>::empty());
        map
    }

    /// Whether no row is pending.
    pub fn is_empty(&self) -> (r: bool)
        requires
            self.wf(),
        ensures
            r == (self@.len() == 0),
    {
        proof {
            if self.order@.len() > 0 {
                self.lemma_at(0);
            }
        }
        least_key(&self.rows).is_none()
    }

    /// The number of timestamps with pending rows.
    pub fn len(&self) -> (n: usize)
        requires
            self.wf(),
        ensures
            n == self@.len(),
    {
        proof {
            assert(self.order@.no_duplicates()) by {
                assert forall|i: int, j: int|
                    0 <= i < self.order@.len() && 0 <= j < self.order@.len() && i != j implies self.order@[i]
                    != self.order@[j] by {
                    if i < j {
                        assert(self.order@[i] < self.order@[j]);
                    } else {
                        assert(self.order@[j] < self.order@[i]);
                    }
                }
            }
            self.order@.unique_seq_to_set();
            assert(self.order@.to_set() =~= self.rows@.dom());
        }
        self.rows.len()
    }

    /// The least pending timestamp.
    pub fn min_key(&self) -> (min: Option<u64>)
        requires
            self.wf(),
        ensures
            match min {
                Some(t) => self@.len() > 0 && t == self@[0].ts && forall|i: int|
                    0 <= i < self@.len() ==> t <= (#[trigger] self@[i]).ts,
                None => self@.len() == 0,
            },
    {
        let min = least_key(&self.rows);
        proof {
            self.lemma_wf();
            if self.order@.len() > 0 {
                self.lemma_at(0);
            }
            match min {
                Some(t) => {
                    assert(self.order@.contains(t));
                    let c = choose|c: int| 0 <= c < self.order@.len() && self.order@[c] == t;
                    self.lemma_at(c);
                    if c > 0 {
                        assert(self.order@[0] < self.order@[c]);
                    }
                    assert forall|i: int| 0 <= i < self@.len() implies t <= (#[trigger] self@[i]).ts by {
                        self.lemma_at(i);
                    }
                },
                None => {},
            }
        }
        min
    }

    /// The number of records queued for `time`.
    pub fn total_at(&self, time: u64) -> (n: u64)
        requires
            self.wf(),
        ensures
            n == total_count(rows_at(self@, time)),
            n <= i64::MAX,
    {
        proof {
            self.lemma_wf();
            let i = lemma_position(self@, time, 0);
            lemma_rows_at(self@, time, i);
            if self.rows@.contains_key(time) {
                assert(self.order@.contains(time));
                let c = choose|c: int| 0 <= c < self.order@.len() && self.order@[c] == time;
                self.lemma_at(c);
                assert(self@[c].ts == time);
                assert(c == i) by {
                    if c < i {
                        assert(self@[c].ts < time);
                    } else if c > i {
                        assert(self@[i].ts >= time);
                        assert(self@[i].ts < self@[c].ts);
                    }
                }
            } else {
                if i < self@.len() && self@[i].ts == time {
                    self.lemma_at(i);
                }
                assert(total_count(Seq::<RowView>::empty()) == 0);
            }
        }
        match self.rows.get(&time) {
            Some(batch) => batch.total(),
            None => 0,
        }
    }

    /// Queues `row` for `time`, behind the rows that `time` already has.
    pub fn push(&mut self, time: u64, row: EncodedRow)
        requires
            old(self).wf(),
            row.count > 0,
            total_count(rows_at(old(self)@, time)) + row.count <= i64::MAX,
        ensures
            final(self).wf(),
            exists|i: int| #[trigger]
                is_position(old(self)@, time, i) && final(self)@ == pushed_at(
                    old(self)@,
                    time,
                    row@,
                    i,
                ),
    {
        let ghost before = self@;
        let ghost order = self.order@;
        let ghost rows = self.rows@;
        let ghost row_view = row@;
        let ghost i: int;
        proof {
            self.lemma_wf();
            i = lemma_position(before, time, 0);
            lemma_rows_at(before, time, i);
            assert forall|j: int| 0 <= j < order.len() implies before[j].ts == #[trigger] order[j]
                && rows.contains_key(order[j]) && before[j] == rows[order[j]]@ by {
                self.lemma_at(j);
            }
            if rows.contains_key(time) {
                assert(order.contains(time));
                let c = choose|c: int| 0 <= c < order.len() && order[c] == time;
                assert(before[c].ts == time);
                assert(c == i) by {
                    if c < i {
                        assert(before[c].ts < time);
                    } else if c > i {
                        assert(before[i].ts >= time);
                        assert(before[i].ts < before[c].ts);
                    }
                }
            } else if i < before.len() && before[i].ts == time {
                assert(order.contains(order[i]));
            }
        }
        match self.rows.remove(&time) {
            Some(mut batch) => {
                batch.push(row);
                self.rows.insert(time, batch);
                proof {
                    assert(self@ =~= pushed_at(before, time, row_view, i)) by {
                        assert forall|j: int| 0 <= j < order.len() implies #[trigger] self@[j]
                            == pushed_at(before, time, row_view, i)[j] by {
                            if j != i {
                                assert(order[j] != time) by {
                                    if j < i {
                                        assert(order[j] < order[i]);
                                    } else {
                                        assert(order[i] < order[j]);
                                    }
                                }
                            }
                        }
                    }
                    assert forall|k: u64| self.rows@.contains_key(k) <==> order.contains(k) by {
                        if k == time {
                            assert(order[i] == time);
                        }
                    }
                }
            },
            None => {
                self.rows.insert(time, Batch::new(time, row));
                proof {
                    self.order@ = order.insert(i, time);
                    let after = self.order@;
                    assert forall|a: int, b: int| 0 <= a < b < after.len() implies after[a]
                        < after[b] by {
                        if b < i {
                            assert(order[a] < order[b]);
                        } else if b == i {
                            assert(before[a].ts < time);
                        } else if a < i {
                            assert(order[a] < order[b - 1]);
                        } else if a == i {
                            assert(before[b - 1].ts >= time);
                            assert(order[b - 1] != time) by {
                                assert(order.contains(order[b - 1]));
                            }
                        } else {
                            assert(order[a - 1] < order[b - 1]);
                        }
                    }
                    assert forall|k: u64| self.rows@.contains_key(k) <==> after.contains(k) by {
                        if k == time {
                            assert(after[i] == time);
                        } else {
                            if order.contains(k) {
                                let c = choose|c: int| 0 <= c < order.len() && order[c] == k;
                                if c < i {
                                    assert(after[c] == k);
                                } else {
                                    assert(after[c + 1] == k);
                                }
                            }
                            if after.contains(k) {
                                let c = choose|c: int| 0 <= c < after.len() && after[c] == k;
                                if c < i {
                                    assert(order[c] == k);
                                } else {
                                    assert(order[c - 1] == k);
                                }
                            }
                        }
                    }
                    assert(self@ =~= pushed_at(before, time, row_view, i)) by {
                        assert forall|j: int| 0 <= j < after.len() implies #[trigger] self@[j]
                            == pushed_at(before, time, row_view, i)[j] by {
                            if j < i {
                                assert(order.contains(order[j]));
                            } else if j > i {
                                assert(order.contains(order[j - 1]));
                            }
                        }
                    }
                }
            },
        }
    }

    /// Takes out the closed timestamps, in ascending order: the least timestamp again and
    /// again, while it is closed. A timestamp below a closed one is closed too, so no closed
    /// timestamp stays behind.
    pub fn take_closed(&mut self, frontier: &Antichain<u64>, durability: &Antichain<u64>) -> (closed:
        Vec<Batch>)
        requires
            old(self).wf(),
        ensures
            final(self).wf(),
            old(self)@ == batches_view(closed@) + final(self)@,
            forall|i: int| 0 <= i < closed@.len() ==> (#[trigger] closed@[i]).wf(),
            forall|i: int|
                0 <= i < closed@.len() ==> is_closed(
                    antichain_elements(*frontier),
                    antichain_elements(*durability),
                    (#[trigger] batches_view(closed@)[i]).ts,
                ),
            forall|i: int|
                0 <= i < final(self)@.len() ==> !is_closed(
                    antichain_elements(*frontier),
                    antichain_elements(*durability),
                    (#[trigger] final(self)@[i]).ts,
                ),
    {
        let ghost before = self@;
        let ghost f = antichain_elements(*frontier);
        let ghost d = antichain_elements(*durability);
        let mut closed: Vec<Batch> = Vec::new();
        let mut done = false;
        assert(before =~= batches_view(closed@) + self@);
        while !done
            invariant
                self.wf(),
                f == antichain_elements(*frontier),
                d == antichain_elements(*durability),
                before == batches_view(closed@) + self@,
                forall|i: int| 0 <= i < closed@.len() ==> (#[trigger] closed@[i]).wf(),
                forall|i: int|
                    0 <= i < closed@.len() ==> is_closed(f, d, (#[trigger] batches_view(closed@)[i]).ts),
                done ==> forall|i: int|
                    0 <= i < self@.len() ==> !is_closed(f, d, (#[trigger] self@[i]).ts),
            decreases self@.len() + (if done { 0int } else { 1int }),
        {
            let ghost order = self.order@;
            let ghost now = self@;
            let ghost taken = batches_view(closed@);
            proof {
                self.lemma_wf();
                if order.len() > 0 {
                    self.lemma_at(0);
                }
            }
            match self.min_key() {
                None => {
                    done = true;
                },
                Some(least) => {
                    if antichain_less_equal(frontier, least) || antichain_less_equal(
                        durability,
                        least,
                    ) {
                        proof {
                            assert forall|i: int| 0 <= i < now.len() implies !is_closed(
                                f,
                                d,
                                (#[trigger] now[i]).ts,
                            ) by {
                                if any_less_equal(f, least) {
                                    lemma_less_equal_upward(f, least, now[i].ts);
                                } else {
                                    lemma_less_equal_upward(d, least, now[i].ts);
                                }
                            }
                        }
                        done = true;
                    } else {
                        let batch = self.rows.remove(&least).unwrap();
                        proof {
                            self.order@ = order.drop_first();
                            let after = self.order@;
                            assert forall|a: int, b: int| 0 <= a < b < after.len() implies after[a]
                                < after[b] by {
                                assert(order[a + 1] < order[b + 1]);
                            }
                            assert forall|k: u64| self.rows@.contains_key(k) <==> after.contains(
                                k,
                            ) by {
                                if order.contains(k) && k != least {
                                    let c = choose|c: int| 0 <= c < order.len() && order[c] == k;
                                    assert(after[c - 1] == k);
                                }
                                if after.contains(k) {
                                    let c = choose|c: int| 0 <= c < after.len() && after[c] == k;
                                    assert(order[c + 1] == k);
                                    assert(order[0] < order[c + 1]);
                                }
                            }
                            assert(self@ =~= now.drop_first()) by {
                                assert forall|j: int| 0 <= j < after.len() implies #[trigger] self@[j]
                                    == now[j + 1] by {
                                    assert(order[0] < order[j + 1]);
                                }
                            }
                            assert(batch@ == now[0]);
                        }
                        closed.push(batch);
                        proof {
                            assert(batches_view(closed@) =~= taken.push(now[0]));
                            assert(before =~= batches_view(closed@) + self@);
                        }
                    }
                },
            }
        }
        closed
    }
}

} // verus!
