//! The stash of the encoding operator: updates that wait for fuel, under the capability they
//! arrived with.
//!
//! The updates are kept in a hash map by capability. Its contents are spoken of as the
//! sequence of its entries in ascending order of capability, which is the order in which
//! they are worked off.
//!
//! An activation encodes at most `fuel` updates. What arrives is stashed first, but for the
//! updates that are not let in: those not beyond the as-of frontier, those not beyond the
//! restart gate timestamp, and those without copies. Then the stash is worked off from the
//! least capability up. Nothing that is not let in is ever stashed, so nothing of the kind is
//! ever handed on, in whatever activation.

use crate::admission::{admits, in_time, spec_admits, spec_in_time, AsOfView, SinkAsOf};
use crate::pending::{increasing, least_key};
use std::collections::HashMap;
use vstd::prelude::*;

verus! {

/// An update of the sinked collection: a row, the time of the change and its multiplicity.
pub struct Update<R> {
    pub row: R,
    pub time: u64,
    pub diff: i64,
}

/// The updates that one activation hands on under one capability.
pub struct Session<R> {
    pub capability: u64,
    pub updates: Vec<Update<R>>,
}

/// The updates of `data` that are let in, in their order.
pub open spec fn spec_kept<R>(data: Seq<Update<R>>, as_of: AsOfView, gate_ts: Option<u64>) -> Seq<
    Update<R>,
>
    decreases data.len(),
{
    if data.len() == 0 {
        Seq::empty()
    } else {
        let before = spec_kept(data.drop_last(), as_of, gate_ts);
        if spec_admits(as_of, gate_ts, data.last().time, data.last().diff) {
            before.push(data.last())
        } else {
            before
        }
    }
}

/// No update of `data` that is in time has a negative multiplicity.
pub open spec fn spec_no_negative<R>(data: Seq<Update<R>>, as_of: AsOfView, gate_ts: Option<u64>) -> bool {
    forall|i: int|
        0 <= i < data.len() && spec_in_time(as_of, gate_ts, (#[trigger] data[i]).time)
            ==> data[i].diff >= 0
}

/// Every update of `updates` is let in.
pub open spec fn spec_all_let_in<R>(updates: Seq<Update<R>>, as_of: AsOfView, gate_ts: Option<u64>) -> bool {
    forall|j: int|
        0 <= j < updates.len() ==> spec_admits(
            as_of,
            gate_ts,
            (#[trigger] updates[j]).time,
            updates[j].diff,
        )
}

/// Every update under every capability of `entries` is let in.
pub open spec fn spec_all_admitted<R>(
    entries: Seq<(u64, Seq<Update<R>>)>,
    as_of: AsOfView,
    gate_ts: Option<u64>,
) -> bool {
    forall|i: int|
        0 <= i < entries.len() ==> spec_all_let_in((#[trigger] entries[i]).1, as_of, gate_ts)
}

/// What is kept is let in, and what is let in is kept: an update beyond the as-of frontier
/// and the restart gate timestamp, with copies, is not dropped.
pub proof fn lemma_kept<R>(data: Seq<Update<R>>, as_of: AsOfView, gate_ts: Option<u64>)
    ensures
        spec_all_let_in(spec_kept(data, as_of, gate_ts), as_of, gate_ts),
        forall|i: int|
            0 <= i < data.len() && spec_admits(as_of, gate_ts, (#[trigger] data[i]).time, data[i].diff)
                ==> spec_kept(data, as_of, gate_ts).contains(data[i]),
        forall|j: int|
            0 <= j < spec_kept(data, as_of, gate_ts).len() ==> data.contains(
                #[trigger] spec_kept(data, as_of, gate_ts)[j],
            ),
    decreases data.len(),
{
    if data.len() > 0 {
        let head = data.drop_last();
        lemma_kept(head, as_of, gate_ts);
        let before = spec_kept(head, as_of, gate_ts);
        let kept = spec_kept(data, as_of, gate_ts);
        assert forall|i: int|
            0 <= i < data.len() && spec_admits(
                as_of,
                gate_ts,
                (#[trigger] data[i]).time,
                data[i].diff,
            ) implies kept.contains(data[i]) by {
            if i < head.len() {
                assert(head[i] == data[i]);
                let w = choose|w: int| 0 <= w < before.len() && before[w] == head[i];
                assert(kept[w] == data[i]);
            } else {
                assert(kept[kept.len() - 1] == data[i]);
            }
        }
        assert forall|j: int| 0 <= j < kept.len() implies data.contains(#[trigger] kept[j]) by {
            if j < before.len() {
                assert(kept[j] == before[j]);
                let w = choose|w: int| 0 <= w < head.len() && head[w] == before[j];
                assert(data[w] == kept[j]);
            } else {
                assert(data[data.len() - 1] == kept[j]);
            }
        }
    }
}

/// Capabilities strictly ascending.
pub open spec fn spec_sorted<R>(entries: Seq<(u64, Seq<Update<R>>)>) -> bool {
    forall|i: int, j: int| 0 <= i < j < entries.len() ==> entries[i].0 < entries[j].0
}

/// `i` is where `capability` stands among the ascending capabilities of `entries`.
pub open spec fn spec_slot<R>(entries: Seq<(u64, Seq<Update<R>>)>, capability: u64, i: int) -> bool {
    &&& 0 <= i <= entries.len()
    &&& forall|j: int| 0 <= j < i ==> (#[trigger] entries[j]).0 < capability
    &&& forall|j: int| i <= j < entries.len() ==> (#[trigger] entries[j]).0 >= capability
}

/// `entries` after `updates` were stashed under `capability`, which stands at `i`: they go
/// behind what the capability holds, and a capability that is new gets an entry even
/// without updates.
pub open spec fn spec_stashed<R>(
    entries: Seq<(u64, Seq<Update<R>>)>,
    capability: u64,
    updates: Seq<Update<R>>,
    i: int,
) -> Seq<(u64, Seq<Update<R>>)> {
    if i < entries.len() && entries[i].0 == capability {
        entries.update(i, (capability, entries[i].1 + updates))
    } else {
        entries.insert(i, (capability, updates))
    }
}

/// The lesser of two lengths.
pub open spec fn spec_min_len(a: int, b: int) -> int {
    if a <= b {
        a
    } else {
        b
    }
}

/// Works the stash off with `fuel`: the least capability hands on as many updates as the
/// fuel allows and leaves when it has none left; then the next, while fuel remains. The
/// result is what stays stashed and the sessions in their order.
pub open spec fn spec_drain<R>(entries: Seq<(u64, Seq<Update<R>>)>, fuel: nat) -> (
    Seq<(u64, Seq<Update<R>>)>,
    Seq<(u64, Seq<Update<R>>)>,
)
    decreases entries.len(), fuel,
{
    if fuel == 0 || entries.len() == 0 {
        (entries, Seq::empty())
    } else {
        let (capability, updates) = entries[0];
        let n = spec_min_len(updates.len() as int, fuel as int);
        let handed = updates.subrange(0, n);
        let left = updates.subrange(n, updates.len() as int);
        let rest = if left.len() == 0 {
            entries.drop_first()
        } else {
            entries.update(0, (capability, left))
        };
        let (stay, sessions) = spec_drain(rest, (fuel - n) as nat);
        (stay, seq![(capability, handed)] + sessions)
    }
}

/// All updates of `entries`, capability after capability.
pub open spec fn spec_flat<R>(entries: Seq<(u64, Seq<Update<R>>)>) -> Seq<Update<R>>
    decreases entries.len(),
{
    if entries.len() == 0 {
        Seq::empty()
    } else {
        entries[0].1 + spec_flat(entries.drop_first())
    }
}

/// Draining loses nothing and keeps the order: the sessions, followed by what stays, are
/// the stash as it was. As many updates are handed on as the fuel allows.
pub proof fn lemma_drain_conserves<R>(entries: Seq<(u64, Seq<Update<R>>)>, fuel: nat)
    ensures
        spec_flat(spec_drain(entries, fuel).1) + spec_flat(spec_drain(entries, fuel).0) == spec_flat(
            entries,
        ),
        spec_flat(spec_drain(entries, fuel).1).len() == spec_min_len(
            spec_flat(entries).len() as int,
            fuel as int,
        ),
    decreases entries.len(), fuel,
{
    if fuel == 0 || entries.len() == 0 {
        assert(spec_flat(Seq::<(u64, Seq<Update<R>>)>::empty()) + spec_flat(entries) =~= spec_flat(
            entries,
        ));
    } else {
        let (capability, updates) = entries[0];
        let n = spec_min_len(updates.len() as int, fuel as int);
        let handed = updates.subrange(0, n);
        let left = updates.subrange(n, updates.len() as int);
        let rest = if left.len() == 0 {
            entries.drop_first()
        } else {
            entries.update(0, (capability, left))
        };
        lemma_drain_conserves(rest, (fuel - n) as nat);
        let (stay, sessions) = spec_drain(rest, (fuel - n) as nat);
        let all = seq![(capability, handed)] + sessions;
        assert(all.drop_first() =~= sessions);
        assert(all[0] == (capability, handed));
        if left.len() == 0 {
            assert(handed =~= updates);
        } else {
            assert(rest.drop_first() =~= entries.drop_first());
            assert(handed + left =~= updates);
        }
        assert(spec_flat(all) + spec_flat(stay) =~= spec_flat(entries));
    }
}

/// Draining hands on and leaves behind only what was stashed: where every stashed update
/// is let in, so is every update of the sessions and every update that stays.
pub proof fn lemma_drain_admitted<R>(
    entries: Seq<(u64, Seq<Update<R>>)>,
    fuel: nat,
    as_of: AsOfView,
    gate_ts: Option<u64>,
)
    requires
        spec_all_admitted(entries, as_of, gate_ts),
    ensures
        spec_all_admitted(spec_drain(entries, fuel).0, as_of, gate_ts),
        spec_all_admitted(spec_drain(entries, fuel).1, as_of, gate_ts),
    decreases entries.len(), fuel,
{
    if fuel == 0 || entries.len() == 0 {
    } else {
        let (capability, updates) = entries[0];
        let n = spec_min_len(updates.len() as int, fuel as int);
        let handed = updates.subrange(0, n);
        let left = updates.subrange(n, updates.len() as int);
        let rest = if left.len() == 0 {
            entries.drop_first()
        } else {
            entries.update(0, (capability, left))
        };
        assert(spec_all_let_in(entries[0].1, as_of, gate_ts));
        assert(spec_all_let_in(handed, as_of, gate_ts)) by {
            assert forall|j: int| 0 <= j < handed.len() implies spec_admits(
                as_of,
                gate_ts,
                (#[trigger] handed[j]).time,
                handed[j].diff,
            ) by {
                assert(handed[j] == updates[j]);
            }
        }
        assert(spec_all_let_in(left, as_of, gate_ts)) by {
            assert forall|j: int| 0 <= j < left.len() implies spec_admits(
                as_of,
                gate_ts,
                (#[trigger] left[j]).time,
                left[j].diff,
            ) by {
                assert(left[j] == updates[j + n]);
            }
        }
        assert(spec_all_admitted(rest, as_of, gate_ts)) by {
            assert forall|i: int| 0 <= i < rest.len() implies spec_all_let_in(
                (#[trigger] rest[i]).1,
                as_of,
                gate_ts,
            ) by {
                if left.len() == 0 {
                    assert(rest[i] == entries[i + 1]);
                } else if i > 0 {
                    assert(rest[i] == entries[i]);
                }
            }
        }
        lemma_drain_admitted(rest, (fuel - n) as nat, as_of, gate_ts);
        let (stay, sessions) = spec_drain(rest, (fuel - n) as nat);
        let all = seq![(capability, handed)] + sessions;
        assert forall|i: int| 0 <= i < all.len() implies spec_all_let_in(
            (#[trigger] all[i]).1,
            as_of,
            gate_ts,
        ) by {
            if i > 0 {
                assert(all[i] == sessions[i - 1]);
            }
        }
    }
}

/// `entries` holds an entry under `capability`.
pub open spec fn spec_holds<R>(entries: Seq<(u64, Seq<Update<R>>)>, capability: u64) -> bool {
    exists|k: int| 0 <= k < entries.len() && (#[trigger] entries[k]).0 == capability
}

/// Draining works from the least capability up: the sessions come in ascending order of
/// capability, what stays stashed is in ascending order and not below any session, and
/// no capability appears that the stash did not hold.
pub proof fn lemma_drain_ascending<R>(entries: Seq<(u64, Seq<Update<R>>)>, fuel: nat)
    requires
        spec_sorted(entries),
    ensures
        spec_sorted(spec_drain(entries, fuel).0),
        spec_sorted(spec_drain(entries, fuel).1),
        forall|i: int, j: int|
            0 <= i < spec_drain(entries, fuel).1.len() && 0 <= j < spec_drain(entries, fuel).0.len()
                ==> (#[trigger] spec_drain(entries, fuel).1[i]).0 <= (#[trigger] spec_drain(
                entries,
                fuel,
            ).0[j]).0,
        forall|i: int|
            0 <= i < spec_drain(entries, fuel).1.len() ==> spec_holds(
                entries,
                (#[trigger] spec_drain(entries, fuel).1[i]).0,
            ),
        forall|j: int|
            0 <= j < spec_drain(entries, fuel).0.len() ==> spec_holds(
                entries,
                (#[trigger] spec_drain(entries, fuel).0[j]).0,
            ),
    decreases entries.len(), fuel,
{
    if fuel == 0 || entries.len() == 0 {
        assert forall|j: int| 0 <= j < entries.len() implies spec_holds(
            entries,
            (#[trigger] entries[j]).0,
        ) by {}
    } else {
        let (capability, updates) = entries[0];
        let n = spec_min_len(updates.len() as int, fuel as int);
        let handed = updates.subrange(0, n);
        let left = updates.subrange(n, updates.len() as int);
        let rest = if left.len() == 0 {
            entries.drop_first()
        } else {
            entries.update(0, (capability, left))
        };
        assert(spec_sorted(rest)) by {
            assert forall|a: int, b: int| 0 <= a < b < rest.len() implies rest[a].0 < rest[b].0 by {
                if left.len() == 0 {
                    assert(entries[a + 1].0 < entries[b + 1].0);
                } else {
                    assert(entries[a].0 < entries[b].0);
                }
            }
        }
        lemma_drain_ascending(rest, (fuel - n) as nat);
        let (stay, sessions) = spec_drain(rest, (fuel - n) as nat);
        let all = seq![(capability, handed)] + sessions;
        assert(spec_drain(entries, fuel) == (stay, all));
        assert forall|c: u64| #[trigger] spec_holds(rest, c) implies spec_holds(entries, c)
            && capability <= c && (left.len() == 0 ==> capability < c) by {
            let k = choose|k: int| 0 <= k < rest.len() && (#[trigger] rest[k]).0 == c;
            if left.len() == 0 {
                assert(entries[k + 1].0 == c);
                assert(entries[0].0 < entries[k + 1].0);
            } else {
                assert(entries[k].0 == c);
                if k > 0 {
                    assert(entries[0].0 < entries[k].0);
                }
            }
        }
        assert forall|j: int| 0 <= j < stay.len() implies spec_holds(entries, (#[trigger] stay[j]).0)
            && capability <= stay[j].0 by {
            assert(spec_holds(rest, stay[j].0));
        }
        assert forall|i: int| 0 <= i < all.len() implies spec_holds(entries, (#[trigger] all[i]).0) by {
            if i == 0 {
                assert(entries[0].0 == capability);
            } else {
                assert(all[i] == sessions[i - 1]);
                assert(spec_holds(rest, sessions[i - 1].0));
            }
        }
        assert forall|a: int, b: int| 0 <= a < b < all.len() implies all[a].0 < all[b].0 by {
            assert(all[b] == sessions[b - 1]);
            if a == 0 {
                assert(spec_holds(rest, sessions[b - 1].0));
                // A session behind the first exists only when the first capability is done.
                if left.len() != 0 {
                    assert(fuel - n == 0);
                }
            } else {
                assert(all[a] == sessions[a - 1]);
                assert(sessions[a - 1].0 < sessions[b - 1].0);
            }
        }
        assert forall|i: int, j: int| 0 <= i < all.len() && 0 <= j < stay.len() implies (
        #[trigger] all[i]).0 <= (#[trigger] stay[j]).0 by {
            if i > 0 {
                assert(all[i] == sessions[i - 1]);
            }
        }
    }
}

/// Among ascending capabilities every capability has a slot, and only one.
pub proof fn lemma_slot<R>(entries: Seq<(u64, Seq<Update<R>>)>, capability: u64, from: int) -> (i:
    int)
    requires
        spec_sorted(entries),
        0 <= from <= entries.len(),
        forall|j: int| 0 <= j < from ==> (#[trigger] entries[j]).0 < capability,
    ensures
        spec_slot(entries, capability, i),
        forall|k: int| spec_slot(entries, capability, k) ==> k == i,
    decreases entries.len() - from,
{
    if from < entries.len() && entries[from].0 < capability {
        lemma_slot(entries, capability, from + 1)
    } else {
        assert forall|j: int| from <= j < entries.len() implies (#[trigger] entries[j]).0
            >= capability by {
            if j > from {
                assert(entries[from].0 < entries[j].0);
            }
        }
        assert forall|k: int| spec_slot(entries, capability, k) implies k == from by {
            if k < from {
                assert(entries[k].0 < capability);
            } else if k > from {
                assert(entries[from].0 < capability);
            }
        }
        from
    }
}

/// Stashing keeps the capabilities ascending, and where all that is stashed and all that
/// arrives is let in, all that is stashed afterwards is let in.
pub proof fn lemma_stashed<R>(
    entries: Seq<(u64, Seq<Update<R>>)>,
    capability: u64,
    updates: Seq<Update<R>>,
    i: int,
    as_of: AsOfView,
    gate_ts: Option<u64>,
)
    requires
        spec_sorted(entries),
        spec_slot(entries, capability, i),
        spec_all_admitted(entries, as_of, gate_ts),
        spec_all_let_in(updates, as_of, gate_ts),
    ensures
        spec_sorted(spec_stashed(entries, capability, updates, i)),
        spec_all_admitted(spec_stashed(entries, capability, updates, i), as_of, gate_ts),
{
    let after = spec_stashed(entries, capability, updates, i);
    if i < entries.len() && entries[i].0 == capability {
        assert forall|a: int, b: int| 0 <= a < b < after.len() implies after[a].0 < after[b].0 by {
            assert(entries[a].0 < entries[b].0);
        }
        assert forall|a: int| 0 <= a < after.len() implies spec_all_let_in(
            (#[trigger] after[a]).1,
            as_of,
            gate_ts,
        ) by {
            assert(spec_all_let_in(entries[a].1, as_of, gate_ts));
            if a == i {
                let merged = entries[a].1 + updates;
                assert forall|j: int| 0 <= j < merged.len() implies spec_admits(
                    as_of,
                    gate_ts,
                    (#[trigger] merged[j]).time,
                    merged[j].diff,
                ) by {
                    if j < entries[a].1.len() {
                        assert(merged[j] == entries[a].1[j]);
                    } else {
                        assert(merged[j] == updates[j - entries[a].1.len()]);
                    }
                }
            }
        }
    } else {
        assert forall|a: int, b: int| 0 <= a < b < after.len() implies after[a].0 < after[b].0 by {
            if b < i {
                assert(entries[a].0 < entries[b].0);
            } else if b == i {
                assert(entries[a].0 < capability);
            } else if a < i {
                assert(entries[a].0 < entries[b - 1].0);
            } else if a == i {
                assert(entries[b - 1].0 >= capability);
                if b - 1 > i {
                    assert(entries[i].0 < entries[b - 1].0);
                }
            } else {
                assert(entries[a - 1].0 < entries[b - 1].0);
            }
        }
        assert forall|a: int| 0 <= a < after.len() implies spec_all_let_in(
            (#[trigger] after[a]).1,
            as_of,
            gate_ts,
        ) by {
            if a < i {
                assert(spec_all_let_in(entries[a].1, as_of, gate_ts));
            } else if a > i {
                assert(spec_all_let_in(entries[a - 1].1, as_of, gate_ts));
            }
        }
    }
}

/// Where every update under every capability is let in, so is every update of them all.
pub proof fn lemma_flat_let_in<R>(
    entries: Seq<(u64, Seq<Update<R>>)>,
    as_of: AsOfView,
    gate_ts: Option<u64>,
)
    requires
        spec_all_admitted(entries, as_of, gate_ts),
    ensures
        spec_all_let_in(spec_flat(entries), as_of, gate_ts),
    decreases entries.len(),
{
    if entries.len() > 0 {
        let rest = entries.drop_first();
        assert(spec_all_admitted(rest, as_of, gate_ts)) by {
            assert forall|i: int| 0 <= i < rest.len() implies spec_all_let_in(
                (#[trigger] rest[i]).1,
                as_of,
                gate_ts,
            ) by {
                assert(rest[i] == entries[i + 1]);
            }
        }
        lemma_flat_let_in(rest, as_of, gate_ts);
        assert(spec_all_let_in(entries[0].1, as_of, gate_ts));
        let flat = spec_flat(entries);
        assert forall|j: int| 0 <= j < flat.len() implies spec_admits(
            as_of,
            gate_ts,
            (#[trigger] flat[j]).time,
            flat[j].diff,
        ) by {
            if j < entries[0].1.len() {
                assert(flat[j] == entries[0].1[j]);
            } else {
                assert(flat[j] == spec_flat(rest)[j - entries[0].1.len()]);
            }
        }
    }
}

/// What happens to the encoding operator: updates arrive under a capability, or the stash
/// is worked off with some fuel.
pub enum EncoderInput<R> {
    Arrive { capability: u64, data: Seq<Update<R>> },
    Drain { fuel: nat },
}

/// The encoding operator, as mathematics: what is stashed, and all that was handed on so
/// far, in its order.
pub struct EncoderView<R> {
    pub entries: Seq<(u64, Seq<Update<R>>)>,
    pub handed: Seq<Update<R>>,
}

impl<R> EncoderView<R> {
    /// The operator after one input.
    pub open spec fn step(self, input: EncoderInput<R>, as_of: AsOfView, gate_ts: Option<u64>) -> Self {
        match input {
            EncoderInput::Arrive { capability, data } => EncoderView {
                entries: spec_stashed(
                    self.entries,
                    capability,
                    spec_kept(data, as_of, gate_ts),
                    choose|i: int| spec_slot(self.entries, capability, i),
                ),
                ..self
            },
            EncoderInput::Drain { fuel } => EncoderView {
                entries: spec_drain(self.entries, fuel).0,
                handed: self.handed + spec_flat(spec_drain(self.entries, fuel).1),
            },
        }
    }

    /// The operator after a run of inputs.
    pub open spec fn run(self, inputs: Seq<EncoderInput<R>>, as_of: AsOfView, gate_ts: Option<u64>) -> Self
        decreases inputs.len(),
    {
        if inputs.len() == 0 {
            self
        } else {
            self.step(inputs[0], as_of, gate_ts).run(inputs.drop_first(), as_of, gate_ts)
        }
    }

    /// The capabilities ascend, and all that is stashed and all that was handed on is let in.
    pub open spec fn clean(self, as_of: AsOfView, gate_ts: Option<u64>) -> bool {
        &&& spec_sorted(self.entries)
        &&& spec_all_admitted(self.entries, as_of, gate_ts)
        &&& spec_all_let_in(self.handed, as_of, gate_ts)
    }

    /// Over every run of the operator, in this activation and every later one, nothing is
    /// handed on that is not let in: no update at or below the restart gate timestamp, none
    /// that is not beyond the as-of frontier, none without copies.
    pub proof fn law_only_what_is_let_in(
        self,
        inputs: Seq<EncoderInput<R>>,
        as_of: AsOfView,
        gate_ts: Option<u64>,
    )
        requires
            self.clean(as_of, gate_ts),
        ensures
            self.run(inputs, as_of, gate_ts).clean(as_of, gate_ts),
            forall|j: int|
                0 <= j < self.run(inputs, as_of, gate_ts).handed.len() ==> !crate::admission::spec_gated(
                    gate_ts,
                    (#[trigger] self.run(inputs, as_of, gate_ts).handed[j]).time,
                ),
        decreases inputs.len(),
    {
        if inputs.len() > 0 {
            let next = self.step(inputs[0], as_of, gate_ts);
            match inputs[0] {
                EncoderInput::Arrive { capability, data } => {
                    let i = lemma_slot(self.entries, capability, 0);
                    lemma_kept(data, as_of, gate_ts);
                    lemma_stashed(
                        self.entries,
                        capability,
                        spec_kept(data, as_of, gate_ts),
                        i,
                        as_of,
                        gate_ts,
                    );
                },
                EncoderInput::Drain { fuel } => {
                    lemma_drain_admitted(self.entries, fuel, as_of, gate_ts);
                    lemma_drain_ascending(self.entries, fuel);
                    let sessions = spec_drain(self.entries, fuel).1;
                    lemma_flat_let_in(sessions, as_of, gate_ts);
                    let out = spec_flat(sessions);
                    assert forall|j: int| 0 <= j < next.handed.len() implies spec_admits(
                        as_of,
                        gate_ts,
                        (#[trigger] next.handed[j]).time,
                        next.handed[j].diff,
                    ) by {
                        if j < self.handed.len() {
                            assert(next.handed[j] == self.handed[j]);
                        } else {
                            assert(next.handed[j] == out[j - self.handed.len()]);
                        }
                    }
                },
            }
            next.law_only_what_is_let_in(inputs.drop_first(), as_of, gate_ts);
        } else {
            assert forall|j: int| 0 <= j < self.handed.len() implies !crate::admission::spec_gated(
                gate_ts,
                (#[trigger] self.handed[j]).time,
            ) by {}
        }
    }
}

/// The mathematical content of a sequence of sessions.
pub open spec fn sessions_view<R>(sessions: Seq<Session<R>>) -> Seq<(u64, Seq<Update<R>>)> {
    sessions.map_values(|s: Session<R>| (s.capability, s.updates@))
}

/// The stash: the updates that wait, by capability. It is worked off from the least
/// capability up.
pub struct Stash<R> {
    as_of: SinkAsOf,
    gate_ts: Option<u64>,
    entries: HashMap<u64, Vec<Update<R>>>,
    order: Ghost<Seq<u64>>,
}

impl<R> View for Stash<R> {
    type V = Seq<(u64, Seq<Update<R>>)>;

    /// The capabilities in ascending order, each with its updates.
    closed spec fn view(&self) -> Seq<(u64, Seq<Update<R>>)> {
        Seq::new(self.order@.len(), |i: int| (self.order@[i], self.entries@[self.order@[i]]@))
    }
}

impl<R> Stash<R> {
    /// The as-of frontier that the stash lets updates in by.
    pub closed spec fn as_of(&self) -> AsOfView {
        self.as_of@
    }

    /// The restart gate timestamp that the stash lets updates in by.
    pub closed spec fn gate_ts(&self) -> Option<u64> {
        self.gate_ts
    }

    /// The order lists the capabilities of the map, ascending.
    pub closed spec fn sound(&self) -> bool {
        &&& increasing(self.order@)
        &&& forall|k: u64|
            #![trigger self.entries@.contains_key(k)]
            #![trigger self.order@.contains(k)]
            self.entries@.contains_key(k) <==> self.order@.contains(k)
    }

    /// The stash is sound, and every stashed update is let in.
    pub open spec fn wf(&self) -> bool {
        &&& self.sound()
        &&& spec_all_admitted(self@, self.as_of(), self.gate_ts())
    }

    /// The capabilities of a sound stash ascend.
    pub proof fn lemma_sorted(&self)
        requires
            self.sound(),
        ensures
            spec_sorted(self@),
    {
    }

    /// A stash without updates, for an operator with this as-of frontier and this restart
    /// gate timestamp.
    pub fn new(as_of: SinkAsOf, gate_ts: Option<u64>) -> (stash: Stash<R>)
        ensures
            stash@ == Seq::<(u64, Seq<Update<R>>)>::empty(),
            stash.as_of() == as_of@,
            stash.gate_ts() == gate_ts,
            stash.wf(),
    {
        let stash = Stash { as_of, gate_ts, entries: HashMap::new(), order: Ghost(Seq::empty()) };
        assert(stash@ =~= Seq::<(u64, Seq<Update<R>>)>::empty());
        stash
    }

    /// Tells whether an update can be among those handed to [`Stash::stash_input`]: one that
    /// is in time must not have a negative multiplicity.
    pub fn takes(&self, time: u64, diff: i64) -> (r: bool)
        ensures
            r == (spec_in_time(self.as_of(), self.gate_ts(), time) ==> diff >= 0),
    {
        !in_time(&self.as_of, self.gate_ts, time) || diff >= 0
    }

    /// Whether the stash holds no capability.
    pub fn is_empty(&self) -> (r: bool)
        requires
            self.wf(),
        ensures
            r == (self@.len() == 0),
    {
        proof {
            if self.order@.len() > 0 {
                assert(self.order@.contains(self.order@[0]));
            }
        }
        least_key(&self.entries).is_none()
    }

    /// Whether the stash holds an entry for `capability`.
    pub fn holds(&self, capability: u64) -> (r: bool)
        requires
            self.wf(),
        ensures
            r == spec_holds(self@, capability),
    {
        proof {
            if self.order@.contains(capability) {
                let c = choose|c: int| 0 <= c < self.order@.len() && self.order@[c] == capability;
                assert(self@[c].0 == capability);
            }
            if spec_holds(self@, capability) {
                let c = choose|c: int| 0 <= c < self@.len() && (#[trigger] self@[c]).0 == capability;
                assert(self.order@[c] == capability);
            }
        }
        self.entries.contains_key(&capability)
    }

    /// Stashes what arrived under `capability`: the updates that are let in, in their order,
    /// behind what the capability already holds. An update is let in when it is beyond the
    /// as-of frontier and the restart gate timestamp and has copies; a negative multiplicity
    /// on an update that is in time is a programming error and is not accepted here.
    pub fn stash_input(&mut self, capability: u64, data: Vec<Update<R>>)
        requires
            old(self).wf(),
            spec_no_negative(data@, old(self).as_of(), old(self).gate_ts()),
        ensures
            final(self).wf(),
            final(self).as_of() == old(self).as_of(),
            final(self).gate_ts() == old(self).gate_ts(),
            exists|i: int| #[trigger]
                spec_slot(old(self)@, capability, i) && final(self)@ == spec_stashed(
                    old(self)@,
                    capability,
                    spec_kept(data@, old(self).as_of(), old(self).gate_ts()),
                    i,
                ),
    {
        let ghost all = data@;
        let ghost as_of = self.as_of();
        let ghost gate_ts = self.gate_ts();
        let mut kept: Vec<Update<R>> = Vec::new();
        for update in it: data
            invariant
                it.seq() == all,
                as_of == self.as_of(),
                gate_ts == self.gate_ts(),
                spec_no_negative(all, as_of, gate_ts),
                kept@ == spec_kept(all.subrange(0, it.index() as int), as_of, gate_ts),
        {
            proof {
                let head = all.subrange(0, it.index() + 1);
                assert(head.drop_last() =~= all.subrange(0, it.index() as int));
                assert(head.last() == update);
                assert(update == all[it.index() as int]);
            }
            if admits(&self.as_of, self.gate_ts, update.time, update.diff) {
                kept.push(update);
            }
        }
        assert(all.subrange(0, all.len() as int) =~= all);
        let ghost before = self@;
        let ghost order = self.order@;
        let ghost arrived = kept@;
        let ghost i: int;
        proof {
            lemma_kept(all, as_of, gate_ts);
            i = lemma_slot(before, capability, 0);
            if self.entries@.contains_key(capability) {
                assert(order.contains(capability));
                let c = choose|c: int| 0 <= c < order.len() && order[c] == capability;
                assert(before[c].0 == capability);
                assert(c == i) by {
                    if c < i {
                        assert(before[c].0 < capability);
                    } else if c > i {
                        assert(before[i].0 >= capability);
                        assert(order[i] < order[c]);
                    }
                }
            } else if i < before.len() && before[i].0 == capability {
                assert(order.contains(order[i]));
            }
            lemma_stashed(before, capability, arrived, i, as_of, gate_ts);
        }
        match self.entries.remove(&capability) {
            Some(mut held) => {
                held.append(&mut kept);
                self.entries.insert(capability, held);
                proof {
                    assert forall|k: u64| self.entries@.contains_key(k) <==> order.contains(k) by {
                        if k == capability {
                            assert(order[i] == capability);
                        }
                    }
                    assert(self@ =~= spec_stashed(before, capability, arrived, i)) by {
                        assert forall|j: int| 0 <= j < order.len() implies #[trigger] self@[j]
                            == spec_stashed(before, capability, arrived, i)[j] by {
                            if j != i {
                                assert(order[j] != capability) by {
                                    if j < i {
                                        assert(order[j] < order[i]);
                                    } else {
                                        assert(order[i] < order[j]);
                                    }
                                }
                            }
                        }
                    }
                }
            },
            None => {
                self.entries.insert(capability, kept);
                proof {
                    self.order@ = order.insert(i, capability);
                    let after = self.order@;
                    assert forall|a: int, b: int| 0 <= a < b < after.len() implies after[a]
                        < after[b] by {
                        if b < i {
                            assert(order[a] < order[b]);
                        } else if b == i {
                            assert(before[a].0 < capability);
                        } else if a < i {
                            assert(order[a] < order[b - 1]);
                        } else if a == i {
                            assert(before[b - 1].0 >= capability);
                            assert(order[b - 1] != capability) by {
                                assert(order.contains(order[b - 1]));
                            }
                        } else {
                            assert(order[a - 1] < order[b - 1]);
                        }
                    }
                    assert forall|k: u64| self.entries@.contains_key(k) <==> after.contains(k) by {
                        if k == capability {
                            assert(after[i] == capability);
                        } else {
                            if order.contains(k) {
                                let c = choose|c: int| 0 <= c < order.len() && order[c] == k;
                                if c < i {
                                    assert(after[c] == k);
                                } else {
                                    assert(after[c + 1] == k);
                                }
                            }
                            if after.contains(k) {
                                let c = choose|c: int| 0 <= c < after.len() && after[c] == k;
                                if c < i {
                                    assert(order[c] == k);
                                } else {
                                    assert(order[c - 1] == k);
                                }
                            }
                        }
                    }
                    assert(self@ =~= spec_stashed(before, capability, arrived, i)) by {
                        assert forall|j: int| 0 <= j < after.len() implies #[trigger] self@[j]
                            == spec_stashed(before, capability, arrived, i)[j] by {
                            if j < i {
                                assert(order.contains(order[j]));
                            } else if j > i {
                                assert(order.contains(order[j - 1]));
                            }
                        }
                    }
                }
            },
        }
    }

    /// Works the stash off with `fuel` and returns the sessions to encode and hand on, in
    /// their order. While the stash holds anything afterwards, the operator wants to run
    /// again at once.
    pub fn drain(&mut self, fuel: usize) -> (sessions: Vec<Session<R>>)
        requires
            old(self).wf(),
        ensures
            final(self).wf(),
            final(self).as_of() == old(self).as_of(),
            final(self).gate_ts() == old(self).gate_ts(),
            (final(self)@, sessions_view(sessions@)) == spec_drain(old(self)@, fuel as nat),
            spec_all_admitted(sessions_view(sessions@), old(self).as_of(), old(self).gate_ts()),
    {
        let ghost start = self@;
        let ghost as_of = self.as_of();
        let ghost gate_ts = self.gate_ts();
        proof {
            lemma_drain_admitted(start, fuel as nat, as_of, gate_ts);
            assert(sessions_view(Seq::<Session<R>>::empty()) + spec_drain(start, fuel as nat).1
                =~= spec_drain(start, fuel as nat).1);
        }
        let mut sessions: Vec<Session<R>> = Vec::new();
        let mut fuel_remaining = fuel;
        let mut done = false;
        while fuel_remaining > 0 && !done
            invariant
                self.sound(),
                as_of == self.as_of(),
                gate_ts == self.gate_ts(),
                done ==> self@.len() == 0,
                spec_drain(start, fuel as nat) == (
                    spec_drain(self@, fuel_remaining as nat).0,
                    sessions_view(sessions@) + spec_drain(self@, fuel_remaining as nat).1,
                ),
            decreases self@.len(), fuel_remaining, (if done { 0int } else { 1int }),
        {
            let ghost before = self@;
            let ghost order = self.order@;
            let ghost had = sessions_view(sessions@);
            proof {
                if order.len() > 0 {
                    assert(order.contains(order[0]));
                }
            }
            match least_key(&self.entries) {
                None => {
                    done = true;
                },
                Some(capability) => {
                    proof {
                        assert(order.contains(capability));
                        let c = choose|c: int| 0 <= c < order.len() && order[c] == capability;
                        if c > 0 {
                            assert(order[0] < order[c]);
                        }
                        assert(before[0].0 == capability);
                    }
                    let mut updates = self.entries.remove(&capability).unwrap();
                    let n = if updates.len() <= fuel_remaining {
                        updates.len()
                    } else {
                        fuel_remaining
                    };
                    let left = updates.split_off(n);
                    let ghost handed = updates@;
                    let ghost left_view = left@;
                    if left.len() > 0 {
                        self.entries.insert(capability, left);
                        proof {
                            assert forall|k: u64| self.entries@.contains_key(k) <==> order.contains(
                                k,
                            ) by {}
                            assert(self@ =~= before.update(0, (capability, left_view))) by {
                                assert forall|j: int| 0 <= j < order.len() implies #[trigger] self@[j]
                                    == before.update(0, (capability, left_view))[j] by {
                                    if j > 0 {
                                        assert(order[0] < order[j]);
                                    }
                                }
                            }
                        }
                    } else {
                        proof {
                            self.order@ = order.drop_first();
                            let after = self.order@;
                            assert forall|a: int, b: int| 0 <= a < b < after.len() implies after[a]
                                < after[b] by {
                                assert(order[a + 1] < order[b + 1]);
                            }
                            assert forall|k: u64| self.entries@.contains_key(k) <==> after.contains(
                                k,
                            ) by {
                                if order.contains(k) && k != capability {
                                    let c = choose|c: int| 0 <= c < order.len() && order[c] == k;
                                    assert(after[c - 1] == k);
                                }
                                if after.contains(k) {
                                    let c = choose|c: int| 0 <= c < after.len() && after[c] == k;
                                    assert(order[c + 1] == k);
                                    assert(order[0] < order[c + 1]);
                                }
                            }
                            assert(self@ =~= before.drop_first()) by {
                                assert forall|j: int| 0 <= j < after.len() implies #[trigger] self@[j]
                                    == before[j + 1] by {
                                    assert(order[0] < order[j + 1]);
                                }
                            }
                        }
                    }
                    sessions.push(Session { capability, updates });
                    fuel_remaining = fuel_remaining - n;
                    proof {
                        assert(sessions_view(sessions@) =~= had + seq![(capability, handed)]);
                        let tail = spec_drain(self@, fuel_remaining as nat);
                        assert(spec_drain(before, (fuel_remaining + n) as nat) == (
                            tail.0,
                            seq![(capability, handed)] + tail.1,
                        ));
                        assert(had + (seq![(capability, handed)] + tail.1) =~= sessions_view(
                            sessions@,
                        ) + tail.1);
                    }
                },
            }
        }
        proof {
            assert(sessions_view(sessions@) + Seq::<(u64, Seq<Update<R>>)>::empty()
                =~= sessions_view(sessions@));
            assert(self@ == spec_drain(start, fuel as nat).0);
        }
        sessions
    }
}

} // verus!
