//! Which updates the sink lets in: those beyond the as-of frontier, beyond the restart gate,
//! and with a multiplicity other than zero.

use crate::frontier::{
    antichain_elements, antichain_less_equal, antichain_less_than, any_less_equal, any_less_than,
};
use timely::progress::Antichain;
use vstd::prelude::*;

verus! {

/// The lower bound of admission: inclusive, or strict.
pub struct SinkAsOf {
    pub frontier: Antichain<u64>,
    pub strict: bool,
}

/// The mathematical content of a [`SinkAsOf`].
pub struct AsOfView {
    pub frontier: Seq<u64>,
    pub strict: bool,
}

impl View for SinkAsOf {
    type V = AsOfView;

    open spec fn view(&self) -> AsOfView {
        AsOfView { frontier: antichain_elements(self.frontier), strict: self.strict }
    }
}

/// An update at `time` is beyond the as-of frontier: strictly beyond, if the as-of is strict.
pub open spec fn spec_should_emit(as_of: AsOfView, time: u64) -> bool {
    if as_of.strict {
        any_less_than(as_of.frontier, time)
    } else {
        any_less_equal(as_of.frontier, time)
    }
}

/// An update at `time` was published before the restart: it is at or below the restart gate.
pub open spec fn spec_gated(gate_ts: Option<u64>, time: u64) -> bool {
    match gate_ts {
        Some(gate) => time <= gate,
        None => false,
    }
}

/// The update passes the as-of frontier and the restart gate.
pub open spec fn spec_in_time(as_of: AsOfView, gate_ts: Option<u64>, time: u64) -> bool {
    spec_should_emit(as_of, time) && !spec_gated(gate_ts, time)
}

/// The update is let in: it passes the as-of frontier and the restart gate, and its multiplicity is
/// not zero.
pub open spec fn spec_admits(as_of: AsOfView, gate_ts: Option<u64>, time: u64, diff: i64) -> bool {
    spec_in_time(as_of, gate_ts, time) && diff != 0
}

/// Whether an update at `time` is beyond the as-of frontier.
pub fn should_emit(as_of: &SinkAsOf, time: u64) -> (r: bool)
    ensures
        r == spec_should_emit(as_of@, time),
{
    if as_of.strict {
        antichain_less_than(&as_of.frontier, time)
    } else {
        antichain_less_equal(&as_of.frontier, time)
    }
}

/// Whether an update at `time` is at or below the restart gate timestamp.
pub fn gated(gate_ts: Option<u64>, time: u64) -> (r: bool)
    ensures
        r == spec_gated(gate_ts, time),
{
    match gate_ts {
        Some(gate) => time <= gate,
        None => false,
    }
}

/// Whether an update at `time` passes the as-of frontier and the restart gate.
pub fn in_time(as_of: &SinkAsOf, gate_ts: Option<u64>, time: u64) -> (r: bool)
    ensures
        r == spec_in_time(as_of@, gate_ts, time),
{
    should_emit(as_of, time) && !gated(gate_ts, time)
}

/// Whether an update is let in. A negative multiplicity on an update that is in time is a
/// programming error and is not accepted here.
pub fn admits(as_of: &SinkAsOf, gate_ts: Option<u64>, time: u64, diff: i64) -> (r: bool)
    requires
        spec_in_time(as_of@, gate_ts, time) ==> diff >= 0,
    ensures
        r == spec_admits(as_of@, gate_ts, time, diff),
        r ==> diff > 0,
{
    in_time(as_of, gate_ts, time) && diff != 0
}

} // verus!
