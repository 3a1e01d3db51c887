//! Frontiers of logical time.
//!
//! A frontier is an antichain of timestamps: a lower bound of the times that may still come.
//! The sink keeps frontiers in `timely`'s `Antichain<u64>`. Verus does not look inside that
//! type, so what an antichain holds is named by [`antichain_elements`], and the few methods
//! the sink calls are reached through wrappers whose contracts restate what their source does.

use timely::progress::Antichain;
use differential_dataflow::lattice::Lattice;
use itertools::Itertools;
use vstd::prelude::*;

verus! {

/// `timely::progress::Antichain`, a set of mutually incomparable times.
#[verifier::external_type_specification]
#[verifier::external_body]
#[verifier::reject_recursive_types(T)]
pub struct ExAntichain<T>(Antichain<T>);

/// The elements that an antichain holds, in the order in which it stores them.
pub uninterp spec fn antichain_elements(frontier: Antichain<u64>) -> Seq<u64>;

/// Some element of `elements` is at or below `time`.
pub open spec fn any_less_equal(elements: Seq<u64>, time: u64) -> bool {
    exists|i: int| 0 <= i < elements.len() && #[trigger] elements[i] <= time
}

/// Some element of `elements` is strictly below `time`.
pub open spec fn any_less_than(elements: Seq<u64>, time: u64) -> bool {
    exists|i: int| 0 <= i < elements.len() && #[trigger] elements[i] < time
}

/// What `Antichain::insert` leaves behind: nothing changes when an element at or below
/// `time` is present; otherwise every element at or above `time` goes and `time` is appended.
pub open spec fn inserted(elements: Seq<u64>, time: u64) -> Seq<u64> {
    if any_less_equal(elements, time) {
        elements
    } else {
        elements.filter(|x: u64| !(time <= x)).push(time)
    }
}

/// `Antichain::new`: the result holds no element.
#[verifier::external_body]
pub(crate) fn antichain_new() -> (frontier: Antichain<u64>)
    ensures
        antichain_elements(frontier) == Seq::<u64>::empty(),
{
    Antichain::new()
}

/// `Antichain::from_elem`: the result holds `time` and nothing else.
#[verifier::external_body]
pub(crate) fn antichain_from_elem(time: u64) -> (frontier: Antichain<u64>)
    ensures
        antichain_elements(frontier) == seq![time],
{
    Antichain::from_elem(time)
}

/// `Antichain::less_equal`: whether any element is at or below `time`.
#[verifier::external_body]
pub(crate) fn antichain_less_equal(frontier: &Antichain<u64>, time: u64) -> (r: bool)
    ensures
        r == any_less_equal(antichain_elements(*frontier), time),
{
    frontier.less_equal(&time)
}

/// `Antichain::less_than`: whether any element is strictly below `time`.
#[verifier::external_body]
pub(crate) fn antichain_less_than(frontier: &Antichain<u64>, time: u64) -> (r: bool)
    ensures
        r == any_less_than(antichain_elements(*frontier), time),
{
    frontier.less_than(&time)
}

/// `Antichain::clear`: afterwards the antichain holds no element.
#[verifier::external_body]
pub(crate) fn antichain_clear(frontier: &mut Antichain<u64>)
    ensures
        antichain_elements(*final(frontier)) == Seq::<u64>::empty(),
{
    frontier.clear()
}

/// `Antichain::insert`: keeps the antichain minimal, and reports whether `time` went in.
#[verifier::external_body]
pub(crate) fn antichain_insert(frontier: &mut Antichain<u64>, time: u64) -> (added: bool)
    ensures
        antichain_elements(*final(frontier)) == inserted(antichain_elements(*old(frontier)), time),
        added == !any_less_equal(antichain_elements(*old(frontier)), time),
{
    frontier.insert(time)
}

/// `Antichain::elements`, copied out: the elements in stored order.
#[verifier::external_body]
pub(crate) fn antichain_to_vec(frontier: &Antichain<u64>) -> (elements: Vec<u64>)
    ensures
        elements@ == antichain_elements(*frontier),
{
    frontier.elements().to_vec()
}

/// `Clone` of an antichain: the copy holds the same elements in the same order.
#[verifier::external_body]
pub(crate) fn antichain_clone(frontier: &Antichain<u64>) -> (copy: Antichain<u64>)
    ensures
        antichain_elements(copy) == antichain_elements(*frontier),
{
    frontier.clone()
}

/// `Lattice::meet` on antichains inserts the elements of both sides into an empty antichain,
/// so a time is at or above some element of the result exactly when it is at or above some
/// element of either side.
#[verifier::external_body]
pub(crate) fn antichain_meet(left: &Antichain<u64>, right: &Antichain<u64>) -> (met: Antichain<u64>)
    ensures
        forall|time: u64| #[trigger]
            any_less_equal(antichain_elements(met), time) <==> any_less_equal(
                antichain_elements(*left),
                time,
            ) || any_less_equal(antichain_elements(*right), time),
{
    left.meet(right)
}

/// `Itertools::at_most_one` on the items of `items`: `Some(None)` for no item, `Some(Some(x))`
/// for exactly one, `None` for more.
#[verifier::external_body]
pub(crate) fn at_most_one(items: &Vec<u64>) -> (r: Option<Option<u64>>)
    ensures
        match r {
            Some(None) => items@.len() == 0,
            Some(Some(x)) => items@ == seq![x],
            None => items@.len() > 1,
        },
{
    match items.iter().at_most_one() {
        Ok(found) => Some(found.copied()),
        Err(_) => None,
    }
}

/// Some frontier of `frontiers` holds an element at or below `time`.
pub open spec fn any_frontier_less_equal(frontiers: Seq<Antichain<u64>>, time: u64) -> bool {
    exists|i: int|
        0 <= i < frontiers.len() && any_less_equal(antichain_elements(#[trigger] frontiers[i]), time)
}

/// The durability frontier of a sink: the meet of the durability frontiers of the sources
/// it depends on. A time is at or beyond it exactly when it is at or beyond one of them;
/// without sources it is empty, and every time is before it.
pub fn durability_frontier(frontiers: &Vec<Antichain<u64>>) -> (met: Antichain<u64>)
    ensures
        forall|time: u64| #[trigger]
            any_less_equal(antichain_elements(met), time) <==> any_frontier_less_equal(
                frontiers@,
                time,
            ),
{
    let mut met = antichain_new();
    let mut i: usize = 0;
    while i < frontiers.len()
        invariant
            i <= frontiers@.len(),
            forall|time: u64| #[trigger]
                any_less_equal(antichain_elements(met), time) <==> any_frontier_less_equal(
                    frontiers@.subrange(0, i as int),
                    time,
                ),
        decreases frontiers@.len() - i,
    {
        let ghost before = antichain_elements(met);
        met = antichain_meet(&met, &frontiers[i]);
        proof {
            let head = frontiers@.subrange(0, i as int);
            let more = frontiers@.subrange(0, i + 1);
            assert forall|time: u64| #[trigger]
                any_less_equal(antichain_elements(met), time) <==> any_frontier_less_equal(
                    more,
                    time,
                ) by {
                if any_frontier_less_equal(more, time) {
                    let k = choose|k: int|
                        0 <= k < more.len() && any_less_equal(
                            antichain_elements(#[trigger] more[k]),
                            time,
                        );
                    if k < i {
                        assert(head[k] == more[k]);
                        assert(any_frontier_less_equal(head, time));
                    }
                }
                if any_less_equal(before, time) {
                    assert(any_frontier_less_equal(head, time));
                    let k = choose|k: int|
                        0 <= k < head.len() && any_less_equal(
                            antichain_elements(#[trigger] head[k]),
                            time,
                        );
                    assert(more[k] == head[k]);
                }
                if any_less_equal(antichain_elements(frontiers@[i as int]), time) {
                    assert(more[i as int] == frontiers@[i as int]);
                }
            }
        }
        i += 1;
    }
    proof {
        assert(frontiers@.subrange(0, i as int) =~= frontiers@);
    }
    met
}

/// The element of a frontier, if it has one; `None` for a frontier of more than one
/// element, which single-dimensional time does not have.
pub fn try_single(frontier: &Antichain<u64>) -> (element: Option<Option<u64>>)
    ensures
        match element {
            Some(Some(t)) => antichain_elements(*frontier) == seq![t],
            Some(None) => antichain_elements(*frontier).len() == 0,
            None => antichain_elements(*frontier).len() > 1,
        },
{
    let elements = antichain_to_vec(frontier);
    at_most_one(&elements)
}

/// The element of a frontier of single-dimensional time, if it has one.
pub fn single_or_none(frontier: &Antichain<u64>) -> (element: Option<u64>)
    requires
        antichain_elements(*frontier).len() <= 1,
    ensures
        match element {
            Some(t) => antichain_elements(*frontier) == seq![t],
            None => antichain_elements(*frontier).len() == 0,
        },
{
    match try_single(frontier) {
        Some(found) => found,
        None => None,
    }
}

} // verus!
