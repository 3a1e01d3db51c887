//! Which worker writes a sink.
//!
//! All updates of a sink are routed to one worker, by the hash of the sink's identifier.
//! That worker writes; every other holds an empty write frontier and never hears of the sink.

use crate::frontier::{antichain_elements, antichain_from_elem, antichain_new};
use timely::progress::Antichain;
use vstd::prelude::*;

verus! {

/// The worker with index `worker_index`, out of `peers`, writes the sink whose identifier
/// hashes to `hashed`.
pub open spec fn spec_is_active_write_worker(hashed: u64, peers: usize, worker_index: usize) -> bool {
    (hashed as int) % (peers as int) == worker_index as int
}

/// Whether this worker is the one that writes the sink.
pub fn is_active_write_worker(hashed: u64, peers: usize, worker_index: usize) -> (active: bool)
    requires
        peers > 0,
    ensures
        active == spec_is_active_write_worker(hashed, peers, worker_index),
{
    hashed % (peers as u64) == (worker_index as u64)
}

/// The write frontier that a worker starts with: the least timestamp on the worker that
/// writes, nothing on every other.
pub fn initial_write_frontier(active_write_worker: bool) -> (frontier: Antichain<u64>)
    ensures
        antichain_elements(frontier) == if active_write_worker {
            seq![0u64]
        } else {
            Seq::<u64>::empty()
        },
{
    if active_write_worker {
        antichain_from_elem(0)
    } else {
        antichain_new()
    }
}

/// Among the workers of a dataflow exactly one writes a given sink.
pub proof fn lemma_one_writer(hashed: u64, peers: usize)
    requires
        peers > 0,
    ensures
        exists|w: usize| w < peers && #[trigger] spec_is_active_write_worker(hashed, peers, w),
        forall|a: usize, b: usize|
            a < peers && b < peers && #[trigger] spec_is_active_write_worker(hashed, peers, a)
                && #[trigger] spec_is_active_write_worker(hashed, peers, b) ==> a == b,
{
    let w = ((hashed as int) % (peers as int)) as usize;
    assert(0 <= (hashed as int) % (peers as int) < peers);
    assert(spec_is_active_write_worker(hashed, peers, w));
}

} // verus!
