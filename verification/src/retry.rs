//! The retry policy: how broker errors are classified, how long to back off, and what a
//! failed call leads to.

use vstd::prelude::*;

verus! {

/// What the sink reads of a broker error. The driver, which makes the broker calls, reads
/// it off the client's error: the variant, and for a transactional error the two marks that
/// the broker gives it.
#[derive(Clone, Copy, Debug, PartialEq, Eq, Structural)]
pub enum BrokerError {
    /// The call was canceled before it completed.
    Canceled,
    /// The producer's queue is full.
    QueueFull,
    /// A transactional error, with the two marks that the broker gives it.
    Transaction { requires_abort: bool, retriable: bool },
    /// Any other error.
    Other,
}

/// The kinds of error that the policy tells apart.
#[derive(Clone, Copy, Debug, PartialEq, Eq, Structural)]
pub enum ErrorKind {
    RetriableTransport,
    TransactionRetriable,
    TransactionRequiresAbort,
    Fatal,
}

/// The kind of a broker error.
pub open spec fn spec_classify(error: BrokerError) -> ErrorKind {
    match error {
        BrokerError::QueueFull => ErrorKind::RetriableTransport,
        BrokerError::Transaction { requires_abort, retriable } => if requires_abort {
            ErrorKind::TransactionRequiresAbort
        } else if retriable {
            ErrorKind::TransactionRetriable
        } else {
            ErrorKind::Fatal
        },
        _ => ErrorKind::Fatal,
    }
}

/// Classifies a broker error. A transactional error that requires an abort is that first,
/// whatever else it is marked as.
pub fn classify(error: BrokerError) -> (kind: ErrorKind)
    ensures
        kind == spec_classify(error),
{
    match error {
        BrokerError::QueueFull => ErrorKind::RetriableTransport,
        BrokerError::Transaction { requires_abort, retriable } => if requires_abort {
            ErrorKind::TransactionRequiresAbort
        } else if retriable {
            ErrorKind::TransactionRetriable
        } else {
            ErrorKind::Fatal
        },
        _ => ErrorKind::Fatal,
    }
}

/// The lesser of two numbers.
pub open spec fn spec_min(a: nat, b: nat) -> nat {
    if a <= b {
        a
    } else {
        b
    }
}

/// The pause before re-attempt number `attempt` (from 0): the initial pause doubled
/// `attempt` times, never above the clamp.
pub open spec fn spec_backoff(initial: nat, clamp: nat, attempt: nat) -> nat
    decreases attempt,
{
    if attempt == 0 {
        spec_min(initial, clamp)
    } else {
        spec_min(2 * spec_backoff(initial, clamp, (attempt - 1) as nat), clamp)
    }
}

/// Once the pause has reached the clamp, or is zero, it stays there.
pub proof fn lemma_backoff_settles(initial: nat, clamp: nat, from: nat, to: nat)
    requires
        from <= to,
        spec_backoff(initial, clamp, from) == clamp || spec_backoff(initial, clamp, from) == 0,
    ensures
        spec_backoff(initial, clamp, to) == spec_backoff(initial, clamp, from),
    decreases to - from,
{
    if from < to {
        lemma_backoff_settles(initial, clamp, from, (to - 1) as nat);
    }
}

/// The pause never exceeds the clamp and never shrinks from one attempt to the next.
pub proof fn lemma_backoff_bounded(initial: nat, clamp: nat, attempt: nat)
    ensures
        spec_backoff(initial, clamp, attempt) <= clamp,
        spec_backoff(initial, clamp, attempt) <= spec_backoff(initial, clamp, attempt + 1),
    decreases attempt,
{
    if attempt > 0 {
        lemma_backoff_bounded(initial, clamp, (attempt - 1) as nat);
    }
}

/// Exponential backoff, clamped. Attempts are not counted against a limit.
#[derive(Clone, Copy, Debug, PartialEq, Eq, Structural)]
pub struct RetryPolicy {
    pub initial_backoff_ms: u64,
    pub clamp_backoff_ms: u64,
}

/// The first pause of the sink's policy, in milliseconds.
pub const DEFAULT_INITIAL_BACKOFF_MS: u64 = 125;

/// Ten minutes.
pub const CLAMP_BACKOFF_MS: u64 = 600_000;

impl RetryPolicy {
    /// The sink's policy: pauses double from the default initial pause up to ten minutes.
    pub fn sink_default() -> (policy: RetryPolicy)
        ensures
            policy.initial_backoff_ms == DEFAULT_INITIAL_BACKOFF_MS,
            policy.clamp_backoff_ms == CLAMP_BACKOFF_MS,
    {
        RetryPolicy {
            initial_backoff_ms: DEFAULT_INITIAL_BACKOFF_MS,
            clamp_backoff_ms: CLAMP_BACKOFF_MS,
        }
    }

    /// The pause, in milliseconds, before re-attempt number `attempt`.
    pub open spec fn spec_backoff(self, attempt: u64) -> nat {
        spec_backoff(self.initial_backoff_ms as nat, self.clamp_backoff_ms as nat, attempt as nat)
    }

    /// The pause, in milliseconds, before re-attempt number `attempt`.
    pub fn backoff(&self, attempt: u64) -> (ms: u64)
        ensures
            ms == self.spec_backoff(attempt),
            ms <= self.clamp_backoff_ms,
    {
        let clamp = self.clamp_backoff_ms;
        let mut ms: u64 = if self.initial_backoff_ms <= clamp {
            self.initial_backoff_ms
        } else {
            clamp
        };
        let mut i: u64 = 0;
        while i < attempt && 0 < ms && ms < clamp
            invariant
                i <= attempt,
                clamp == self.clamp_backoff_ms,
                ms == self.spec_backoff(i),
                ms <= clamp,
            decreases attempt - i,
        {
            ms = if ms > clamp / 2 {
                clamp
            } else {
                2 * ms
            };
            i += 1;
        }
        proof {
            if i < attempt {
                lemma_backoff_settles(
                    self.initial_backoff_ms as nat,
                    clamp as nat,
                    i as nat,
                    attempt as nat,
                );
            }
        }
        ms
    }
}

/// What follows the outcome of a broker call.
#[derive(Clone, Copy, Debug, PartialEq, Eq, Structural)]
pub enum RetryStep {
    /// The call succeeded.
    Done,
    /// Pause, then make the same call again.
    Sleep { millis: u64 },
    /// Abort the open transaction.
    Abort,
    /// Give up and shut the sink down; `error` is the last error of the call.
    Fail { error: BrokerError },
}

/// Where a call stands in its retries.
#[derive(Clone, Copy, Debug, PartialEq, Eq, Structural)]
pub struct RetryState {
    /// Failed attempts of the call so far.
    pub tries: u64,
    /// Failed attempts of the abort so far.
    pub abort_tries: u64,
    /// Whether the abort of the transaction is under way.
    pub aborting: bool,
    /// The last error of the call.
    pub last_error: BrokerError,
}

/// A count of attempts one higher; it stops at the greatest number.
pub open spec fn spec_bump(n: u64) -> u64 {
    if n == u64::MAX {
        n
    } else {
        (n + 1) as u64
    }
}

/// The state before the first attempt of a call.
pub open spec fn spec_fresh() -> RetryState {
    RetryState { tries: 0, abort_tries: 0, aborting: false, last_error: BrokerError::Canceled }
}

/// The outcome of a transactional call (init, begin, commit, flush) or of the abort that
/// such a call led to.
///
/// A success of the call ends it. A transactional error that requires an abort starts the
/// abort; one that is retriable pauses and repeats the call; any other error fails. While
/// aborting, a retriable transactional error pauses and repeats the abort; every other
/// outcome of the abort, success included, fails the call with its own last error.
pub open spec fn spec_retry_on_txn_error(
    state: RetryState,
    policy: RetryPolicy,
    result: Result<(), BrokerError>,
) -> (RetryState, RetryStep) {
    if state.aborting {
        match result {
            Err(BrokerError::Transaction { retriable: true, .. }) => (
                RetryState { abort_tries: spec_bump(state.abort_tries), ..state },
                RetryStep::Sleep { millis: policy.spec_backoff(state.abort_tries) as u64 },
            ),
            _ => (spec_fresh(), RetryStep::Fail { error: state.last_error }),
        }
    } else {
        match result {
            Ok(_) => (spec_fresh(), RetryStep::Done),
            Err(error) => match spec_classify(error) {
                ErrorKind::TransactionRequiresAbort => (
                    RetryState { aborting: true, abort_tries: 0, last_error: error, ..state },
                    RetryStep::Abort,
                ),
                ErrorKind::TransactionRetriable => (
                    RetryState { tries: spec_bump(state.tries), last_error: error, ..state },
                    RetryStep::Sleep { millis: policy.spec_backoff(state.tries) as u64 },
                ),
                _ => (spec_fresh(), RetryStep::Fail { error }),
            },
        }
    }
}

/// The outcome of a send. A success ends it; a full queue pauses and repeats the send; any
/// other error fails.
pub open spec fn spec_retry_send(
    state: RetryState,
    policy: RetryPolicy,
    result: Result<(), BrokerError>,
) -> (RetryState, RetryStep) {
    match result {
        Ok(_) => (spec_fresh(), RetryStep::Done),
        Err(BrokerError::QueueFull) => (
            RetryState { tries: spec_bump(state.tries), last_error: BrokerError::QueueFull, ..state },
            RetryStep::Sleep { millis: policy.spec_backoff(state.tries) as u64 },
        ),
        Err(error) => (spec_fresh(), RetryStep::Fail { error }),
    }
}

fn bump(n: u64) -> (r: u64)
    ensures
        r == spec_bump(n),
{
    if n == u64::MAX {
        n
    } else {
        n + 1
    }
}

impl RetryState {
    /// The state before the first attempt of a call.
    pub fn fresh() -> (state: RetryState)
        ensures
            state == spec_fresh(),
    {
        RetryState { tries: 0, abort_tries: 0, aborting: false, last_error: BrokerError::Canceled }
    }

    /// Takes the outcome of a transactional call, or of its abort, and says what to do next.
    pub fn retry_on_txn_error(&mut self, policy: &RetryPolicy, result: Result<(), BrokerError>) -> (step:
        RetryStep)
        ensures
            (*final(self), step) == spec_retry_on_txn_error(*old(self), *policy, result),
    {
        if self.aborting {
            match result {
                Err(BrokerError::Transaction { requires_abort: _, retriable: true }) => {
                    let millis = policy.backoff(self.abort_tries);
                    self.abort_tries = bump(self.abort_tries);
                    RetryStep::Sleep { millis }
                },
                _ => {
                    let error = self.last_error;
                    *self = RetryState::fresh();
                    RetryStep::Fail { error }
                },
            }
        } else {
            match result {
                Ok(_) => {
                    *self = RetryState::fresh();
                    RetryStep::Done
                },
                Err(error) => match classify(error) {
                    ErrorKind::TransactionRequiresAbort => {
                        self.aborting = true;
                        self.abort_tries = 0;
                        self.last_error = error;
                        RetryStep::Abort
                    },
                    ErrorKind::TransactionRetriable => {
                        let millis = policy.backoff(self.tries);
                        self.tries = bump(self.tries);
                        self.last_error = error;
                        RetryStep::Sleep { millis }
                    },
                    _ => {
                        *self = RetryState::fresh();
                        RetryStep::Fail { error }
                    },
                },
            }
        }
    }

    /// Takes the outcome of a send and says what to do next.
    pub fn send(&mut self, policy: &RetryPolicy, result: Result<(), BrokerError>) -> (step: RetryStep)
        ensures
            (*final(self), step) == spec_retry_send(*old(self), *policy, result),
    {
        match result {
            Ok(_) => {
                *self = RetryState::fresh();
                RetryStep::Done
            },
            Err(BrokerError::QueueFull) => {
                let millis = policy.backoff(self.tries);
                self.tries = bump(self.tries);
                self.last_error = BrokerError::QueueFull;
                RetryStep::Sleep { millis }
            },
            Err(error) => {
                *self = RetryState::fresh();
                RetryStep::Fail { error }
            },
        }
    }
}

} // verus!
