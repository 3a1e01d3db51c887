use kafka_sink::retry::{
    classify, BrokerError, ErrorKind, RetryPolicy, RetryState, RetryStep, CLAMP_BACKOFF_MS,
    DEFAULT_INITIAL_BACKOFF_MS,
};

fn retriable() -> BrokerError {
    BrokerError::Transaction { requires_abort: false, retriable: true }
}

fn abortable() -> BrokerError {
    BrokerError::Transaction { requires_abort: true, retriable: true }
}

#[test]
fn classify_tells_the_four_kinds_apart() {
    assert_eq!(classify(BrokerError::QueueFull), ErrorKind::RetriableTransport);
    assert_eq!(classify(retriable()), ErrorKind::TransactionRetriable);
    assert_eq!(classify(abortable()), ErrorKind::TransactionRequiresAbort);
    assert_eq!(
        classify(BrokerError::Transaction { requires_abort: true, retriable: false }),
        ErrorKind::TransactionRequiresAbort
    );
    assert_eq!(
        classify(BrokerError::Transaction { requires_abort: false, retriable: false }),
        ErrorKind::Fatal
    );
    assert_eq!(classify(BrokerError::Canceled), ErrorKind::Fatal);
    assert_eq!(classify(BrokerError::Other), ErrorKind::Fatal);
}

#[test]
fn backoff_doubles_up_to_ten_minutes() {
    let policy = RetryPolicy::sink_default();
    assert_eq!(policy.initial_backoff_ms, DEFAULT_INITIAL_BACKOFF_MS);
    assert_eq!(policy.clamp_backoff_ms, 600_000);
    assert_eq!(CLAMP_BACKOFF_MS, 10 * 60 * 1000);
    assert_eq!(policy.backoff(0), 125);
    assert_eq!(policy.backoff(1), 250);
    assert_eq!(policy.backoff(2), 500);
    assert_eq!(policy.backoff(10), 128_000);
    assert_eq!(policy.backoff(12), 512_000);
    assert_eq!(policy.backoff(13), 600_000);
    assert_eq!(policy.backoff(14), 600_000);
    assert_eq!(policy.backoff(u64::MAX), 600_000);
}

#[test]
fn backoff_edge_policies() {
    let zero = RetryPolicy { initial_backoff_ms: 0, clamp_backoff_ms: 100 };
    assert_eq!(zero.backoff(0), 0);
    assert_eq!(zero.backoff(u64::MAX), 0);
    let over = RetryPolicy { initial_backoff_ms: 500, clamp_backoff_ms: 100 };
    assert_eq!(over.backoff(0), 100);
    assert_eq!(over.backoff(3), 100);
    let wide = RetryPolicy { initial_backoff_ms: 1, clamp_backoff_ms: u64::MAX };
    assert_eq!(wide.backoff(63), 1 << 63);
    assert_eq!(wide.backoff(64), u64::MAX);
}

#[test]
fn transactional_call_retries_while_retriable() {
    let policy = RetryPolicy::sink_default();
    let mut state = RetryState::fresh();
    assert_eq!(state.retry_on_txn_error(&policy, Err(retriable())), RetryStep::Sleep { millis: 125 });
    assert_eq!(state.tries, 1);
    assert_eq!(state.retry_on_txn_error(&policy, Err(retriable())), RetryStep::Sleep { millis: 250 });
    assert_eq!(state.retry_on_txn_error(&policy, Ok(())), RetryStep::Done);
    assert_eq!(state, RetryState::fresh());
}

#[test]
fn transactional_call_fails_on_other_errors() {
    let policy = RetryPolicy::sink_default();
    for error in [
        BrokerError::Canceled,
        BrokerError::Other,
        BrokerError::QueueFull,
        BrokerError::Transaction { requires_abort: false, retriable: false },
    ] {
        let mut state = RetryState::fresh();
        assert_eq!(state.retry_on_txn_error(&policy, Err(error)), RetryStep::Fail { error });
        assert_eq!(state, RetryState::fresh());
    }
}

#[test]
fn abort_is_driven_under_the_same_policy() {
    let policy = RetryPolicy::sink_default();
    let mut state = RetryState::fresh();
    assert_eq!(state.retry_on_txn_error(&policy, Err(abortable())), RetryStep::Abort);
    assert!(state.aborting);
    // The abort itself is retried while its error is retriable.
    assert_eq!(state.retry_on_txn_error(&policy, Err(retriable())), RetryStep::Sleep { millis: 125 });
    assert_eq!(state.retry_on_txn_error(&policy, Err(abortable())), RetryStep::Sleep { millis: 250 });
    assert!(state.aborting);
    // Once the abort is through, the call fails with its own last error.
    assert_eq!(state.retry_on_txn_error(&policy, Ok(())), RetryStep::Fail { error: abortable() });
    assert_eq!(state, RetryState::fresh());
}

#[test]
fn failed_abort_fails_the_call() {
    let policy = RetryPolicy::sink_default();
    let mut state = RetryState::fresh();
    let first = BrokerError::Transaction { requires_abort: true, retriable: false };
    assert_eq!(state.retry_on_txn_error(&policy, Err(first)), RetryStep::Abort);
    assert_eq!(
        state.retry_on_txn_error(&policy, Err(BrokerError::Other)),
        RetryStep::Fail { error: first }
    );
}

#[test]
fn send_retries_only_a_full_queue() {
    let policy = RetryPolicy::sink_default();
    let mut state = RetryState::fresh();
    assert_eq!(state.send(&policy, Err(BrokerError::QueueFull)), RetryStep::Sleep { millis: 125 });
    assert_eq!(state.send(&policy, Err(BrokerError::QueueFull)), RetryStep::Sleep { millis: 250 });
    assert_eq!(state.send(&policy, Ok(())), RetryStep::Done);
    assert_eq!(
        state.send(&policy, Err(retriable())),
        RetryStep::Fail { error: retriable() }
    );
    assert_eq!(
        state.send(&policy, Err(BrokerError::Other)),
        RetryStep::Fail { error: BrokerError::Other }
    );
}
