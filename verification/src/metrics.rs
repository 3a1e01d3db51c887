//! The sink's metrics, as plain numbers, and the producer context that counts delivery
//! failures.

use vstd::prelude::*;
use vstd::string::StringExecFns;

verus! {

/// A counter or gauge one higher; it wraps, as an atomic does.
pub open spec fn spec_inc(x: u64) -> u64 {
    if x == u64::MAX {
        0
    } else {
        (x + 1) as u64
    }
}

/// A gauge one lower; it wraps, as an atomic does.
pub open spec fn spec_dec(x: u64) -> u64 {
    if x == 0 {
        u64::MAX
    } else {
        (x - 1) as u64
    }
}

/// A counter or gauge one higher.
pub fn inc(x: u64) -> (r: u64)
    ensures
        r == spec_inc(x),
{
    if x == u64::MAX {
        0
    } else {
        x + 1
    }
}

/// A gauge one lower.
pub fn dec(x: u64) -> (r: u64)
    ensures
        r == spec_dec(x),
{
    if x == 0 {
        u64::MAX
    } else {
        x - 1
    }
}

/// Per-sink metrics, labelled by topic, sink and worker.
pub struct SinkMetrics {
    pub topic_name: String,
    pub sink_id: String,
    pub worker_id: String,
    pub messages_sent_counter: u64,
    pub message_send_errors_counter: u64,
    pub message_delivery_errors_counter: u64,
    pub rows_queued: u64,
    pub messages_in_flight: u64,
}

/// The mathematical content of a [`SinkMetrics`]: the labels and the numbers.
pub struct MetricsView {
    pub topic_name: Seq<char>,
    pub sink_id: Seq<char>,
    pub worker_id: Seq<char>,
    pub messages_sent: u64,
    pub message_send_errors: u64,
    pub message_delivery_errors: u64,
    pub rows_queued: u64,
    pub messages_in_flight: u64,
}

impl View for SinkMetrics {
    type V = MetricsView;

    open spec fn view(&self) -> MetricsView {
        MetricsView {
            topic_name: self.topic_name@,
            sink_id: self.sink_id@,
            worker_id: self.worker_id@,
            messages_sent: self.messages_sent_counter,
            message_send_errors: self.message_send_errors_counter,
            message_delivery_errors: self.message_delivery_errors_counter,
            rows_queued: self.rows_queued,
            messages_in_flight: self.messages_in_flight,
        }
    }
}

impl MetricsView {
    /// The labels, in the order topic, sink, worker.
    pub open spec fn labels(self) -> Seq<Seq<char>> {
        seq![self.topic_name, self.sink_id, self.worker_id]
    }
}

/// Metrics under the given labels with every counter and gauge at zero.
pub open spec fn spec_fresh_metrics(
    topic_name: Seq<char>,
    sink_id: Seq<char>,
    worker_id: Seq<char>,
) -> MetricsView {
    MetricsView {
        topic_name,
        sink_id,
        worker_id,
        messages_sent: 0,
        message_send_errors: 0,
        message_delivery_errors: 0,
        rows_queued: 0,
        messages_in_flight: 0,
    }
}

impl SinkMetrics {
    /// Fresh metrics under the given labels: every counter and gauge at zero.
    pub fn new(topic_name: &str, sink_id: &str, worker_id: &str) -> (metrics: SinkMetrics)
        ensures
            metrics@ == spec_fresh_metrics(topic_name@, sink_id@, worker_id@),
            metrics@.labels() == seq![topic_name@, sink_id@, worker_id@],
    {
        SinkMetrics {
            topic_name: String::from_str(topic_name),
            sink_id: String::from_str(sink_id),
            worker_id: String::from_str(worker_id),
            messages_sent_counter: 0,
            message_send_errors_counter: 0,
            message_delivery_errors_counter: 0,
            rows_queued: 0,
            messages_in_flight: 0,
        }
    }
}

/// What the producer's delivery callback works on: the metrics and the shutdown flag.
pub struct SinkProducerContext {
    pub metrics: SinkMetrics,
    pub shutdown_flag: bool,
}

impl SinkProducerContext {
    /// The context of a producer, over the metrics and the shutdown flag as they stand.
    pub fn new(metrics: SinkMetrics, shutdown_flag: bool) -> (context: SinkProducerContext)
        ensures
            context.metrics == metrics,
            context.shutdown_flag == shutdown_flag,
    {
        SinkProducerContext { metrics, shutdown_flag }
    }

    /// The delivery report of one message. A success changes nothing; a failure is counted
    /// and sets the shutdown flag, which is never unset.
    pub fn delivery(&mut self, delivered: bool)
        ensures
            delivered ==> *final(self) == *old(self),
            !delivered ==> final(self).shutdown_flag && final(self).metrics@ == (MetricsView {
                message_delivery_errors: spec_inc(old(self).metrics@.message_delivery_errors),
                ..old(self).metrics@
            }),
            old(self).shutdown_flag ==> final(self).shutdown_flag,
    {
        if !delivered {
            self.metrics.message_delivery_errors_counter = inc(
                self.metrics.message_delivery_errors_counter,
            );
            self.shutdown_flag = true;
        }
    }
}

} // verus!
