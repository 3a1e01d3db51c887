use kafka_sink::config::{
    create_producer_config, is_ignored, EncoderChoice, KafkaSinkConnector, PublishedSchemaInfo,
};
use kafka_sink::consistency::{
    consistency_record, timestamp_string, KafkaSinkConsistencyConnector, TxnStatus,
};
use kafka_sink::metrics::{dec, inc, SinkMetrics, SinkProducerContext};

fn connector(exactly_once: bool, options: Vec<(&str, &str)>) -> KafkaSinkConnector {
    KafkaSinkConnector {
        addrs: "broker:9092".to_string(),
        topic: "orders".to_string(),
        topic_prefix: "orders-prefix".to_string(),
        key_indices: None,
        relation_key_indices: None,
        published_schema_info: None,
        consistency: None,
        exactly_once,
        fuel: 100,
        config_options: options.into_iter().map(|(k, v)| (k.to_string(), v.to_string())).collect(),
    }
}

#[test]
fn producer_config_has_the_sinks_own_settings() {
    let config = create_producer_config(&connector(false, vec![]));
    assert_eq!(config.get("bootstrap.servers"), Some("broker:9092"));
    assert_eq!(config.get("enable.idempotence"), Some("true"));
    assert_eq!(config.get("queue.buffering.max.kbytes"), Some("16777216"));
    assert_eq!(config.get("queue.buffering.max.messages"), Some("10000000"));
    assert_eq!(config.get("queue.buffering.max.ms"), Some("10"));
    assert_eq!(config.get("transactional.id"), None);
}

#[test]
fn producer_config_passes_user_options_but_the_ignored() {
    let config = create_producer_config(&connector(
        false,
        vec![
            ("statistics.interval.ms", "1000"),
            ("security.protocol", "ssl"),
            ("isolation.level", "read_committed"),
            ("queue.buffering.max.ms", "50"),
            ("security.protocol", "plaintext"),
        ],
    ));
    assert_eq!(config.get("statistics.interval.ms"), None);
    assert_eq!(config.get("isolation.level"), None);
    assert_eq!(config.get("security.protocol"), Some("plaintext"));
    assert_eq!(config.get("queue.buffering.max.ms"), Some("50"));
    assert!(is_ignored(&"statistics.interval.ms".to_string()));
    assert!(is_ignored(&"isolation.level".to_string()));
    assert!(!is_ignored(&"isolation.levels".to_string()));
}

#[test]
fn exactly_once_sets_the_transactional_id() {
    let config = create_producer_config(&connector(true, vec![("transactional.id", "mine")]));
    assert_eq!(config.get("transactional.id"), Some("mz-producer-orders"));
}

#[test]
fn encoder_follows_the_published_schemas() {
    let mut c = connector(false, vec![]);
    let setup = c.encoder_setup();
    assert_eq!(setup.choice, EncoderChoice::Json);
    assert!(!setup.include_transaction);
    assert_eq!(setup.gate_ts, None);
    c.published_schema_info = Some(PublishedSchemaInfo { key_schema_id: Some(3), value_schema_id: 4 });
    c.consistency =
        Some(KafkaSinkConsistencyConnector { topic: "ct".to_string(), schema_id: 9, gate_ts: Some(11) });
    let setup = c.encoder_setup();
    assert_eq!(setup.choice, EncoderChoice::Avro { key_schema_id: Some(3), value_schema_id: 4 });
    assert!(setup.include_transaction);
    assert_eq!(setup.gate_ts, Some(11));
    assert_eq!(c.gate_ts(), Some(11));
}

#[test]
fn connector_hands_out_its_key_columns() {
    let mut c = connector(false, vec![]);
    assert!(c.uses_keys());
    assert_eq!(c.get_key_indices(), None);
    assert_eq!(c.get_relation_key_indices(), None);
    c.key_indices = Some(vec![2, 0]);
    c.relation_key_indices = Some(vec![1]);
    assert_eq!(c.get_key_indices(), Some(&vec![2, 0]));
    assert_eq!(c.get_relation_key_indices(), Some(&vec![1]));
}

#[test]
fn timestamps_are_written_in_decimal() {
    assert_eq!(timestamp_string(0), "0");
    assert_eq!(timestamp_string(5), "5");
    assert_eq!(timestamp_string(9), "9");
    assert_eq!(timestamp_string(10), "10");
    assert_eq!(timestamp_string(1905), "1905");
    assert_eq!(timestamp_string(u64::MAX), "18446744073709551615");
    for t in [0u64, 7, 42, 100, 99_999, 1 << 40] {
        assert_eq!(timestamp_string(t), t.to_string());
    }
}

#[test]
fn consistency_record_fields() {
    let begin = consistency_record(&"ct".to_string(), 7, &"p".to_string(), 5, TxnStatus::Begin, None);
    assert_eq!(begin.topic, "ct");
    assert_eq!(begin.key(), "p");
    assert_eq!(begin.schema_id, 7);
    assert_eq!(begin.topic_prefix, "p");
    assert_eq!(begin.transaction_id, "5");
    assert_eq!(begin.status, TxnStatus::Begin);
    assert_eq!(begin.message_count, None);
    let end = consistency_record(&"ct".to_string(), 7, &"p".to_string(), 120, TxnStatus::End, Some(3));
    assert_eq!(end.transaction_id, "120");
    assert_eq!(end.status.name(), "END");
    assert_eq!(TxnStatus::Begin.name(), "BEGIN");
    assert_eq!(end.message_count, Some(3));
}

#[test]
fn metrics_start_at_zero_under_their_labels() {
    let m = SinkMetrics::new("topic", "u7", "3");
    assert_eq!(m.topic_name, "topic");
    assert_eq!(m.sink_id, "u7");
    assert_eq!(m.worker_id, "3");
    assert_eq!(m.messages_sent_counter, 0);
    assert_eq!(m.message_send_errors_counter, 0);
    assert_eq!(m.message_delivery_errors_counter, 0);
    assert_eq!(m.rows_queued, 0);
    assert_eq!(m.messages_in_flight, 0);
}

#[test]
fn counters_wrap() {
    assert_eq!(inc(0), 1);
    assert_eq!(inc(u64::MAX), 0);
    assert_eq!(dec(1), 0);
    assert_eq!(dec(0), u64::MAX);
}

#[test]
fn delivery_failure_counts_and_shuts_down() {
    let mut context = SinkProducerContext::new(SinkMetrics::new("topic", "u7", "3"), false);
    context.delivery(true);
    assert!(!context.shutdown_flag);
    assert_eq!(context.metrics.message_delivery_errors_counter, 0);
    context.delivery(false);
    assert!(context.shutdown_flag);
    assert_eq!(context.metrics.message_delivery_errors_counter, 1);
    context.delivery(true);
    assert!(context.shutdown_flag);
    context.delivery(false);
    assert_eq!(context.metrics.message_delivery_errors_counter, 2);
    assert_eq!(context.metrics.messages_sent_counter, 0);
}
