[package]
name = "kafka_sink"
version = "0.1.0"
edition = "2021"
publish = false

[dependencies]
anyhow = "1"
differential-dataflow = "0.12"
futures = "0.3"
itertools = "0.10"
prometheus = { version = "0.13", default-features = false }
rdkafka = "0.28"
timely = "0.12"
tokio = { version = "1", features = ["rt", "time", "macros"] }
tracing = "0.1"
