//! The sink's connector settings and the producer configuration made from them.

use crate::consistency::KafkaSinkConsistencyConnector;
use rdkafka::config::ClientConfig;
use vstd::prelude::*;
use vstd::string::StringExecFns;

verus! {

/// `rdkafka::config::ClientConfig`, the configuration that a producer is created from.
#[verifier::external_type_specification]
#[verifier::external_body]
pub struct ExClientConfig(ClientConfig);

/// The parameters that a client configuration holds, by key.
pub uninterp spec fn client_config_entries(config: ClientConfig) -> Map<Seq<char>, Seq<char>>;

/// No parameters.
pub open spec fn no_entries() -> Map<Seq<char>, Seq<char>> {
    Map::empty()
}

/// `ClientConfig::new`: a configuration without parameters.
#[verifier::external_body]
fn client_config_new() -> (config: ClientConfig)
    ensures
        client_config_entries(config) == no_entries(),
{
    ClientConfig::new()
}

/// `ClientConfig::set`: the parameter `key` takes `value`, whether or not it had one.
#[verifier::external_body]
fn client_config_set(config: &mut ClientConfig, key: &str, value: &str)
    ensures
        client_config_entries(*final(config)) == client_config_entries(*old(config)).insert(
            key@,
            value@,
        ),
{
    config.set(key, value);
}

/// The identifiers of the schemas that the rows were published under.
#[derive(Clone, Copy, Debug, PartialEq, Eq, Structural)]
pub struct PublishedSchemaInfo {
    pub key_schema_id: Option<i32>,
    pub value_schema_id: i32,
}

/// The settings of a sink.
pub struct KafkaSinkConnector {
    pub addrs: String,
    pub topic: String,
    pub topic_prefix: String,
    /// The columns of the key, where the sink writes keys of its own.
    pub key_indices: Option<Vec<usize>>,
    /// The columns of the key of the relation, where it has one.
    pub relation_key_indices: Option<Vec<usize>>,
    pub published_schema_info: Option<PublishedSchemaInfo>,
    pub consistency: Option<KafkaSinkConsistencyConnector>,
    pub exactly_once: bool,
    pub fuel: usize,
    pub config_options: Vec<(String, String)>,
}

/// The encoding of the rows.
#[derive(Clone, Copy, Debug, PartialEq, Eq, Structural)]
pub enum EncoderChoice {
    Avro { key_schema_id: Option<i32>, value_schema_id: i32 },
    Json,
}

/// The encoder of a sink, and whether its schema carries the transaction of each row.
#[derive(Clone, Copy, Debug, PartialEq, Eq, Structural)]
pub struct EncoderSetup {
    pub choice: EncoderChoice,
    pub include_transaction: bool,
    pub gate_ts: Option<u64>,
}

impl KafkaSinkConnector {
    /// A Kafka sink writes keyed records.
    pub fn uses_keys(&self) -> (r: bool)
        ensures
            r,
    {
        true
    }

    /// The columns of the key that the sink writes, if it writes one of its own.
    pub fn get_key_indices(&self) -> (indices: Option<&Vec<usize>>)
        ensures
            match indices {
                Some(v) => self.key_indices == Some(*v),
                None => self.key_indices is None,
            },
    {
        self.key_indices.as_ref()
    }

    /// The columns of the key of the relation, if it has one.
    pub fn get_relation_key_indices(&self) -> (indices: Option<&Vec<usize>>)
        ensures
            match indices {
                Some(v) => self.relation_key_indices == Some(*v),
                None => self.relation_key_indices is None,
            },
    {
        self.relation_key_indices.as_ref()
    }

    /// The restart gate of the consistency topic, if there is one.
    pub open spec fn spec_gate_ts(&self) -> Option<u64> {
        match self.consistency {
            Some(c) => c.gate_ts,
            None => None,
        }
    }

    /// The restart gate timestamp of the consistency topic, if there is one.
    pub fn gate_ts(&self) -> (gate: Option<u64>)
        ensures
            gate == self.spec_gate_ts(),
    {
        match &self.consistency {
            Some(c) => c.gate_ts,
            None => None,
        }
    }

    /// Rows are encoded as Avro where schemas were published for them, else as JSON. With a
    /// consistency topic the schema carries the transaction.
    pub fn encoder_setup(&self) -> (setup: EncoderSetup)
        ensures
            setup.choice == match self.published_schema_info {
                Some(info) => EncoderChoice::Avro {
                    key_schema_id: info.key_schema_id,
                    value_schema_id: info.value_schema_id,
                },
                None => EncoderChoice::Json,
            },
            setup.include_transaction == self.consistency is Some,
            setup.gate_ts == self.spec_gate_ts(),
    {
        EncoderSetup {
            choice: match self.published_schema_info {
                Some(info) => EncoderChoice::Avro {
                    key_schema_id: info.key_schema_id,
                    value_schema_id: info.value_schema_id,
                },
                None => EncoderChoice::Json,
            },
            include_transaction: self.consistency.is_some(),
            gate_ts: self.gate_ts(),
        }
    }
}

/// The options that a producer does not take from the user: the statistics interval,
/// which would flood the log, and the isolation level, which is a consumer's.
pub open spec fn spec_is_ignored(key: Seq<char>) -> bool {
    key == "statistics.interval.ms"@ || key == "isolation.level"@
}

/// Whether the producer ignores the user's option `key`.
pub fn is_ignored(key: &String) -> (r: bool)
    ensures
        r == spec_is_ignored(key@),
{
    let statistics = String::from_str("statistics.interval.ms");
    let isolation = String::from_str("isolation.level");
    *key == statistics || *key == isolation
}

/// What the sink itself asks of its producer: idempotent writes, buffers at their
/// ceilings (sixteen gigabytes, ten million messages) and a linger of ten milliseconds.
pub open spec fn spec_base_config(addrs: Seq<char>) -> Map<Seq<char>, Seq<char>> {
    no_entries().insert("bootstrap.servers"@, addrs).insert("enable.idempotence"@, "true"@).insert(
        "queue.buffering.max.kbytes"@,
        "16777216"@,
    ).insert("queue.buffering.max.messages"@, "10000000"@).insert("queue.buffering.max.ms"@, "10"@)
}

/// The user's options as pairs of key and value.
pub open spec fn options_view(options: Seq<(String, String)>) -> Seq<(Seq<char>, Seq<char>)> {
    options.map_values(|o: (String, String)| (o.0@, o.1@))
}

/// `entries` with the user's options set in their order, but for those that are ignored.
pub open spec fn spec_with_options(
    entries: Map<Seq<char>, Seq<char>>,
    options: Seq<(Seq<char>, Seq<char>)>,
) -> Map<Seq<char>, Seq<char>>
    decreases options.len(),
{
    if options.len() == 0 {
        entries
    } else {
        let before = spec_with_options(entries, options.drop_last());
        if spec_is_ignored(options.last().0) {
            before
        } else {
            before.insert(options.last().0, options.last().1)
        }
    }
}

/// The identifier under which the producer of `topic` runs its transactions.
pub open spec fn spec_transactional_id(topic: Seq<char>) -> Seq<char> {
    "mz-producer-"@ + topic
}

/// The configuration of a sink's producer: the sink's own settings, then the user's
/// options, then, for exactly-once sinks, the transactional identifier.
pub open spec fn spec_producer_config(connector: KafkaSinkConnector) -> Map<Seq<char>, Seq<char>> {
    let entries = spec_with_options(
        spec_base_config(connector.addrs@),
        options_view(connector.config_options@),
    );
    if connector.exactly_once {
        entries.insert("transactional.id"@, spec_transactional_id(connector.topic@))
    } else {
        entries
    }
}

/// Makes the configuration of a sink's producer.
pub fn create_producer_config(connector: &KafkaSinkConnector) -> (config: ClientConfig)
    ensures
        client_config_entries(config) == spec_producer_config(*connector),
{
    let mut config = client_config_new();
    client_config_set(&mut config, "bootstrap.servers", connector.addrs.as_str());
    client_config_set(&mut config, "enable.idempotence", "true");
    client_config_set(&mut config, "queue.buffering.max.kbytes", "16777216");
    client_config_set(&mut config, "queue.buffering.max.messages", "10000000");
    client_config_set(&mut config, "queue.buffering.max.ms", "10");
    let ghost options = options_view(connector.config_options@);
    let ghost base = spec_base_config(connector.addrs@);
    let mut i: usize = 0;
    while i < connector.config_options.len()
        invariant
            i <= connector.config_options@.len(),
            options == options_view(connector.config_options@),
            client_config_entries(config) == spec_with_options(base, options.subrange(0, i as int)),
        decreases connector.config_options@.len() - i,
    {
        let option = &connector.config_options[i];
        proof {
            assert(options.subrange(0, i + 1).drop_last() =~= options.subrange(0, i as int));
            assert(options.subrange(0, i + 1).last() == (option.0@, option.1@));
        }
        if !is_ignored(&option.0) {
            client_config_set(&mut config, option.0.as_str(), option.1.as_str());
        }
        i += 1;
    }
    proof {
        assert(options.subrange(0, i as int) =~= options);
    }
    if connector.exactly_once {
        let transactional_id = String::from_str("mz-producer-").concat(connector.topic.as_str());
        client_config_set(&mut config, "transactional.id", transactional_id.as_str());
    }
    config
}

} // verus!
