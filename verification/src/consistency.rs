//! The control records of the consistency topic: one BEGIN and one END per batch, and END
//! records that report progress.

use vstd::prelude::*;
use vstd::string::StringExecFns;

verus! {

/// Where the consistency records go, and the restart gate recovered from them at start.
pub struct KafkaSinkConsistencyConnector {
    pub topic: String,
    pub schema_id: i32,
    pub gate_ts: Option<u64>,
}

/// The status of a control record.
#[derive(Clone, Copy, Debug, PartialEq, Eq, Structural)]
pub enum TxnStatus {
    Begin,
    End,
}

/// A control record, before it is encoded. It goes to `topic`, the consistency topic, and
/// is keyed by the topic prefix.
pub struct ConsistencyRecord {
    pub topic: String,
    pub schema_id: i32,
    pub topic_prefix: String,
    pub transaction_id: String,
    pub status: TxnStatus,
    pub message_count: Option<i64>,
}

/// The mathematical content of a [`ConsistencyRecord`].
pub struct ConsistencyRecordView {
    pub topic: Seq<char>,
    pub schema_id: i32,
    pub topic_prefix: Seq<char>,
    pub transaction_id: Seq<char>,
    pub status: TxnStatus,
    pub message_count: Option<i64>,
}

impl ConsistencyRecordView {
    /// The key that the record goes out under: the topic prefix.
    pub open spec fn key(self) -> Seq<char> {
        self.topic_prefix
    }
}

impl ConsistencyRecord {
    /// The key that the record goes out under: the topic prefix.
    pub fn key(&self) -> (key: &String)
        ensures
            key@ == self@.key(),
    {
        &self.topic_prefix
    }
}

impl View for ConsistencyRecord {
    type V = ConsistencyRecordView;

    open spec fn view(&self) -> ConsistencyRecordView {
        ConsistencyRecordView {
            topic: self.topic@,
            schema_id: self.schema_id,
            topic_prefix: self.topic_prefix@,
            transaction_id: self.transaction_id@,
            status: self.status,
            message_count: self.message_count,
        }
    }
}

/// The decimal digit `d`, for `d` below ten.
pub open spec fn spec_digit(d: nat) -> char {
    if d == 0 {
        '0'
    } else if d == 1 {
        '1'
    } else if d == 2 {
        '2'
    } else if d == 3 {
        '3'
    } else if d == 4 {
        '4'
    } else if d == 5 {
        '5'
    } else if d == 6 {
        '6'
    } else if d == 7 {
        '7'
    } else if d == 8 {
        '8'
    } else {
        '9'
    }
}

/// The decimal digits of `n`, most significant first, without leading zeros.
pub open spec fn spec_decimal(n: nat) -> Seq<char>
    decreases n,
{
    if n < 10 {
        seq![spec_digit(n)]
    } else {
        spec_decimal(n / 10).push(spec_digit(n % 10))
    }
}

fn digit(d: u64) -> (s: &'static str)
    requires
        d < 10,
    ensures
        s@ == seq![spec_digit(d as nat)],
{
    proof {
        reveal_strlit("0");
        reveal_strlit("1");
        reveal_strlit("2");
        reveal_strlit("3");
        reveal_strlit("4");
        reveal_strlit("5");
        reveal_strlit("6");
        reveal_strlit("7");
        reveal_strlit("8");
        reveal_strlit("9");
    }
    let s = if d == 0 {
        "0"
    } else if d == 1 {
        "1"
    } else if d == 2 {
        "2"
    } else if d == 3 {
        "3"
    } else if d == 4 {
        "4"
    } else if d == 5 {
        "5"
    } else if d == 6 {
        "6"
    } else if d == 7 {
        "7"
    } else if d == 8 {
        "8"
    } else {
        "9"
    };
    assert(s@ =~= seq![spec_digit(d as nat)]);
    s
}

/// A timestamp as the control records write it: in decimal.
pub fn timestamp_string(ts: u64) -> (s: String)
    ensures
        s@ == spec_decimal(ts as nat),
    decreases ts,
{
    if ts < 10 {
        String::from_str(digit(ts))
    } else {
        let mut s = timestamp_string(ts / 10);
        s.append(digit(ts % 10));
        assert(s@ =~= spec_decimal(ts as nat));
        s
    }
}

/// The status as the control records write it.
pub open spec fn spec_status_name(status: TxnStatus) -> Seq<char> {
    match status {
        TxnStatus::Begin => "BEGIN"@,
        TxnStatus::End => "END"@,
    }
}

impl TxnStatus {
    /// The status as the control records write it.
    pub fn name(&self) -> (s: &'static str)
        ensures
            s@ == spec_status_name(*self),
    {
        match self {
            TxnStatus::Begin => "BEGIN",
            TxnStatus::End => "END",
        }
    }
}

/// The control record of `status` for timestamp `ts`, for the consistency topic `topic`.
pub open spec fn spec_consistency_record(
    topic: Seq<char>,
    schema_id: i32,
    topic_prefix: Seq<char>,
    ts: u64,
    status: TxnStatus,
    message_count: Option<i64>,
) -> ConsistencyRecordView {
    ConsistencyRecordView {
        topic,
        schema_id,
        topic_prefix,
        transaction_id: spec_decimal(ts as nat),
        status,
        message_count,
    }
}

/// Builds the control record of `status` for timestamp `ts`.
pub fn consistency_record(
    topic: &String,
    schema_id: i32,
    topic_prefix: &String,
    ts: u64,
    status: TxnStatus,
    message_count: Option<i64>,
) -> (record: ConsistencyRecord)
    ensures
        record@ == spec_consistency_record(
            topic@,
            schema_id,
            topic_prefix@,
            ts,
            status,
            message_count,
        ),
{
    ConsistencyRecord {
        topic: topic.clone(),
        schema_id,
        topic_prefix: topic_prefix.clone(),
        transaction_id: timestamp_string(ts),
        status,
        message_count,
    }
}

} // verus!
