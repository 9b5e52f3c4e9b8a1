//! Request parameters, metrics, and the conversion of a commit request into
//! an offset key.

use crate::offsets::OffsetKey;
use std::sync::atomic::AtomicU64;
use vstd::prelude::*;

verus! {

/// Parameters of a push: the topic (default `"default"`).
pub struct PushParams {
    pub topic: Option<String>,
}

/// Parameters of a pull: the batch size (default 100, at most 1000), the
/// topic and the consumer id (each default `"default"`).
pub struct PullParams {
    pub batch: Option<usize>,
    pub topic: Option<String>,
    pub consumer_id: Option<String>,
}

/// Parameters of an offset commit.
pub struct CommitOffsetParams {
    pub topic: String,
    pub group_id: Option<String>,
    pub offset: usize,
}

/// The counters reported by the metrics endpoint.
pub struct MetricsResponse {
    pub received: u64,
    pub delivered: u64,
}

/// Live counters: messages received by pushes and delivered by pulls.
pub struct Metrics {
    pub received: AtomicU64,
    pub delivered: AtomicU64,
}

impl From<CommitOffsetParams> for OffsetKey {
    /// The key of a commit: its topic and group.
    fn from(params: CommitOffsetParams) -> (key: OffsetKey) {
        OffsetKey { topic: params.topic, group_id: params.group_id }
    }
}

impl vstd::std_specs::convert::FromSpecImpl<CommitOffsetParams> for OffsetKey {
    open spec fn obeys_from_spec() -> bool {
        true
    }

    open spec fn from_spec(params: CommitOffsetParams) -> OffsetKey {
        OffsetKey { topic: params.topic, group_id: params.group_id }
    }
}

} // verus!
