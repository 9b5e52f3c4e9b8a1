//! The decisions of the HTTP endpoints, apart from the transport.

use crate::buffers::{bytes_contents, contents_of_all};
use crate::enums::AppError;
use crate::framing::{encode_all, encode_messages};
use crate::types::{PullParams, PushParams};
use bytes::Bytes;
use vstd::prelude::*;

verus! {

/// The batch size of a pull: the requested one, or 100, and never more
/// than 1000.
pub fn pull_batch_size(batch: Option<usize>) -> (n: usize)
    ensures
        n == (match batch {
            Some(b) => if b < 1000 { b } else { 1000 },
            None => 100,
        }),
{
    let requested = match batch {
        Some(b) => b,
        None => 100,
    };
    if requested < 1000 {
        requested
    } else {
        1000
    }
}

/// A topic or consumer name, or `"default"` when none was given.
pub fn name_or_default(name: &Option<String>) -> (r: String)
    ensures
        r@ == (match name {
            Some(s) => s@,
            None => "default"@,
        }),
{
    match name {
        Some(s) => s.clone(),
        None => "default".to_string(),
    }
}

/// What a pull asks for.
pub struct PullRequest {
    pub topic: String,
    pub consumer_id: String,
    pub batch_size: usize,
}

/// Reads a pull's parameters, filling in the defaults.
pub fn pull_request(params: &PullParams) -> (r: PullRequest)
    ensures
        r.topic@ == (match params.topic {
            Some(s) => s@,
            None => "default"@,
        }),
        r.consumer_id@ == (match params.consumer_id {
            Some(s) => s@,
            None => "default"@,
        }),
        r.batch_size == (match params.batch {
            Some(b) => if b < 1000 { b } else { 1000 },
            None => 100,
        }),
{
    PullRequest {
        topic: name_or_default(&params.topic),
        consumer_id: name_or_default(&params.consumer_id),
        batch_size: pull_batch_size(params.batch),
    }
}

/// The topic a push goes to.
pub fn push_topic(params: &PushParams) -> (r: String)
    ensures
        r@ == (match params.topic {
            Some(s) => s@,
            None => "default"@,
        }),
{
    name_or_default(&params.topic)
}

/// The answer to a pull.
pub enum PullOutcome {
    /// The topic does not exist (HTTP 404).
    NotFound,
    /// The messages read: how many, and the framed response body.
    Delivered { count: u64, body: Bytes },
}

/// Answers a pull from what the topic's log gave: nothing when the topic
/// does not exist, otherwise the messages framed one after the other.
pub fn pull_outcome(read: Option<Vec<Bytes>>) -> (r: PullOutcome)
    ensures
        match read {
            None => r is NotFound,
            Some(messages) => r matches PullOutcome::Delivered { count, body } && count == messages@.len()
                && bytes_contents(body) == encode_all(contents_of_all(messages@)),
        },
{
    match read {
        None => PullOutcome::NotFound,
        Some(messages) => {
            let count = messages.len() as u64;
            PullOutcome::Delivered { count, body: encode_messages(messages) }
        },
    }
}

/// The HTTP status and body answering an offset commit: 202 with a
/// confirmation, or 500 with the write error's text.
pub fn commit_offset_response(result: Result<(), AppError>) -> (r: (u16, String))
    ensures
        match result {
            Ok(()) => r.0 == 202 && r.1@ == "Offset successfully committed"@,
            Err(AppError::WriteError(msg)) => r.0 == 500 && r.1 == msg,
        },
{
    match result {
        Ok(()) => (202, "Offset successfully committed".to_string()),
        Err(AppError::WriteError(msg)) => (500, msg),
    }
}

} // verus!
