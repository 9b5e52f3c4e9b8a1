//! Commands handed to the log writers, and the library's error and writer
//! health states.

use bytes::{Bytes, BytesMut};
use vstd::prelude::*;

verus! {

/// A command for a topic log's writer.
pub enum Command {
    /// Append these messages, in order, to the log.
    Append(Vec<Bytes>),
}

/// A command for the consumer offset writer.
pub enum OffsetCommand {
    /// Append this encoded offset record to the offset log.
    Append(BytesMut),
}

/// An error that a request can meet.
#[derive(Clone)]
pub enum AppError {
    /// Writing to storage failed; the text says why.
    WriteError(String),
}

/// The health of a background writer: healthy, or stopped after a failure
/// whose text is kept.
pub enum WriterState {
    Healthy,
    Failure(String),
}

} // verus!
