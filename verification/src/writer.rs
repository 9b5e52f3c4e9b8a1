//! The decisions of the background log writers.
//!
//! A writer gathers commands into a batch (at most `max_batch_commands` of
//! them), writes the batch as one block of bytes, counts the bytes written
//! since the last flush, and flushes when that count or the time since the
//! last flush reaches its limit. The waiting, writing and flushing happen
//! outside; the functions here decide what is written and when to flush.

use crate::buffers::{bytes_as_slice, bytes_mut_as_slice, bytes_mut_contents, contents_of_all};
use crate::config::WriterConfig;
use crate::enums::{Command, OffsetCommand, WriterState};
use crossbeam::channel::Sender;
use bytes::Bytes;
use crate::framing::{encode_all, lemma_encode_concat, lemma_encode_push, push_frame};
use vstd::prelude::*;

verus! {

#[verifier::external_type_specification]
#[verifier::external_body]
#[verifier::reject_recursive_types(T)]
pub struct ExSender<T>(crossbeam::channel::Sender<T>);

/// `Sender::send` on the channel to a topic log's writer. It fails exactly
/// when the writer's receiver is gone, which this library cannot know, so
/// nothing is claimed of the outcome. On the unbounded channels the writers
/// use it never waits (on a full bounded channel it would wait for room).
#[verifier::external_body]
fn send_command(sender: &Sender<Command>, command: Command) -> (sent: bool) {
    sender.send(command).is_ok()
}

/// `Sender::send` on the channel to the offset writer. It fails exactly
/// when the writer's receiver is gone, which this library cannot know, so
/// nothing is claimed of the outcome. On the unbounded channel the writer
/// uses it never waits (on a full bounded channel it would wait for room).
#[verifier::external_body]
pub fn send_offset_command(sender: &Sender<OffsetCommand>, command: OffsetCommand) -> (sent: bool) {
    sender.send(command).is_ok()
}

/// The command that appends `messages`, in order, to a topic log.
pub fn append_command(messages: Vec<Bytes>) -> (c: Command)
    ensures
        c == Command::Append(messages),
        command_messages(c) == contents_of_all(messages@),
{
    Command::Append(messages)
}

/// Hands a batch of messages to a topic log's writer, as the command built
/// by `append_command`. Returns the number of messages handed over, or
/// `None` when the writer is gone.
pub fn append_batch(sender: &Sender<Command>, messages: Vec<Bytes>) -> (accepted: Option<usize>)
    ensures
        accepted matches Some(n) ==> n == messages@.len(),
{
    let len = messages.len();
    let command = append_command(messages);
    if send_command(sender, command) {
        Some(len)
    } else {
        None
    }
}

/// The messages that a topic log command appends.
pub open spec fn command_messages(c: Command) -> Seq<Seq<u8>> {
    match c {
        Command::Append(messages) => contents_of_all(messages@),
    }
}

/// The messages that a batch of commands appends, in order.
pub open spec fn batch_messages(commands: Seq<Command>) -> Seq<Seq<u8>>
    decreases commands.len(),
{
    if commands.len() == 0 {
        Seq::empty()
    } else {
        batch_messages(commands.drop_last()) + command_messages(commands.last())
    }
}

/// The bytes that a batch of offset commands appends, in order.
pub open spec fn offset_batch_bytes(commands: Seq<OffsetCommand>) -> Seq<u8>
    decreases commands.len(),
{
    if commands.len() == 0 {
        Seq::empty()
    } else {
        offset_batch_bytes(commands.drop_last()) + match commands.last() {
            OffsetCommand::Append(record) => bytes_mut_contents(record),
        }
    }
}

/// Whether a batch that holds `buffered` commands may take one more.
pub fn batch_has_room(buffered: usize, config: &WriterConfig) -> (room: bool)
    ensures
        room == (buffered < config.max_batch_commands),
{
    buffered < config.max_batch_commands
}

/// The bytes written for a batch of topic log commands: every message of
/// every command, framed, in order.
pub fn encode_commands(commands: Vec<Command>) -> (batch: Vec<u8>)
    ensures
        batch@ == encode_all(batch_messages(commands@)),
{
    let mut batch: Vec<u8> = Vec::new();
    let mut i: usize = 0;
    assert(commands@.take(0) =~= Seq::<Command>::empty());
    while i < commands.len()
        invariant
            i <= commands@.len(),
            batch@ == encode_all(batch_messages(commands@.take(i as int))),
        decreases commands@.len() - i,
    {
        let ghost done = batch@;
        match &commands[i] {
            Command::Append(messages) => {
                let mut j: usize = 0;
                assert(contents_of_all(messages@).take(0) =~= Seq::<Seq<u8>>::empty());
                assert(done + encode_all(Seq::<Seq<u8>>::empty()) =~= done);
                while j < messages.len()
                    invariant
                        j <= messages@.len(),
                        batch@ == done + encode_all(contents_of_all(messages@).take(j as int)),
                    decreases messages@.len() - j,
                {
                    let msg = bytes_as_slice(&messages[j]);
                    push_frame(&mut batch, msg);
                    proof {
                        let all = contents_of_all(messages@);
                        assert(all.take(j + 1) =~= all.take(j as int).push(all[j as int]));
                        lemma_encode_push(all.take(j as int), all[j as int]);
                    }
                    j += 1;
                }
                proof {
                    let cmds = commands@.take(i + 1);
                    assert(cmds.drop_last() =~= commands@.take(i as int));
                    assert(contents_of_all(messages@).take(j as int) =~= contents_of_all(messages@));
                    assert(command_messages(cmds.last()) == contents_of_all(messages@));
                    lemma_encode_concat(batch_messages(commands@.take(i as int)), contents_of_all(messages@));
                }
            },
        }
        i += 1;
    }
    assert(commands@.take(i as int) =~= commands@);
    batch
}

/// The bytes written for a batch of offset commands: the records, in order.
pub fn encode_offset_commands(commands: Vec<OffsetCommand>) -> (batch: Vec<u8>)
    ensures
        batch@ == offset_batch_bytes(commands@),
{
    let mut batch: Vec<u8> = Vec::new();
    let mut i: usize = 0;
    assert(commands@.take(0) =~= Seq::<OffsetCommand>::empty());
    while i < commands.len()
        invariant
            i <= commands@.len(),
            batch@ == offset_batch_bytes(commands@.take(i as int)),
        decreases commands@.len() - i,
    {
        match &commands[i] {
            OffsetCommand::Append(record) => {
                batch.extend_from_slice(bytes_mut_as_slice(record));
            },
        }
        assert(commands@.take(i + 1).drop_last() =~= commands@.take(i as int));
        i += 1;
    }
    assert(commands@.take(i as int) =~= commands@);
    batch
}

/// What the offset writer does after a write or a flush: go on when it
/// succeeded (`None`); after a failure, stop in the state that keeps the
/// failure's text.
pub fn failure_state(outcome: Result<(), String>) -> (next: Option<WriterState>)
    ensures
        match outcome {
            Ok(()) => next is None,
            Err(text) => next == Some(WriterState::Failure(text)),
        },
{
    match outcome {
        Ok(()) => None,
        Err(text) => Some(WriterState::Failure(text)),
    }
}

/// Accounts for a write of `written` bytes made `elapsed_ms` milliseconds
/// after the last flush, when `bytes_since_flush` bytes had been written
/// since it. Returns whether to flush now, and the count of bytes written
/// since the last flush afterwards.
pub fn account_write(config: &WriterConfig, bytes_since_flush: usize, written: usize, elapsed_ms: u64) -> (r: (bool, usize))
    requires
        bytes_since_flush + written <= usize::MAX,
    ensures
        r.0 == (bytes_since_flush + written >= config.flush_bytes || elapsed_ms >= config.flush_interval_ms),
        r.1 == (if r.0 { 0 } else { bytes_since_flush + written }),
{
    let total = bytes_since_flush + written;
    if total >= config.flush_bytes || elapsed_ms >= config.flush_interval_ms {
        (true, 0)
    } else {
        (false, total)
    }
}

/// How long an idle writer waits for the next command before flushing what
/// it wrote since the last flush: with nothing unflushed, without limit
/// (`None`); otherwise until the flush interval since the last flush has
/// passed (`Some(0)` once it has). Written bytes thus reach the file within
/// the flush interval even when no further command comes.
pub fn idle_wait_ms(config: &WriterConfig, bytes_since_flush: usize, elapsed_ms: u64) -> (wait: Option<u64>)
    ensures
        bytes_since_flush == 0 ==> wait is None,
        bytes_since_flush > 0 ==> wait == Some(
            if elapsed_ms < config.flush_interval_ms {
                (config.flush_interval_ms - elapsed_ms) as u64
            } else {
                0u64
            },
        ),
{
    if bytes_since_flush == 0 {
        None
    } else if elapsed_ms < config.flush_interval_ms {
        Some(config.flush_interval_ms - elapsed_ms)
    } else {
        Some(0)
    }
}

/// The limits of the consumer offset writer: batches of at most 65536
/// commands, flushed every 33554432 bytes (32 MiB) or every 500 ms.
pub fn offset_writer_config() -> (c: WriterConfig)
    ensures
        c.max_batch_commands == 65536,
        c.flush_bytes == 33554432,
        c.flush_interval_ms == 500,
{
    WriterConfig { max_batch_commands: 65536, flush_bytes: 33554432, flush_interval_ms: 500 }
}

/// How commands are grouped into batches does not change what is written:
/// writing the commands `a` and then `b` appends the same bytes as writing
/// `a + b` in one batch.
pub proof fn lemma_batches_concat(a: Seq<Command>, b: Seq<Command>)
    ensures
        batch_messages(a + b) == batch_messages(a) + batch_messages(b),
        encode_all(batch_messages(a + b)) == encode_all(batch_messages(a)) + encode_all(batch_messages(b)),
    decreases b.len(),
{
    if b.len() == 0 {
        assert(a + b =~= a);
        assert(batch_messages(b) =~= Seq::<Seq<u8>>::empty());
        assert(batch_messages(a) + batch_messages(b) =~= batch_messages(a));
    } else {
        assert((a + b).drop_last() =~= a + b.drop_last());
        assert((a + b).last() == b.last());
        lemma_batches_concat(a, b.drop_last());
        assert(batch_messages(a + b) =~= batch_messages(a) + batch_messages(b));
    }
    lemma_encode_concat(batch_messages(a), batch_messages(b));
}

/// How offset commands are grouped into batches does not change what is
/// written: writing the commands `a` and then `b` appends the same bytes as
/// writing `a + b` in one batch.
pub proof fn lemma_offset_batches_concat(a: Seq<OffsetCommand>, b: Seq<OffsetCommand>)
    ensures
        offset_batch_bytes(a + b) == offset_batch_bytes(a) + offset_batch_bytes(b),
    decreases b.len(),
{
    if b.len() == 0 {
        assert(a + b =~= a);
        assert(offset_batch_bytes(b) =~= Seq::<u8>::empty());
        assert(offset_batch_bytes(a) + offset_batch_bytes(b) =~= offset_batch_bytes(a));
    } else {
        assert((a + b).drop_last() =~= a + b.drop_last());
        assert((a + b).last() == b.last());
        lemma_offset_batches_concat(a, b.drop_last());
        assert(offset_batch_bytes(a + b) =~= offset_batch_bytes(a) + offset_batch_bytes(b));
    }
}

} // verus!
