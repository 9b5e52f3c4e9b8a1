//! Per-consumer read positions over one topic log.
//!
//! A topic log is an append-only stream of frames (see `framing`). Each
//! consumer id has a byte position in it, starting at 0; a read delivers the
//! next whole frames from that position and moves the position past them.

use crate::buffers::contents_of_all;
use crate::framing::{all_fit_u32, encode_all, frames, lemma_encode_concat, lemma_frames_of_encode_all, lemma_frames_of_encoded, lemma_fit_subrange, lemma_frames_reencode, read_frames};
use bytes::Bytes;
use dashmap::DashMap;
use vstd::prelude::*;

verus! {

#[verifier::external_type_specification]
#[verifier::external_body]
#[verifier::reject_recursive_types(K)]
#[verifier::reject_recursive_types(V)]
#[verifier::reject_recursive_types(S)]
pub struct ExDashMap<K, V, S>(dashmap::DashMap<K, V, S>);

/// The consumer positions that a `DashMap` from consumer id to position holds.
pub uninterp spec fn position_map(m: DashMap<String, usize>) -> Map<Seq<char>, usize>;

/// `DashMap::new`. Claimed: the new map is empty.
#[verifier::external_body]
fn new_position_map() -> (m: DashMap<String, usize>)
    ensures
        position_map(m) =~= Map::empty(),
{
    DashMap::new()
}

/// `DashMap::get`, copying the value out of the returned guard. Claimed: the
/// value stored under a key equal (as a string) to `key`, if there is one.
#[verifier::external_body]
fn lookup_position(m: &DashMap<String, usize>, key: &str) -> (r: Option<usize>)
    ensures
        r == (if position_map(*m).dom().contains(key@) {
            Some(position_map(*m)[key@])
        } else {
            None
        }),
{
    match m.get(key) {
        Some(guard) => Some(*guard),
        None => None,
    }
}

/// `DashMap::insert`, through an exclusive borrow. Claimed: afterwards the
/// map holds `value` under `key`, and is otherwise unchanged.
#[verifier::external_body]
fn store_position(m: &mut DashMap<String, usize>, key: String, value: usize)
    ensures
        position_map(*final(m)) == position_map(*old(m)).insert(key@, value),
{
    m.insert(key, value);
}

/// The position a consumer reads from: where it stopped, or the start of the
/// log for a consumer not seen before.
pub open spec fn position_of(positions: Map<Seq<char>, usize>, consumer: Seq<char>) -> int {
    if positions.dom().contains(consumer) {
        positions[consumer] as int
    } else {
        0
    }
}

/// The number of messages a read of at most `max` messages delivers from
/// `unread`.
pub open spec fn batch_len(unread: Seq<u8>, max: nat) -> int {
    let all = frames(unread);
    if max < all.len() {
        max as int
    } else {
        all.len() as int
    }
}

/// The messages a read of at most `max` messages delivers from `unread`.
pub open spec fn batch_of(unread: Seq<u8>, max: nat) -> Seq<Seq<u8>> {
    frames(unread).take(batch_len(unread, max))
}

/// The read positions of the consumers of one topic log.
pub struct ConsumerOffsets {
    offsets: DashMap<String, usize>,
}

impl View for ConsumerOffsets {
    type V = Map<Seq<char>, usize>;

    closed spec fn view(&self) -> Map<Seq<char>, usize> {
        position_map(self.offsets)
    }
}

impl ConsumerOffsets {
    /// No consumer has read anything yet.
    pub fn new() -> (r: ConsumerOffsets)
        ensures
            r@ == Map::<Seq<char>, usize>::empty(),
    {
        ConsumerOffsets { offsets: new_position_map() }
    }

    /// The position `consumer_id` reads from next. A consumer seen for the
    /// first time is registered at position 0.
    pub fn position(&mut self, consumer_id: &str) -> (pos: usize)
        ensures
            pos == position_of(old(self)@, consumer_id@),
            final(self)@ == old(self)@.insert(consumer_id@, pos),
    {
        match lookup_position(&self.offsets, consumer_id) {
            Some(pos) => {
                assert(old(self)@.insert(consumer_id@, pos) =~= old(self)@);
                pos
            },
            None => {
                store_position(&mut self.offsets, consumer_id.to_string(), 0);
                0
            },
        }
    }

    /// Reads the next batch for `consumer_id`: `unread` holds the log bytes
    /// from the consumer's position on. At most `max_messages` whole frames
    /// are delivered, and the consumer's position moves past exactly those.
    pub fn read_batch(&mut self, consumer_id: &str, unread: &[u8], max_messages: usize) -> (messages: Vec<Bytes>)
        requires
            position_of(old(self)@, consumer_id@) + unread@.len() <= usize::MAX,
        ensures
            contents_of_all(messages@) == batch_of(unread@, max_messages as nat),
            final(self)@ == old(self)@.insert(
                consumer_id@,
                (position_of(old(self)@, consumer_id@) + encode_all(batch_of(unread@, max_messages as nat)).len()) as usize,
            ),
    {
        let pos = self.position(consumer_id);
        let (messages, consumed) = read_frames(unread, max_messages);
        proof {
            lemma_frames_reencode(unread@);
            assert(unread@.take(consumed as int).len() == consumed);
        }
        store_position(&mut self.offsets, consumer_id.to_string(), pos + consumed);
        assert(final(self)@ =~= old(self)@.insert(
            consumer_id@,
            (position_of(old(self)@, consumer_id@) + encode_all(batch_of(unread@, max_messages as nat)).len()) as usize,
        ));
        messages
    }
}

/// Reading a log in batches delivers every message once, in order: when the
/// bytes before a consumer's position are the frames of the first `j`
/// messages of the log, the bytes from that position on hold exactly the
/// messages after those `j`, and after a batch the position again stands
/// just past the messages delivered so far.
pub proof fn lemma_batches_continue(data: Seq<u8>, pos: int, j: int, max: nat)
    requires
        0 <= pos <= data.len(),
        0 <= j <= frames(data).len(),
        data.take(pos) == encode_all(frames(data).take(j)),
    ensures
        frames(data.skip(pos)) == frames(data).skip(j),
        batch_of(data.skip(pos), max) == frames(data).subrange(j, j + batch_len(data.skip(pos), max)),
        data.take(pos + encode_all(batch_of(data.skip(pos), max)).len()) == encode_all(
            frames(data).take(j + batch_len(data.skip(pos), max)),
        ),
{
    let all = frames(data);
    lemma_frames_reencode(data);
    let done = all.take(j);
    lemma_fit_subrange(all, 0, j);
    assert(data =~= data.take(pos) + data.skip(pos));
    lemma_frames_of_encoded(done, data.skip(pos));
    assert(all =~= done + frames(data.skip(pos)));
    assert(frames(data.skip(pos)) =~= all.skip(j));
    let k = batch_len(data.skip(pos), max);
    let got = batch_of(data.skip(pos), max);
    assert(got =~= all.subrange(j, j + k));
    assert(all.take(j + k) =~= done + got);
    lemma_encode_concat(done, got);
    let rest = data.skip(pos);
    lemma_frames_reencode(rest);
    let fr = frames(rest);
    assert(fr.take(k) == got);
    assert(encode_all(fr) =~= encode_all(got) + encode_all(fr.skip(k))) by {
        assert(fr =~= got + fr.skip(k));
        lemma_encode_concat(got, fr.skip(k));
    }
    assert(rest.take(encode_all(got).len() as int) =~= encode_all(got)) by {
        assert(rest.take(encode_all(fr).len() as int) == encode_all(fr));
        assert(rest.take(encode_all(got).len() as int) =~= rest.take(encode_all(fr).len() as int).take(encode_all(got).len() as int));
    }
    assert(data.take(pos + encode_all(got).len()) =~= data.take(pos) + rest.take(encode_all(got).len() as int));
}

/// What a read gives back of a push: after the frames of `pushed` are
/// appended to a log that holds the frames of `logged`, a consumer that has
/// received the first `j` logged messages receives next the remaining logged
/// messages and then the pushed ones, in order.
pub proof fn lemma_read_after_append(logged: Seq<Seq<u8>>, pushed: Seq<Seq<u8>>, j: int)
    requires
        all_fit_u32(logged),
        all_fit_u32(pushed),
        0 <= j <= logged.len(),
    ensures
        ({
            let data = encode_all(logged) + encode_all(pushed);
            let pos = encode_all(logged.take(j)).len() as int;
            frames(data.skip(pos)) == logged.skip(j) + pushed
        }),
{
    let data = encode_all(logged) + encode_all(pushed);
    let pos = encode_all(logged.take(j)).len() as int;
    assert(logged =~= logged.take(j) + logged.skip(j));
    lemma_encode_concat(logged.take(j), logged.skip(j));
    lemma_fit_subrange(logged, j, logged.len() as int);
    assert(data.skip(pos) =~= encode_all(logged.skip(j)) + encode_all(pushed));
    lemma_frames_of_encoded(logged.skip(j), encode_all(pushed));
    lemma_frames_of_encoded(pushed, Seq::empty());
    assert(encode_all(pushed) + Seq::<u8>::empty() =~= encode_all(pushed));
    assert(frames(Seq::<u8>::empty()) =~= Seq::<Seq<u8>>::empty());
    assert(pushed + Seq::<Seq<u8>>::empty() =~= pushed);
}

/// Consumers read independently: moving one consumer's position leaves the
/// position of every other consumer where it was.
pub proof fn lemma_consumers_independent(positions: Map<Seq<char>, usize>, moved: Seq<char>, to: usize, other: Seq<char>)
    requires
        moved != other,
    ensures
        position_of(positions.insert(moved, to), other) == position_of(positions, other),
        position_of(positions.insert(moved, to), moved) == to,
{
}

/// A client decodes a pull response back to exactly the messages that were
/// read: the framing of a batch read from a log gives that batch again.
pub proof fn lemma_pull_response_decodes(unread: Seq<u8>, max: nat)
    ensures
        frames(encode_all(batch_of(unread, max))) == batch_of(unread, max),
{
    lemma_frames_reencode(unread);
    let all = frames(unread);
    let got = batch_of(unread, max);
    lemma_fit_subrange(all, 0, batch_len(unread, max));
    lemma_frames_of_encode_all(got);
}

/// Reading in two batches gives what one read of the combined size gives:
/// a read of `a` messages followed, from where it stopped, by a read of `b`
/// delivers the same messages, in the same order, as a read of `a + b`, and
/// leaves the consumer at the same position. No message is skipped or
/// delivered twice.
pub proof fn lemma_split_read(unread: Seq<u8>, a: nat, b: nat)
    ensures
        ({
            let first = batch_of(unread, a);
            let p = encode_all(first).len() as int;
            let second = batch_of(unread.skip(p), b);
            &&& first + second == batch_of(unread, a + b)
            &&& p + encode_all(second).len() == encode_all(batch_of(unread, a + b)).len()
        }),
{
    let all = frames(unread);
    assert(unread.skip(0) =~= unread);
    assert(unread.take(0) =~= Seq::<u8>::empty());
    assert(all.take(0) =~= Seq::<Seq<u8>>::empty());
    lemma_batches_continue(unread, 0, 0, a);
    let first = batch_of(unread, a);
    let ka = batch_len(unread, a);
    let p = encode_all(first).len() as int;
    assert(unread.take(p) == encode_all(all.take(ka)));
    assert(first == all.take(ka));
    lemma_frames_reencode(unread);
    lemma_encode_concat(all.take(ka), all.skip(ka));
    assert(all =~= all.take(ka) + all.skip(ka));
    assert(p <= unread.len());
    lemma_batches_continue(unread, p, ka, b);
    let kb = batch_len(unread.skip(p), b);
    let second = batch_of(unread.skip(p), b);
    assert(frames(unread.skip(p)) == all.skip(ka));
    assert(second == all.subrange(ka, ka + kb));
    assert(ka + kb == batch_len(unread, a + b));
    assert(first + second =~= batch_of(unread, a + b));
    let whole = encode_all(batch_of(unread, a + b));
    assert(unread.take(p + encode_all(second).len()) == whole);
    lemma_batches_continue(unread, 0, 0, a + b);
    assert(unread.take(whole.len() as int) == whole);
    lemma_frames_reencode(unread.skip(p));
    let fr = frames(unread.skip(p));
    assert(fr =~= second + fr.skip(kb));
    lemma_encode_concat(second, fr.skip(kb));
    assert(p + encode_all(second).len() <= unread.len());
}

} // verus!
