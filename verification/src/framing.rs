//! Message framing: each message travels as a big-endian `u32` length
//! followed by the message bytes. Push bodies, pull responses and the topic
//! log files all use this format.

use crate::buffers::{bytes_as_slice, bytes_contents, bytes_from_vec, bytes_slice, contents_of_all};
use bytes::Bytes;
use vstd::arithmetic::div_mod::{lemma_fundamental_div_mod, lemma_fundamental_div_mod_converse};
use vstd::prelude::*;

verus! {

/// The number that four big-endian bytes stand for.
pub open spec fn be_u32_value(b: Seq<u8>) -> int {
    b[0] * 0x1000000int + b[1] * 0x10000int + b[2] * 0x100int + b[3] as int
}

/// The four big-endian bytes of a number below `2^32`.
pub open spec fn be_u32_bytes(v: int) -> Seq<u8> {
    seq![
        (v / 0x1000000int) as u8,
        ((v / 0x10000int) % 0x100int) as u8,
        ((v / 0x100int) % 0x100int) as u8,
        (v % 0x100int) as u8,
    ]
}

/// The length prefix written before a message of `len` bytes: the length
/// taken as a `u32` (modulo `2^32`), big-endian.
pub open spec fn length_prefix(len: nat) -> Seq<u8> {
    be_u32_bytes(len as int % 0x1_0000_0000int)
}

/// One message as it travels: its length prefix, then its bytes.
pub open spec fn frame(msg: Seq<u8>) -> Seq<u8> {
    length_prefix(msg.len()) + msg
}

/// A sequence of messages, each framed, one after the other.
pub open spec fn encode_all(msgs: Seq<Seq<u8>>) -> Seq<u8>
    decreases msgs.len(),
{
    if msgs.len() == 0 {
        Seq::empty()
    } else {
        frame(msgs[0]) + encode_all(msgs.drop_first())
    }
}

/// The messages that a byte stream holds, read from its start: frames are
/// taken while a whole length prefix and a whole message are there; reading
/// stops at the first frame that is cut short.
pub open spec fn frames(data: Seq<u8>) -> Seq<Seq<u8>>
    decreases data.len(),
{
    if data.len() < 4 {
        Seq::empty()
    } else {
        let n = be_u32_value(data.take(4));
        if data.len() < 4 + n {
            Seq::empty()
        } else {
            seq![data.subrange(4, 4 + n)] + frames(data.skip(4 + n))
        }
    }
}

/// Every message is short enough for its length to fit in a `u32`.
pub open spec fn all_fit_u32(msgs: Seq<Seq<u8>>) -> bool {
    forall|i: int| 0 <= i < msgs.len() ==> #[trigger] msgs[i].len() < 0x1_0000_0000int
}

pub proof fn lemma_be_value_of_bytes(v: int)
    requires
        0 <= v < 0x1_0000_0000int,
    ensures
        be_u32_bytes(v).len() == 4,
        be_u32_value(be_u32_bytes(v)) == v,
{
    let q1 = v / 0x100;
    let r0 = v % 0x100;
    lemma_fundamental_div_mod(v, 0x100);
    let q2 = q1 / 0x100;
    let r1 = q1 % 0x100;
    lemma_fundamental_div_mod(q1, 0x100);
    let q3 = q2 / 0x100;
    let r2 = q2 % 0x100;
    lemma_fundamental_div_mod(q2, 0x100);
    lemma_fundamental_div_mod_converse(v, 0x10000, q2, r1 * 0x100 + r0);
    lemma_fundamental_div_mod_converse(v, 0x1000000, q3, r2 * 0x10000 + r1 * 0x100 + r0);
    assert(0 <= q3 < 0x100);
    let b = be_u32_bytes(v);
    assert(b[0] == q3);
    assert(b[1] == r2);
    assert(b[2] == r1);
    assert(b[3] == r0);
}

pub proof fn lemma_bytes_of_be_value(s: Seq<u8>)
    requires
        s.len() == 4,
    ensures
        0 <= be_u32_value(s) < 0x1_0000_0000int,
        be_u32_bytes(be_u32_value(s)) == s,
{
    let (b0, b1, b2, b3) = (s[0] as int, s[1] as int, s[2] as int, s[3] as int);
    let v = be_u32_value(s);
    lemma_fundamental_div_mod_converse(v, 0x1000000, b0, b1 * 0x10000 + b2 * 0x100 + b3);
    lemma_fundamental_div_mod_converse(v, 0x10000, b0 * 0x100 + b1, b2 * 0x100 + b3);
    lemma_fundamental_div_mod_converse(b0 * 0x100 + b1, 0x100, b0, b1);
    lemma_fundamental_div_mod_converse(v, 0x100, b0 * 0x10000 + b1 * 0x100 + b2, b3);
    lemma_fundamental_div_mod_converse(b0 * 0x10000 + b1 * 0x100 + b2, 0x100, b0 * 0x100 + b1, b2);
    assert(be_u32_bytes(v) =~= s);
}

/// Reads the big-endian `u32` at `data[at..at + 4]`.
pub fn read_be_u32(data: &[u8], at: usize) -> (v: u32)
    requires
        at + 4 <= data@.len(),
    ensures
        v as int == be_u32_value(data@.subrange(at as int, at + 4)),
{
    let v = (data[at] as u32) * 0x1000000u32 + (data[at + 1] as u32) * 0x10000u32
        + (data[at + 2] as u32) * 0x100u32 + data[at + 3] as u32;
    v
}

/// Splits a push body into its messages. Reading stops at the first frame
/// that is cut short; what follows it is dropped.
pub fn parse_messages(body: Bytes) -> (messages: Vec<Bytes>)
    ensures
        contents_of_all(messages@) == frames(bytes_contents(body)),
{
    let data = bytes_as_slice(&body);
    let ghost all = data@;
    let mut messages: Vec<Bytes> = Vec::new();
    let mut offset: usize = 0;
    assert(all.skip(0) =~= all);
    assert(contents_of_all(messages@) + frames(all) =~= frames(all));
    loop
        invariant
            data@ == all,
            all == bytes_contents(body),
            offset <= data@.len(),
            contents_of_all(messages@) + frames(all.skip(offset as int)) == frames(all),
        ensures
            contents_of_all(messages@) == frames(all),
        decreases data@.len() - offset,
    {
        let ghost rest = all.skip(offset as int);
        if data.len() - offset < 4 {
            assert(frames(rest) =~= Seq::<Seq<u8>>::empty());
            assert(contents_of_all(messages@) + frames(rest) =~= contents_of_all(messages@));
            break;
        }
        let len = read_be_u32(data, offset) as usize;
        assert(rest.take(4) =~= all.subrange(offset as int, offset + 4));
        if len > data.len() - offset - 4 {
            assert(frames(rest) =~= Seq::<Seq<u8>>::empty());
            assert(contents_of_all(messages@) + frames(rest) =~= contents_of_all(messages@));
            break;
        }
        let start = offset + 4;
        let msg = bytes_slice(&body, start, start + len);
        let ghost before = messages@;
        messages.push(msg);
        offset = start + len;
        assert(rest.subrange(4, 4 + len) =~= all.subrange(start as int, start + len));
        assert(rest.skip(4 + len) =~= all.skip(offset as int));
        assert(contents_of_all(messages@) =~= contents_of_all(before).push(bytes_contents(msg)));
        assert(contents_of_all(messages@) + frames(all.skip(offset as int)) =~= contents_of_all(before)
            + frames(rest));
    }
    messages
}

/// A run of messages taken from messages that fit in a `u32` fits too.
pub proof fn lemma_fit_subrange(msgs: Seq<Seq<u8>>, lo: int, hi: int)
    requires
        all_fit_u32(msgs),
        0 <= lo <= hi <= msgs.len(),
    ensures
        all_fit_u32(msgs.subrange(lo, hi)),
{
    assert forall|i: int| 0 <= i < hi - lo implies #[trigger] msgs.subrange(lo, hi)[i].len() < 0x1_0000_0000int by {
        assert(msgs.subrange(lo, hi)[i] == msgs[i + lo]);
    }
}

/// Framing the messages of `msgs` and then `m` gives the frames of `msgs`
/// followed by the frame of `m`.
pub proof fn lemma_encode_push(msgs: Seq<Seq<u8>>, m: Seq<u8>)
    ensures
        encode_all(msgs.push(m)) == encode_all(msgs) + frame(m),
    decreases msgs.len(),
{
    if msgs.len() == 0 {
        assert(msgs.push(m).drop_first() =~= Seq::<Seq<u8>>::empty());
        assert(encode_all(Seq::<Seq<u8>>::empty()) =~= Seq::<u8>::empty());
        assert(encode_all(msgs) =~= Seq::<u8>::empty());
        assert(encode_all(msgs.push(m)) =~= frame(m));
    } else {
        assert(msgs.push(m).drop_first() =~= msgs.drop_first().push(m));
        lemma_encode_push(msgs.drop_first(), m);
        assert(encode_all(msgs.push(m)) =~= encode_all(msgs) + frame(m));
    }
}

/// Framing is compositional: the encoding of two batches one after the other
/// is the encoding of the first followed by the encoding of the second.
pub proof fn lemma_encode_concat(a: Seq<Seq<u8>>, b: Seq<Seq<u8>>)
    ensures
        encode_all(a + b) == encode_all(a) + encode_all(b),
    decreases a.len(),
{
    if a.len() == 0 {
        assert(a + b =~= b);
        assert(encode_all(a) + encode_all(b) =~= encode_all(b));
    } else {
        assert((a + b).drop_first() =~= a.drop_first() + b);
        lemma_encode_concat(a.drop_first(), b);
        assert(encode_all(a + b) =~= encode_all(a) + encode_all(b));
    }
}

/// Reading back framed messages gives the messages, in order, followed by
/// whatever the bytes after them hold.
pub proof fn lemma_frames_of_encoded(msgs: Seq<Seq<u8>>, rest: Seq<u8>)
    requires
        all_fit_u32(msgs),
    ensures
        frames(encode_all(msgs) + rest) == msgs + frames(rest),
    decreases msgs.len(),
{
    if msgs.len() == 0 {
        assert(encode_all(msgs) + rest =~= rest);
        assert(msgs + frames(rest) =~= frames(rest));
    } else {
        let m = msgs[0];
        let tail = msgs.drop_first();
        lemma_fit_subrange(msgs, 1, msgs.len() as int);
        assert(tail =~= msgs.subrange(1, msgs.len() as int));
        lemma_frames_of_encoded(tail, rest);
        assert(m.len() < 0x1_0000_0000int);
        assert(m.len() as int % 0x1_0000_0000int == m.len());
        lemma_be_value_of_bytes(m.len() as int);
        let d = encode_all(msgs) + rest;
        assert(d =~= length_prefix(m.len()) + (m + (encode_all(tail) + rest)));
        assert(d.take(4) =~= length_prefix(m.len()));
        assert(d.subrange(4, 4 + m.len() as int) =~= m);
        assert(d.skip(4 + m.len() as int) =~= encode_all(tail) + rest);
        assert(msgs =~= seq![m] + tail);
        assert(frames(d) =~= seq![m] + (tail + frames(rest)));
        assert(msgs + frames(rest) =~= seq![m] + (tail + frames(rest)));
    }
}

/// Reading back framed messages gives exactly the messages.
pub proof fn lemma_frames_of_encode_all(msgs: Seq<Seq<u8>>)
    requires
        all_fit_u32(msgs),
    ensures
        frames(encode_all(msgs)) == msgs,
{
    lemma_frames_of_encoded(msgs, Seq::empty());
    assert(encode_all(msgs) + Seq::<u8>::empty() =~= encode_all(msgs));
    assert(frames(Seq::<u8>::empty()) =~= Seq::<Seq<u8>>::empty());
    assert(msgs + Seq::<Seq<u8>>::empty() =~= msgs);
}

/// The messages read out of a byte stream are well framed, and framing them
/// again gives back the start of the stream: reading invents no bytes.
pub proof fn lemma_frames_reencode(data: Seq<u8>)
    ensures
        all_fit_u32(frames(data)),
        encode_all(frames(data)).len() <= data.len(),
        data.take(encode_all(frames(data)).len() as int) == encode_all(frames(data)),
    decreases data.len(),
{
    if data.len() < 4 {
        assert(encode_all(frames(data)) =~= Seq::<u8>::empty());
        assert(data.take(0) =~= Seq::<u8>::empty());
    } else {
        let n = be_u32_value(data.take(4));
        if data.len() < 4 + n {
            assert(encode_all(frames(data)) =~= Seq::<u8>::empty());
            assert(data.take(0) =~= Seq::<u8>::empty());
        } else {
            let m = data.subrange(4, 4 + n);
            let rest = data.skip(4 + n);
            lemma_frames_reencode(rest);
            lemma_bytes_of_be_value(data.take(4));
            let fs = frames(data);
            assert(fs =~= seq![m] + frames(rest));
            assert(fs[0] == m);
            assert(fs.drop_first() =~= frames(rest));
            assert(m.len() == n);
            assert(n % 0x1_0000_0000int == n);
            assert(length_prefix(m.len()) =~= data.take(4));
            assert(all_fit_u32(fs)) by {
                assert forall|i: int| 0 <= i < fs.len() implies #[trigger] fs[i].len() < 0x1_0000_0000int by {
                    if i > 0 {
                        assert(fs[i] == frames(rest)[i - 1]);
                    }
                }
            }
            let e = encode_all(fs);
            assert(e =~= data.take(4) + m + encode_all(frames(rest)));
            assert(data.take(e.len() as int) =~= e);
        }
    }
}

/// One step of reading: when a whole frame starts at `offset`, the frames
/// from `offset` on are its message followed by the frames after it, and the
/// bytes up to its end are those before it followed by its frame.
pub proof fn lemma_frame_at(data: Seq<u8>, offset: int)
    requires
        0 <= offset,
        offset + 4 <= data.len(),
        offset + 4 + be_u32_value(data.subrange(offset, offset + 4)) <= data.len(),
    ensures
        ({
            let n = be_u32_value(data.subrange(offset, offset + 4));
            let m = data.subrange(offset + 4, offset + 4 + n);
            &&& m.len() == n
            &&& frames(data.skip(offset)) == seq![m] + frames(data.skip(offset + 4 + n))
            &&& data.take(offset + 4 + n) == data.take(offset) + frame(m)
        }),
{
    let n = be_u32_value(data.subrange(offset, offset + 4));
    let m = data.subrange(offset + 4, offset + 4 + n);
    let rest = data.skip(offset);
    assert(rest.take(4) =~= data.subrange(offset, offset + 4));
    assert(rest.subrange(4, 4 + n) =~= m);
    assert(rest.skip(4 + n) =~= data.skip(offset + 4 + n));
    lemma_bytes_of_be_value(data.subrange(offset, offset + 4));
    assert(n % 0x1_0000_0000int == n);
    assert(frame(m) =~= data.subrange(offset, offset + 4 + n));
    assert(data.take(offset + 4 + n) =~= data.take(offset) + frame(m));
}

/// Moving one item from the unread part of a sequence to the read part.
proof fn lemma_advance<A>(all: Seq<A>, k: int, m: A, after: Seq<A>)
    requires
        0 <= k <= all.len(),
        all.skip(k) == seq![m] + after,
    ensures
        k + 1 <= all.len(),
        all.take(k + 1) == all.take(k).push(m),
        all.skip(k + 1) == after,
{
    assert(all.skip(k).len() == all.len() - k);
    assert(all.skip(k)[0] == m);
    assert(all[k] == m);
    assert(all.take(k + 1) =~= all.take(k).push(m));
    assert(all.skip(k + 1) =~= all.skip(k).drop_first());
    assert((seq![m] + after).drop_first() =~= after);
}

/// Pushes the four big-endian bytes of `v`.
fn push_be_u32(buf: &mut Vec<u8>, v: u32)
    ensures
        final(buf)@ == old(buf)@ + be_u32_bytes(v as int),
{
    buf.push((v / 0x1000000) as u8);
    buf.push(((v / 0x10000) % 0x100) as u8);
    buf.push(((v / 0x100) % 0x100) as u8);
    buf.push((v % 0x100) as u8);
    assert(final(buf)@ =~= old(buf)@ + be_u32_bytes(v as int));
}

/// Appends the frame of `msg` (its length as a `u32`, big-endian, then its
/// bytes) to `buf`.
pub fn push_frame(buf: &mut Vec<u8>, msg: &[u8])
    ensures
        final(buf)@ == old(buf)@ + frame(msg@),
{
    let n = msg.len();
    let len = n as u32;
    assert(len as int == n as int % 0x1_0000_0000int) by (bit_vector)
        requires len == n as u32;
    push_be_u32(buf, len);
    buf.extend_from_slice(msg);
    assert(final(buf)@ =~= old(buf)@ + frame(msg@));
}

/// Frames a batch of messages for a pull response.
pub fn encode_messages(messages: Vec<Bytes>) -> (encoded: Bytes)
    ensures
        bytes_contents(encoded) == encode_all(contents_of_all(messages@)),
{
    let mut buf: Vec<u8> = Vec::new();
    let mut i: usize = 0;
    assert(contents_of_all(messages@).take(0) =~= Seq::<Seq<u8>>::empty());
    while i < messages.len()
        invariant
            i <= messages@.len(),
            buf@ == encode_all(contents_of_all(messages@).take(i as int)),
        decreases messages@.len() - i,
    {
        let msg = bytes_as_slice(&messages[i]);
        push_frame(&mut buf, msg);
        proof {
            let all = contents_of_all(messages@);
            assert(all.take(i + 1) =~= all.take(i as int).push(all[i as int]));
            lemma_encode_push(all.take(i as int), all[i as int]);
        }
        i += 1;
    }
    assert(contents_of_all(messages@).take(i as int) =~= contents_of_all(messages@));
    bytes_from_vec(buf)
}

/// Reads up to `max_messages` whole frames from the start of `data`, the log
/// bytes from a consumer's position on. Returns the messages and the number
/// of bytes they took; a frame that is cut short is left for a later read.
pub fn read_frames(data: &[u8], max_messages: usize) -> (result: (Vec<Bytes>, usize))
    ensures
        ({
            let (messages, consumed) = result;
            let all = frames(data@);
            let k = if max_messages < all.len() { max_messages as int } else { all.len() as int };
            &&& contents_of_all(messages@) == all.take(k)
            &&& consumed <= data@.len()
            &&& data@.take(consumed as int) == encode_all(all.take(k))
            &&& frames(data@.skip(consumed as int)) == all.skip(k)
        }),
{
    let ghost all = frames(data@);
    let mut messages: Vec<Bytes> = Vec::new();
    let mut offset: usize = 0;
    let mut count: usize = 0;
    assert(data@.skip(0) =~= data@);
    assert(data@.take(0) =~= Seq::<u8>::empty());
    assert(all.take(0) =~= Seq::<Seq<u8>>::empty());
    assert(all.skip(0) =~= all);
    while count < max_messages
        invariant_except_break
            offset <= data@.len(),
            count <= max_messages,
            count <= all.len(),
            all == frames(data@),
            contents_of_all(messages@) == all.take(count as int),
            data@.take(offset as int) == encode_all(all.take(count as int)),
            frames(data@.skip(offset as int)) == all.skip(count as int),
        ensures
            ({
                let k = if max_messages < all.len() { max_messages as int } else { all.len() as int };
                &&& offset <= data@.len()
                &&& contents_of_all(messages@) == all.take(k)
                &&& data@.take(offset as int) == encode_all(all.take(k))
                &&& frames(data@.skip(offset as int)) == all.skip(k)
            }),
        decreases max_messages - count,
    {
        let ghost rest = data@.skip(offset as int);
        if data.len() - offset < 4 {
            assert(frames(rest) =~= Seq::<Seq<u8>>::empty());
            break;
        }
        let len = read_be_u32(data, offset) as usize;
        assert(rest.take(4) =~= data@.subrange(offset as int, offset + 4));
        if len > data.len() - offset - 4 {
            assert(frames(rest) =~= Seq::<Seq<u8>>::empty());
            break;
        }
        let start = offset + 4;
        let end = start + len;
        let mut copy: Vec<u8> = Vec::new();
        copy.extend_from_slice(&data[start..end]);
        assert(copy@ =~= data@.subrange(start as int, end as int));
        let msg = bytes_from_vec(copy);
        let ghost before = messages@;
        messages.push(msg);
        proof {
            let m = data@.subrange(start as int, end as int);
            lemma_frame_at(data@, offset as int);
            lemma_advance(all, count as int, m, frames(data@.skip(end as int)));
            lemma_encode_push(all.take(count as int), m);
            assert(contents_of_all(messages@) =~= contents_of_all(before).push(m));
        }
        offset = end;
        count += 1;
    }
    (messages, offset)
}

} // verus!
