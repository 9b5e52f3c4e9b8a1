//! The payloads of the load generator: a batch of identical `hello`
//! messages to push, and the count of messages in a pull response.

use crate::framing::{all_fit_u32, encode_all, frames, lemma_encode_push, lemma_frame_at, lemma_frames_of_encode_all, push_frame, read_be_u32};
use vstd::prelude::*;
use vstd::utf8::encode_utf8;

verus! {

/// `batch_size` messages, each the UTF-8 bytes of `hello`.
pub open spec fn hello_batch(batch_size: nat) -> Seq<Seq<u8>> {
    Seq::new(batch_size, |i: int| encode_utf8("hello"@))
}

/// A push body of `batch_size` framed `hello` messages.
pub fn encode_messages(batch_size: usize) -> (buf: Vec<u8>)
    requires
        batch_size * 9 <= isize::MAX,
    ensures
        buf@ == encode_all(hello_batch(batch_size as nat)),
{
    let mut buf: Vec<u8> = Vec::with_capacity(batch_size * (4 + 5));
    let mut i: usize = 0;
    assert(buf@ =~= Seq::<u8>::empty());
    assert(hello_batch(batch_size as nat).take(0) =~= Seq::<Seq<u8>>::empty());
    while i < batch_size
        invariant
            i <= batch_size,
            buf@ == encode_all(hello_batch(batch_size as nat).take(i as int)),
        decreases batch_size - i,
    {
        let msg = "hello".as_bytes();
        push_frame(&mut buf, msg);
        proof {
            let all = hello_batch(batch_size as nat);
            assert(all.take(i + 1) =~= all.take(i as int).push(all[i as int]));
            lemma_encode_push(all.take(i as int), all[i as int]);
        }
        i += 1;
    }
    assert(hello_batch(batch_size as nat).take(i as int) =~= hello_batch(batch_size as nat));
    buf
}

/// The number of whole messages in a pull response.
pub fn count_messages(body: &[u8]) -> (count: usize)
    ensures
        count == frames(body@).len(),
{
    let mut offset: usize = 0;
    let mut count: usize = 0;
    assert(body@.skip(0) =~= body@);
    loop
        invariant
            offset <= body@.len(),
            4 * count <= offset,
            count + frames(body@.skip(offset as int)).len() == frames(body@).len(),
        ensures
            count == frames(body@).len(),
        decreases body@.len() - offset,
    {
        let ghost rest = body@.skip(offset as int);
        if body.len() - offset < 4 {
            assert(frames(rest) =~= Seq::<Seq<u8>>::empty());
            break;
        }
        let len = read_be_u32(body, offset) as usize;
        assert(rest.take(4) =~= body@.subrange(offset as int, offset + 4));
        if len > body.len() - offset - 4 {
            assert(frames(rest) =~= Seq::<Seq<u8>>::empty());
            break;
        }
        proof {
            lemma_frame_at(body@, offset as int);
        }
        offset = offset + 4 + len;
        count += 1;
    }
    count
}

/// A UTF-8 encoding takes at most four bytes per character.
proof fn lemma_utf8_len_bound(chars: Seq<char>)
    ensures
        encode_utf8(chars).len() <= 4 * chars.len(),
    decreases chars.len(),
{
    if chars.len() > 0 {
        lemma_utf8_len_bound(chars.drop_first());
    }
}

/// Counting the messages of a generated batch gives the batch size:
/// `count_messages` on the body made by `encode_messages(n)` is `n`.
pub proof fn lemma_count_of_hello_batch(n: nat)
    ensures
        frames(encode_all(hello_batch(n))).len() == n,
{
    reveal_strlit("hello");
    lemma_utf8_len_bound("hello"@);
    let msgs = hello_batch(n);
    assert(all_fit_u32(msgs));
    lemma_frames_of_encode_all(msgs);
}

} // verus!
