use bytes::Bytes;
use m_cc::queue::{take_received, LockFreeQueue, MessageQueue, MpscQueue, ShardedQueue};

fn b(s: &'static str) -> Bytes {
    Bytes::from_static(s.as_bytes())
}

#[test]
fn lock_free_queue_is_fifo_and_bounded() {
    let mut q = LockFreeQueue::new(2);
    assert_eq!(q.push(b("a")), Ok(()));
    assert_eq!(q.push(b("b")), Ok(()));
    assert_eq!(q.push(b("c")), Err(()));
    assert_eq!(q.pop_batch(1), vec![b("a")]);
    assert_eq!(q.push_batch(vec![b("d"), b("e"), b("f")]), 1);
    assert_eq!(q.pop_batch(10), vec![b("b"), b("d")]);
    assert!(q.pop_batch(10).is_empty());
}

#[test]
fn sharded_queue_rotates_pushes_and_pops() {
    let mut q = ShardedQueue::new(3, 2);
    assert_eq!(q.shard_count(), 3);
    assert_eq!(q.next_shard(), 0);
    assert_eq!(q.next_shard(), 1);
    // The counter is at 2: pushes go to shards 2, 0, 1, 2, ...
    for m in ["a", "b", "c", "d"] {
        assert_eq!(q.push(b(m)), Ok(()));
    }
    // Shards: 0 = [b], 1 = [c], 2 = [a, d]. The first pop starts at shard 0.
    assert_eq!(q.pop_batch(3), vec![b("b"), b("c"), b("a")]);
    // The second pop starts at shard 1 (empty), then 2.
    assert_eq!(q.pop_batch(3), vec![b("d")]);
    assert!(q.pop_batch(3).is_empty());
}

#[test]
fn sharded_queue_refuses_when_the_shard_is_full() {
    let mut q = ShardedQueue::new(1, 1);
    assert_eq!(q.push(b("a")), Ok(()));
    assert_eq!(q.push(b("b")), Err(()));
    assert_eq!(q.pop_batch(5), vec![b("a")]);
}

#[test]
fn sharded_push_batch_stops_at_a_full_shard() {
    let mut q = ShardedQueue::new(2, 1);
    assert_eq!(q.push_batch(vec![b("a"), b("b"), b("c"), b("d")]), 2);
    // Each parallel shard gives at most max(4 / 2, 1) = 2 messages.
    assert_eq!(q.pop_batch_parallel(4), vec![b("a"), b("b")]);
    assert!(q.pop_batch_parallel(4).is_empty());
    // Pushes and parallel pushes use separate shards.
    assert!(q.pop_batch(10).is_empty());
}

#[test]
fn parallel_pop_takes_a_share_from_each_shard() {
    let mut q = ShardedQueue::new(2, 10);
    assert_eq!(q.push_batch(vec![b("a"), b("b"), b("c"), b("d"), b("e"), b("f")]), 6);
    // Shard 0 holds a, c, e; shard 1 holds b, d, f. max 3 over 2 shards: 1 each.
    assert_eq!(q.pop_batch_parallel(3), vec![b("a"), b("b")]);
    assert_eq!(q.pop_batch_parallel(4), vec![b("c"), b("e"), b("d"), b("f")]);
}

#[test]
fn empty_sharded_queue_pops_nothing() {
    let mut q = ShardedQueue::new(0, 0);
    assert!(q.pop_batch(4).is_empty());
    assert_eq!(q.push_batch(Vec::new()), 0);
}

#[test]
fn mpsc_queue_passes_messages_through() {
    let mut q = MpscQueue::new(2);
    assert_eq!(q.push(b("a")), Ok(()));
    let other = q.sender();
    other.try_send(b("b")).unwrap();
    assert_eq!(q.push(b("c")), Err(()));
    assert_eq!(q.pop_batch(5), vec![b("a"), b("b")]);
    assert!(q.pop_batch(5).is_empty());
}

#[test]
fn mpsc_queue_senders_share_its_capacity() {
    let mut q = MpscQueue::new(3);
    assert_eq!(q.sender().max_capacity(), 3);
}

#[test]
fn receiving_fills_a_batch_until_full_or_empty() {
    let mut batch = Vec::new();
    assert!(take_received(&mut batch, Some(b("a")), 2));
    assert!(!take_received(&mut batch, Some(b("b")), 2));
    assert_eq!(batch, vec![b("a"), b("b")]);
    let mut other = vec![b("x")];
    assert!(!take_received(&mut other, None, 5));
    assert_eq!(other, vec![b("x")]);
}

#[test]
fn mpsc_pop_respects_max() {
    let mut q = MpscQueue::new(4);
    for m in ["a", "b", "c"] {
        assert_eq!(q.push(b(m)), Ok(()));
    }
    assert_eq!(q.pop_batch(2), vec![b("a"), b("b")]);
    assert!(q.pop_batch(0).is_empty());
    assert_eq!(q.pop_batch(2), vec![b("c")]);
}

#[test]
fn fresh_sharded_round_trip_groups_by_shard() {
    let mut q = ShardedQueue::new(3, 10);
    let names = ["m0", "m1", "m2", "m3", "m4", "m5", "m6"];
    let msgs: Vec<Bytes> = names.iter().map(|s| b(s)).collect();
    assert_eq!(q.push_batch(msgs), 7);
    let expected: Vec<Bytes> = ["m0", "m3", "m6", "m1", "m4", "m2", "m5"].iter().map(|s| b(s)).collect();
    assert_eq!(q.pop_batch_parallel(9), expected);
    assert!(q.pop_batch_parallel(9).is_empty());
}

#[test]
fn a_new_mpsc_queue_is_empty_and_takes_capacity_pushes() {
    let mut q = MpscQueue::new(2);
    assert!(q.pop_batch(5).is_empty());
    assert_eq!(q.push(b("a")), Ok(()));
    assert_eq!(q.push(b("b")), Ok(()));
    assert_eq!(q.push(b("c")), Err(()));
    assert_eq!(q.pop_batch(1), vec![b("a")]);
    assert_eq!(q.push(b("d")), Ok(()));
    assert_eq!(q.pop_batch(5), vec![b("b"), b("d")]);
}
