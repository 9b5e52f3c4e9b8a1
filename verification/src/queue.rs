//! In-memory message queues.
//!
//! `LockFreeQueue` is one bounded FIFO queue. `ShardedQueue` spreads pushes
//! over several bounded FIFO shards in rotation and gathers pops from them.
//! `MpscQueue` is a bounded channel whose senders can be handed out.
//!
//! The queues take `&mut self`: what a queue holds can only be stated of a
//! queue that nobody else touches meanwhile.

use crate::buffers::{bytes_contents, contents_of_all};
use bytes::Bytes;
use crossbeam::queue::ArrayQueue;
use tokio::sync::mpsc;
use vstd::arithmetic::div_mod::{lemma_fundamental_div_mod, lemma_fundamental_div_mod_converse};
use vstd::prelude::*;

verus! {

#[verifier::external_type_specification]
#[verifier::external_body]
#[verifier::reject_recursive_types(T)]
pub struct ExArrayQueue<T>(crossbeam::queue::ArrayQueue<T>);

/// The messages an `ArrayQueue` holds, oldest first.
pub uninterp spec fn queue_items(q: ArrayQueue<Bytes>) -> Seq<Seq<u8>>;

/// The capacity an `ArrayQueue` was made with.
pub uninterp spec fn queue_capacity(q: ArrayQueue<Bytes>) -> nat;

/// `ArrayQueue::new`, which panics on a zero capacity. Claimed: the queue
/// is empty and has the given capacity.
#[verifier::external_body]
fn array_queue_new(cap: usize) -> (q: ArrayQueue<Bytes>)
    requires
        cap > 0,
    ensures
        queue_items(q) =~= Seq::<Seq<u8>>::empty(),
        queue_capacity(q) == cap,
{
    ArrayQueue::new(cap)
}

/// `ArrayQueue::push`, through an exclusive borrow. The queue is full
/// exactly when it holds `capacity` items; then the message is refused.
/// Claimed: it is accepted, at the back, exactly when the queue was not
/// full; the capacity does not change; a queue never holds more than its
/// capacity.
#[verifier::external_body]
fn array_queue_push(q: &mut ArrayQueue<Bytes>, msg: Bytes) -> (pushed: bool)
    ensures
        queue_capacity(*final(q)) == queue_capacity(*old(q)),
        queue_items(*final(q)).len() <= queue_capacity(*final(q)),
        pushed == (queue_items(*old(q)).len() < queue_capacity(*old(q))),
        queue_items(*final(q)) == (if pushed {
            queue_items(*old(q)).push(bytes_contents(msg))
        } else {
            queue_items(*old(q))
        }),
{
    q.push(msg).is_ok()
}

/// `ArrayQueue::pop`, through an exclusive borrow. Claimed: the oldest
/// message is removed and returned, or `None` when the queue is empty; the
/// capacity does not change; a queue never holds more than its capacity.
#[verifier::external_body]
fn array_queue_pop(q: &mut ArrayQueue<Bytes>) -> (r: Option<Bytes>)
    ensures
        queue_capacity(*final(q)) == queue_capacity(*old(q)),
        queue_items(*final(q)).len() <= queue_capacity(*final(q)),
        match r {
            Some(msg) => queue_items(*old(q)).len() > 0 && bytes_contents(msg) == queue_items(*old(q))[0]
                && queue_items(*final(q)) == queue_items(*old(q)).drop_first(),
            None => queue_items(*old(q)).len() == 0 && queue_items(*final(q)) == queue_items(*old(q)),
        },
{
    q.pop()
}

/// The number of further messages a queue holding `held` messages with
/// capacity `cap` accepts.
pub open spec fn room(held: nat, cap: nat) -> nat {
    if held < cap {
        (cap - held) as nat
    } else {
        0
    }
}

/// The smaller of two numbers.
pub open spec fn min_nat(a: nat, b: nat) -> nat {
    if a < b {
        a
    } else {
        b
    }
}

/// The same messages in reverse order.
fn reversed(v: Vec<Bytes>) -> (r: Vec<Bytes>)
    ensures
        r@ == v@.reverse(),
{
    let ghost orig = v@;
    let mut v = v;
    let mut r: Vec<Bytes> = Vec::new();
    while v.len() > 0
        invariant
            orig == v@ + r@.reverse(),
        decreases v@.len(),
    {
        let x = v.pop().unwrap();
        let ghost before = r@;
        r.push(x);
        assert(r@.reverse() =~= seq![x] + before.reverse());
        assert(orig =~= v@ + r@.reverse());
    }
    assert(orig =~= r@.reverse());
    assert(r@ =~= orig.reverse());
    r
}

/// A queue of messages.
pub trait MessageQueue: Send + Sync + 'static {
    /// Whether `push` can be called (it does not panic).
    spec fn push_ok(&self) -> bool;

    /// Whether `push_batch` can be called with `count` messages.
    spec fn push_batch_ok(&self, count: nat) -> bool;

    /// Offers one message; `Err(())` when it was refused.
    fn push(&mut self, msg: Bytes) -> (r: Result<(), ()>)
        requires
            old(self).push_ok(),
    ;

    /// Takes at most `max` messages.
    fn pop_batch(&mut self, max: usize) -> (batch: Vec<Bytes>)
        ensures
            batch@.len() <= max,
    ;

    /// Offers messages in order until one is refused; returns how many were
    /// accepted.
    fn push_batch(&mut self, msgs: Vec<Bytes>) -> (pushed: usize)
        requires
            old(self).push_batch_ok(msgs@.len()),
        ensures
            pushed <= msgs@.len(),
    ;
}

/// A bounded queue gives messages back in the order they went in: after
/// `pushed` is appended to a queue holding `held`, taking `k` messages gives
/// the oldest held ones first, then the pushed ones.
pub proof fn lemma_fifo(held: Seq<Seq<u8>>, pushed: Seq<Seq<u8>>, k: int)
    requires
        0 <= k <= held.len() + pushed.len(),
    ensures
        (held + pushed).take(k) == (if k <= held.len() {
            held.take(k)
        } else {
            held + pushed.take(k - held.len())
        }),
{
    if k <= held.len() {
        assert((held + pushed).take(k) =~= held.take(k));
    } else {
        assert((held + pushed).take(k) =~= held + pushed.take(k - held.len()));
    }
}

/// One bounded FIFO queue.
pub struct LockFreeQueue {
    pub queue: ArrayQueue<Bytes>,
}

impl LockFreeQueue {
    /// The messages held, oldest first.
    pub open spec fn items(&self) -> Seq<Seq<u8>> {
        queue_items(self.queue)
    }

    /// How many messages the queue can hold.
    pub open spec fn capacity(&self) -> nat {
        queue_capacity(self.queue)
    }

    /// An empty queue for at most `capacity` messages (`capacity` must not be
    /// zero).
    pub fn new(capacity: usize) -> (q: LockFreeQueue)
        requires
            capacity > 0,
        ensures
            q.items() =~= Seq::<Seq<u8>>::empty(),
            q.capacity() == capacity,
    {
        LockFreeQueue { queue: array_queue_new(capacity) }
    }
}

impl MessageQueue for LockFreeQueue {
    open spec fn push_ok(&self) -> bool {
        true
    }

    open spec fn push_batch_ok(&self, count: nat) -> bool {
        true
    }

    /// Accepted, at the back, exactly when the queue is not full.
    fn push(&mut self, msg: Bytes) -> (r: Result<(), ()>)
        ensures
            final(self).capacity() == old(self).capacity(),
            final(self).items().len() <= final(self).capacity(),
            r is Ok == (old(self).items().len() < old(self).capacity()),
            final(self).items() == (if r is Ok {
                old(self).items().push(bytes_contents(msg))
            } else {
                old(self).items()
            }),
    {
        if array_queue_push(&mut self.queue, msg) {
            Ok(())
        } else {
            Err(())
        }
    }

    /// The oldest `min(max, held)` messages, removed from the queue.
    fn pop_batch(&mut self, max: usize) -> (batch: Vec<Bytes>)
        ensures
            final(self).capacity() == old(self).capacity(),
            old(self).items().len() <= old(self).capacity() ==> final(self).items().len() <= final(self).capacity(),
            contents_of_all(batch@) == old(self).items().take(min_nat(max as nat, old(self).items().len()) as int),
            final(self).items() == old(self).items().skip(min_nat(max as nat, old(self).items().len()) as int),
    {
        let mut batch: Vec<Bytes> = Vec::new();
        let mut i: usize = 0;
        let ghost start = old(self).items();
        assert(start.take(0) =~= Seq::<Seq<u8>>::empty());
        assert(start.skip(0) =~= start);
        while i < max
            invariant_except_break
                i <= max,
                i <= start.len(),
                self.capacity() == old(self).capacity(),
                batch@.len() == i,
                contents_of_all(batch@) == start.take(i as int),
                self.items() == start.skip(i as int),
            ensures
                self.capacity() == old(self).capacity(),
                contents_of_all(batch@) == start.take(min_nat(max as nat, start.len()) as int),
                self.items() == start.skip(min_nat(max as nat, start.len()) as int),
            decreases max - i,
        {
            match array_queue_pop(&mut self.queue) {
                Some(msg) => {
                    let ghost before = batch@;
                    batch.push(msg);
                    assert(start.take(i + 1) =~= start.take(i as int).push(start[i as int]));
                    assert(start.skip(i + 1) =~= start.skip(i as int).drop_first());
                    assert(contents_of_all(batch@) =~= contents_of_all(before).push(bytes_contents(msg)));
                    i += 1;
                },
                None => {
                    break;
                },
            }
        }
        batch
    }

    /// Pushes messages in order until the queue is full; the first
    /// `min(len, room)` messages are appended, the rest dropped.
    fn push_batch(&mut self, msgs: Vec<Bytes>) -> (pushed: usize)
        ensures
            final(self).capacity() == old(self).capacity(),
            old(self).items().len() <= old(self).capacity() ==> final(self).items().len() <= final(self).capacity(),
            pushed == min_nat(msgs@.len(), room(old(self).items().len(), old(self).capacity())),
            final(self).items() == old(self).items() + contents_of_all(msgs@).take(pushed as int),
    {
        let mut pushed: usize = 0;
        let ghost start = old(self).items();
        let ghost all = contents_of_all(msgs@);
        let ghost target = min_nat(msgs@.len(), room(start.len(), old(self).capacity()));
        assert(all.take(0) =~= Seq::<Seq<u8>>::empty());
        assert(start + all.take(0) =~= start);
        let ghost order = msgs@;
        let n = msgs.len();
        let mut msgs = reversed(msgs);
        assert(order.subrange(0, order.len() as int) =~= order);
        while pushed < n
            invariant_except_break
                n == order.len(),
                pushed <= order.len(),
                msgs@ =~= order.subrange(pushed as int, order.len() as int).reverse(),
                all == contents_of_all(order),
                pushed <= target,
                self.capacity() == old(self).capacity(),
                self.items() == start + all.take(pushed as int),
                target == min_nat(order.len(), room(start.len(), old(self).capacity())),
            ensures
                self.capacity() == old(self).capacity(),
                pushed == target,
                self.items() == start + all.take(pushed as int),
            decreases order.len() - pushed,
        {
            assert(msgs@.len() > 0);
            let msg = msgs.pop().unwrap();
            assert(msg == order[pushed as int]);
            assert(msgs@ =~= order.subrange(pushed + 1, order.len() as int).reverse());
            if array_queue_push(&mut self.queue, msg) {
                assert(all.take(pushed + 1) =~= all.take(pushed as int).push(all[pushed as int]));
                assert(start + all.take(pushed + 1) =~= (start + all.take(pushed as int)).push(all[pushed as int]));
                pushed += 1;
            } else {
                break;
            }
        }
        pushed
    }
}

/// How many messages a queue holding `held` gives up to a batch that holds
/// `have` of at most `limit`.
pub open spec fn fill(held: nat, have: nat, limit: nat) -> nat {
    if have < limit {
        min_nat((limit - have) as nat, held)
    } else {
        0
    }
}

/// Pops from `q` into `batch` until `batch` holds `limit` messages or `q`
/// is empty.
fn pop_into(q: &mut ArrayQueue<Bytes>, batch: &mut Vec<Bytes>, limit: usize)
    ensures
        ({
            let k = fill(queue_items(*old(q)).len(), old(batch)@.len(), limit as nat);
            &&& contents_of_all(final(batch)@) == contents_of_all(old(batch)@) + queue_items(*old(q)).take(k as int)
            &&& queue_items(*final(q)) == queue_items(*old(q)).skip(k as int)
            &&& queue_capacity(*final(q)) == queue_capacity(*old(q))
        }),
{
    let ghost start = queue_items(*q);
    let ghost have = batch@.len();
    let ghost k = fill(start.len(), have, limit as nat);
    let ghost first = contents_of_all(batch@);
    assert(start.take(0) =~= Seq::<Seq<u8>>::empty());
    assert(start.skip(0) =~= start);
    assert(first + start.take(0) =~= first);
    let mut done: usize = 0;
    while batch.len() < limit
        invariant_except_break
            done <= start.len(),
            batch@.len() == have + done,
            contents_of_all(batch@) == first + start.take(done as int),
            queue_items(*q) == start.skip(done as int),
            queue_capacity(*q) == queue_capacity(*old(q)),
            start == queue_items(*old(q)),
            have == old(batch)@.len(),
            k == fill(start.len(), have, limit as nat),
            have + done <= limit || done == 0,
        ensures
            done == k,
            contents_of_all(batch@) == first + start.take(done as int),
            queue_items(*q) == start.skip(done as int),
            queue_capacity(*q) == queue_capacity(*old(q)),
        decreases limit - batch@.len(),
    {
        match array_queue_pop(q) {
            Some(msg) => {
                let ghost before = batch@;
                batch.push(msg);
                assert(start.take(done + 1) =~= start.take(done as int).push(start[done as int]));
                assert(start.skip(done + 1) =~= start.skip(done as int).drop_first());
                assert(contents_of_all(batch@) =~= contents_of_all(before).push(bytes_contents(msg)));
                assert(first + start.take(done + 1) =~= (first + start.take(done as int)).push(start[done as int]));
                done += 1;
            },
            None => {
                break;
            },
        }
    }
}

/// The value of a counter bumped `k` times, wrapping at `usize::MAX`.
pub open spec fn bumped(c: usize, k: nat) -> usize
    decreases k,
{
    if k == 0 {
        c
    } else {
        let p = bumped(c, (k - 1) as nat);
        if p == usize::MAX {
            0
        } else {
            (p + 1) as usize
        }
    }
}

/// The messages gathered by visiting `visited` shards in rotation from
/// shard `start`, each giving as many as still fit under `max`.
pub open spec fn gathered(shards: Seq<Seq<Seq<u8>>>, start: int, visited: nat, max: nat) -> Seq<Seq<u8>>
    decreases visited,
{
    if visited == 0 {
        Seq::empty()
    } else {
        let before = gathered(shards, start, (visited - 1) as nat, max);
        let s = shards[rotated(start, (visited - 1) as int, shards.len() as int)];
        before + s.take(fill(s.len(), before.len(), max) as int)
    }
}

/// The shard visited at step `i` of a rotation from `start` over `n` shards.
pub open spec fn rotated(start: int, i: int, n: int) -> int {
    if start + i < n {
        start + i
    } else {
        start + i - n
    }
}

/// The step of a rotation from `start` over `n` shards that visits shard `j`.
pub open spec fn step_of(start: int, j: int, n: int) -> int {
    if j >= start {
        j - start
    } else {
        j + n - start
    }
}

/// The shards after a gathering of `visited` steps from `start`.
pub open spec fn after_gather(shards: Seq<Seq<Seq<u8>>>, start: int, visited: nat, max: nat) -> Seq<Seq<Seq<u8>>> {
    Seq::new(
        shards.len(),
        |j: int|
            if step_of(start, j, shards.len() as int) < visited {
                let step = step_of(start, j, shards.len() as int);
                let before = gathered(shards, start, step as nat, max);
                shards[j].skip(fill(shards[j].len(), before.len(), max) as int)
            } else {
                shards[j]
            },
    )
}

/// The shards that the messages `msgs` go to when pushed in rotation from
/// counter value `c` over `n` shards: message `k` goes to shard
/// `bumped(c, k) % n`. The result is what each shard receives, in order,
/// from the first `count` messages.
pub open spec fn dealt(msgs: Seq<Seq<u8>>, c: usize, n: nat, count: nat) -> Seq<Seq<Seq<u8>>>
    decreases count,
{
    if count == 0 {
        Seq::new(n, |j: int| Seq::<Seq<u8>>::empty())
    } else {
        let before = dealt(msgs, c, n, (count - 1) as nat);
        let j = (bumped(c, (count - 1) as nat) as int) % (n as int);
        before.update(j, before[j].push(msgs[count - 1]))
    }
}

/// Shards that started as `shards` and received `extra`.
pub open spec fn with_received(shards: Seq<Seq<Seq<u8>>>, extra: Seq<Seq<Seq<u8>>>) -> Seq<Seq<Seq<u8>>> {
    Seq::new(shards.len(), |j: int| shards[j] + extra[j])
}

/// The messages of the first `count` shards, each giving at most `per`.
pub open spec fn drained(shards: Seq<Seq<Seq<u8>>>, per: nat, count: nat) -> Seq<Seq<u8>>
    decreases count,
{
    if count == 0 {
        Seq::empty()
    } else {
        drained(shards, per, (count - 1) as nat) + shards[count - 1].take(
            min_nat(per, shards[count - 1].len()) as int,
        )
    }
}

/// A queue spread over shards. Pushes go to the shards in rotation;
/// `pop_batch` gathers from the shards in rotation, starting one shard
/// further each time. `push_batch` and `pop_batch_parallel` use a second
/// set of shards of their own.
pub struct ShardedQueue {
    queues: Vec<ArrayQueue<Bytes>>,
    parallel_queues: Vec<ArrayQueue<Bytes>>,
    counter: usize,
    pop_counter: usize,
}

impl ShardedQueue {
    /// The number of shards.
    pub closed spec fn num_shards(&self) -> nat {
        self.queues@.len()
    }

    /// The messages of each shard used by `push` and `pop_batch`.
    pub closed spec fn shards(&self) -> Seq<Seq<Seq<u8>>> {
        Seq::new(self.queues@.len(), |i: int| queue_items(self.queues@[i]))
    }

    /// The capacity of each shard used by `push` and `pop_batch`.
    pub closed spec fn capacities(&self) -> Seq<nat> {
        Seq::new(self.queues@.len(), |i: int| queue_capacity(self.queues@[i]))
    }

    /// The messages of each shard used by `push_batch` and
    /// `pop_batch_parallel`.
    pub closed spec fn parallel_shards(&self) -> Seq<Seq<Seq<u8>>> {
        Seq::new(self.parallel_queues@.len(), |i: int| queue_items(self.parallel_queues@[i]))
    }

    /// The capacity of each shard used by `push_batch` and
    /// `pop_batch_parallel`.
    pub closed spec fn parallel_capacities(&self) -> Seq<nat> {
        Seq::new(self.parallel_queues@.len(), |i: int| queue_capacity(self.parallel_queues@[i]))
    }

    /// The rotation counter of pushes.
    pub closed spec fn push_counter(&self) -> usize {
        self.counter
    }

    /// The rotation counter of `pop_batch`.
    pub closed spec fn pop_rotation(&self) -> usize {
        self.pop_counter
    }

    /// Both sets of shards have one shard per index.
    pub closed spec fn wf(&self) -> bool {
        self.parallel_queues@.len() == self.queues@.len()
    }

    /// There is one shard and one capacity per index, in both sets when the
    /// queue is well formed.
    pub proof fn lemma_shape(&self)
        ensures
            self.shards().len() == self.num_shards(),
            self.capacities().len() == self.num_shards(),
            self.wf() ==> self.parallel_shards().len() == self.num_shards(),
            self.wf() ==> self.parallel_capacities().len() == self.num_shards(),
    {
    }

    /// `num_shards` empty shards of each set, each for at most `capacity`
    /// messages (`capacity` must not be zero unless there are no shards).
    pub fn new(num_shards: usize, capacity: usize) -> (q: ShardedQueue)
        requires
            num_shards > 0 ==> capacity > 0,
        ensures
            q.wf(),
            q.num_shards() == num_shards,
            q.shards() == Seq::new(num_shards as nat, |i: int| Seq::<Seq<u8>>::empty()),
            q.parallel_shards() == Seq::new(num_shards as nat, |i: int| Seq::<Seq<u8>>::empty()),
            q.capacities() == Seq::new(num_shards as nat, |i: int| capacity as nat),
            q.parallel_capacities() == Seq::new(num_shards as nat, |i: int| capacity as nat),
            q.push_counter() == 0,
            q.pop_rotation() == 0,
    {
        let mut queues: Vec<ArrayQueue<Bytes>> = Vec::new();
        let mut parallel_queues: Vec<ArrayQueue<Bytes>> = Vec::new();
        let mut i: usize = 0;
        while i < num_shards
            invariant
                i <= num_shards,
                num_shards > 0 ==> capacity > 0,
                queues@.len() == i,
                parallel_queues@.len() == i,
                forall|j: int| 0 <= j < i ==> queue_items(#[trigger] queues@[j]) =~= Seq::<Seq<u8>>::empty()
                    && queue_capacity(queues@[j]) == capacity,
                forall|j: int| 0 <= j < i ==> queue_items(#[trigger] parallel_queues@[j]) =~= Seq::<Seq<u8>>::empty()
                    && queue_capacity(parallel_queues@[j]) == capacity,
            decreases num_shards - i,
        {
            queues.push(array_queue_new(capacity));
            parallel_queues.push(array_queue_new(capacity));
            i += 1;
        }
        let q = ShardedQueue { queues, parallel_queues, counter: 0, pop_counter: 0 };
        assert(q.shards() =~= Seq::new(num_shards as nat, |i: int| Seq::<Seq<u8>>::empty()));
        assert(q.parallel_shards() =~= Seq::new(num_shards as nat, |i: int| Seq::<Seq<u8>>::empty()));
        assert(q.capacities() =~= Seq::new(num_shards as nat, |i: int| capacity as nat));
        assert(q.parallel_capacities() =~= Seq::new(num_shards as nat, |i: int| capacity as nat));
        q
    }

    /// The shard the next push goes to: the push counter modulo the number
    /// of shards. The counter is bumped (wrapping).
    pub fn next_shard(&mut self) -> (idx: usize)
        requires
            old(self).num_shards() > 0,
        ensures
            idx == (old(self).push_counter() as int) % (old(self).num_shards() as int),
            final(self).push_counter() == bumped(old(self).push_counter(), 1),
            final(self).num_shards() == old(self).num_shards(),
            final(self).shards() == old(self).shards(),
            final(self).capacities() == old(self).capacities(),
            final(self).parallel_shards() == old(self).parallel_shards(),
            final(self).parallel_capacities() == old(self).parallel_capacities(),
            final(self).pop_rotation() == old(self).pop_rotation(),
            final(self).wf() == old(self).wf(),
    {
        let c = self.counter;
        self.counter = c.wrapping_add(1);
        assert(bumped(c, 1) == bumped(c, 0) + 1 || bumped(c, 0) == usize::MAX);
        c % self.queues.len()
    }
}

/// Bumping once more after `k` bumps is `k + 1` bumps.
proof fn lemma_bump_step(c: usize, k: nat)
    ensures
        bumped(bumped(c, k), 1) == bumped(c, k + 1),
{
    assert(bumped(bumped(c, k), 0) == bumped(c, k));
}

/// Runs of messages taken from shards visited in rotation from `start`:
/// from each shard `j`, its oldest `taken[j]` messages, in order, one shard
/// after the other.
pub open spec fn runs(shards: Seq<Seq<Seq<u8>>>, start: int, visited: nat, taken: Seq<int>) -> Seq<Seq<u8>>
    decreases visited,
{
    if visited == 0 {
        Seq::empty()
    } else {
        let j = rotated(start, visited - 1, shards.len() as int);
        runs(shards, start, (visited - 1) as nat, taken) + shards[j].take(taken[j])
    }
}

/// A gathering is made of runs: each visited shard gives its oldest
/// messages, in order, as many as the gathering took from it.
proof fn lemma_gathered_runs(shards: Seq<Seq<Seq<u8>>>, start: int, visited: nat, max: nat, taken: Seq<int>)
    requires
        0 <= start < shards.len(),
        visited <= shards.len(),
        taken.len() == shards.len(),
        forall|j: int| 0 <= j < shards.len() ==> #[trigger] taken[j] == fill(
            shards[j].len(),
            gathered(shards, start, step_of(start, j, shards.len() as int) as nat, max).len(),
            max,
        ),
    ensures
        gathered(shards, start, visited, max) == runs(shards, start, visited, taken),
    decreases visited,
{
    if visited > 0 {
        lemma_gathered_runs(shards, start, (visited - 1) as nat, max, taken);
        lemma_rotation_step(start, visited - 1, shards.len() as int);
        let j = rotated(start, visited - 1, shards.len() as int);
        assert(taken[j] == fill(shards[j].len(), gathered(shards, start, (visited - 1) as nat, max).len(), max));
    }
}

/// The number of messages held by the shards `lo..hi`.
pub open spec fn total_len(shards: Seq<Seq<Seq<u8>>>, lo: int, hi: int) -> nat
    decreases hi - lo,
{
    if hi <= lo {
        0
    } else {
        total_len(shards, lo, hi - 1) + shards[hi - 1].len()
    }
}

/// The number of messages held by all shards.
pub open spec fn total_held(shards: Seq<Seq<Seq<u8>>>) -> nat {
    total_len(shards, 0, shards.len() as int)
}

/// The number of messages held by the first `visited` shards of a rotation
/// from `start`.
pub open spec fn rotation_len(shards: Seq<Seq<Seq<u8>>>, start: int, visited: nat) -> nat
    decreases visited,
{
    if visited == 0 {
        0
    } else {
        rotation_len(shards, start, (visited - 1) as nat) + shards[rotated(
            start,
            visited - 1,
            shards.len() as int,
        )].len()
    }
}

/// A gathering holds as many messages as the shards visited, up to `max`.
proof fn lemma_gathered_count(shards: Seq<Seq<Seq<u8>>>, start: int, visited: nat, max: nat)
    ensures
        gathered(shards, start, visited, max).len() == min_nat(max, rotation_len(shards, start, visited)),
    decreases visited,
{
    if visited > 0 {
        lemma_gathered_count(shards, start, (visited - 1) as nat, max);
    }
}

/// Counting splits at any middle shard.
proof fn lemma_total_split(shards: Seq<Seq<Seq<u8>>>, lo: int, mid: int, hi: int)
    requires
        lo <= mid <= hi,
    ensures
        total_len(shards, lo, mid) + total_len(shards, mid, hi) == total_len(shards, lo, hi),
    decreases hi - mid,
{
    if hi > mid {
        lemma_total_split(shards, lo, mid, hi - 1);
    }
}

/// A rotation from `start` counts the shards from `start` to the end, then
/// those from the first one on.
proof fn lemma_rotation_count(shards: Seq<Seq<Seq<u8>>>, start: int, visited: nat)
    requires
        0 <= start < shards.len(),
        visited <= shards.len(),
    ensures
        rotation_len(shards, start, visited) == if visited <= shards.len() - start {
            total_len(shards, start, start + visited)
        } else {
            total_len(shards, start, shards.len() as int) + total_len(shards, 0, visited - (shards.len() - start))
        },
    decreases visited,
{
    if visited > 0 {
        lemma_rotation_count(shards, start, (visited - 1) as nat);
        let n = shards.len() as int;
        if visited - 1 == n - start {
            assert(total_len(shards, 0, 0) == 0);
        }
    }
}

/// A whole rotation counts every message once.
proof fn lemma_rotation_total(shards: Seq<Seq<Seq<u8>>>, start: int)
    requires
        0 <= start < shards.len(),
    ensures
        rotation_len(shards, start, shards.len()) == total_held(shards),
{
    let n = shards.len() as int;
    lemma_rotation_count(shards, start, shards.len());
    if start > 0 {
        lemma_total_split(shards, 0, start, n);
    }
}

/// A gathering never holds more than `max` messages.
proof fn lemma_gathered_len(shards: Seq<Seq<Seq<u8>>>, start: int, visited: nat, max: nat)
    ensures
        gathered(shards, start, visited, max).len() <= max,
    decreases visited,
{
    if visited > 0 {
        lemma_gathered_len(shards, start, (visited - 1) as nat, max);
    }
}

/// Step `i` of a rotation visits the shard whose step is `i`.
proof fn lemma_rotation_step(start: int, i: int, n: int)
    requires
        0 <= start < n,
        0 <= i < n,
    ensures
        0 <= rotated(start, i, n) < n,
        step_of(start, rotated(start, i, n), n) == i,
        forall|j: int| 0 <= j < n && j != rotated(start, i, n) ==> step_of(start, j, n) != i,
{
}

/// The messages received by each shard, when there are `n` of them.
proof fn lemma_dealt_len(msgs: Seq<Seq<u8>>, c: usize, n: nat, count: nat)
    requires
        n > 0 || count == 0,
    ensures
        dealt(msgs, c, n, count).len() == n,
    decreases count,
{
    if count > 0 {
        lemma_dealt_len(msgs, c, n, (count - 1) as nat);
    }
}

impl MessageQueue for ShardedQueue {
    open spec fn push_ok(&self) -> bool {
        self.num_shards() > 0
    }

    open spec fn push_batch_ok(&self, count: nat) -> bool {
        self.wf() && (count == 0 || self.num_shards() > 0)
    }

    /// The message goes to shard `push_counter % num_shards`, at the back,
    /// and is accepted exactly when that shard is not full.
    fn push(&mut self, msg: Bytes) -> (r: Result<(), ()>)
        ensures
            ({
                let j = (old(self).push_counter() as int) % (old(self).num_shards() as int);
                &&& r is Ok == (old(self).shards()[j].len() < old(self).capacities()[j])
                &&& final(self).shards() == old(self).shards().update(
                    j,
                    if r is Ok {
                        old(self).shards()[j].push(bytes_contents(msg))
                    } else {
                        old(self).shards()[j]
                    },
                )
            }),
            final(self).push_counter() == bumped(old(self).push_counter(), 1),
            final(self).num_shards() == old(self).num_shards(),
            final(self).capacities() == old(self).capacities(),
            final(self).parallel_shards() == old(self).parallel_shards(),
            final(self).parallel_capacities() == old(self).parallel_capacities(),
            final(self).pop_rotation() == old(self).pop_rotation(),
            final(self).wf() == old(self).wf(),
    {
        let idx = self.next_shard();
        let pushed = array_queue_push(&mut self.queues[idx], msg);
        assert(self.shards() =~= old(self).shards().update(
            idx as int,
            if pushed {
                old(self).shards()[idx as int].push(bytes_contents(msg))
            } else {
                old(self).shards()[idx as int]
            },
        ));
        assert(self.capacities() =~= old(self).capacities());
        if pushed {
            Ok(())
        } else {
            Err(())
        }
    }

    /// Gathers from every shard in rotation, starting at shard
    /// `pop_rotation % num_shards`, each shard giving as many messages,
    /// oldest first, as still fit under `max`. The rotation counter is
    /// bumped (wrapping).
    fn pop_batch(&mut self, max: usize) -> (batch: Vec<Bytes>)
        ensures
            old(self).num_shards() == 0 ==> batch@.len() == 0 && final(self).shards() == old(self).shards(),
            old(self).num_shards() > 0 ==> {
                let start = (old(self).pop_rotation() as int) % (old(self).num_shards() as int);
                let taken = Seq::new(
                    old(self).num_shards(),
                    |j: int| old(self).shards()[j].len() - final(self).shards()[j].len(),
                );
                &&& batch@.len() == min_nat(max as nat, total_held(old(self).shards()))
                &&& contents_of_all(batch@) == gathered(old(self).shards(), start, old(self).num_shards(), max as nat)
                &&& final(self).shards() == after_gather(old(self).shards(), start, old(self).num_shards(), max as nat)
                &&& final(self).shards().len() == old(self).num_shards()
                &&& forall|j: int| 0 <= j < old(self).num_shards() ==> 0 <= #[trigger] taken[j] && final(self).shards()[j]
                    == old(self).shards()[j].skip(taken[j])
                &&& contents_of_all(batch@) == runs(old(self).shards(), start, old(self).num_shards(), taken)
            },
            old(self).num_shards() == 1 ==> contents_of_all(batch@) == old(self).shards()[0].take(
                min_nat(max as nat, old(self).shards()[0].len()) as int,
            ),
            final(self).pop_rotation() == bumped(old(self).pop_rotation(), 1),
            final(self).num_shards() == old(self).num_shards(),
            final(self).capacities() == old(self).capacities(),
            final(self).parallel_shards() == old(self).parallel_shards(),
            final(self).parallel_capacities() == old(self).parallel_capacities(),
            final(self).push_counter() == old(self).push_counter(),
            final(self).wf() == old(self).wf(),
    {
        let mut batch: Vec<Bytes> = Vec::new();
        let start = self.pop_counter;
        self.pop_counter = start.wrapping_add(1);
        assert(bumped(start, 1) == bumped(start, 0) + 1 || bumped(start, 0) == usize::MAX);
        let len = self.queues.len();
        if len == 0 {
            assert(self.shards() =~= old(self).shards());
            return batch;
        }
        let s = start % len;
        let ghost shards0 = old(self).shards();
        assert(after_gather(shards0, s as int, 0, max as nat) =~= shards0);
        assert(contents_of_all(batch@) =~= Seq::<Seq<u8>>::empty());
        let mut i: usize = 0;
        while i < len
            invariant
                0 <= s < len,
                len == self.queues@.len(),
                len == old(self).queues@.len(),
                i <= len,
                shards0 == old(self).shards(),
                self.capacities() == old(self).capacities(),
                self.parallel_queues == old(self).parallel_queues,
                self.counter == old(self).counter,
                self.pop_counter == bumped(old(self).pop_counter, 1),
                s == (old(self).pop_rotation() as int) % (len as int),
                contents_of_all(batch@) == gathered(shards0, s as int, i as nat, max as nat),
                batch@.len() == gathered(shards0, s as int, i as nat, max as nat).len(),
                self.shards() == after_gather(shards0, s as int, i as nat, max as nat),
            decreases len - i,
        {
            let idx = if i < len - s { s + i } else { i - (len - s) };
            proof {
                lemma_rotation_step(s as int, i as int, len as int);
                assert(idx == rotated(s as int, i as int, len as int));
            }
            let ghost before_shards = self.shards();
            let ghost before_caps = self.capacities();
            pop_into(&mut self.queues[idx], &mut batch, max);
            proof {
                let g = gathered(shards0, s as int, i as nat, max as nat);
                let sh = shards0[idx as int];
                assert(before_shards[idx as int] == sh);
                assert(gathered(shards0, s as int, (i + 1) as nat, max as nat) == g + sh.take(fill(sh.len(), g.len(), max as nat) as int));
                assert(self.shards() =~= after_gather(shards0, s as int, (i + 1) as nat, max as nat)) by {
                    assert forall|j: int| 0 <= j < len implies self.shards()[j] == after_gather(shards0, s as int, (i + 1) as nat, max as nat)[j] by {
                        if j != idx {
                            assert(self.queues@[j] == old(self).queues@[j] || self.shards()[j] == before_shards[j]);
                        }
                    }
                }
                assert(self.capacities() =~= before_caps);
            }
            i += 1;
        }
        proof {
            lemma_gathered_len(shards0, s as int, len as nat, max as nat);
            lemma_gathered_count(shards0, s as int, len as nat, max as nat);
            lemma_rotation_total(shards0, s as int);
            let n = len as int;
            let fin = self.shards();
            let taken = Seq::new(len as nat, |j: int| shards0[j].len() - fin[j].len());
            assert forall|j: int| 0 <= j < n implies #[trigger] taken[j] == fill(
                shards0[j].len(),
                gathered(shards0, s as int, step_of(s as int, j, n) as nat, max as nat).len(),
                max as nat,
            ) && 0 <= taken[j] && fin[j] == shards0[j].skip(taken[j]) by {
                let k = fill(
                    shards0[j].len(),
                    gathered(shards0, s as int, step_of(s as int, j, n) as nat, max as nat).len(),
                    max as nat,
                );
                assert(step_of(s as int, j, n) < n);
                assert(fin[j] == shards0[j].skip(k as int));
            }
            lemma_gathered_runs(shards0, s as int, len as nat, max as nat, taken);
            if n == 1 {
                assert(s == 0);
                assert(rotated(0, 0, 1) == 0);
                assert(gathered(shards0, 0, 0, max as nat) =~= Seq::<Seq<u8>>::empty());
                assert(gathered(shards0, 0, 1, max as nat) =~= Seq::<Seq<u8>>::empty() + shards0[0].take(
                    fill(shards0[0].len(), 0, max as nat) as int,
                ));
                assert(fill(shards0[0].len(), 0, max as nat) == min_nat(max as nat, shards0[0].len()));
            }
        }
        batch
    }

    /// Deals the messages in rotation from shard `push_counter %
    /// num_shards` over the parallel shards, bumping the counter for each,
    /// and stops at the first message whose shard is full (that message and
    /// the rest are dropped).
    fn push_batch(&mut self, msgs: Vec<Bytes>) -> (pushed: usize)
        ensures
            ({
                let c = old(self).push_counter();
                let n = old(self).num_shards();
                let m = contents_of_all(msgs@);
                let got = dealt(m, c, n, pushed as nat);
                &&& final(self).parallel_shards() == with_received(old(self).parallel_shards(), got)
                &&& pushed < msgs@.len() ==> {
                    let j = (bumped(c, pushed as nat) as int) % (n as int);
                    old(self).parallel_shards()[j].len() + got[j].len() >= old(self).parallel_capacities()[j]
                }
                &&& final(self).push_counter() == bumped(c, if pushed < msgs@.len() { (pushed + 1) as nat } else { pushed as nat })
            }),
            final(self).num_shards() == old(self).num_shards(),
            final(self).shards() == old(self).shards(),
            final(self).capacities() == old(self).capacities(),
            final(self).parallel_capacities() == old(self).parallel_capacities(),
            final(self).pop_rotation() == old(self).pop_rotation(),
            final(self).wf(),
    {
        let ghost c = old(self).push_counter();
        let ghost n = old(self).num_shards();
        let ghost all = contents_of_all(msgs@);
        let ghost p0 = old(self).parallel_shards();
        let ghost order = msgs@;
        let count = msgs.len();
        assert(p0.len() == n);
        let mut msgs = reversed(msgs);
        assert(order.subrange(0, order.len() as int) =~= order);
        let mut pushed: usize = 0;
        proof {
            lemma_dealt_len(all, c, n, 0);
            assert(with_received(p0, dealt(all, c, n, 0)) =~= p0);
        }
        while pushed < count
            invariant_except_break
                count == order.len(),
                pushed <= count,
                msgs@ =~= order.subrange(pushed as int, order.len() as int).reverse(),
                all == contents_of_all(order),
                self.wf(),
                n == self.num_shards(),
                n == old(self).num_shards(),
                count > 0 ==> n > 0,
                p0 == old(self).parallel_shards(),
                p0.len() == n,
                c == old(self).push_counter(),
                self.counter == bumped(c, pushed as nat),
                self.parallel_shards() == with_received(p0, dealt(all, c, n, pushed as nat)),
                self.parallel_capacities() == old(self).parallel_capacities(),
                self.shards() == old(self).shards(),
                self.capacities() == old(self).capacities(),
                self.pop_counter == old(self).pop_counter,
            ensures
                self.wf(),
                n == self.num_shards(),
                self.shards() == old(self).shards(),
                self.capacities() == old(self).capacities(),
                self.pop_counter == old(self).pop_counter,
                self.parallel_capacities() == old(self).parallel_capacities(),
                pushed <= count,
                self.parallel_shards() == with_received(p0, dealt(all, c, n, pushed as nat)),
                pushed < count ==> {
                    let j = (bumped(c, pushed as nat) as int) % (n as int);
                    p0[j].len() + dealt(all, c, n, pushed as nat)[j].len() >= old(self).parallel_capacities()[j]
                },
                self.counter == bumped(c, if pushed < count { (pushed + 1) as nat } else { pushed as nat }),
            decreases count - pushed,
        {
            assert(msgs@.len() > 0);
            let msg = msgs.pop().unwrap();
            assert(msg == order[pushed as int]);
            assert(msgs@ =~= order.subrange(pushed + 1, order.len() as int).reverse());
            let idx = self.next_shard();
            proof {
                lemma_bump_step(c, pushed as nat);
            }
            let ghost before_par = self.parallel_shards();
            let ghost d = dealt(all, c, n, pushed as nat);
            proof {
                lemma_dealt_len(all, c, n, pushed as nat);
                assert(0 <= idx < n);
                assert(before_par == with_received(p0, d));
                assert(with_received(p0, d)[idx as int] == p0[idx as int] + d[idx as int]);
            }
            let ok = array_queue_push(&mut self.parallel_queues[idx], msg);
            if ok {
                proof {
                    let d1 = dealt(all, c, n, (pushed + 1) as nat);
                    assert(all[pushed as int] == bytes_contents(msg));
                    assert(d1 == d.update(idx as int, d[idx as int].push(all[pushed as int])));
                    lemma_dealt_len(all, c, n, (pushed + 1) as nat);
                    assert(self.parallel_shards() =~= with_received(p0, d1)) by {
                        assert forall|j: int| 0 <= j < n implies #[trigger] self.parallel_shards()[j] == with_received(p0, d1)[j] by {
                            if j == idx {
                                assert(p0[j] + d1[j] =~= (p0[j] + d[j]).push(all[pushed as int]));
                            } else {
                                assert(self.parallel_shards()[j] == before_par[j]);
                                assert(d1[j] == d[j]);
                            }
                        }
                    }
                }
                pushed += 1;
            } else {
                proof {
                    assert(self.parallel_shards() =~= before_par);
                }
                break;
            }
            assert(self.parallel_capacities() =~= old(self).parallel_capacities());
        }
        pushed
    }
}

impl ShardedQueue {
    /// The number of shards.
    pub fn shard_count(&self) -> (n: usize)
        ensures
            n == self.num_shards(),
    {
        self.queues.len()
    }

    /// Takes from each parallel shard, in order, at most
    /// `max(max / num_shards, 1)` messages, oldest first, and returns them
    /// one shard after the other.
    pub fn pop_batch_parallel(&mut self, max: usize) -> (batch: Vec<Bytes>)
        requires
            old(self).wf(),
            old(self).num_shards() > 0,
        ensures
            ({
                let n = old(self).num_shards();
                let per = if max as int / n as int > 1 { (max as int / n as int) as nat } else { 1nat };
                &&& contents_of_all(batch@) == drained(old(self).parallel_shards(), per, n)
                &&& final(self).parallel_shards() == Seq::new(
                    n,
                    |i: int| old(self).parallel_shards()[i].skip(min_nat(per, old(self).parallel_shards()[i].len()) as int),
                )
            }),
            final(self).wf(),
            final(self).num_shards() == old(self).num_shards(),
            final(self).shards() == old(self).shards(),
            final(self).capacities() == old(self).capacities(),
            final(self).parallel_capacities() == old(self).parallel_capacities(),
            final(self).push_counter() == old(self).push_counter(),
            final(self).pop_rotation() == old(self).pop_rotation(),
    {
        let num_shards = self.queues.len();
        let quotient = max / num_shards;
        let per_shard = if quotient > 1 { quotient } else { 1 };
        let ghost p0 = old(self).parallel_shards();
        let mut batch: Vec<Bytes> = Vec::new();
        let mut i: usize = 0;
        assert(contents_of_all(batch@) =~= Seq::<Seq<u8>>::empty());
        while i < num_shards
            invariant
                self.wf(),
                num_shards == self.queues@.len(),
                num_shards == old(self).queues@.len(),
                self.queues == old(self).queues,
                self.counter == old(self).counter,
                self.pop_counter == old(self).pop_counter,
                p0 == old(self).parallel_shards(),
                i <= num_shards,
                self.parallel_capacities() == old(self).parallel_capacities(),
                contents_of_all(batch@) == drained(p0, per_shard as nat, i as nat),
                forall|j: int| 0 <= j < num_shards ==> #[trigger] self.parallel_shards()[j] == if j < i {
                    p0[j].skip(min_nat(per_shard as nat, p0[j].len()) as int)
                } else {
                    p0[j]
                },
            decreases num_shards - i,
        {
            let mut msgs: Vec<Bytes> = Vec::new();
            let ghost before_par = self.parallel_shards();
            let ghost before_caps = self.parallel_capacities();
            pop_into(&mut self.parallel_queues[i], &mut msgs, per_shard);
            let ghost before = batch@;
            batch.append(&mut msgs);
            proof {
                assert(before_par[i as int] == p0[i as int]);
                assert(fill(p0[i as int].len(), 0, per_shard as nat) == min_nat(per_shard as nat, p0[i as int].len()));
                assert(contents_of_all(Seq::<Bytes>::empty()) =~= Seq::<Seq<u8>>::empty());
                assert(contents_of_all(batch@) =~= contents_of_all(before) + p0[i as int].take(
                    min_nat(per_shard as nat, p0[i as int].len()) as int,
                ));
                assert forall|j: int| 0 <= j < num_shards implies #[trigger] self.parallel_shards()[j] == if j < i + 1 {
                    p0[j].skip(min_nat(per_shard as nat, p0[j].len()) as int)
                } else {
                    p0[j]
                } by {
                    if j != i {
                        assert(self.parallel_shards()[j] == before_par[j]);
                    }
                }
                assert(self.parallel_capacities() =~= before_caps);
            }
            i += 1;
        }
        assert(self.parallel_shards() =~= Seq::new(
            num_shards as nat,
            |i: int| p0[i].skip(min_nat(per_shard as nat, p0[i].len()) as int),
        ));
        batch
    }
}

#[verifier::external_type_specification]
#[verifier::external_body]
#[verifier::reject_recursive_types(T)]
pub struct ExMpscSender<T>(tokio::sync::mpsc::Sender<T>);

#[verifier::external_type_specification]
#[verifier::external_body]
#[verifier::reject_recursive_types(T)]
pub struct ExMpscReceiver<T>(tokio::sync::mpsc::Receiver<T>);

/// The number of messages the channel of a sender was made to hold (what
/// `mpsc::Sender::max_capacity` reports; it is fixed when the channel is made).
pub uninterp spec fn mpsc_capacity(s: mpsc::Sender<Bytes>) -> nat;

/// `tokio::sync::mpsc::channel`, which panics on a zero capacity and on one
/// above `usize::MAX >> 3` (the most permits its semaphore takes). Claimed:
/// the channel holds at most `capacity` messages, and holds none yet.
#[verifier::external_body]
fn mpsc_channel(capacity: usize) -> (r: (mpsc::Sender<Bytes>, mpsc::Receiver<Bytes>))
    requires
        0 < capacity <= usize::MAX >> 3,
    ensures
        mpsc_capacity(r.0) == capacity,
        mpsc_queued(r.1) == Seq::<Seq<u8>>::empty(),
{
    mpsc::channel(capacity)
}

/// `<mpsc::Sender as Clone>::clone`: another handle to the same channel.
/// Claimed: the handle's channel has the same capacity.
#[verifier::external_body]
fn mpsc_sender_clone(sender: &mpsc::Sender<Bytes>) -> (r: mpsc::Sender<Bytes>)
    ensures
        mpsc_capacity(r) == mpsc_capacity(*sender),
{
    sender.clone()
}

/// One step of receiving into a batch of at most `max` messages: a received
/// message goes at the back of the batch, and receiving goes on while the
/// batch has room; when nothing was received, the batch stays as it is and
/// receiving stops.
pub fn take_received(batch: &mut Vec<Bytes>, received: Option<Bytes>, max: usize) -> (more: bool)
    requires
        old(batch)@.len() < max,
    ensures
        match received {
            Some(msg) => final(batch)@ == old(batch)@.push(msg) && more == (final(batch)@.len() < max),
            None => final(batch)@ == old(batch)@ && !more,
        },
{
    match received {
        Some(msg) => {
            batch.push(msg);
            batch.len() < max
        },
        None => false,
    }
}

/// The messages waiting in the channel of a receiver, oldest first. Only
/// spoken of while the receiver's queue holds the channel's one sender.
pub uninterp spec fn mpsc_queued(r: mpsc::Receiver<Bytes>) -> Seq<Seq<u8>>;

/// `mpsc::Sender::try_send` on the queue's own sender; `true` when the
/// message was taken. While no sender was handed out, the queue's sender is
/// the channel's only one and the queue holds its receiver, so the channel
/// is open and nothing else adds to it: it refuses a message exactly when it
/// holds `capacity` messages. Claimed then: the message is taken, at the
/// back, exactly when the channel was not full. Once a sender was handed
/// out, others may fill the channel, and nothing is claimed of the outcome.
#[verifier::external_body]
fn mpsc_try_send(q: &mut MpscQueue, msg: Bytes) -> (sent: bool)
    ensures
        final(q).sender == old(q).sender,
        final(q).handed_out == old(q).handed_out,
        !old(q).handed_out ==> {
            &&& sent == (mpsc_queued(old(q).receiver).len() < mpsc_capacity(old(q).sender))
            &&& mpsc_queued(final(q).receiver) == if sent {
                mpsc_queued(old(q).receiver).push(bytes_contents(msg))
            } else {
                mpsc_queued(old(q).receiver)
            }
        },
{
    q.sender.try_send(msg).is_ok()
}

/// `mpsc::Receiver::try_recv` on the queue's receiver; `None` when nothing
/// could be received. While no sender was handed out, the channel is open
/// and only this queue adds to it. Claimed then: the oldest message is
/// removed and returned, or `None` when the channel is empty. Once a sender
/// was handed out, nothing is claimed of what arrives.
#[verifier::external_body]
fn mpsc_try_recv(q: &mut MpscQueue) -> (r: Option<Bytes>)
    ensures
        final(q).sender == old(q).sender,
        final(q).handed_out == old(q).handed_out,
        !old(q).handed_out ==> match r {
            Some(msg) => mpsc_queued(old(q).receiver).len() > 0 && bytes_contents(msg) == mpsc_queued(
                old(q).receiver,
            )[0] && mpsc_queued(final(q).receiver) == mpsc_queued(old(q).receiver).drop_first(),
            None => mpsc_queued(old(q).receiver).len() == 0 && mpsc_queued(final(q).receiver) == mpsc_queued(
                old(q).receiver,
            ),
        },
{
    q.receiver.try_recv().ok()
}

/// A bounded channel used as a queue. Its senders can be handed out, so
/// others may push to it too; until one is, the queue is a bounded FIFO
/// queue of its own.
pub struct MpscQueue {
    sender: mpsc::Sender<Bytes>,
    receiver: mpsc::Receiver<Bytes>,
    handed_out: bool,
    last_send_taken: Ghost<bool>,
    last_receive_empty: Ghost<bool>,
}

impl MpscQueue {
    /// How many messages the queue can hold.
    pub closed spec fn capacity(&self) -> nat {
        mpsc_capacity(self.sender)
    }

    /// Whether a sender into this queue was handed out.
    pub closed spec fn shared(&self) -> bool {
        self.handed_out
    }

    /// Whether the channel took the message of the last send.
    pub closed spec fn last_send_taken(&self) -> bool {
        self.last_send_taken@
    }

    /// Whether the last receive found the channel with nothing ready.
    pub closed spec fn last_receive_empty(&self) -> bool {
        self.last_receive_empty@
    }

    /// The messages waiting, oldest first (meaningful while not shared).
    pub closed spec fn items(&self) -> Seq<Seq<u8>> {
        mpsc_queued(self.receiver)
    }

    /// An empty queue for at most `capacity` messages (`capacity` must not
    /// be zero, nor above `usize::MAX >> 3`).
    pub fn new(capacity: usize) -> (q: MpscQueue)
        requires
            0 < capacity <= usize::MAX >> 3,
        ensures
            q.capacity() == capacity,
            !q.shared(),
            q.items() == Seq::<Seq<u8>>::empty(),
    {
        let (sender, receiver) = mpsc_channel(capacity);
        MpscQueue {
            sender,
            receiver,
            handed_out: false,
            last_send_taken: Ghost(false),
            last_receive_empty: Ghost(true),
        }
    }

    /// Another sender into this queue, whose channel has this queue's
    /// capacity. From now on others may push to the queue.
    pub fn sender(&mut self) -> (s: mpsc::Sender<Bytes>)
        ensures
            mpsc_capacity(s) == old(self).capacity(),
            final(self).capacity() == old(self).capacity(),
            final(self).shared(),
    {
        self.handed_out = true;
        mpsc_sender_clone(&self.sender)
    }
}

impl MessageQueue for MpscQueue {
    open spec fn push_ok(&self) -> bool {
        true
    }

    /// Pushing a batch is not provided by this queue.
    open spec fn push_batch_ok(&self, count: nat) -> bool {
        false
    }

    /// While no sender was handed out: accepted, at the back, exactly when
    /// the queue is not full.
    fn push(&mut self, msg: Bytes) -> (r: Result<(), ()>)
        ensures
            final(self).capacity() == old(self).capacity(),
            final(self).shared() == old(self).shared(),
            r is Ok == final(self).last_send_taken(),
            !old(self).shared() ==> {
                &&& r is Ok == (old(self).items().len() < old(self).capacity())
                &&& final(self).items() == if r is Ok {
                    old(self).items().push(bytes_contents(msg))
                } else {
                    old(self).items()
                }
            },
    {
        let sent = mpsc_try_send(self, msg);
        self.last_send_taken = Ghost(sent);
        if sent {
            Ok(())
        } else {
            Err(())
        }
    }

    /// Receives until `max` messages were taken or nothing more is ready.
    /// While no sender was handed out: the oldest `min(max, held)` messages,
    /// removed from the queue.
    fn pop_batch(&mut self, max: usize) -> (batch: Vec<Bytes>)
        ensures
            final(self).capacity() == old(self).capacity(),
            final(self).shared() == old(self).shared(),
            batch@.len() < max ==> final(self).last_receive_empty(),
            !old(self).shared() ==> {
                &&& contents_of_all(batch@) == old(self).items().take(min_nat(max as nat, old(self).items().len()) as int)
                &&& final(self).items() == old(self).items().skip(min_nat(max as nat, old(self).items().len()) as int)
            },
    {
        let ghost start = old(self).items();
        let mut batch: Vec<Bytes> = Vec::new();
        assert(start.take(0) =~= Seq::<Seq<u8>>::empty());
        assert(start.skip(0) =~= start);
        while batch.len() < max
            invariant_except_break
                batch@.len() <= max,
                self.capacity() == old(self).capacity(),
                self.shared() == old(self).shared(),
                start == old(self).items(),
                !self.shared() ==> {
                    &&& batch@.len() <= start.len()
                    &&& contents_of_all(batch@) == start.take(batch@.len() as int)
                    &&& self.items() == start.skip(batch@.len() as int)
                },
            ensures
                batch@.len() <= max,
                self.capacity() == old(self).capacity(),
                self.shared() == old(self).shared(),
                batch@.len() < max ==> self.last_receive_empty(),
                !self.shared() ==> {
                    &&& contents_of_all(batch@) == start.take(min_nat(max as nat, start.len()) as int)
                    &&& self.items() == start.skip(min_nat(max as nat, start.len()) as int)
                },
            decreases max - batch@.len(),
        {
            let ghost before = batch@;
            let received = mpsc_try_recv(self);
            self.last_receive_empty = Ghost(received is None);
            let more = take_received(&mut batch, received, max);
            proof {
                if !self.shared() {
                    let i = before.len() as int;
                    if received is Some {
                        assert(start.take(i + 1) =~= start.take(i).push(start[i]));
                        assert(start.skip(i + 1) =~= start.skip(i).drop_first());
                        assert(contents_of_all(batch@) =~= contents_of_all(before).push(start[i]));
                    }
                }
            }
            if !more {
                break;
            }
        }
        batch
    }

    fn push_batch(&mut self, msgs: Vec<Bytes>) -> (pushed: usize) {
        0
    }
}

/// The messages of the first `count` shards, one shard after the other.
pub open spec fn flatten(shards: Seq<Seq<Seq<u8>>>, count: nat) -> Seq<Seq<u8>>
    decreases count,
{
    if count == 0 {
        Seq::empty()
    } else {
        flatten(shards, (count - 1) as nat) + shards[count - 1]
    }
}

/// Draining shards that each hold at most `per` messages takes them all,
/// one shard after the other.
proof fn lemma_drained_all(shards: Seq<Seq<Seq<u8>>>, per: nat, count: nat)
    requires
        count <= shards.len(),
        forall|s: int| 0 <= s < shards.len() ==> #[trigger] shards[s].len() <= per,
    ensures
        drained(shards, per, count) == flatten(shards, count),
    decreases count,
{
    if count > 0 {
        lemma_drained_all(shards, per, (count - 1) as nat);
        let s = shards[count - 1];
        assert(min_nat(per, s.len()) == s.len());
        assert(s.take(s.len() as int) =~= s);
    }
}

/// What `push_batch` deals to empty parallel shards, `pop_batch_parallel`
/// gives back whole, grouped by shard in shard order and in push order
/// within a shard, and the shards are left empty, provided no shard
/// received more than the share `per` taken from each.
pub proof fn lemma_push_batch_then_parallel_pop(got: Seq<Seq<Seq<u8>>>, per: nat)
    requires
        forall|s: int| 0 <= s < got.len() ==> #[trigger] got[s].len() <= per,
    ensures
        ({
            let shards = with_received(Seq::new(got.len(), |s: int| Seq::<Seq<u8>>::empty()), got);
            &&& drained(shards, per, got.len()) == flatten(got, got.len())
            &&& Seq::new(got.len(), |i: int| shards[i].skip(min_nat(per, shards[i].len()) as int))
                == Seq::new(got.len(), |i: int| Seq::<Seq<u8>>::empty())
        }),
{
    let shards = with_received(Seq::new(got.len(), |s: int| Seq::<Seq<u8>>::empty()), got);
    assert(shards =~= got) by {
        assert forall|s: int| 0 <= s < got.len() implies shards[s] == got[s] by {
            assert(Seq::<Seq<u8>>::empty() + got[s] =~= got[s]);
        }
    }
    lemma_drained_all(got, per, got.len());
    assert forall|i: int| 0 <= i < got.len() implies #[trigger] shards[i].skip(min_nat(per, shards[i].len()) as int)
        =~= Seq::<Seq<u8>>::empty() by {
        assert(shards[i] == got[i]);
        assert(min_nat(per, got[i].len()) == got[i].len());
    }
    assert(Seq::new(got.len(), |i: int| shards[i].skip(min_nat(per, shards[i].len()) as int))
        =~= Seq::new(got.len(), |i: int| Seq::<Seq<u8>>::empty()));
}

/// A counter bumped from zero counts without wrapping up to `usize::MAX`.
proof fn lemma_bumped_from_zero(k: nat)
    requires
        k <= usize::MAX,
    ensures
        bumped(0, k) == k,
    decreases k,
{
    if k > 0 {
        lemma_bumped_from_zero((k - 1) as nat);
    }
}

/// Adding one to a number adds one to its quotient exactly when the sum is
/// a multiple.
proof fn lemma_div_step(x: int, n: int)
    requires
        n > 0,
        x >= 0,
    ensures
        (x + 1) / n == x / n + (if (x + 1) % n == 0 { 1int } else { 0int }),
{
    let q = x / n;
    let r = x % n;
    lemma_fundamental_div_mod(x, n);
    assert(0 <= r < n);
    if r + 1 < n {
        assert(x + 1 == q * n + (r + 1)) by (nonlinear_arith)
            requires
                x == n * q + r,
        ;
        lemma_fundamental_div_mod_converse(x + 1, n, q, r + 1);
    } else {
        assert(x + 1 == (q + 1) * n + 0) by (nonlinear_arith)
            requires
                x == n * q + r,
                r + 1 == n,
        ;
        lemma_fundamental_div_mod_converse(x + 1, n, q + 1, 0);
    }
}

/// Message `k` of a rotation from shard 0 goes to shard `s` exactly when
/// `k + n - s` is a multiple of `n`.
proof fn lemma_shard_of(k: int, n: int, s: int)
    requires
        n > 0,
        k >= 0,
        0 <= s < n,
    ensures
        (k % n == s) == ((k + n - s) % n == 0),
{
    let a = k / n;
    let b = k % n;
    lemma_fundamental_div_mod(k, n);
    assert(0 <= b < n);
    if b >= s {
        assert(k + n - s == (a + 1) * n + (b - s)) by (nonlinear_arith)
            requires
                k == n * a + b,
        ;
        lemma_fundamental_div_mod_converse(k + n - s, n, a + 1, b - s);
    } else {
        assert(k + n - s == a * n + (n + b - s)) by (nonlinear_arith)
            requires
                k == n * a + b,
        ;
        lemma_fundamental_div_mod_converse(k + n - s, n, a, n + b - s);
    }
}

/// Dealing `k` messages in rotation from shard 0 over `n` shards gives
/// shard `s` one message in `n`: `(k + n - 1 - s) / n` of them.
pub proof fn lemma_dealt_counts(msgs: Seq<Seq<u8>>, n: nat, k: nat)
    requires
        n > 0,
        k <= usize::MAX,
    ensures
        dealt(msgs, 0, n, k).len() == n,
        forall|s: int| 0 <= s < n ==> #[trigger] dealt(msgs, 0, n, k)[s].len() == (k + n - 1 - s) / (n as int),
    decreases k,
{
    lemma_dealt_len(msgs, 0, n, k);
    if k == 0 {
        assert forall|s: int| 0 <= s < n implies #[trigger] dealt(msgs, 0, n, k)[s].len() == (k + n - 1 - s) / (n as int) by {
            lemma_fundamental_div_mod_converse(n - 1 - s, n as int, 0, n - 1 - s);
        }
    } else {
        lemma_dealt_counts(msgs, n, (k - 1) as nat);
        lemma_bumped_from_zero((k - 1) as nat);
        let j = (k - 1) % (n as int);
        assert forall|s: int| 0 <= s < n implies #[trigger] dealt(msgs, 0, n, k)[s].len() == (k + n - 1 - s) / (n as int) by {
            lemma_div_step(k - 1 + n - 1 - s, n as int);
            lemma_shard_of(k - 1, n as int, s);
            let before = dealt(msgs, 0, n, (k - 1) as nat);
            if s == j {
                assert(dealt(msgs, 0, n, k)[s] == before[s].push(msgs[k - 1]));
            } else {
                assert(dealt(msgs, 0, n, k)[s] == before[s]);
            }
        }
    }
}

/// The round trip of a fresh sharded queue: when `push_batch` deals `k`
/// messages over `n` empty parallel shards from counter 0, and each
/// parallel pop may take `per` messages from every shard where `per * n`
/// covers `k`, `pop_batch_parallel` gives back all the messages, grouped by
/// shard (message `i` in shard `i % n`, in push order), and leaves every
/// shard empty.
pub proof fn lemma_fresh_push_batch_then_parallel_pop(msgs: Seq<Seq<u8>>, n: nat, k: nat, per: nat)
    requires
        n > 0,
        k <= usize::MAX,
        per * n >= k,
    ensures
        ({
            let got = dealt(msgs, 0, n, k);
            let shards = with_received(Seq::new(n, |s: int| Seq::<Seq<u8>>::empty()), got);
            &&& drained(shards, per, n) == flatten(got, n)
            &&& Seq::new(n, |i: int| shards[i].skip(min_nat(per, shards[i].len()) as int))
                == Seq::new(n, |i: int| Seq::<Seq<u8>>::empty())
        }),
{
    lemma_dealt_counts(msgs, n, k);
    let got = dealt(msgs, 0, n, k);
    assert forall|s: int| 0 <= s < got.len() implies #[trigger] got[s].len() <= per by {
        let x = k + n - 1 - s;
        assert(x < (per + 1) * n) by (nonlinear_arith)
            requires
                per * n >= k,
                x == k + n - 1 - s,
                0 <= s,
        ;
        lemma_fundamental_div_mod(x, n as int);
        assert(x / (n as int) <= per) by (nonlinear_arith)
            requires
                x == (n as int) * (x / (n as int)) + x % (n as int),
                x % (n as int) >= 0,
                x < (per + 1) * n,
                n > 0,
        ;
    }
    lemma_push_batch_then_parallel_pop(got, per);
}

} // verus!
