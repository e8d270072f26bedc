//! The table of queues in which parked threads wait.

use crate::thread_data::ThreadData;
use crate::tokens::UnparkToken;
use vstd::prelude::*;

verus! {

/// The largest number of threads that the parking lot has records for.
pub const MAX_THREADS: usize = usize::MAX / 256;

/// A queue of parked threads, linked through their records.
pub struct Bucket {
    /// The first thread of the queue.
    pub queue_head: Option<usize>,
    /// The last thread of the queue.
    pub queue_tail: Option<usize>,
    /// The threads of the queue, from first to last.
    pub queue: Ghost<Seq<usize>>,
}

/// The thread that stands at `pos` in a queue, where there is one.
pub open spec fn thread_at(queue: Seq<usize>, pos: int) -> Option<usize> {
    if 0 <= pos < queue.len() {
        Some(queue[pos])
    } else {
        None
    }
}

/// The threads of `queue` that are not among `gone`, in order.
pub open spec fn without(queue: Seq<usize>, gone: Seq<usize>) -> Seq<usize> {
    queue.filter(absent_from(gone))
}

/// Tells whether a thread is not among `gone`.
pub open spec fn absent_from(gone: Seq<usize>) -> spec_fn(usize) -> bool {
    |t: usize| !gone.contains(t)
}

/// Predicates that agree on the items of a sequence filter it alike.
pub(crate) proof fn lemma_filter_agree<A>(
    s: Seq<A>,
    p: spec_fn(A) -> bool,
    q: spec_fn(A) -> bool,
)
    requires
        forall|i: int| 0 <= i < s.len() ==> p(#[trigger] s[i]) == q(s[i]),
    ensures
        s.filter(p) == s.filter(q),
    decreases s.len(),
{
    reveal(Seq::filter);
    if s.len() > 0 {
        assert forall|i: int| 0 <= i < s.drop_last().len() implies p(
            #[trigger] s.drop_last()[i],
        ) == q(s.drop_last()[i]) by {
            assert(s.drop_last()[i] == s[i]);
        }
        lemma_filter_agree(s.drop_last(), p, q);
    }
}

/// What filtering gives of no items.
pub(crate) proof fn lemma_filter_none<A>(s: Seq<A>, p: spec_fn(A) -> bool)
    ensures
        s.take(0).filter(p) == Seq::<A>::empty(),
{
    reveal(Seq::filter);
    assert(s.take(0) == Seq::<A>::empty());
}

/// What filtering gives of one more item of a sequence.
pub(crate) proof fn lemma_filter_step<A>(s: Seq<A>, i: int, p: spec_fn(A) -> bool)
    requires
        0 <= i < s.len(),
    ensures
        s.take(i + 1).filter(p) == (if p(s[i]) {
            s.take(i).filter(p).push(s[i])
        } else {
            s.take(i).filter(p)
        }),
{
    reveal(Seq::filter);
    assert(s.take(i + 1).drop_last() == s.take(i));
}

/// What is left of one more thread of a queue, whether that thread joins those that are gone or
/// not.
pub(crate) proof fn lemma_without_step(queue: Seq<usize>, i: int, gone: Seq<usize>)
    requires
        queue.no_duplicates(),
        0 <= i < queue.len(),
        forall|j: int| 0 <= j < gone.len() ==> queue.take(i).contains(#[trigger] gone[j]),
    ensures
        without(queue.take(i + 1), gone) == without(queue.take(i), gone).push(queue[i]),
        without(queue.take(i + 1), gone.push(queue[i])) == without(queue.take(i), gone),
{
    let x = queue[i];
    lemma_filter_step(queue, i, absent_from(gone));
    lemma_filter_step(queue, i, absent_from(gone.push(x)));
    assert(!gone.contains(x)) by {
        if gone.contains(x) {
            let j = choose|j: int| 0 <= j < gone.len() && gone[j] == x;
            assert(queue.take(i).contains(gone[j]));
            let k = choose|k: int| 0 <= k < i && queue.take(i)[k] == x;
            assert(queue[k] == queue[i]);
        }
    }
    assert(gone.push(x)[gone.len() as int] == x);
    assert forall|k: int| 0 <= k < i implies absent_from(gone)(#[trigger] queue.take(i)[k])
        == absent_from(gone.push(x))(queue.take(i)[k]) by {
        let y = queue.take(i)[k];
        assert(y == queue[k] && y != x);
        if gone.contains(y) {
            let j = choose|j: int| 0 <= j < gone.len() && gone[j] == y;
            assert(gone.push(x)[j] == y);
        }
        if gone.push(x).contains(y) {
            let j = choose|j: int| 0 <= j < gone.push(x).len() && gone.push(x)[j] == y;
            assert(gone[j] == y);
        }
    }
    lemma_filter_agree(queue.take(i), absent_from(gone), absent_from(gone.push(x)));
}

/// What filtering gives where it takes every item, or none.
pub(crate) proof fn lemma_filter_uniform<A>(s: Seq<A>, p: spec_fn(A) -> bool, taken: bool)
    requires
        forall|i: int| 0 <= i < s.len() ==> p(#[trigger] s[i]) == taken,
    ensures
        s.filter(p) == (if taken {
            s
        } else {
            Seq::<A>::empty()
        }),
    decreases s.len(),
{
    reveal(Seq::filter);
    if s.len() > 0 {
        assert forall|i: int| 0 <= i < s.drop_last().len() implies p(
            #[trigger] s.drop_last()[i],
        ) == taken by {
            assert(s.drop_last()[i] == s[i]);
        }
        lemma_filter_uniform(s.drop_last(), p, taken);
        assert(s.drop_last().push(s.last()) == s);
    }
}

/// What is left of a queue without the one thread at `pos`.
pub(crate) proof fn lemma_without_one(queue: Seq<usize>, pos: int)
    requires
        queue.no_duplicates(),
        0 <= pos < queue.len(),
    ensures
        without(queue, seq![queue[pos]]) == queue.remove(pos),
    decreases queue.len(),
{
    reveal(Seq::filter);
    let gone = seq![queue[pos]];
    let shorter = queue.drop_last();
    assert(gone[0] == queue[pos]);
    if pos == queue.len() - 1 {
        assert forall|i: int| 0 <= i < shorter.len() implies absent_from(gone)(
            #[trigger] shorter[i],
        ) by {
            assert(shorter[i] == queue[i]);
        }
        lemma_filter_uniform(shorter, absent_from(gone), true);
        assert(queue.remove(pos) == shorter);
    } else {
        lemma_without_one(shorter, pos);
        assert(absent_from(gone)(queue.last()));
        assert(queue.remove(pos) == shorter.remove(pos).push(queue.last()));
    }
}

/// What a sequence holds once an item is appended.
pub(crate) proof fn lemma_push_contains(s: Seq<usize>, x: usize, y: usize)
    ensures
        s.push(x).contains(y) <==> s.contains(y) || x == y,
{
    assert(s.push(x)[s.len() as int] == x);
    if s.contains(y) {
        let j = choose|j: int| 0 <= j < s.len() && s[j] == y;
        assert(s.push(x)[j] == y);
    }
    if s.push(x).contains(y) && x != y {
        let j = choose|j: int| 0 <= j < s.push(x).len() && s.push(x)[j] == y;
        assert(s[j] == y);
    }
}

/// What filtering keeps.
pub(crate) proof fn lemma_filter_contains(s: Seq<usize>, p: spec_fn(usize) -> bool, x: usize)
    ensures
        s.filter(p).contains(x) <==> s.contains(x) && p(x),
    decreases s.len(),
{
    reveal(Seq::filter);
    if s.len() > 0 {
        let shorter = s.drop_last();
        lemma_filter_contains(shorter, p, x);
        assert(shorter.push(s.last()) == s);
        lemma_push_contains(shorter, s.last(), x);
        lemma_push_contains(shorter.filter(p), s.last(), x);
    }
}

/// A sequence of distinct numbers below `n` has at most `n` items.
pub(crate) proof fn lemma_distinct_len(s: Seq<usize>, n: nat)
    requires
        s.no_duplicates(),
        forall|i: int| 0 <= i < s.len() ==> #[trigger] s[i] < n,
    ensures
        s.len() <= n,
    decreases n,
{
    if n == 0 {
        if s.len() > 0 {
            assert(s[0] < n);
        }
    } else if exists|p: int| 0 <= p < s.len() && s[p] == n - 1 {
        let p = choose|p: int| 0 <= p < s.len() && s[p] == n - 1;
        let r = s.remove(p);
        assert forall|i: int| 0 <= i < r.len() implies #[trigger] r[i] < n - 1 by {
            let j = if i < p {
                i
            } else {
                i + 1
            };
            assert(r[i] == s[j] && s[j] != s[p]);
        }
        lemma_distinct_len(r, (n - 1) as nat);
    } else {
        lemma_distinct_len(s, (n - 1) as nat);
    }
}

impl Bucket {
    /// Whether the links lead through the threads of the queue, in order and once each.
    pub open spec fn linked(self, threads: Seq<ThreadData>) -> bool {
        let queue = self.queue@;
        &&& self.queue_head == thread_at(queue, 0)
        &&& self.queue_tail == thread_at(queue, queue.len() - 1)
        &&& queue.no_duplicates()
        &&& forall|i: int| 0 <= i < queue.len() ==> #[trigger] queue[i] < threads.len()
        &&& forall|i: int|
            0 <= i < queue.len() ==> (
            #[trigger] threads[queue[i] as int]).next_in_queue == thread_at(queue, i + 1)
    }
}

/// The bucket, among `buckets` of them, in which the threads waiting on `key` are queued.
#[verifier::opaque]
pub open spec fn bucket_of(key: usize, buckets: nat) -> int {
    key as int % buckets as int
}

/// Each key has a bucket.
pub broadcast proof fn lemma_bucket_of(key: usize, buckets: nat)
    requires
        0 < buckets,
    ensures
        0 <= #[trigger] bucket_of(key, buckets) < buckets,
{
    reveal(bucket_of);
}

/// The records of all threads, and the queues of those that are parked.
pub struct ParkingLot {
    /// The records of the threads.
    pub threads: Vec<ThreadData>,
    /// The queues.
    pub entries: Vec<Bucket>,
}

impl ParkingLot {
    /// The threads queued in bucket `b`, from first to last.
    pub open spec fn queue(self, b: int) -> Seq<usize> {
        self.entries@[b].queue@
    }

    /// The bucket of `key`.
    pub open spec fn bucket(self, key: usize) -> int {
        bucket_of(key, self.entries@.len())
    }

    /// The key that thread `t` is waiting on.
    pub open spec fn key(self, t: usize) -> usize {
        self.threads@[t as int].key
    }

    /// Whether thread `t` is parked.
    pub open spec fn queued(self, t: usize) -> bool {
        exists|b: int| 0 <= b < self.entries@.len() && #[trigger] self.queue(b).contains(t)
    }

    /// The threads parked on `key`, in the order in which they parked.
    pub open spec fn waiters(self, key: usize) -> Seq<usize> {
        self.queue(self.bucket(key)).filter(self.waits_on(key))
    }

    /// Tells whether a thread has the given key.
    pub open spec fn waits_on(self, key: usize) -> spec_fn(usize) -> bool {
        |t: usize| self.key(t) == key
    }

    /// The parking lot's invariant: each bucket is a linked queue, and each queued thread stands in
    /// the bucket of its key.
    pub open spec fn wf(self) -> bool {
        &&& 0 < self.entries@.len()
        &&& self.threads@.len() <= MAX_THREADS
        &&& forall|b: int|
            0 <= b < self.entries@.len() ==> (#[trigger] self.entries@[b]).linked(self.threads@)
        &&& forall|b: int, t: usize|
            0 <= b < self.entries@.len() && #[trigger] self.queue(b).contains(t) ==> self.bucket(
                self.key(t),
            ) == b
    }

    /// A parking lot with the given number of buckets, where no thread is known.
    pub fn new(buckets: usize) -> (lot: ParkingLot)
        requires
            0 < buckets,
        ensures
            lot.wf(),
            lot.threads@.len() == 0,
            lot.entries@.len() == buckets,
            forall|b: int| 0 <= b < buckets ==> #[trigger] lot.queue(b) == Seq::<usize>::empty(),
    {
        let mut entries: Vec<Bucket> = Vec::new();
        let mut i: usize = 0;
        while i < buckets
            invariant
                i <= buckets,
                entries@.len() == i,
                forall|b: int|
                    0 <= b < i ==> (#[trigger] entries@[b]).queue_head == None::<usize>
                        && entries@[b].queue_tail == None::<usize> && entries@[b].queue@ == Seq::<
                        usize,
                    >::empty(),
            decreases buckets - i,
        {
            entries.push(Bucket { queue_head: None, queue_tail: None, queue: Ghost(Seq::empty()) });
            i = i + 1;
        }
        ParkingLot { threads: Vec::new(), entries }
    }

    /// Whether `other` has the same records but for their links, and the same queues but for that
    /// of bucket `b`.
    pub open spec fn same_outside(self, other: ParkingLot, b: int) -> bool {
        &&& self.threads@.len() == other.threads@.len()
        &&& self.entries@.len() == other.entries@.len()
        &&& forall|t: int|
            #![trigger self.threads@[t]]
            #![trigger other.threads@[t]]
            0 <= t < self.threads@.len() ==> self.threads@[t].same_but_link(other.threads@[t])
        &&& forall|c: int|
            #![trigger self.queue(c)]
            #![trigger other.queue(c)]
            0 <= c < self.entries@.len() && c != b ==> self.queue(c) == other.queue(c)
    }

    /// Whether `new` is this parking lot after the threads `gone`, which waited on `key`, have been
    /// taken out of their queue and given `token`.
    pub open spec fn unparked(
        self,
        new: ParkingLot,
        key: usize,
        gone: Seq<usize>,
        token: UnparkToken,
    ) -> bool {
        &&& new.threads@.len() == self.threads@.len()
        &&& new.entries@.len() == self.entries@.len()
        &&& forall|t: int|
            0 <= t < self.threads@.len() ==> (if gone.contains(t as usize) {
                self.threads@[t].with_unpark_token(token)
            } else {
                self.threads@[t]
            }).same_but_link(#[trigger] new.threads@[t])
        &&& new.queue(self.bucket(key)) == without(self.queue(self.bucket(key)), gone)
        &&& forall|c: int|
            0 <= c < self.entries@.len() && c != self.bucket(key) ==> #[trigger] new.queue(c)
                == self.queue(c)
    }

    /// Taking threads out of their queue and handing them a token makes them unparked.
    pub(crate) proof fn lemma_unparked(
        self,
        scanned: ParkingLot,
        new: ParkingLot,
        key: usize,
        gone: Seq<usize>,
        token: UnparkToken,
    )
        requires
            self.wf(),
            self.same_outside(scanned, self.bucket(key)),
            scanned.queue(self.bucket(key)) == without(self.queue(self.bucket(key)), gone),
            new.threads@.len() == scanned.threads@.len(),
            new.entries == scanned.entries,
            forall|t: int|
                0 <= t < scanned.threads@.len() ==> #[trigger] new.threads@[t] == (
                if gone.contains(t as usize) {
                    scanned.threads@[t].with_unpark_token(token)
                } else {
                    scanned.threads@[t]
                }),
        ensures
            self.unparked(new, key, gone, token),
    {
        assert forall|c: int|
            0 <= c < self.entries@.len() && c != self.bucket(key) implies #[trigger] new.queue(c)
            == self.queue(c) by {
            assert(new.queue(c) == scanned.queue(c));
        }
    }

    /// A queue is no longer than the list of records.
    pub(crate) proof fn lemma_queue_len(self, b: int)
        requires
            self.wf(),
            0 <= b < self.entries@.len(),
        ensures
            self.queue(b).len() <= self.threads@.len(),
    {
        assert(self.entries@[b].linked(self.threads@));
        lemma_distinct_len(self.queue(b), self.threads@.len());
    }

    /// What becomes of the records does not matter to the queues, as long as keys and links stay.
    pub(crate) proof fn lemma_wf_kept(self, new: ParkingLot)
        requires
            self.wf(),
            new.entries == self.entries,
            new.threads@.len() == self.threads@.len(),
            forall|t: int|
                0 <= t < self.threads@.len() ==> (#[trigger] new.threads@[t]).key
                    == self.threads@[t].key && new.threads@[t].next_in_queue
                    == self.threads@[t].next_in_queue,
        ensures
            new.wf(),
            forall|b: int| #[trigger] new.queue(b) == self.queue(b),
            forall|t: usize| #[trigger] new.queued(t) == self.queued(t),
    {
        assert forall|c: int| 0 <= c < new.entries@.len() implies (
        #[trigger] new.entries@[c]).linked(new.threads@) by {
            assert(self.entries@[c].linked(self.threads@));
        }
        assert forall|c: int, t: usize|
            0 <= c < new.entries@.len() && #[trigger] new.queue(c).contains(t) implies new.bucket(
            new.key(t),
        ) == c by {
            assert(self.queue(c).contains(t));
            assert(self.entries@[c].linked(self.threads@));
        }
        assert forall|t: usize| #[trigger] new.queued(t) == self.queued(t) by {
            if self.queued(t) {
                let b = choose|b: int|
                    0 <= b < self.entries@.len() && #[trigger] self.queue(b).contains(t);
                assert(new.queue(b).contains(t));
            }
            if new.queued(t) {
                let b = choose|b: int|
                    0 <= b < new.entries@.len() && #[trigger] new.queue(b).contains(t);
                assert(self.queue(b).contains(t));
            }
        }
    }

    /// Whether `new` has the same queues and, but for that of thread `t`, the same records.
    pub open spec fn same_but_thread(self, new: ParkingLot, t: usize) -> bool {
        &&& new.entries == self.entries
        &&& new.threads@.len() == self.threads@.len()
        &&& forall|u: int|
            0 <= u < self.threads@.len() && u != t ==> #[trigger] new.threads@[u]
                == self.threads@[u]
    }

    /// Whether each thread that was found deadlocked is known in `new` to have been so.
    pub open spec fn keeps_marks(self, new: ParkingLot) -> bool {
        &&& self.threads@.len() <= new.threads@.len()
        &&& forall|t: int|
            0 <= t < self.threads@.len() && self.threads@[t].deadlock_data.deadlocked ==> (
            #[trigger] new.threads@[t]).deadlock_data.deadlocked
    }

    /// Hands a thread the token that it is unparked with.
    pub(crate) fn set_unpark_token(&mut self, thread: usize, token: UnparkToken)
        requires
            old(self).wf(),
            thread < old(self).threads@.len(),
        ensures
            final(self).wf(),
            final(self).entries == old(self).entries,
            forall|c: int| #[trigger] final(self).queue(c) == old(self).queue(c),
            final(self).threads@ == old(self).threads@.update(
                thread as int,
                old(self).threads@[thread as int].with_unpark_token(token),
            ),
    {
        self.threads[thread].unpark_token = token;
        proof {
            old(self).lemma_wf_kept(*self);
        }
    }

    /// A thread is queued in no bucket but that of its key.
    pub proof fn lemma_queued(self, t: usize)
        requires
            self.wf(),
        ensures
            self.queued(t) <==> self.queue(self.bucket(self.key(t))).contains(t),
            forall|b: int|
                0 <= b < self.entries@.len() && #[trigger] self.queue(b).contains(t) ==> b
                    == self.bucket(self.key(t)),
    {
        let home = self.bucket(self.key(t));
        lemma_bucket_of(self.key(t), self.entries@.len());
        assert(0 <= home < self.entries@.len());
        assert(self.queue(home).contains(t) ==> self.queued(t));
    }

    /// A queue stays linked when the thread at `pos` is bridged over.
    proof fn lemma_unlinked(self, new: ParkingLot, b: int, pos: int)
        requires
            self.wf(),
            0 <= b < self.entries@.len(),
            0 <= pos < self.queue(b).len(),
            new.threads@.len() == self.threads@.len(),
            new.entries@.len() == self.entries@.len(),
            forall|t: int|
                0 <= t < self.threads@.len() ==> (#[trigger] self.threads@[t]).same_but_link(
                    new.threads@[t],
                ),
            forall|t: int|
                0 <= t < self.threads@.len() ==> (
                #[trigger] new.threads@[t]).next_in_queue == (if thread_at(self.queue(b), pos - 1)
                    == Some(t as usize) {
                    thread_at(self.queue(b), pos + 1)
                } else {
                    self.threads@[t].next_in_queue
                }),
            forall|c: int|
                0 <= c < self.entries@.len() && c != b ==> #[trigger] new.entries@[c]
                    == self.entries@[c],
            new.queue(b) == self.queue(b).remove(pos),
            new.entries@[b].queue_head == (if pos == 0 {
                thread_at(self.queue(b), 1)
            } else {
                self.entries@[b].queue_head
            }),
            new.entries@[b].queue_tail == (if pos == self.queue(b).len() - 1 {
                thread_at(self.queue(b), pos - 1)
            } else {
                self.entries@[b].queue_tail
            }),
        ensures
            new.wf(),
    {
        let queue = self.queue(b);
        let rest = new.queue(b);
        assert(self.entries@[b].linked(self.threads@));
        assert(new.entries@[b].linked(new.threads@)) by {
            assert forall|i: int| 0 <= i < rest.len() implies #[trigger] rest[i]
                < new.threads@.len() && new.threads@[rest[i] as int].next_in_queue == thread_at(
                rest,
                i + 1,
            ) by {
                let j = if i < pos {
                    i
                } else {
                    i + 1
                };
                assert(rest[i] == queue[j]);
                assert(self.threads@[queue[j] as int].next_in_queue == thread_at(queue, j + 1));
                if pos > 0 {
                    assert(queue[j] == queue[pos - 1] ==> j == pos - 1);
                }
            }
            assert(rest.no_duplicates());
        }
        assert forall|c: int| 0 <= c < new.entries@.len() implies (
        #[trigger] new.entries@[c]).linked(new.threads@) by {
            if c != b {
                assert(self.entries@[c].linked(self.threads@));
                assert forall|i: int| 0 <= i < new.queue(c).len() implies new.threads@[(
                #[trigger] new.queue(c)[i]) as int].next_in_queue == thread_at(
                    new.queue(c),
                    i + 1,
                ) by {
                    assert(self.queue(c).contains(self.queue(c)[i]));
                    if pos > 0 {
                        assert(self.queue(b).contains(queue[pos - 1]));
                    }
                    assert(self.threads@[self.queue(c)[i] as int].next_in_queue == thread_at(
                        self.queue(c),
                        i + 1,
                    ));
                }
            }
        }
        assert forall|c: int, t: usize|
            0 <= c < new.entries@.len() && #[trigger] new.queue(c).contains(t) implies new.bucket(
            new.key(t),
        ) == c by {
            let i = choose|i: int| 0 <= i < new.queue(c).len() && new.queue(c)[i] == t;
            let j = if c == b && i >= pos {
                i + 1
            } else {
                i
            };
            assert(self.queue(c)[j] == t);
            assert(self.queue(c).contains(t));
            assert(self.entries@[c].linked(self.threads@));
        }
    }

    /// Takes the thread `current`, which stands behind `previous`, out of the queue of bucket `b`.
    pub(crate) fn unlink(
        &mut self,
        b: usize,
        previous: Option<usize>,
        current: usize,
        Ghost(pos): Ghost<int>,
    )
        requires
            old(self).wf(),
            b < old(self).entries@.len(),
            0 <= pos < old(self).queue(b as int).len(),
            old(self).queue(b as int)[pos] == current,
            previous == thread_at(old(self).queue(b as int), pos - 1),
        ensures
            final(self).wf(),
            old(self).same_outside(*final(self), b as int),
            final(self).queue(b as int) == old(self).queue(b as int).remove(pos),
            final(self).threads@[current as int] == old(self).threads@[current as int],
    {
        let ghost queue = self.queue(b as int);
        let ghost rest = queue.remove(pos);
        assert(self.entries@[b as int].linked(self.threads@));
        let next = self.threads[current].next_in_queue;
        match previous {
            Some(p) => {
                assert(queue[pos - 1] == p);
                self.threads[p].next_in_queue = next;
            },
            None => {
                self.entries[b].queue_head = next;
            },
        }
        if self.entries[b].queue_tail == Some(current) {
            self.entries[b].queue_tail = previous;
        }
        self.entries[b].queue = Ghost(rest);
        proof {
            old(self).lemma_unlinked(*self, b as int, pos);
        }
    }

    /// The bucket of `key`.
    pub(crate) fn bucket_index(&self, key: usize) -> (b: usize)
        requires
            self.wf(),
        ensures
            b == self.bucket(key),
            b < self.entries@.len(),
    {
        reveal(bucket_of);
        key % self.entries.len()
    }
}

} // verus!
