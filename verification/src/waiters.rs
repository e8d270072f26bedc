//! What parking and unparking do to the threads that wait on a key.

use crate::bucket::{
    absent_from, lemma_bucket_of, lemma_filter_agree, lemma_filter_contains, lemma_filter_uniform,
    lemma_push_contains, lemma_without_one, without, ParkingLot,
};
use crate::tokens::{FilterOp, ParkToken, UnparkToken};
use crate::unpark_filter::{complete_answers, selected, some_left};
use vstd::prelude::*;

verus! {

/// Two filters may change places.
proof fn lemma_filter_commutes(s: Seq<usize>, p: spec_fn(usize) -> bool, q: spec_fn(usize) -> bool)
    ensures
        s.filter(p).filter(q) == s.filter(q).filter(p),
    decreases s.len(),
{
    reveal(Seq::filter);
    if s.len() > 0 {
        let x = s.last();
        let shorter = s.drop_last();
        lemma_filter_commutes(shorter, p, q);
        assert(shorter.filter(p).push(x).drop_last() == shorter.filter(p));
        assert(shorter.filter(q).push(x).drop_last() == shorter.filter(q));
    }
}

/// What filtering gives of a sequence with one more item.
proof fn lemma_filter_push(s: Seq<usize>, x: usize, p: spec_fn(usize) -> bool)
    ensures
        s.push(x).filter(p) == (if p(x) {
            s.filter(p).push(x)
        } else {
            s.filter(p)
        }),
{
    reveal(Seq::filter);
    assert(s.push(x).drop_last() == s);
}

/// An item that a sequence of distinct items does not hold can be appended to it.
proof fn lemma_distinct_push(s: Seq<usize>, x: usize)
    requires
        s.no_duplicates(),
        !s.contains(x),
    ensures
        s.push(x).no_duplicates(),
{
    assert forall|i: int, j: int|
        0 <= i < s.push(x).len() && 0 <= j < s.push(x).len() && i != j implies s.push(x)[i]
        != s.push(x)[j] by {
        if i < s.len() {
            assert(s.contains(s[i]));
        }
        if j < s.len() {
            assert(s.contains(s[j]));
        }
    }
}

/// Filtering keeps distinct items distinct.
proof fn lemma_filter_distinct(s: Seq<usize>, p: spec_fn(usize) -> bool)
    requires
        s.no_duplicates(),
    ensures
        s.filter(p).no_duplicates(),
    decreases s.len(),
{
    reveal(Seq::filter);
    if s.len() > 0 {
        let shorter = s.drop_last();
        lemma_filter_distinct(shorter, p);
        lemma_filter_contains(shorter, p, s.last());
        if shorter.contains(s.last()) {
            let i = choose|i: int| 0 <= i < shorter.len() && shorter[i] == s.last();
            assert(s[i] == s[s.len() - 1]);
        }
        if p(s.last()) {
            lemma_distinct_push(shorter.filter(p), s.last());
        }
    }
}

/// What is selected are the threads that waited and for which the answer was to unpark them.
pub proof fn lemma_selected(waiters: Seq<usize>, ops: Seq<FilterOp>, t: usize)
    requires
        ops.len() <= waiters.len(),
    ensures
        selected(waiters, ops).contains(t) <==> exists|j: int|
            0 <= j < ops.len() && waiters[j] == t && #[trigger] ops[j] == FilterOp::Unpark,
    decreases ops.len(),
{
    if ops.len() > 0 {
        let asked = ops.drop_last();
        let earlier = selected(waiters, asked);
        let n = ops.len() - 1;
        lemma_selected(waiters, asked, t);
        lemma_push_contains(earlier, waiters[n], t);
        if earlier.contains(t) {
            let j = choose|j: int|
                0 <= j < asked.len() && waiters[j] == t && #[trigger] asked[j] == FilterOp::Unpark;
            assert(ops[j] == FilterOp::Unpark);
        }
        if exists|j: int|
            0 <= j < ops.len() && waiters[j] == t && #[trigger] ops[j] == FilterOp::Unpark {
            let j = choose|j: int|
                0 <= j < ops.len() && waiters[j] == t && #[trigger] ops[j] == FilterOp::Unpark;
            if j < n {
                assert(asked[j] == FilterOp::Unpark);
            }
        }
        if ops.last() == FilterOp::Unpark && waiters[n] == t {
            assert(ops[n] == FilterOp::Unpark);
        }
    }
}

/// What is selected comes in the order in which the threads waited.
pub proof fn lemma_selected_order(
    waiters: Seq<usize>,
    ops: Seq<FilterOp>,
    i: int,
    j: int,
) -> (r: (int, int))
    requires
        ops.len() <= waiters.len(),
        0 <= i < j < selected(waiters, ops).len(),
    ensures
        0 <= r.0 < r.1 < ops.len(),
        waiters[r.0] == selected(waiters, ops)[i],
        waiters[r.1] == selected(waiters, ops)[j],
    decreases ops.len(),
{
    let asked = ops.drop_last();
    let earlier = selected(waiters, asked);
    if j < earlier.len() {
        lemma_selected_order(waiters, asked, i, j)
    } else {
        assert(earlier.contains(earlier[i]));
        lemma_selected(waiters, asked, earlier[i]);
        let a = choose|a: int|
            0 <= a < asked.len() && waiters[a] == earlier[i] && #[trigger] asked[a]
                == FilterOp::Unpark;
        (a, ops.len() - 1)
    }
}

/// A filter is asked about the threads in turn until it says stop, and about all of them if it
/// never does.
pub proof fn lemma_asked_until_stop(waiters: Seq<usize>, ops: Seq<FilterOp>, j: int)
    requires
        complete_answers(waiters, ops),
        0 <= j < waiters.len(),
    ensures
        ops.len() <= waiters.len(),
        j < ops.len() <==> forall|i: int|
            0 <= i < j && i < ops.len() ==> #[trigger] ops[i] != FilterOp::Stop,
{
    if j >= ops.len() {
        assert(ops[ops.len() - 1] == FilterOp::Stop);
    }
}

/// What a filter with a memory of its own brings about. Its answer to each question may depend on
/// all tokens that it has been asked about so far: `answer` gives it from these. As it is asked
/// about each thread that waits once and in turn, a thread is unparked exactly if the answer at its
/// turn is to unpark it, and no answer before was to stop.
pub proof fn lemma_answers_in_turn(
    waiters: Seq<usize>,
    tokens: Seq<ParkToken>,
    calls: Seq<(ParkToken, FilterOp)>,
    ops: Seq<FilterOp>,
    answer: spec_fn(Seq<ParkToken>) -> FilterOp,
    j: int,
)
    requires
        complete_answers(waiters, ops),
        waiters.no_duplicates(),
        tokens.len() == waiters.len(),
        calls.len() == ops.len(),
        forall|k: int|
            0 <= k < ops.len() ==> (#[trigger] calls[k]).0 == tokens[k] && calls[k].1 == ops[k],
        forall|k: int|
            0 <= k < calls.len() ==> (#[trigger] calls[k]).1 == answer(
                Seq::new((k + 1) as nat, |i: int| calls[i].0),
            ),
        0 <= j < waiters.len(),
    ensures
        selected(waiters, ops).contains(waiters[j]) <==> answer(tokens.take(j + 1))
            == FilterOp::Unpark && forall|k: int|
            0 <= k < j ==> answer(#[trigger] tokens.take(k + 1)) != FilterOp::Stop,
{
    assert forall|k: int| 0 <= k < ops.len() implies #[trigger] ops[k] == answer(
        tokens.take(k + 1),
    ) by {
        assert(calls[k].1 == ops[k]);
        assert(Seq::new((k + 1) as nat, |i: int| calls[i].0) =~= tokens.take(k + 1));
    }
    lemma_selected(waiters, ops, waiters[j]);
    lemma_asked_until_stop(waiters, ops, j);
    if selected(waiters, ops).contains(waiters[j]) {
        let i = choose|i: int|
            0 <= i < ops.len() && waiters[i] == waiters[j] && #[trigger] ops[i]
                == FilterOp::Unpark;
        assert(i == j);
        assert forall|k: int| 0 <= k < j implies answer(#[trigger] tokens.take(k + 1))
            != FilterOp::Stop by {
            assert(ops[k] != FilterOp::Stop);
        }
    }
    if answer(tokens.take(j + 1)) == FilterOp::Unpark && forall|k: int|
        0 <= k < j ==> answer(#[trigger] tokens.take(k + 1)) != FilterOp::Stop {
        assert forall|i: int| 0 <= i < j && i < ops.len() implies #[trigger] ops[i]
            != FilterOp::Stop by {
            assert(answer(tokens.take(i + 1)) != FilterOp::Stop);
        }
        assert(ops[j] == FilterOp::Unpark);
    }
}

/// A filter that says unpark at its first `most` questions and then stop unparks that many threads,
/// or all who wait if they are fewer, from the front of the queue.
pub proof fn lemma_at_most(waiters: Seq<usize>, ops: Seq<FilterOp>, most: nat)
    requires
        complete_answers(waiters, ops),
        forall|k: int|
            0 <= k < ops.len() ==> #[trigger] ops[k] == (if k < most {
                FilterOp::Unpark
            } else {
                FilterOp::Stop
            }),
    ensures
        selected(waiters, ops) == waiters.take(
            if most < waiters.len() {
                most as int
            } else {
                waiters.len() as int
            },
        ),
        some_left(ops) <==> most < waiters.len(),
{
    if most < waiters.len() {
        lemma_asked_until_stop(waiters, ops, most as int);
        assert(ops[most as int] == FilterOp::Stop);
        if ops.len() > most + 1 {
            assert(ops[most as int] != FilterOp::Stop);
        }
        let first = ops.drop_last();
        assert forall|k: int| 0 <= k < first.len() implies #[trigger] first[k]
            == FilterOp::Unpark by {
            assert(first[k] == ops[k]);
        }
        lemma_all_selected_of(waiters, first);
    } else {
        assert forall|k: int| 0 <= k < ops.len() implies #[trigger] ops[k]
            == FilterOp::Unpark by {}
        lemma_all_selected(waiters, ops);
        assert(waiters.take(waiters.len() as int) == waiters);
    }
}

/// A filter that always answers to unpark selects every thread that waits, as `unpark_all` does.
pub proof fn lemma_all_selected(waiters: Seq<usize>, ops: Seq<FilterOp>)
    requires
        complete_answers(waiters, ops),
        forall|j: int| 0 <= j < ops.len() ==> #[trigger] ops[j] == FilterOp::Unpark,
    ensures
        selected(waiters, ops) == waiters,
        !some_left(ops),
{
    if ops.len() < waiters.len() {
        assert(ops[ops.len() - 1] == FilterOp::Unpark);
    }
    lemma_all_selected_of(waiters, ops);
    assert(waiters.take(ops.len() as int) == waiters);
}

/// A filter that has always answered to unpark has selected the threads that it was asked about.
proof fn lemma_all_selected_of(waiters: Seq<usize>, ops: Seq<FilterOp>)
    requires
        ops.len() <= waiters.len(),
        forall|j: int| 0 <= j < ops.len() ==> #[trigger] ops[j] == FilterOp::Unpark,
    ensures
        selected(waiters, ops) == waiters.take(ops.len() as int),
    decreases ops.len(),
{
    if ops.len() > 0 {
        let asked = ops.drop_last();
        assert forall|j: int| 0 <= j < asked.len() implies #[trigger] asked[j]
            == FilterOp::Unpark by {
            assert(asked[j] == ops[j]);
        }
        lemma_all_selected_of(waiters, asked);
        assert(ops[ops.len() - 1] == FilterOp::Unpark);
        assert(waiters.take(ops.len() as int) == waiters.take(asked.len() as int).push(
            waiters[ops.len() - 1],
        ));
    } else {
        assert(waiters.take(0) == Seq::<usize>::empty());
    }
}

impl ParkingLot {
    /// Whether `new` has the same keys and the same queues, but that the threads `gone` have left
    /// the queue of `key`.
    pub open spec fn thinned(self, new: ParkingLot, key: usize, gone: Seq<usize>) -> bool {
        &&& new.threads@.len() == self.threads@.len()
        &&& new.entries@.len() == self.entries@.len()
        &&& forall|t: int|
            0 <= t < self.threads@.len() ==> (#[trigger] new.threads@[t]).key
                == self.threads@[t].key
        &&& new.queue(self.bucket(key)) == without(self.queue(self.bucket(key)), gone)
        &&& forall|c: int|
            0 <= c < self.entries@.len() && c != self.bucket(key) ==> #[trigger] new.queue(c)
                == self.queue(c)
    }

    /// Who waits on a key is queued and has that key.
    pub proof fn lemma_waiters(self, key: usize, t: usize)
        requires
            self.wf(),
        ensures
            self.waiters(key).contains(t) <==> self.queued(t) && self.key(t) == key,
            self.waiters(key).no_duplicates(),
            self.waiters(key).contains(t) ==> t < self.threads@.len(),
    {
        let b = self.bucket(key);
        lemma_bucket_of(key, self.entries@.len());
        self.lemma_queued(t);
        assert(self.entries@[b].linked(self.threads@));
        lemma_filter_contains(self.queue(b), self.waits_on(key), t);
        lemma_filter_distinct(self.queue(b), self.waits_on(key));
    }

    /// When threads that wait on a key leave its queue, they wait no longer; nobody else is
    /// concerned, and nobody overtakes another.
    pub proof fn lemma_thinned(self, new: ParkingLot, key: usize, gone: Seq<usize>)
        requires
            self.wf(),
            self.thinned(new, key, gone),
            forall|j: int| 0 <= j < gone.len() ==> self.waiters(key).contains(#[trigger] gone[j]),
        ensures
            new.waiters(key) == without(self.waiters(key), gone),
            forall|k: usize| k != key ==> #[trigger] new.waiters(k) == self.waiters(k),
            forall|t: usize| #[trigger] new.queued(t) <==> self.queued(t) && !gone.contains(t),
    {
        let b = self.bucket(key);
        lemma_bucket_of(key, self.entries@.len());
        assert forall|t: usize| gone.contains(t) implies self.queue(b).contains(t) && self.key(t)
            == key by {
            let j = choose|j: int| 0 <= j < gone.len() && gone[j] == t;
            assert(self.waiters(key).contains(gone[j]));
            lemma_filter_contains(self.queue(b), self.waits_on(key), t);
        }
        assert forall|k: usize| #[trigger]
            new.waiters(k) == without(self.waiters(k), gone) && (k != key ==> new.waiters(k)
                == self.waiters(k)) by {
            let c = self.bucket(k);
            lemma_bucket_of(k, self.entries@.len());
            let queue = self.queue(c);
            let waiters = self.waiters(k);
            assert(self.entries@[c].linked(self.threads@));
            assert forall|i: int| 0 <= i < new.queue(c).len() implies self.waits_on(k)(
                #[trigger] new.queue(c)[i],
            ) == new.waits_on(k)(new.queue(c)[i]) by {
                let t = new.queue(c)[i];
                assert(new.queue(c).contains(t));
                if c == b {
                    lemma_filter_contains(queue, absent_from(gone), t);
                }
                assert(queue.contains(t));
            }
            lemma_filter_agree(new.queue(c), self.waits_on(k), new.waits_on(k));
            assert(new.waiters(k) == new.queue(c).filter(self.waits_on(k)));
            if c == b {
                lemma_filter_commutes(queue, absent_from(gone), self.waits_on(k));
            }
            if k != key {
                assert forall|i: int| 0 <= i < waiters.len() implies absent_from(gone)(
                    #[trigger] waiters[i],
                ) by {
                    assert(waiters.contains(waiters[i]));
                    lemma_filter_contains(queue, self.waits_on(k), waiters[i]);
                }
                lemma_filter_uniform(waiters, absent_from(gone), true);
            }
        }
        assert forall|t: usize| #[trigger] new.queued(t) <==> self.queued(t) && !gone.contains(
            t,
        ) by {
            lemma_filter_contains(self.queue(b), absent_from(gone), t);
            if new.queued(t) {
                let c = choose|c: int|
                    0 <= c < new.entries@.len() && #[trigger] new.queue(c).contains(t);
                assert(self.queue(c).contains(t));
                if gone.contains(t) {
                    assert(self.queue(b).contains(t));
                }
            }
            if self.queued(t) && !gone.contains(t) {
                let c = choose|c: int|
                    0 <= c < self.entries@.len() && #[trigger] self.queue(c).contains(t);
                assert(new.queue(c).contains(t));
            }
        }
    }

    /// After `unpark_all` nobody waits on the key, and who waits on another key is not concerned.
    pub proof fn lemma_unpark_all(self, new: ParkingLot, key: usize, token: UnparkToken)
        requires
            self.wf(),
            self.unparked(new, key, self.waiters(key), token),
        ensures
            new.waiters(key) == Seq::<usize>::empty(),
            forall|k: usize| k != key ==> #[trigger] new.waiters(k) == self.waiters(k),
            forall|t: usize| #[trigger]
                new.queued(t) <==> self.queued(t) && !self.waiters(key).contains(t),
    {
        let waiters = self.waiters(key);
        assert forall|j: int| 0 <= j < waiters.len() implies self.waiters(key).contains(
            #[trigger] waiters[j],
        ) by {}
        self.lemma_thinned(new, key, waiters);
        assert forall|i: int| 0 <= i < waiters.len() implies !absent_from(waiters)(
            #[trigger] waiters[i],
        ) by {
            assert(waiters.contains(waiters[i]));
        }
        lemma_filter_uniform(waiters, absent_from(waiters), false);
    }

    /// After `unpark_filter` those threads wait on the key that were not selected, in the same
    /// order, and who waits on another key is not concerned. What it says of more threads is
    /// whether any thread still waits on the key.
    pub proof fn lemma_unpark_filter(
        self,
        new: ParkingLot,
        key: usize,
        ops: Seq<FilterOp>,
        token: UnparkToken,
    )
        requires
            self.wf(),
            complete_answers(self.waiters(key), ops),
            self.unparked(new, key, selected(self.waiters(key), ops), token),
        ensures
            new.waiters(key) == without(self.waiters(key), selected(self.waiters(key), ops)),
            some_left(ops) <==> new.waiters(key).len() > 0,
            forall|k: usize| k != key ==> #[trigger] new.waiters(k) == self.waiters(k),
            forall|t: usize| #[trigger]
                new.queued(t) <==> self.queued(t) && !selected(self.waiters(key), ops).contains(t),
    {
        let waiters = self.waiters(key);
        let gone = selected(waiters, ops);
        assert forall|j: int| 0 <= j < gone.len() implies self.waiters(key).contains(
            #[trigger] gone[j],
        ) by {
            assert(gone.contains(gone[j]));
            lemma_selected(waiters, ops, gone[j]);
        }
        self.lemma_thinned(new, key, gone);
        let rest = without(waiters, gone);
        self.lemma_waiters(key, 0);
        if some_left(ops) {
            let j = choose|j: int| 0 <= j < ops.len() && #[trigger] ops[j] != FilterOp::Unpark;
            lemma_selected(waiters, ops, waiters[j]);
            assert(!gone.contains(waiters[j])) by {
                if gone.contains(waiters[j]) {
                    let i = choose|i: int|
                        0 <= i < ops.len() && waiters[i] == waiters[j] && #[trigger] ops[i]
                            == FilterOp::Unpark;
                    assert(i == j);
                }
            }
            assert(waiters.contains(waiters[j]));
            lemma_filter_contains(waiters, absent_from(gone), waiters[j]);
        } else {
            assert forall|j: int| 0 <= j < ops.len() implies #[trigger] ops[j]
                == FilterOp::Unpark by {}
            lemma_all_selected(waiters, ops);
            assert forall|i: int| 0 <= i < waiters.len() implies !absent_from(gone)(
                #[trigger] waiters[i],
            ) by {
                assert(waiters.contains(waiters[i]));
            }
            lemma_filter_uniform(waiters, absent_from(gone), false);
        }
    }

    /// A thread that parks waits on its key behind all others, and nobody else is concerned.
    pub proof fn lemma_parked(
        self,
        new: ParkingLot,
        thread: usize,
        key: usize,
        park_token: ParkToken,
        timed: bool,
    )
        requires
            self.wf(),
            thread < self.threads@.len(),
            !self.queued(thread),
            self.parked(new, thread, key, park_token, timed),
        ensures
            new.waiters(key) == self.waiters(key).push(thread),
            forall|k: usize| k != key ==> #[trigger] new.waiters(k) == self.waiters(k),
            forall|t: usize| #[trigger] new.queued(t) <==> self.queued(t) || t == thread,
    {
        let b = self.bucket(key);
        lemma_bucket_of(key, self.entries@.len());
        assert forall|k: usize| #[trigger]
            new.waiters(k) == (if k == key {
                self.waiters(k).push(thread)
            } else {
                self.waiters(k)
            }) by {
            let c = self.bucket(k);
            lemma_bucket_of(k, self.entries@.len());
            let queue = self.queue(c);
            assert(self.entries@[c].linked(self.threads@));
            assert forall|i: int| 0 <= i < queue.len() implies self.waits_on(k)(
                #[trigger] queue[i],
            ) == new.waits_on(k)(queue[i]) by {
                assert(queue.contains(queue[i]));
            }
            lemma_filter_agree(queue, self.waits_on(k), new.waits_on(k));
            if c == b {
                lemma_filter_push(queue, thread, new.waits_on(k));
            }
        }
        assert forall|t: usize| #[trigger] new.queued(t) <==> self.queued(t) || t == thread by {
            lemma_push_contains(self.queue(b), thread, t);
            if new.queued(t) {
                let c = choose|c: int|
                    0 <= c < new.entries@.len() && #[trigger] new.queue(c).contains(t);
                assert(self.queue(c).contains(t) || t == thread);
            }
            if self.queued(t) {
                let c = choose|c: int|
                    0 <= c < self.entries@.len() && #[trigger] self.queue(c).contains(t);
                assert(new.queue(c).contains(t));
            }
            assert(new.queue(b).contains(thread)) by {
                lemma_push_contains(self.queue(b), thread, thread);
            }
        }
    }

    /// A thread that times out waits no longer; nobody else is concerned, and nobody overtakes
    /// another.
    pub proof fn lemma_left(self, new: ParkingLot, thread: usize)
        requires
            self.wf(),
            thread < self.threads@.len(),
            self.queued(thread),
            self.left(new, thread),
        ensures
            new.waiters(self.key(thread)) == without(
                self.waiters(self.key(thread)),
                seq![thread],
            ),
            forall|k: usize| k != self.key(thread) ==> #[trigger] new.waiters(k) == self.waiters(k),
            forall|t: usize| #[trigger] new.queued(t) <==> self.queued(t) && t != thread,
    {
        let gone = seq![thread];
        self.lemma_waiters(self.key(thread), thread);
        assert(gone[0] == thread);
        self.lemma_thinned(new, self.key(thread), gone);
        assert forall|t: usize| #[trigger] new.queued(t) <==> self.queued(t) && t != thread by {
            assert(gone.contains(t) <==> t == thread);
        }
    }

    /// A thread that parks and times out before anyone else comes leaves every queue as it was.
    pub proof fn lemma_park_then_time_out(
        self,
        between: ParkingLot,
        new: ParkingLot,
        thread: usize,
        key: usize,
        park_token: ParkToken,
        timed: bool,
    )
        requires
            self.wf(),
            thread < self.threads@.len(),
            !self.queued(thread),
            self.parked(between, thread, key, park_token, timed),
            between.left(new, thread),
        ensures
            forall|c: int| 0 <= c < self.entries@.len() ==> #[trigger] new.queue(c) == self.queue(c),
    {
        let b = self.bucket(key);
        let queue = self.queue(b);
        lemma_bucket_of(key, self.entries@.len());
        assert(queue.no_duplicates()) by {
            assert(self.entries@[b].linked(self.threads@));
        }
        assert(!queue.contains(thread));
        assert(between.bucket(between.key(thread)) == b);
        assert(new.queue(b) == queue) by {
            lemma_distinct_push(queue, thread);
            lemma_without_one(queue.push(thread), queue.len() as int);
            assert(queue.push(thread).remove(queue.len() as int) == queue);
        }
        assert forall|c: int| 0 <= c < self.entries@.len() implies #[trigger] new.queue(c)
            == self.queue(c) by {
            if c != b {
                assert(between.queue(c) == self.queue(c));
            }
        }
    }

    /// The token that threads are unparked with is what each of them finds when it wakes up.
    pub proof fn lemma_token_passed(
        self,
        new: ParkingLot,
        key: usize,
        gone: Seq<usize>,
        token: UnparkToken,
        t: usize,
    )
        requires
            self.wf(),
            self.unparked(new, key, gone, token),
            forall|j: int| 0 <= j < gone.len() ==> self.waiters(key).contains(#[trigger] gone[j]),
            gone.contains(t),
        ensures
            new.threads@[t as int].unpark_token == token,
    {
        self.lemma_waiters(key, t);
    }

    /// A thread that is no longer parked keeps the token that it was unparked with when others are
    /// unparked.
    pub proof fn lemma_token_kept(
        self,
        new: ParkingLot,
        key: usize,
        gone: Seq<usize>,
        token: UnparkToken,
        t: usize,
    )
        requires
            self.wf(),
            self.unparked(new, key, gone, token),
            forall|j: int| 0 <= j < gone.len() ==> self.waiters(key).contains(#[trigger] gone[j]),
            t < self.threads@.len(),
            !self.queued(t),
        ensures
            new.threads@[t as int].unpark_token == self.threads@[t as int].unpark_token,
    {
        self.lemma_waiters(key, t);
        assert(!gone.contains(t));
    }

    /// If no thread is unparked then the token is ignored, and every queue is as it was.
    pub proof fn lemma_nobody_unparked(
        self,
        new: ParkingLot,
        key: usize,
        token: UnparkToken,
        other: UnparkToken,
    )
        requires
            self.wf(),
            self.unparked(new, key, Seq::empty(), token),
        ensures
            self.unparked(new, key, Seq::empty(), other),
            forall|c: int| 0 <= c < self.entries@.len() ==> #[trigger] new.queue(c) == self.queue(c),
    {
        let queue = self.queue(self.bucket(key));
        lemma_filter_uniform(queue, absent_from(Seq::empty()), true);
    }
}

} // verus!
