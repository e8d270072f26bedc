//! Unparking those threads that a filter picks.

use crate::asking::Asking;
use crate::bucket::{
    absent_from, lemma_filter_none, lemma_filter_step, lemma_push_contains, lemma_without_step,
    thread_at, without, ParkingLot,
};
use crate::thread_list::ThreadList;
use crate::tokens::{FilterOp, ParkToken, UnparkResult, UnparkToken};
use vstd::prelude::*;

verus! {

/// Whether `ops` can be the answers of a filter that is asked about the threads `waiters` in turn,
/// until it says stop.
pub open spec fn complete_answers(waiters: Seq<usize>, ops: Seq<FilterOp>) -> bool {
    &&& ops.len() <= waiters.len()
    &&& forall|j: int| 0 <= j < ops.len() - 1 ==> #[trigger] ops[j] != FilterOp::Stop
    &&& ops.len() < waiters.len() ==> ops.len() > 0 && ops.last() == FilterOp::Stop
}

/// The threads among `waiters` for which the answer was to unpark them, in order.
pub open spec fn selected(waiters: Seq<usize>, ops: Seq<FilterOp>) -> Seq<usize>
    decreases ops.len(),
{
    if ops.len() == 0 {
        Seq::empty()
    } else {
        let earlier = selected(waiters, ops.drop_last());
        if ops.last() == FilterOp::Unpark {
            earlier.push(waiters[ops.len() - 1])
        } else {
            earlier
        }
    }
}

/// Whether a thread that the filter was asked about stays parked.
pub open spec fn some_left(ops: Seq<FilterOp>) -> bool {
    exists|j: int| 0 <= j < ops.len() && #[trigger] ops[j] != FilterOp::Unpark
}

/// How one more answer bears on whether a thread stays parked.
proof fn lemma_some_left_push(ops: Seq<FilterOp>, op: FilterOp)
    ensures
        some_left(ops.push(op)) <==> some_left(ops) || op != FilterOp::Unpark,
{
    assert(ops.push(op)[ops.len() as int] == op);
    if some_left(ops) {
        let j = choose|j: int| 0 <= j < ops.len() && #[trigger] ops[j] != FilterOp::Unpark;
        assert(ops.push(op)[j] == ops[j]);
    }
    if some_left(ops.push(op)) && op == FilterOp::Unpark {
        let j = choose|j: int|
            0 <= j < ops.push(op).len() && #[trigger] ops.push(op)[j] != FilterOp::Unpark;
        assert(ops[j] == ops.push(op)[j]);
    }
}

/// The queue from `i` on is untouched when only threads before `i` are gone.
proof fn lemma_without_suffix(queue: Seq<usize>, i: int, gone: Seq<usize>)
    requires
        queue.no_duplicates(),
        0 <= i <= queue.len(),
        forall|j: int| 0 <= j < gone.len() ==> queue.take(i).contains(#[trigger] gone[j]),
    ensures
        without(queue, gone) == without(queue.take(i), gone) + queue.skip(i),
    decreases queue.len() - i,
{
    if i == queue.len() {
        assert(queue.take(i) == queue);
    } else {
        assert forall|j: int| 0 <= j < gone.len() implies queue.take(i + 1).contains(
            #[trigger] gone[j],
        ) by {
            let k = choose|k: int| 0 <= k < i && queue.take(i)[k] == gone[j];
            assert(queue.take(i + 1)[k] == gone[j]);
        }
        lemma_without_suffix(queue, i + 1, gone);
        lemma_without_step(queue, i, gone);
        assert(without(queue.take(i), gone).push(queue[i]) + queue.skip(i + 1) == without(
            queue.take(i),
            gone,
        ) + queue.skip(i));
    }
}

/// The threads that answer a predicate among the first ones are the first of all that do.
proof fn lemma_filter_prefix(queue: Seq<usize>, i: int, p: spec_fn(usize) -> bool)
    requires
        0 <= i <= queue.len(),
    ensures
        queue.filter(p) == queue.take(i).filter(p) + queue.skip(i).filter(p),
{
    assert(queue == queue.take(i) + queue.skip(i));
    Seq::filter_distributes_over_add(queue.take(i), queue.skip(i), p);
}

/// Hands each thread of a list the token that it is unparked with.
fn set_unpark_tokens(lot: &mut ParkingLot, threads: &ThreadList, token: UnparkToken)
    requires
        old(lot).wf(),
        forall|j: int|
            0 <= j < threads@.len() ==> (#[trigger] threads@[j]) < old(lot).threads@.len(),
    ensures
        final(lot).wf(),
        final(lot).threads@.len() == old(lot).threads@.len(),
        final(lot).entries == old(lot).entries,
        forall|t: int|
            0 <= t < old(lot).threads@.len() ==> #[trigger] final(lot).threads@[t] == (
            if threads@.contains(t as usize) {
                old(lot).threads@[t].with_unpark_token(token)
            } else {
                old(lot).threads@[t]
            }),
{
    let ghost before = *lot;
    let mut k: usize = 0;
    while k < threads.len()
        invariant
            k <= threads@.len(),
            lot.wf(),
            forall|j: int|
                0 <= j < threads@.len() ==> (#[trigger] threads@[j]) < before.threads@.len(),
            lot.threads@.len() == before.threads@.len(),
            lot.entries == before.entries,
            forall|t: int|
                0 <= t < before.threads@.len() ==> #[trigger] lot.threads@[t] == (
                if threads@.take(k as int).contains(t as usize) {
                    before.threads@[t].with_unpark_token(token)
                } else {
                    before.threads@[t]
                }),
        decreases threads@.len() - k,
    {
        let thread = threads.as_slice()[k];
        lot.set_unpark_token(thread, token);
        proof {
            assert(threads@.take(k as int + 1) == threads@.take(k as int).push(thread));
            assert forall|t: int| 0 <= t < before.threads@.len() implies #[trigger] lot.threads@[t]
                == (if threads@.take(k as int + 1).contains(t as usize) {
                before.threads@[t].with_unpark_token(token)
            } else {
                before.threads@[t]
            }) by {
                lemma_push_contains(threads@.take(k as int), thread, t as usize);
            }
        }
        k = k + 1;
    }
    proof {
        assert(threads@.take(k as int) == threads@);
    }
}

/// Unparks a number of threads as `unpark_filter` does, with a filter that keeps account of what it
/// is asked: exactly the threads that wait on the key, each once and in the order in which they
/// parked, up to the first for which it says stop.
pub fn unpark_asking<F: FnMut(ParkToken) -> FilterOp>(
    lot: &mut ParkingLot,
    key: usize,
    asking: &mut Asking<F>,
    should_timeout: impl FnOnce() -> bool,
    callback: impl FnOnce(UnparkResult) -> UnparkToken,
) -> (r: (UnparkResult, ThreadList))
    requires
        old(lot).wf(),
        old(asking).wf(),
        forall|j: int|
            0 <= j < old(lot).waiters(key).len() ==> old(asking).tokens().contains(
                old(lot).threads@[#[trigger] old(lot).waiters(key)[j] as int].park_token,
            ),
        forall|ops: Seq<FilterOp>| #[trigger]
            complete_answers(old(lot).waiters(key), ops) && (forall|j: int|
                0 <= j < ops.len() ==> old(asking).filter().ensures(
                    (old(lot).threads@[old(lot).waiters(key)[j] as int].park_token,),
                    #[trigger] ops[j],
                )) && selected(old(lot).waiters(key), ops).len() > 0 ==> should_timeout.requires(()),
        forall|result: UnparkResult| callback.requires((result,)),
    ensures
        final(asking).wf(),
        final(asking).filter() == old(asking).filter(),
        final(asking).tokens() == old(asking).tokens(),
        final(lot).wf(),
        old(lot).keeps_marks(*final(lot)),
        exists|ops: Seq<FilterOp>, token: UnparkToken|
            {
                &&& complete_answers(old(lot).waiters(key), ops)
                &&& ops.len() == old(lot).waiters(key).len() || ops.len() > 0 && ops.last()
                    == FilterOp::Stop
                &&& forall|j: int|
                    0 <= j < ops.len() ==> old(asking).filter().ensures(
                        (old(lot).threads@[old(lot).waiters(key)[j] as int].park_token,),
                        #[trigger] ops[j],
                    )
                &&& final(asking).calls().len() == old(asking).calls().len() + ops.len()
                &&& forall|j: int|
                    0 <= j < old(asking).calls().len() ==> #[trigger] final(asking).calls()[j]
                        == old(asking).calls()[j]
                &&& forall|j: int|
                    0 <= j < ops.len() ==> final(asking).calls()[old(asking).calls().len() + j] == (
                        old(lot).threads@[old(lot).waiters(key)[j] as int].park_token,
                        #[trigger] ops[j],
                    )
                &&& r.1@ == selected(old(lot).waiters(key), ops)
                &&& r.0.unparked_threads == r.1@.len()
                &&& r.0.have_more_threads == some_left(ops)
                &&& if r.1@.len() == 0 {
                    !r.0.be_fair
                } else {
                    should_timeout.ensures((), r.0.be_fair)
                }
                &&& callback.ensures((r.0,), token)
                &&& #[trigger] old(lot).unparked(
                    *final(lot),
                    key,
                    selected(old(lot).waiters(key), ops),
                    token,
                )
            },
{
    let b = lot.bucket_index(key);
    let ghost before = *lot;
    let ghost queue = lot.queue(b as int);
    let ghost pred = lot.waits_on(key);
    let ghost waiters = lot.waiters(key);
    let ghost answers = asking.filter();
    let ghost earlier = asking.calls();
    proof {
        assert(before.entries@[b as int].linked(before.threads@));
        before.lemma_queue_len(b as int);
    }

    // Go through the queue looking for threads with a matching key
    let mut current = lot.entries[b].queue_head;
    let mut previous: Option<usize> = None;
    let mut threads = ThreadList::new();
    let mut result = UnparkResult::default();
    let ghost mut i: int = 0;
    let ghost mut ops: Seq<FilterOp> = Seq::empty();
    proof {
        lemma_filter_none(queue, pred);
        lemma_filter_none(queue, absent_from(threads@));
        assert(queue.len() == 0 ==> queue.take(0) == queue);
        assert(without(queue.take(0), threads@) + queue.skip(0) == queue);
    }
    while current.is_some()
        invariant_except_break
            ops.len() == queue.take(i).filter(pred).len(),
            i == queue.len() ==> queue.take(i) == queue,
            forall|j: int| 0 <= j < ops.len() ==> #[trigger] ops[j] != FilterOp::Stop,
            current == thread_at(queue, i),
            previous == thread_at(
                without(queue.take(i), threads@),
                without(queue.take(i), threads@).len() - 1,
            ),
        invariant
            lot.wf(),
            before.wf(),
            b == before.bucket(key),
            b < before.entries@.len(),
            queue == before.queue(b as int),
            pred == before.waits_on(key),
            waiters == queue.filter(pred),
            queue.len() <= before.threads@.len(),
            before.entries@[b as int].linked(before.threads@),
            asking.filter() == answers,
            asking.wf(),
            asking.tokens() == old(asking).tokens(),
            forall|j: int|
                0 <= j < waiters.len() ==> old(asking).tokens().contains(
                    before.threads@[#[trigger] waiters[j] as int].park_token,
                ),
            asking.calls().len() == earlier.len() + ops.len(),
            forall|j: int|
                0 <= j < earlier.len() ==> #[trigger] asking.calls()[j] == earlier[j],
            forall|j: int|
                0 <= j < ops.len() ==> asking.calls()[earlier.len() + j] == (
                    before.threads@[waiters[j] as int].park_token,
                    #[trigger] ops[j],
                ),
            0 <= i <= queue.len(),
            threads@ == selected(waiters, ops),
            forall|j: int| 0 <= j < threads@.len() ==> queue.take(i).contains(#[trigger] threads@[j]),
            threads@.len() <= i,
            lot.queue(b as int) == without(queue.take(i), threads@) + queue.skip(i),
            before.same_outside(*lot, b as int),
            forall|j: int|
                0 <= j < ops.len() ==> answers.ensures(
                    (before.threads@[waiters[j] as int].park_token,),
                    #[trigger] ops[j],
                ),
            result.have_more_threads == some_left(ops),
            !result.be_fair,
        ensures
            complete_answers(waiters, ops),
        decreases queue.len() - i,
    {
        let thread = current.unwrap();
        let ghost kept = without(queue.take(i), threads@);
        let ghost gone = threads@;
        proof {
            lemma_filter_step(queue, i, pred);
            lemma_filter_prefix(queue, i, pred);
            lemma_filter_prefix(queue, i + 1, pred);
            lemma_without_step(queue, i, threads@);
            assert(queue.skip(i)[0] == queue[i]);
            assert(lot.queue(b as int)[kept.len() as int] == thread);
            assert(lot.entries@[b as int].linked(lot.threads@));
            assert(queue.take(i + 1).last() == thread);
            assert forall|j: int| 0 <= j < gone.len() implies queue.take(i + 1).contains(
                #[trigger] gone[j],
            ) by {
                let k = choose|k: int| 0 <= k < i && queue.take(i)[k] == gone[j];
                assert(queue.take(i + 1)[k] == gone[j]);
            }
            assert(lot.threads@[thread as int].key == before.threads@[thread as int].key);
        }
        let next = lot.threads[thread].next_in_queue;
        proof {
            assert(next == thread_at(queue, i + 1)) by {
                assert(next == thread_at(lot.queue(b as int), kept.len() as int + 1));
            }
        }
        if lot.threads[thread].key == key {
            // Call the filter function with the thread's ParkToken
            assert(waiters[ops.len() as int] == thread);
            let op = asking.ask(lot.threads[thread].park_token);
            proof {
                let asked = ops;
                ops = ops.push(op);
                assert(ops.drop_last() == asked);
                lemma_some_left_push(asked, op);
            }
            match op {
                FilterOp::Unpark => {
                    // Remove the thread from the queue
                    lot.unlink(b, previous, thread, Ghost(kept.len() as int));

                    // Add the thread to our list of threads to unpark
                    threads.push(thread);

                    current = next;
                    proof {
                        assert(lot.queue(b as int) == kept + queue.skip(i + 1));
                    }
                },
                FilterOp::Skip => {
                    result.have_more_threads = true;
                    previous = Some(thread);
                    current = next;
                    proof {
                        assert(lot.queue(b as int) == kept.push(thread) + queue.skip(i + 1));
                    }
                },
                FilterOp::Stop => {
                    result.have_more_threads = true;
                    break;
                },
            }
        } else {
            previous = Some(thread);
            current = next;
            proof {
                assert(lot.queue(b as int) == kept.push(thread) + queue.skip(i + 1));
            }
        }
        proof {
            i = i + 1;
            assert(i == queue.len() ==> queue.take(i) == queue);
        }
    }
    proof {
        lemma_without_suffix(queue, i, threads@);
        assert forall|j: int| 0 <= j < threads@.len() implies (#[trigger] threads@[j])
            < lot.threads@.len() by {
            let k = choose|k: int| 0 <= k < i && queue.take(i)[k] == threads@[j];
            assert(queue[k] < before.threads@.len());
        }
    }
    let ghost scanned = *lot;

    // Invoke the callback before waking up the threads
    result.unparked_threads = threads.len();
    if result.unparked_threads != 0 {
        result.be_fair = should_timeout();
    }
    let token = callback(result);

    // Pass the token to all threads that are going to be unparked
    set_unpark_tokens(lot, &threads, token);
    proof {
        before.lemma_unparked(scanned, *lot, key, threads@, token);
    }
    (result, threads)
}

/// Unparks a number of threads from the front of the queue associated with `key` depending on the
/// results of a filter function which inspects the `ParkToken` associated with each thread.
///
/// The `filter` function is called for each thread in the queue or until `FilterOp::Stop` is
/// returned. This function is passed the `ParkToken` associated with a particular thread, which is
/// unparked if `FilterOp::Unpark` is returned.
///
/// The `callback` function is passed an `UnparkResult` indicating the number of threads that were
/// unparked and whether there are still parked threads in the queue. This `UnparkResult` value is
/// also returned, together with the threads that were unparked, for the caller to wake up. Whether
/// a fair unlock is due is what `should_timeout` says; it is asked only if a thread is unparked.
///
/// The `callback` function should return an `UnparkToken` value which will be passed to all threads
/// that are unparked. If no thread is unparked then the returned value is ignored.
pub fn unpark_filter(
    lot: &mut ParkingLot,
    key: usize,
    filter: impl FnMut(ParkToken) -> FilterOp,
    should_timeout: impl FnOnce() -> bool,
    callback: impl FnOnce(UnparkResult) -> UnparkToken,
) -> (r: (UnparkResult, ThreadList))
    requires
        old(lot).wf(),
        forall|j: int|
            0 <= j < old(lot).waiters(key).len() ==> filter.requires(
                (old(lot).threads@[#[trigger] old(lot).waiters(key)[j] as int].park_token,),
            ),
        forall|ops: Seq<FilterOp>| #[trigger]
            complete_answers(old(lot).waiters(key), ops) && (forall|j: int|
                0 <= j < ops.len() ==> filter.ensures(
                    (old(lot).threads@[old(lot).waiters(key)[j] as int].park_token,),
                    #[trigger] ops[j],
                )) && selected(old(lot).waiters(key), ops).len() > 0 ==> should_timeout.requires(()),
        forall|result: UnparkResult| callback.requires((result,)),
    ensures
        final(lot).wf(),
        old(lot).keeps_marks(*final(lot)),
        exists|ops: Seq<FilterOp>, token: UnparkToken|
            {
                &&& complete_answers(old(lot).waiters(key), ops)
                &&& ops.len() == old(lot).waiters(key).len() || ops.len() > 0 && ops.last()
                    == FilterOp::Stop
                &&& forall|j: int|
                    0 <= j < ops.len() ==> filter.ensures(
                        (old(lot).threads@[old(lot).waiters(key)[j] as int].park_token,),
                        #[trigger] ops[j],
                    )
                &&& r.1@ == selected(old(lot).waiters(key), ops)
                &&& r.0.unparked_threads == r.1@.len()
                &&& r.0.have_more_threads == some_left(ops)
                &&& if r.1@.len() == 0 {
                    !r.0.be_fair
                } else {
                    should_timeout.ensures((), r.0.be_fair)
                }
                &&& callback.ensures((r.0,), token)
                &&& #[trigger] old(lot).unparked(
                    *final(lot),
                    key,
                    selected(old(lot).waiters(key), ops),
                    token,
                )
            },
{
    let ghost tokens = Seq::new(
        lot.waiters(key).len(),
        |j: int| lot.threads@[lot.waiters(key)[j] as int].park_token,
    );
    assert forall|j: int| 0 <= j < lot.waiters(key).len() implies tokens.contains(
        lot.threads@[#[trigger] lot.waiters(key)[j] as int].park_token,
    ) by {
        assert(tokens[j] == lot.threads@[lot.waiters(key)[j] as int].park_token);
    }
    let mut asking = Asking::new(filter, Ghost(tokens));
    unpark_asking(lot, key, &mut asking, should_timeout, callback)
}

} // verus!
