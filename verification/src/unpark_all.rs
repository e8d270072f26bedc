//! Unparking all threads that wait on a key.

use crate::bucket::{
    absent_from, lemma_filter_none, lemma_filter_step, lemma_push_contains, lemma_without_step,
    thread_at, without, ParkingLot,
};
use crate::thread_list::ThreadList;
use crate::tokens::UnparkToken;
use vstd::prelude::*;

verus! {

/// Unparks all threads in the queue associated with the given key.
///
/// The given `UnparkToken` is passed to all unparked threads. Returns the number of threads that
/// were unparked, and these threads in the order in which they had parked, for the caller to wake
/// up.
pub fn unpark_all(lot: &mut ParkingLot, key: usize, unpark_token: UnparkToken) -> (r: (
    usize,
    ThreadList,
))
    requires
        old(lot).wf(),
    ensures
        final(lot).wf(),
        old(lot).keeps_marks(*final(lot)),
        r.1@ == old(lot).waiters(key),
        r.0 == r.1@.len(),
        old(lot).unparked(*final(lot), key, r.1@, unpark_token),
        final(lot).waiters(key) == Seq::<usize>::empty(),
        forall|k: usize| k != key ==> #[trigger] final(lot).waiters(k) == old(lot).waiters(k),
        forall|i: int|
            0 <= i < r.1@.len() ==> final(lot).threads@[#[trigger] r.1@[i] as int].unpark_token
                == unpark_token,
{
    let b = lot.bucket_index(key);
    let ghost before = *lot;
    let ghost queue = lot.queue(b as int);
    let ghost pred = lot.waits_on(key);
    proof {
        assert(before.entries@[b as int].linked(before.threads@));
        before.lemma_queue_len(b as int);
    }

    // Remove all threads with the given key in the bucket
    let mut current = lot.entries[b].queue_head;
    let mut previous: Option<usize> = None;
    let mut threads = ThreadList::new();
    let ghost mut i: int = 0;
    proof {
        lemma_filter_none(queue, pred);
        lemma_filter_none(queue, absent_from(threads@));
        assert(without(queue.take(0), threads@) + queue.skip(0) == queue);
    }
    while current.is_some()
        invariant
            lot.wf(),
            before.wf(),
            b == before.bucket(key),
            b < before.entries@.len(),
            queue == before.queue(b as int),
            pred == before.waits_on(key),
            queue.len() <= before.threads@.len(),
            before.entries@[b as int].linked(before.threads@),
            0 <= i <= queue.len(),
            current == thread_at(queue, i),
            threads@ == queue.take(i).filter(pred),
            forall|j: int| 0 <= j < threads@.len() ==> queue.take(i).contains(#[trigger] threads@[j]),
            threads@.len() <= i,
            previous == thread_at(
                without(queue.take(i), threads@),
                without(queue.take(i), threads@).len() - 1,
            ),
            lot.queue(b as int) == without(queue.take(i), threads@) + queue.skip(i),
            lot.threads@.len() == before.threads@.len(),
            lot.entries@.len() == before.entries@.len(),
            forall|t: int|
                0 <= t < before.threads@.len() ==> (if threads@.contains(t as usize) {
                    before.threads@[t].with_unpark_token(unpark_token)
                } else {
                    before.threads@[t]
                }).same_but_link(#[trigger] lot.threads@[t]),
            forall|c: int|
                0 <= c < before.entries@.len() && c != b ==> #[trigger] lot.queue(c)
                    == before.queue(c),
        decreases queue.len() - i,
    {
        let thread = current.unwrap();
        let ghost kept = without(queue.take(i), threads@);
        let ghost gone = threads@;
        proof {
            lemma_filter_step(queue, i, pred);
            lemma_without_step(queue, i, threads@);
            assert(queue.skip(i)[0] == queue[i]);
            assert(lot.queue(b as int)[kept.len() as int] == thread);
            assert(lot.entries@[b as int].linked(lot.threads@));
            assert(queue.take(i + 1).last() == thread);
            assert forall|j: int| 0 <= j < gone.len() implies queue.take(i + 1).contains(
                #[trigger] gone[j],
            ) by {
                let k = choose|k: int| 0 <= k < i && queue.take(i)[k] == gone[j];
                assert(queue.take(i + 1)[k] == gone[j]);
            }
            assert(lot.threads@[thread as int].key == before.threads@[thread as int].key);
        }
        let next = lot.threads[thread].next_in_queue;
        proof {
            assert(next == thread_at(queue, i + 1)) by {
                assert(next == thread_at(lot.queue(b as int), kept.len() as int + 1));
            }
        }
        if lot.threads[thread].key == key {
            // Remove the thread from the queue
            lot.unlink(b, previous, thread, Ghost(kept.len() as int));

            // Set the token for the target thread
            lot.set_unpark_token(thread, unpark_token);

            // The threads are woken up once the queue is unlocked
            threads.push(thread);
            current = next;
            proof {
                assert(lot.queue(b as int) == kept + queue.skip(i + 1));
                assert forall|t: int| 0 <= t < before.threads@.len() implies (
                if threads@.contains(t as usize) {
                    before.threads@[t].with_unpark_token(unpark_token)
                } else {
                    before.threads@[t]
                }).same_but_link(#[trigger] lot.threads@[t]) by {
                    lemma_push_contains(gone, thread, t as usize);
                }
            }
        } else {
            previous = Some(thread);
            current = next;
            proof {
                assert(lot.queue(b as int) == kept.push(thread) + queue.skip(i + 1));
            }
        }
        proof {
            i = i + 1;
        }
    }
    proof {
        assert(queue.take(i) == queue);
        assert(lot.queue(b as int) == without(queue, threads@));
        before.lemma_unpark_all(*lot, key, unpark_token);
        assert forall|i: int| 0 <= i < threads@.len() implies lot.threads@[
            #[trigger] threads@[i] as int
        ].unpark_token == unpark_token by {
            assert(threads@.contains(threads@[i]));
            before.lemma_waiters(key, threads@[i]);
        }
    }

    let num_threads = threads.len();
    (num_threads, threads)
}

} // verus!
