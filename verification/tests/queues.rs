use parking_lot_core::bucket::ParkingLot;
use parking_lot_core::park::{park, ParkAction, ParkEvent};
use parking_lot_core::tokens::{FilterOp, ParkResult, ParkToken, UnparkResult, UnparkToken};
use parking_lot_core::unpark_all::unpark_all;
use parking_lot_core::unpark_filter::unpark_filter;
use parking_lot_core::with_thread_data::{renew_thread_data, with_thread_data};

/// A parking lot where `threads` threads are known.
fn lot_of(buckets: usize, threads: usize) -> ParkingLot {
    let mut lot = ParkingLot::new(buckets);
    for i in 0..threads {
        let (thread, _) = with_thread_data(&mut lot, None, 100 + i as u64, |data| data.key);
        assert_eq!(thread, i);
    }
    lot
}

/// Parks a thread; its park token is its own number.
fn put(lot: &mut ParkingLot, thread: usize, key: usize, timed: bool) {
    let action = park(lot, thread, key, ParkToken(thread), timed, ParkEvent::Validated(true));
    assert!(matches!(action, ParkAction::Sleep));
}

/// The threads that are queued in a bucket, by following the links.
fn queue(lot: &ParkingLot, bucket: usize) -> Vec<usize> {
    let mut threads = Vec::new();
    let mut current = lot.entries[bucket].queue_head;
    while let Some(thread) = current {
        threads.push(thread);
        current = lot.threads[thread].next_in_queue;
    }
    assert_eq!(lot.entries[bucket].queue_tail, threads.last().copied());
    threads
}

/// What became of a thread that wakes up without a timeout.
fn wake(lot: &mut ParkingLot, thread: usize) -> ParkResult {
    match park(lot, thread, 0, ParkToken(0), false, ParkEvent::Woken(true)) {
        ParkAction::Return(result) => result,
        _ => panic!("the thread does not return"),
    }
}

#[test]
fn a_new_lot_has_empty_queues() {
    let lot = ParkingLot::new(4);
    assert_eq!(lot.entries.len(), 4);
    assert_eq!(lot.threads.len(), 0);
    for bucket in 0..4 {
        assert!(queue(&lot, bucket).is_empty());
    }
}

#[test]
fn a_thread_gets_one_record() {
    let mut lot = ParkingLot::new(1);
    let (first, id) = with_thread_data(&mut lot, None, 17, |data| data.deadlock_data.thread_id);
    assert_eq!((first, id), (0, 17));
    let (second, id) = with_thread_data(&mut lot, None, 18, |data| data.deadlock_data.thread_id);
    assert_eq!((second, id), (1, 18));
    let (again, id) = with_thread_data(&mut lot, Some(0), 99, |data| data.deadlock_data.thread_id);
    assert_eq!((again, id), (0, 17));
    assert_eq!(lot.threads.len(), 2);
}

#[test]
fn a_new_record_is_blank() {
    let lot = lot_of(1, 1);
    let data = &lot.threads[0];
    assert_eq!(data.key, 0);
    assert_eq!(data.next_in_queue, None);
    assert_eq!(data.unpark_token, UnparkToken(0));
    assert_eq!(data.park_token, ParkToken(0));
    assert!(!data.parked_with_timeout);
    assert!(data.deadlock_data.resources.is_empty());
    assert!(!data.deadlock_data.deadlocked);
    assert_eq!(data.deadlock_data.backtrace_sender, None);
}

#[test]
fn the_record_of_an_ended_thread_is_used_again() {
    let mut lot = lot_of(1, 2);
    put(&mut lot, 1, 3, true);
    unpark_all(&mut lot, 3, UnparkToken(4));
    renew_thread_data(&mut lot, 1, 55);
    assert_eq!(lot.threads.len(), 2);
    assert_eq!(lot.threads[1].deadlock_data.thread_id, 55);
    assert_eq!(lot.threads[1].key, 0);
    assert_eq!(lot.threads[1].unpark_token, UnparkToken(0));
    assert!(!lot.threads[1].parked_with_timeout);
    assert_eq!(lot.threads[0].deadlock_data.thread_id, 100);
}

#[test]
fn a_failed_validation_parks_nobody() {
    let mut lot = lot_of(2, 1);
    let action = park(&mut lot, 0, 5, ParkToken(1), true, ParkEvent::Validated(false));
    assert!(matches!(action, ParkAction::Return(ParkResult::Invalid)));
    assert!(queue(&lot, 1).is_empty());
    assert_eq!(lot.threads[0].key, 0);
    assert!(!lot.threads[0].parked_with_timeout);
}

#[test]
fn parking_appends_to_the_queue_of_the_key() {
    let mut lot = lot_of(2, 3);
    put(&mut lot, 2, 5, true);
    put(&mut lot, 0, 5, false);
    put(&mut lot, 1, 4, false);
    assert_eq!(queue(&lot, 1), vec![2, 0]);
    assert_eq!(queue(&lot, 0), vec![1]);
    assert_eq!(lot.threads[2].key, 5);
    assert_eq!(lot.threads[2].park_token, ParkToken(2));
    assert!(lot.threads[2].parked_with_timeout);
    assert!(!lot.threads[0].parked_with_timeout);
}

#[test]
fn unpark_all_takes_out_those_of_the_key() {
    let mut lot = lot_of(2, 6);
    for (thread, key) in [(0, 1), (1, 3), (2, 1), (3, 3), (4, 1), (5, 2)] {
        put(&mut lot, thread, key, false);
    }
    let (count, threads) = unpark_all(&mut lot, 1, UnparkToken(77));
    assert_eq!(count, 3);
    assert_eq!(threads.len(), 3);
    assert_eq!(threads.as_slice(), &[0, 2, 4]);
    assert_eq!(queue(&lot, 1), vec![1, 3]);
    assert_eq!(queue(&lot, 0), vec![5]);
    assert_eq!(lot.threads[2].unpark_token, UnparkToken(77));
    assert_eq!(lot.threads[3].unpark_token, UnparkToken(0));
    let (count, threads) = unpark_all(&mut lot, 1, UnparkToken(78));
    assert_eq!(count, 0);
    assert!(threads.as_slice().is_empty());
    assert_eq!(lot.threads[2].unpark_token, UnparkToken(77));
}

#[test]
fn unpark_all_takes_more_threads_than_fit_in_place() {
    let mut lot = lot_of(1, 20);
    for thread in 0..20 {
        put(&mut lot, thread, 9, false);
    }
    let (count, threads) = unpark_all(&mut lot, 9, UnparkToken(1));
    assert_eq!(count, 20);
    assert_eq!(threads.as_slice(), (0..20).collect::<Vec<usize>>().as_slice());
    assert!(queue(&lot, 0).is_empty());
}

#[test]
fn an_unparked_thread_finds_its_token() {
    let mut lot = lot_of(3, 2);
    put(&mut lot, 0, 8, false);
    put(&mut lot, 1, 8, false);
    unpark_all(&mut lot, 8, UnparkToken(5));
    assert_eq!(wake(&mut lot, 0), ParkResult::Unparked(UnparkToken(5)));
    put(&mut lot, 0, 8, false);
    unpark_all(&mut lot, 8, UnparkToken(6));
    assert_eq!(wake(&mut lot, 0), ParkResult::Unparked(UnparkToken(6)));
    assert_eq!(wake(&mut lot, 1), ParkResult::Unparked(UnparkToken(5)));
}

#[test]
fn a_thread_with_a_timeout_that_was_unparked_returns() {
    let mut lot = lot_of(1, 1);
    put(&mut lot, 0, 8, true);
    unpark_all(&mut lot, 8, UnparkToken(5));
    let action = park(&mut lot, 0, 8, ParkToken(0), true, ParkEvent::Woken(true));
    assert!(matches!(action, ParkAction::Return(ParkResult::Unparked(UnparkToken(5)))));
}

#[test]
fn a_thread_that_wakes_up_late_looks_again() {
    let mut lot = lot_of(1, 1);
    put(&mut lot, 0, 8, true);
    let action = park(&mut lot, 0, 8, ParkToken(0), true, ParkEvent::Woken(false));
    assert!(matches!(action, ParkAction::Relock));
    assert_eq!(queue(&lot, 0), vec![0]);
    unpark_all(&mut lot, 8, UnparkToken(5));
    let action = park(&mut lot, 0, 8, ParkToken(0), true, ParkEvent::Relocked(false));
    assert!(matches!(action, ParkAction::Return(ParkResult::Unparked(UnparkToken(5)))));
}

#[test]
fn a_timed_out_thread_leaves_the_queue() {
    let mut lot = lot_of(2, 4);
    for (thread, key) in [(0, 1), (1, 3), (2, 1), (3, 1)] {
        put(&mut lot, thread, key, true);
    }
    // from the middle, with others before and behind
    let action = park(&mut lot, 2, 1, ParkToken(2), true, ParkEvent::Relocked(true));
    assert!(matches!(action, ParkAction::TimedOut { key: 1, was_last_thread: false }));
    assert_eq!(queue(&lot, 1), vec![0, 1, 3]);
    // from the front, with another behind
    let action = park(&mut lot, 0, 1, ParkToken(0), true, ParkEvent::Relocked(true));
    assert!(matches!(action, ParkAction::TimedOut { key: 1, was_last_thread: false }));
    assert_eq!(queue(&lot, 1), vec![1, 3]);
    // from the front, where only a thread with another key is behind
    let action = park(&mut lot, 1, 3, ParkToken(1), true, ParkEvent::Relocked(true));
    assert!(matches!(action, ParkAction::TimedOut { key: 3, was_last_thread: true }));
    assert_eq!(queue(&lot, 1), vec![3]);
    // the only one
    let action = park(&mut lot, 3, 1, ParkToken(3), true, ParkEvent::Relocked(true));
    assert!(matches!(action, ParkAction::TimedOut { key: 1, was_last_thread: true }));
    assert!(queue(&lot, 1).is_empty());
}

#[test]
fn a_timed_out_thread_at_the_end_is_not_the_last_of_its_key() {
    let mut lot = lot_of(1, 3);
    put(&mut lot, 0, 1, true);
    put(&mut lot, 1, 2, true);
    put(&mut lot, 2, 1, true);
    let action = park(&mut lot, 2, 1, ParkToken(2), true, ParkEvent::Relocked(true));
    assert!(matches!(action, ParkAction::TimedOut { key: 1, was_last_thread: false }));
    assert_eq!(queue(&lot, 0), vec![0, 1]);
}

#[test]
fn a_timed_out_thread_names_the_key_that_it_waits_on() {
    let mut lot = lot_of(1, 1);
    put(&mut lot, 0, 1, true);
    lot.threads[0].key = 2;
    let action = park(&mut lot, 0, 1, ParkToken(0), true, ParkEvent::Relocked(true));
    assert!(matches!(action, ParkAction::TimedOut { key: 2, was_last_thread: true }));
}

#[test]
fn parking_and_timing_out_changes_no_queue() {
    let mut lot = lot_of(2, 4);
    put(&mut lot, 0, 1, false);
    put(&mut lot, 1, 2, false);
    put(&mut lot, 3, 3, false);
    let before = (queue(&lot, 0), queue(&lot, 1));
    put(&mut lot, 2, 3, true);
    assert_eq!(queue(&lot, 1), vec![0, 3, 2]);
    park(&mut lot, 2, 3, ParkToken(2), true, ParkEvent::Relocked(true));
    assert_eq!((queue(&lot, 0), queue(&lot, 1)), before);
}

#[test]
fn a_filter_picks_the_threads_to_unpark() {
    let mut lot = lot_of(1, 6);
    for (thread, key) in [(0, 4), (1, 4), (2, 5), (3, 4), (4, 4), (5, 4)] {
        put(&mut lot, thread, key, false);
    }
    let mut asked = Vec::new();
    let mut told = None;
    let (result, threads) = unpark_filter(
        &mut lot,
        4,
        |token| {
            asked.push(token.0);
            match token.0 {
                0 | 3 => FilterOp::Skip,
                4 => FilterOp::Stop,
                _ => FilterOp::Unpark,
            }
        },
        || true,
        |result| {
            told = Some(result);
            UnparkToken(40)
        },
    );
    assert_eq!(asked, vec![0, 1, 3, 4]);
    assert_eq!(
        result,
        UnparkResult { unparked_threads: 1, have_more_threads: true, be_fair: true }
    );
    assert_eq!(told, Some(result));
    assert_eq!(threads.as_slice(), &[1]);
    assert_eq!(queue(&lot, 0), vec![0, 2, 3, 4, 5]);
    assert_eq!(lot.threads[1].unpark_token, UnparkToken(40));
    assert_eq!(lot.threads[0].unpark_token, UnparkToken(0));
}

#[test]
fn a_filter_that_unparks_all_does_what_unpark_all_does() {
    let keys = [(0, 4), (1, 5), (2, 4), (3, 4)];
    let mut lot = lot_of(1, 4);
    let mut other = lot_of(1, 4);
    for (thread, key) in keys {
        put(&mut lot, thread, key, false);
        put(&mut other, thread, key, false);
    }
    let (result, threads) =
        unpark_filter(&mut lot, 4, |_| FilterOp::Unpark, || false, |_| UnparkToken(7));
    let (count, all) = unpark_all(&mut other, 4, UnparkToken(7));
    assert_eq!(
        result,
        UnparkResult { unparked_threads: count, have_more_threads: false, be_fair: false }
    );
    assert_eq!(threads.as_slice(), all.as_slice());
    assert_eq!(queue(&lot, 0), queue(&other, 0));
    for thread in 0..4 {
        assert_eq!(lot.threads[thread].unpark_token, other.threads[thread].unpark_token);
    }
}

#[test]
fn a_filter_that_unparks_nobody_is_never_fair() {
    let mut lot = lot_of(1, 2);
    put(&mut lot, 0, 4, false);
    put(&mut lot, 1, 4, false);
    let (result, threads) = unpark_filter(
        &mut lot,
        4,
        |_| FilterOp::Stop,
        || panic!("asked whether to be fair"),
        |_| UnparkToken(7),
    );
    assert_eq!(
        result,
        UnparkResult { unparked_threads: 0, have_more_threads: true, be_fair: false }
    );
    assert!(threads.as_slice().is_empty());
    assert_eq!(queue(&lot, 0), vec![0, 1]);
    assert_eq!(lot.threads[0].unpark_token, UnparkToken(0));
}

#[test]
fn a_filter_on_a_key_without_threads_is_not_asked() {
    let mut lot = lot_of(1, 1);
    put(&mut lot, 0, 4, false);
    let (result, _) = unpark_filter(
        &mut lot,
        5,
        |_| panic!("asked about a thread with another key"),
        || true,
        |_| UnparkToken(7),
    );
    assert_eq!(result, UnparkResult::default());
    assert_eq!(
        result,
        UnparkResult { unparked_threads: 0, have_more_threads: false, be_fair: false }
    );
    assert_eq!(queue(&lot, 0), vec![0]);
}
