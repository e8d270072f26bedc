use parking_lot_core::bucket::ParkingLot;
use parking_lot_core::deadlock::{
    acquire_resource, check_deadlock, check_wait_graph_fast, check_wait_graph_slow, deadlock_report,
    mark_deadlocked, not_yet_deadlocked, on_unpark, release_resource,
};
use parking_lot_core::park::{park, ParkAction, ParkEvent};
use parking_lot_core::tokens::{ParkResult, ParkToken, UnparkToken};
use parking_lot_core::with_thread_data::with_thread_data;

/// Threads that each own some resources and wait on a key, parked in the given order.
fn lot_with(threads: &[(&[usize], usize)], order: &[usize]) -> ParkingLot {
    let mut lot = ParkingLot::new(1);
    for (thread, (resources, _)) in threads.iter().enumerate() {
        let (made, _) = with_thread_data(&mut lot, None, 1000 + thread as u64, |_| ());
        assert_eq!(made, thread);
        for &resource in resources.iter() {
            acquire_resource(&mut lot, thread, resource);
        }
    }
    for &thread in order {
        let key = threads[thread].1;
        park(&mut lot, thread, key, ParkToken(0), false, ParkEvent::Validated(true));
    }
    lot
}

/// The resources that a thread owns.
fn owned(lot: &ParkingLot, thread: usize) -> &[usize] {
    &lot.threads[thread].deadlock_data.resources
}

fn sorted(mut cycles: Vec<Vec<usize>>) -> Vec<Vec<usize>> {
    cycles.sort();
    cycles
}

#[test]
fn a_resource_is_owned_until_it_is_released() {
    let mut lot = lot_with(&[(&[], 0)], &[]);
    acquire_resource(&mut lot, 0, 7);
    acquire_resource(&mut lot, 0, 8);
    assert_eq!(owned(&lot, 0), &[7, 8]);
    release_resource(&mut lot, 0, 8);
    assert_eq!(owned(&lot, 0), &[7]);
    release_resource(&mut lot, 0, 7);
    assert!(owned(&lot, 0).is_empty());
}

#[test]
fn releasing_removes_the_last_entry_of_a_resource() {
    let mut lot = lot_with(&[(&[5, 6, 5, 7, 8], 0)], &[]);
    release_resource(&mut lot, 0, 5);
    assert_eq!(owned(&lot, 0), &[5, 6, 8, 7]);
    release_resource(&mut lot, 0, 5);
    assert_eq!(owned(&lot, 0), &[7, 6, 8]);
}

#[test]
fn releasing_what_is_not_owned_is_ignored() {
    let mut lot = lot_with(&[(&[5, 6], 0)], &[]);
    release_resource(&mut lot, 0, 9);
    assert_eq!(owned(&lot, 0), &[5, 6]);
}

#[test]
fn a_lot_without_threads_has_no_deadlock() {
    let lot = ParkingLot::new(3);
    assert!(!check_wait_graph_fast(&lot));
    assert!(check_wait_graph_slow(&lot).is_empty());
    assert!(check_deadlock(&lot).is_empty());
}

#[test]
fn two_threads_that_wait_for_each_other_are_deadlocked() {
    let lot = lot_with(&[(&[10], 11), (&[11], 10)], &[1, 0]);
    assert!(check_wait_graph_fast(&lot));
    assert_eq!(check_wait_graph_slow(&lot), vec![vec![0, 1]]);
    assert_eq!(check_deadlock(&lot), vec![vec![0, 1]]);
}

#[test]
fn a_thread_that_waits_for_itself_is_deadlocked() {
    let lot = lot_with(&[(&[10], 10)], &[0]);
    assert_eq!(check_deadlock(&lot), vec![vec![0]]);
}

#[test]
fn threads_that_wait_in_a_row_are_not_deadlocked() {
    let lot = lot_with(&[(&[10], 11), (&[11], 12), (&[12], 13)], &[0, 1, 2]);
    assert!(!check_wait_graph_fast(&lot));
    assert!(check_deadlock(&lot).is_empty());
}

#[test]
fn a_longer_deadlock_is_listed_from_its_smallest_thread() {
    let lot = lot_with(&[(&[10], 12), (&[11], 10), (&[12], 11)], &[2, 1, 0]);
    // 0 waits for 2, 2 waits for 1, 1 waits for 0
    assert_eq!(check_deadlock(&lot), vec![vec![0, 2, 1]]);
}

#[test]
fn each_deadlock_is_listed() {
    let lot = lot_with(&[(&[1], 2), (&[2], 1), (&[3], 4), (&[4], 3)], &[3, 0, 1, 2]);
    assert_eq!(sorted(check_deadlock(&lot)), vec![vec![0, 1], vec![2, 3]]);
}

#[test]
fn a_thread_with_a_timeout_is_not_deadlocked() {
    let mut lot = lot_with(&[(&[10], 11), (&[11], 10)], &[0]);
    park(&mut lot, 1, 10, ParkToken(0), true, ParkEvent::Validated(true));
    assert!(!check_wait_graph_fast(&lot));
    assert!(check_deadlock(&lot).is_empty());
}

#[test]
fn a_thread_that_is_not_parked_is_not_deadlocked() {
    let lot = lot_with(&[(&[10], 11), (&[11], 10)], &[0]);
    assert!(!check_wait_graph_fast(&lot));
    assert!(check_deadlock(&lot).is_empty());
}

#[test]
fn a_thread_that_waits_for_a_deadlock_is_not_part_of_it() {
    let lot = lot_with(&[(&[10], 11), (&[11], 10), (&[], 10)], &[0, 1, 2]);
    assert_eq!(check_deadlock(&lot), vec![vec![0, 1]]);
}

#[test]
fn a_ring_that_is_entered_at_a_resource_is_listed() {
    // the first thread waits for a resource of the ring and is visited first
    let lot = lot_with(&[(&[], 20), (&[20], 21), (&[21], 20)], &[0, 1, 2]);
    assert!(check_wait_graph_fast(&lot));
    assert_eq!(check_wait_graph_slow(&lot), vec![vec![1, 2]]);
    assert_eq!(check_deadlock(&lot), vec![vec![1, 2]]);
}

#[test]
fn a_thread_that_waits_for_itself_is_listed_though_another_waits_for_it() {
    let lot = lot_with(&[(&[], 10), (&[10], 10)], &[0, 1]);
    assert_eq!(check_deadlock(&lot), vec![vec![1]]);
}

#[test]
fn each_cycle_through_a_shared_resource_is_listed() {
    // two threads own the resource 1 and wait on 2, and two own 2 and wait on 1
    let lot = lot_with(&[(&[1], 2), (&[1], 2), (&[2], 1), (&[2], 1)], &[0, 1, 2, 3]);
    assert_eq!(
        sorted(check_deadlock(&lot)),
        vec![vec![0, 2], vec![0, 3], vec![1, 2], vec![1, 3]]
    );
}

#[test]
fn threads_that_share_a_deadlock_are_marked_once() {
    let mut lot = lot_with(&[(&[1], 2), (&[1], 2), (&[2], 1)], &[0, 1, 2]);
    let cycles = sorted(check_deadlock(&lot));
    assert_eq!(cycles, vec![vec![0, 2], vec![1, 2]]);
    assert_eq!(not_yet_deadlocked(&lot, &cycles[0]), vec![0, 2]);
    mark_deadlocked(&mut lot, &cycles[0], 0);
    assert_eq!(not_yet_deadlocked(&lot, &cycles[1]), vec![1]);
    assert!(check_deadlock(&lot).is_empty());
}

#[test]
fn a_resource_and_a_thread_with_the_same_number_are_not_mixed_up() {
    // thread 0 waits on the key 1 and thread 1 on the key 0; nobody owns them
    let lot = lot_with(&[(&[], 1), (&[], 0)], &[0, 1]);
    assert!(!check_wait_graph_fast(&lot));
    assert!(check_deadlock(&lot).is_empty());
}

#[test]
fn a_deadlock_is_reported_once() {
    let mut lot = lot_with(&[(&[10], 11), (&[11], 10), (&[12], 12)], &[0, 1]);
    let cycles = check_deadlock(&lot);
    assert_eq!(cycles, vec![vec![0, 1]]);
    mark_deadlocked(&mut lot, &cycles[0], 6);
    for thread in 0..2 {
        assert!(lot.threads[thread].deadlock_data.deadlocked);
        assert_eq!(lot.threads[thread].deadlock_data.backtrace_sender, Some(6));
    }
    assert!(!lot.threads[2].deadlock_data.deadlocked);
    assert_eq!(lot.threads[2].deadlock_data.backtrace_sender, None);
    assert!(!check_wait_graph_fast(&lot));
    assert!(check_deadlock(&lot).is_empty());
    park(&mut lot, 2, 12, ParkToken(0), false, ParkEvent::Validated(true));
    assert_eq!(check_deadlock(&lot), vec![vec![2]]);
}

#[test]
fn a_deadlocked_thread_reports_when_it_wakes_up() {
    let mut lot = lot_with(&[(&[10], 11), (&[11], 10)], &[0, 1]);
    mark_deadlocked(&mut lot, &vec![0, 1], 6);
    match park(&mut lot, 1, 10, ParkToken(0), false, ParkEvent::Woken(true)) {
        ParkAction::Report { channel, report } => {
            assert_eq!(channel, 6);
            assert_eq!(report.thread_id(), 1001);
            assert!(!report.backtrace().frames().is_empty());
        }
        _ => panic!("no report"),
    }
    assert_eq!(lot.threads[1].deadlock_data.backtrace_sender, None);
    assert!(lot.threads[1].deadlock_data.deadlocked);
    assert_eq!(lot.threads[0].deadlock_data.backtrace_sender, Some(6));
}

#[test]
fn a_thread_that_is_not_deadlocked_has_nothing_to_report() {
    let mut lot = lot_with(&[(&[10], 11)], &[]);
    assert!(on_unpark(&mut lot, 0).is_none());
    let action = park(&mut lot, 0, 11, ParkToken(0), false, ParkEvent::Woken(true));
    assert!(matches!(action, ParkAction::Return(ParkResult::Unparked(UnparkToken(0)))));
}

#[test]
fn a_report_holds_the_backtrace_that_it_was_given() {
    let lot = lot_with(&[(&[], 0)], &[]);
    let report = deadlock_report(&lot.threads[0], backtrace::Backtrace::from(Vec::new()));
    assert_eq!(report.thread_id(), 1000);
    assert_eq!(report.thread_id, 1000);
    assert!(report.backtrace().frames().is_empty());
}
