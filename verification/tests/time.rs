use toy_runtime::reactor::ReactorHandle;
use toy_runtime::time::{sleep, Clock, Sleep, SleepTurn, MAX_DURATION_NANOS};
use toy_runtime::Poll;

const SECOND: u128 = 1_000_000_000;

#[test]
fn longest_duration() {
    assert_eq!(MAX_DURATION_NANOS, std::time::Duration::MAX.as_nanos());
}

#[test]
fn clock_moves_forward() {
    let clock = Clock::new();
    let first = clock.now();
    let mut second = clock.now();
    while second == first {
        second = clock.now();
    }
    assert!(second > first);
    assert!(second < 60 * SECOND);
}

#[test]
fn sleep_begins_now() {
    let clock = Clock::new();
    let before = clock.now();
    let s = sleep(&clock, 5 * SECOND).unwrap();
    let after = clock.now();
    assert!(!s.registered);
    assert!(before + 5 * SECOND <= s.deadline && s.deadline <= after + 5 * SECOND);
}

#[test]
fn sleep_may_end_too_far_away() {
    let clock = Clock::new();
    assert_eq!(sleep(&clock, MAX_DURATION_NANOS), None);
    assert!(sleep(&clock, SECOND - 1).is_some());
    assert!(sleep(&clock, 3 * SECOND / 2).is_some());
}

#[test]
fn sleep_needs_an_end() {
    let instant = std::time::Instant::now();
    let s = Sleep { deadline: 12, registered: false };
    assert_eq!(Sleep::ending_at(5, 7, Some(instant)), Some(s));
    assert_eq!(Sleep::ending_at(5, 7, None), None);
}

#[test]
fn sleep_is_done_from_its_deadline() {
    let mut s = Sleep::starting_at(100, 20);
    assert_eq!(s, Sleep { deadline: 120, registered: false });
    assert_eq!(s.turn_at(119), SleepTurn::StartTimer);
    assert_eq!(s, Sleep { deadline: 120, registered: true });
    assert_eq!(s.turn_at(119), SleepTurn::Waiting);
    assert_eq!(s.turn_at(120), SleepTurn::Done);
    assert_eq!(s.turn_at(500), SleepTurn::Done);
    assert_eq!(Sleep::starting_at(100, 0).turn_at(100), SleepTurn::Done);
}

#[test]
fn sleep_starts_one_timer_and_is_woken() {
    let mut handle = ReactorHandle::new();
    let mut s = Sleep::starting_at(0, 10);
    assert_eq!(s.poll_at(3, &mut handle, "first"), Poll::Pending);
    assert_eq!(s.poll_at(4, &mut handle, "second"), Poll::Pending);
    assert_eq!(handle.shared.next_token, 1);
    assert_eq!(handle.timeout_at(4), Some(6));
    assert_eq!(handle.dispatch_at(&vec![], 9), Vec::<&str>::new());
    assert_eq!(handle.dispatch_at(&vec![], 10), vec!["first"]);
    assert_eq!(s.poll_at(10, &mut handle, "third"), Poll::Ready(()));
    assert_eq!(handle.shared.next_token, 1);
}

#[test]
fn sleep_that_is_over_needs_no_timer() {
    let mut handle = ReactorHandle::new();
    let mut s = Sleep::starting_at(0, 10);
    assert_eq!(s.poll_at(11, &mut handle, ()), Poll::Ready(()));
    assert!(!s.registered);
    assert_eq!(handle.shared.next_token, 0);
    assert_eq!(handle.timeout_at(0), None);
}

#[test]
fn poll_goes_by_the_clock() {
    let clock = Clock::new();
    let mut handle = ReactorHandle::new();
    let mut over = sleep(&clock, 0).unwrap();
    assert_eq!(over.poll(&clock, &mut handle, "over"), Poll::Ready(()));
    let mut long = sleep(&clock, 3600 * SECOND).unwrap();
    assert_eq!(long.poll(&clock, &mut handle, "long"), Poll::Pending);
    assert!(long.registered);
    assert_eq!(handle.shared.waiters.get(&0), Some(&"long"));
}
