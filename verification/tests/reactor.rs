use toy_runtime::reactor::{Interest, Reactor, ReactorHandle, ReactorState, Request};
use toy_runtime::time::Clock;

const SECOND: u128 = 1_000_000_000;

#[test]
fn new_state_is_empty() {
    let state: ReactorState<&str> = ReactorState::new();
    assert_eq!(state.next_token, 0);
    assert!(state.waiters.is_empty());
    let reactor = Reactor::new();
    assert!(reactor.events.is_empty());
    assert!(reactor.token_to_task_id.is_empty());
    assert_eq!(reactor.next_token, 0);
}

#[test]
fn first_registration_gets_a_token_and_keeps_it() {
    let mut handle = ReactorHandle::new();
    let mut token = None;
    let request = handle.register("a", Interest::Readable, &mut token);
    assert_eq!(token, Some(0));
    assert_eq!(request, Request::Register { token: 0, interest: Interest::Readable });

    let request = handle.register("b", Interest::Writable, &mut token);
    assert_eq!(token, Some(0));
    assert_eq!(request, Request::Reregister { token: 0, interest: Interest::Writable });
    assert_eq!(handle.shared.next_token, 1);
    assert_eq!(handle.shared.waiters.len(), 1);
    assert_eq!(handle.shared.waiters.get(&0), Some(&"b"));

    let mut other = None;
    let request = handle.register("c", Interest::Readable, &mut other);
    assert_eq!(request, Request::Register { token: 1, interest: Interest::Readable });
}

#[test]
fn deregister_undoes_register() {
    let mut handle = ReactorHandle::new();
    let mut token = None;
    handle.register("a", Interest::Readable, &mut token);
    assert_eq!(handle.deregister(&mut token), Request::Deregister);
    assert_eq!(token, None);
    assert!(handle.shared.waiters.is_empty());
    assert_eq!(handle.deregister(&mut token), Request::Nothing);
    assert_eq!(handle.dispatch_at(&vec![0], 0), Vec::<&str>::new());

    handle.register("b", Interest::Readable, &mut token);
    assert_eq!(token, Some(1));
}

#[test]
fn reported_tokens_wake_their_waiters_once() {
    let mut handle = ReactorHandle::new();
    let mut tokens = [None, None, None];
    for (i, name) in ["a", "b", "c"].into_iter().enumerate() {
        handle.register(name, Interest::Readable, &mut tokens[i]);
    }
    assert_eq!(handle.dispatch_at(&vec![2, 0, 2, 17], 0), vec!["c", "a"]);
    assert_eq!(handle.dispatch_at(&vec![2, 0], 0), Vec::<&str>::new());
    assert_eq!(handle.shared.waiters.get(&1), Some(&"b"));
    assert_eq!(handle.dispatch_at(&vec![1], 0), vec!["b"]);
    assert!(handle.shared.waiters.is_empty());
}

#[test]
fn due_timers_wake_nearest_first_after_the_events() {
    let mut handle = ReactorHandle::new();
    handle.start_timer(30, "thirty");
    handle.start_timer(10, "ten");
    handle.start_timer(40, "forty");
    handle.start_timer(10, "ten again");
    let mut token = None;
    handle.register("io", Interest::Readable, &mut token);
    assert_eq!(token, Some(4));
    assert_eq!(
        handle.dispatch_at(&vec![4], 30),
        vec!["io", "ten", "ten again", "thirty"]
    );
    assert_eq!(handle.timeout_at(30), Some(10));
    assert_eq!(handle.dispatch_at(&vec![], 39), Vec::<&str>::new());
    assert_eq!(handle.dispatch_at(&vec![], 40), vec!["forty"]);
    assert_eq!(handle.timeout_at(40), None);
}

#[test]
fn timer_of_a_woken_waiter_wakes_nobody() {
    let mut handle = ReactorHandle::new();
    handle.start_timer(5, "early");
    assert_eq!(handle.dispatch_at(&vec![0], 1), vec!["early"]);
    assert_eq!(handle.timeout_at(1), Some(4));
    assert_eq!(handle.dispatch_at(&vec![], 5), Vec::<&str>::new());
    assert_eq!(handle.timeout_at(5), None);
}

#[test]
fn timeout_is_the_time_to_the_nearest_deadline() {
    let mut handle = ReactorHandle::new();
    assert_eq!(handle.timeout_at(0), None);
    handle.start_timer(3 * SECOND, "far");
    handle.start_timer(2 * SECOND, "near");
    assert_eq!(handle.timeout_at(SECOND / 2), Some(3 * SECOND / 2));
    assert_eq!(handle.timeout_at(2 * SECOND), Some(0));
    assert_eq!(handle.timeout_at(5 * SECOND), Some(0));
    let now = SECOND;
    let later = now + handle.timeout_at(now).unwrap();
    assert_eq!(handle.dispatch_at(&vec![], later), vec!["near"]);
}

#[test]
fn epoll_goes_by_the_clock() {
    let clock = Clock::new();
    let mut handle = ReactorHandle::new();
    let mut reactor = Reactor::new();
    assert_eq!(reactor.timeout(&clock, &handle), None);
    handle.start_timer(0, "past");
    handle.start_timer(3600 * SECOND, "in an hour");
    let mut token = None;
    handle.register("io", Interest::Writable, &mut token);
    assert_eq!(reactor.timeout(&clock, &handle), Some(0));
    reactor.events = vec![2];
    assert_eq!(reactor.epoll(&clock, &mut handle), vec!["io", "past"]);
    let timeout = reactor.timeout(&clock, &handle).unwrap();
    assert!(timeout <= 3600 * SECOND && timeout > 3500 * SECOND);
}

#[test]
fn turn_without_events_changes_nothing() {
    let mut handle = ReactorHandle::new();
    let mut token = None;
    handle.start_timer(10, "timer");
    handle.register("io", Interest::Readable, &mut token);
    assert_eq!(handle.dispatch_at(&vec![], 9), Vec::<&str>::new());
    assert_eq!(handle.timeout_at(9), Some(1));
    assert_eq!(handle.shared.waiters.len(), 2);
    assert_eq!(handle.dispatch_at(&vec![1], 10), vec!["io", "timer"]);
}
