use toy_runtime::executor::{Action, Event, Executor, Task};
use toy_runtime::reactor::{Interest, ReactorHandle};
use toy_runtime::time::Sleep;
use toy_runtime::waker::{MyWaker, WakeChannel};
use toy_runtime::Poll;

#[test]
fn task_keeps_future_and_id() {
    let task = Task::new("future", 3);
    assert_eq!(task.future, "future");
    assert_eq!(task.id, 3);
}

#[test]
fn no_tasks_no_work() {
    let executor: Executor<()> = Executor::new();
    let mut run = executor.block_on();
    assert_eq!(run.step(Event::Started), Action::Finish);
}

#[test]
fn ready_tasks_are_polled_in_the_order_of_spawning() {
    let mut executor = Executor::new();
    for name in ["a", "b", "c"] {
        executor.spawn(name);
    }
    let mut run = executor.block_on();
    assert_eq!(run.step(Event::Started), Action::Poll(0));
    assert_eq!(run.future_mut(0), Some(&mut "a"));
    assert_eq!(run.step(Event::Pending), Action::Poll(1));
    assert_eq!(run.future_mut(1), Some(&mut "b"));
    assert_eq!(run.step(Event::Ready), Action::Poll(2));
    assert_eq!(run.future_mut(2), Some(&mut "c"));
    assert_eq!(run.step(Event::Pending), Action::Look);
    assert_eq!(run.step(Event::Looked), Action::Drain);
    assert_eq!(run.step(Event::Drained(vec![])), Action::Wait);
    assert_eq!(run.step(Event::Waited), Action::Drain);
}

#[test]
fn done_tasks_go_and_pending_ones_keep_their_state() {
    let mut executor = Executor::new();
    executor.spawn(10);
    executor.spawn(20);
    let mut run = executor.block_on();
    assert_eq!(run.step(Event::Started), Action::Poll(0));
    *run.future_mut(0).unwrap() += 1;
    assert_eq!(run.step(Event::Pending), Action::Poll(1));
    assert_eq!(run.step(Event::Ready), Action::Look);
    assert_eq!(run.future_mut(1), None);
    assert_eq!(run.future_mut(0), Some(&mut 11));
    assert_eq!(run.step(Event::Looked), Action::Drain);
    assert_eq!(run.step(Event::Drained(vec![])), Action::Wait);
    assert_eq!(run.step(Event::Waited), Action::Drain);
    assert_eq!(run.step(Event::Drained(vec![0])), Action::Poll(0));
    assert_eq!(run.step(Event::Ready), Action::Finish);
}

#[test]
fn woken_tasks_are_polled_in_the_order_of_waking() {
    let mut executor = Executor::new();
    for n in 0..3 {
        executor.spawn(n);
    }
    let mut run = executor.block_on();
    run.step(Event::Started);
    run.step(Event::Pending);
    run.step(Event::Pending);
    assert_eq!(run.step(Event::Pending), Action::Look);
    assert_eq!(run.step(Event::Looked), Action::Drain);
    let mut channel = WakeChannel::new();
    for id in [2, 0, 1] {
        MyWaker::new(id).wake(&mut channel);
    }
    assert_eq!(run.step(Event::Drained(channel.drain())), Action::Poll(2));
    assert_eq!(run.step(Event::Ready), Action::Poll(0));
    assert_eq!(run.step(Event::Ready), Action::Poll(1));
    assert_eq!(run.step(Event::Ready), Action::Finish);
}

#[test]
fn wake_of_a_done_task_counts_for_nothing() {
    let mut executor = Executor::new();
    executor.spawn("a");
    executor.spawn("b");
    let mut run = executor.block_on();
    run.step(Event::Started);
    assert_eq!(run.step(Event::Ready), Action::Poll(1));
    assert_eq!(run.step(Event::Pending), Action::Look);
    assert_eq!(run.step(Event::Looked), Action::Drain);
    assert_eq!(run.step(Event::Drained(vec![0])), Action::Drain);
    assert_eq!(run.step(Event::Drained(vec![])), Action::Wait);
    assert_eq!(run.step(Event::Waited), Action::Drain);
    assert_eq!(run.step(Event::Drained(vec![0, 1, 0])), Action::Poll(1));
    assert_eq!(run.step(Event::Ready), Action::Finish);
}

#[test]
fn surplus_wake_does_not_disturb_the_run() {
    let mut executor = Executor::new();
    executor.spawn("twice");
    executor.spawn("other");
    let mut run = executor.block_on();
    run.step(Event::Started);
    run.step(Event::Pending);
    assert_eq!(run.step(Event::Pending), Action::Look);
    assert_eq!(run.step(Event::Looked), Action::Drain);
    let mut channel = WakeChannel::new();
    for id in [0, 0, 1, 0] {
        MyWaker::new(id).wake_by_ref(&mut channel);
    }
    assert_eq!(run.step(Event::Drained(channel.drain())), Action::Poll(0));
    assert_eq!(run.step(Event::Ready), Action::Poll(1));
    assert_eq!(run.step(Event::Pending), Action::Look);
    assert_eq!(run.step(Event::Looked), Action::Drain);
    assert_eq!(run.step(Event::Drained(vec![1])), Action::Poll(1));
    assert_eq!(run.step(Event::Ready), Action::Finish);
}

/// One task wakes itself until the other, which sleeps, has been woken.
#[test]
fn task_that_wakes_itself_does_not_keep_others_from_waking() {
    let mut executor = Executor::new();
    executor.spawn("spinner");
    executor.spawn("sleeper");
    let mut run = executor.block_on();
    let mut handle = ReactorHandle::new();
    let mut channel = WakeChannel::new();
    let mut slept = Sleep::starting_at(0, 50);
    let mut now: u128 = 0;
    let mut awake = false;
    let mut action = run.step(Event::Started);
    while action != Action::Finish {
        now += 1;
        assert!(now < 1000);
        let event = match action {
            Action::Poll(0) if awake => Event::Ready,
            Action::Poll(0) => {
                MyWaker::new(0).wake(&mut channel);
                Event::Pending
            }
            Action::Poll(id) => match slept.poll_at(now, &mut handle, MyWaker::new(id)) {
                Poll::Ready(()) => {
                    awake = true;
                    Event::Ready
                }
                Poll::Pending => Event::Pending,
            },
            Action::Drain => Event::Drained(channel.drain()),
            Action::Look => {
                for waker in handle.dispatch_at(&vec![], now) {
                    waker.wake(&mut channel);
                }
                Event::Looked
            }
            Action::Wait => panic!("there is always a wake in the channel"),
            Action::Finish => unreachable!(),
        };
        action = run.step(event);
    }
    assert!(awake);
}

#[test]
fn reported_event_leads_to_a_poll() {
    let mut executor = Executor::new();
    executor.spawn("reader");
    let mut run = executor.block_on();
    let mut handle = ReactorHandle::new();
    let mut channel = WakeChannel::new();
    let mut token = None;

    assert_eq!(run.step(Event::Started), Action::Poll(0));
    handle.register(MyWaker::new(0), Interest::Readable, &mut token);
    assert_eq!(run.step(Event::Pending), Action::Look);
    assert_eq!(handle.dispatch_at(&vec![], 0), vec![]);
    assert_eq!(run.step(Event::Looked), Action::Drain);
    assert_eq!(run.step(Event::Drained(channel.drain())), Action::Wait);
    for waker in handle.dispatch_at(&vec![token.unwrap()], 0) {
        waker.wake(&mut channel);
    }
    assert_eq!(run.step(Event::Waited), Action::Drain);
    assert_eq!(run.step(Event::Drained(channel.drain())), Action::Poll(0));
    assert_eq!(run.step(Event::Ready), Action::Finish);
}

/// Three tasks that print, sleep for three seconds, and print again.
#[test]
fn sleeping_tasks_print_in_order() {
    let second: u128 = 1_000_000_000;
    let mut executor = Executor::new();
    for index in 1..=3 {
        executor.spawn((index, None));
    }
    let mut run = executor.block_on();
    let mut handle = ReactorHandle::new();
    let mut channel = WakeChannel::new();
    let mut now: u128 = 0;
    let mut printed = Vec::new();

    let mut action = run.step(Event::Started);
    loop {
        now += 1000;
        let event = match action {
            Action::Poll(id) => {
                let (index, state) = run.future_mut(id).unwrap();
                if state.is_none() {
                    printed.push(format!("Sleeping on {index}"));
                    *state = Some(Sleep::starting_at(now, 3 * second));
                }
                let slept = state.as_mut().unwrap();
                match slept.poll_at(now, &mut handle, MyWaker::new(id)) {
                    Poll::Ready(()) => {
                        printed.push(format!("Awake on {index}"));
                        Event::Ready
                    }
                    Poll::Pending => Event::Pending,
                }
            }
            Action::Drain => Event::Drained(channel.drain()),
            Action::Look => {
                for waker in handle.dispatch_at(&vec![], now) {
                    waker.wake(&mut channel);
                }
                Event::Looked
            }
            Action::Wait => {
                now += handle.timeout_at(now).unwrap();
                for waker in handle.dispatch_at(&vec![], now) {
                    waker.wake(&mut channel);
                }
                Event::Waited
            }
            Action::Finish => break,
        };
        action = run.step(event);
    }
    assert_eq!(
        printed,
        vec![
            "Sleeping on 1",
            "Sleeping on 2",
            "Sleeping on 3",
            "Awake on 1",
            "Awake on 2",
            "Awake on 3",
        ]
    );
    assert!(now > 3 * second);
}

#[test]
fn task_woken_while_polled_is_polled_again() {
    let mut executor = Executor::new();
    executor.spawn(());
    let mut run = executor.block_on();
    let mut channel = WakeChannel::new();
    assert_eq!(run.step(Event::Started), Action::Poll(0));
    MyWaker::new(0).wake(&mut channel);
    assert_eq!(run.step(Event::Pending), Action::Look);
    assert_eq!(run.step(Event::Looked), Action::Drain);
    assert_eq!(run.step(Event::Drained(channel.drain())), Action::Poll(0));
    assert_eq!(run.step(Event::Ready), Action::Finish);
}

#[test]
fn wakes_of_the_reactor_come_after_those_of_tasks() {
    let mut executor = Executor::new();
    executor.spawn("sleeper");
    executor.spawn("yielder");
    let mut run = executor.block_on();
    let mut handle = ReactorHandle::new();
    let mut channel = WakeChannel::new();
    let mut slept = Sleep::starting_at(0, 5);
    assert_eq!(run.step(Event::Started), Action::Poll(0));
    assert_eq!(slept.poll_at(1, &mut handle, MyWaker::new(0)), Poll::Pending);
    assert_eq!(run.step(Event::Pending), Action::Poll(1));
    MyWaker::new(1).wake(&mut channel);
    assert_eq!(run.step(Event::Pending), Action::Look);
    for waker in handle.dispatch_at(&vec![], 6) {
        waker.wake(&mut channel);
    }
    assert_eq!(run.step(Event::Looked), Action::Drain);
    assert_eq!(run.step(Event::Drained(channel.drain())), Action::Poll(1));
    assert_eq!(run.step(Event::Ready), Action::Poll(0));
    assert_eq!(run.step(Event::Ready), Action::Finish);
}
