use toy_runtime::timers::{Timer, TimerHeap};

fn timer(deadline: u128, token: usize) -> Timer {
    Timer { deadline, token }
}

#[test]
fn empty_heap_has_no_nearest_timer() {
    let mut heap = TimerHeap::new();
    assert_eq!(heap.peek(), None);
    assert_eq!(heap.pop(), None);
}

#[test]
fn timers_leave_by_deadline_then_token() {
    let mut heap = TimerHeap::new();
    for t in [timer(30, 1), timer(10, 5), timer(20, 2), timer(10, 3), timer(20, 9)] {
        heap.push(t);
    }
    assert_eq!(heap.peek(), Some(timer(10, 3)));
    let mut left = Vec::new();
    while let Some(t) = heap.pop() {
        left.push(t);
    }
    assert_eq!(
        left,
        vec![timer(10, 3), timer(10, 5), timer(20, 2), timer(20, 9), timer(30, 1)]
    );
}

#[test]
fn many_timers_come_out_sorted() {
    let mut heap = TimerHeap::new();
    let mut x: u128 = 12345;
    let mut expected = Vec::new();
    for token in 0..500 {
        x = (x * 1103515245 + 12345) % 2147483648;
        heap.push(timer(x % 97, token));
        expected.push((x % 97, token));
    }
    expected.sort();
    let mut left = Vec::new();
    while let Some(t) = heap.pop() {
        left.push((t.deadline, t.token));
    }
    assert_eq!(left, expected);
}

#[test]
fn pushes_and_pops_mix() {
    let mut heap = TimerHeap::new();
    heap.push(timer(5, 0));
    heap.push(timer(1, 1));
    assert_eq!(heap.pop(), Some(timer(1, 1)));
    heap.push(timer(3, 2));
    heap.push(timer(9, 3));
    assert_eq!(heap.pop(), Some(timer(3, 2)));
    assert_eq!(heap.pop(), Some(timer(5, 0)));
    assert_eq!(heap.pop(), Some(timer(9, 3)));
    assert_eq!(heap.pop(), None);
}

#[test]
fn order_of_timers() {
    assert!(timer(1, 9).le(&timer(2, 0)));
    assert!(timer(2, 0).le(&timer(2, 0)));
    assert!(timer(2, 0).le(&timer(2, 1)));
    assert!(!timer(2, 1).le(&timer(2, 0)));
    assert!(!timer(3, 0).le(&timer(2, 1)));
}
