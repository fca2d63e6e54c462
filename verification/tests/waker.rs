use toy_runtime::waker::{MyWaker, WakeChannel};

#[test]
fn wakes_arrive_in_order() {
    let mut channel = WakeChannel::new();
    MyWaker::new(4).wake(&mut channel);
    MyWaker::new(2).wake_by_ref(&mut channel);
    assert_eq!(channel.try_recv(), Some(4));
    assert_eq!(channel.try_recv(), Some(2));
    assert_eq!(channel.try_recv(), None);
}

#[test]
fn drain_takes_everything_oldest_first() {
    let mut channel = WakeChannel::new();
    assert_eq!(channel.drain(), Vec::<usize>::new());
    for id in [7, 7, 1] {
        assert_eq!(channel.send(id), Ok(()));
    }
    assert_eq!(channel.drain(), vec![7, 7, 1]);
    assert_eq!(channel.try_recv(), None);
    assert_eq!(channel.send(5), Ok(()));
    assert_eq!(channel.drain(), vec![5]);
}

#[test]
fn closed_channel_takes_nothing() {
    let mut channel = WakeChannel::new();
    assert_eq!(channel.send(3), Ok(()));
    channel.close();
    assert_eq!(channel.send(9), Err(9));
    MyWaker::new(9).wake(&mut channel);
    assert_eq!(channel.drain(), Vec::<usize>::new());
}
