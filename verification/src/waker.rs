//! Wakers, and the channel through which they hand task ids back to the executor.
use std::collections::VecDeque;
use vstd::prelude::*;

verus! {

/// What a wake channel holds: the ids that were sent and not yet received, oldest first, and
/// whether a receiver is still there.
pub struct ChannelModel {
    pub ids: Seq<usize>,
    pub open: bool,
}

/// A first-in, first-out channel of task ids, without a bound on its length.
pub struct WakeChannel {
    ids: VecDeque<usize>,
    open: bool,
}

impl View for WakeChannel {
    type V = ChannelModel;

    closed spec fn view(&self) -> ChannelModel {
        ChannelModel { ids: self.ids@, open: self.open }
    }
}

impl WakeChannel {
    /// An open channel with nothing in it.
    pub fn new() -> (channel: WakeChannel)
        ensures
            channel@ == (ChannelModel { ids: Seq::<usize>::empty(), open: true }),
    {
        WakeChannel { ids: VecDeque::new(), open: true }
    }

    /// Sends `id`. Once the receiver is gone, nothing is sent and `id` comes back.
    pub fn send(&mut self, id: usize) -> (sent: Result<(), usize>)
        ensures
            sent == (if old(self)@.open {
                Ok::<(), usize>(())
            } else {
                Err(id)
            }),
            final(self)@ == (if old(self)@.open {
                ChannelModel { ids: old(self)@.ids.push(id), open: true }
            } else {
                old(self)@
            }),
    {
        if self.open {
            self.ids.push_back(id);
            Ok(())
        } else {
            Err(id)
        }
    }

    /// Receives the id that was sent first, or nothing where the channel is empty.
    pub fn try_recv(&mut self) -> (id: Option<usize>)
        ensures
            final(self)@.open == old(self)@.open,
            old(self)@.ids.len() == 0 ==> id is None && final(self)@.ids == old(self)@.ids,
            old(self)@.ids.len() > 0 ==> id == Some(old(self)@.ids[0]) && final(self)@.ids
                == old(self)@.ids.drop_first(),
    {
        self.ids.pop_front()
    }

    /// Receives all the ids that are in the channel, the one that was sent first in front.
    pub fn drain(&mut self) -> (ids: Vec<usize>)
        ensures
            ids@ == old(self)@.ids,
            final(self)@ == (ChannelModel { ids: Seq::<usize>::empty(), open: old(self)@.open }),
    {
        let mut ids: Vec<usize> = Vec::new();
        loop
            invariant
                self@.open == old(self)@.open,
                ids@ + self@.ids == old(self)@.ids,
            ensures
                self@.open == old(self)@.open,
                ids@ == old(self)@.ids,
                self@.ids.len() == 0,
            decreases self@.ids.len(),
        {
            match self.try_recv() {
                Some(id) => {
                    ids.push(id);
                    assert(ids@ + self@.ids =~= old(self)@.ids);
                },
                None => {
                    assert(ids@ + self@.ids =~= ids@);
                    break;
                },
            }
        }
        assert(self@.ids =~= Seq::<usize>::empty());
        ids
    }

    /// Gives up the receiving end: what was not received is lost, and nothing more can be sent.
    pub fn close(&mut self)
        ensures
            final(self)@ == (ChannelModel { ids: Seq::<usize>::empty(), open: false }),
    {
        self.ids.clear();
        self.open = false;
    }
}

/// The waker of one task: waking sends the id of the task through the channel.
#[derive(Clone, Copy, Debug, PartialEq, Eq, Structural)]
pub struct MyWaker {
    pub task_id: usize,
}

/// What the channel holds after the task `id` was woken.
pub open spec fn woken(channel: ChannelModel, id: usize) -> ChannelModel {
    if channel.open {
        ChannelModel { ids: channel.ids.push(id), open: true }
    } else {
        channel
    }
}

impl MyWaker {
    /// The waker of the task `id`.
    pub fn new(id: usize) -> (waker: MyWaker)
        ensures
            waker.task_id == id,
    {
        MyWaker { task_id: id }
    }

    /// Wakes the task. A channel that nobody receives from any more is left as it is.
    pub fn wake(self, channel: &mut WakeChannel)
        ensures
            final(channel)@ == woken(old(channel)@, self.task_id),
    {
        self.wake_by_ref(channel);
    }

    /// Wakes the task and keeps the waker.
    pub fn wake_by_ref(&self, channel: &mut WakeChannel)
        ensures
            final(channel)@ == woken(old(channel)@, self.task_id),
    {
        let _ = channel.send(self.task_id);
    }
}

/// A new channel holds nothing, and somebody receives from it.
pub proof fn law_new_channel_is_empty(channel: WakeChannel)
    requires
        call_ensures(WakeChannel::new, (), channel),
    ensures
        channel@.open,
        channel@.ids.len() == 0,
{
}

/// What is sent through an open channel stands behind all that was sent before. Nothing is sent
/// through a channel that nobody receives from: the id comes back.
pub proof fn law_sent_id_is_last(channel: &mut WakeChannel, id: usize, sent: Result<(), usize>)
    requires
        call_ensures(WakeChannel::send, (channel, id), sent),
    ensures
        final(channel)@.open == old(channel)@.open,
        old(channel)@.open ==> sent is Ok && final(channel)@.ids == old(channel)@.ids + seq![id],
        !old(channel)@.open ==> sent == Err::<(), usize>(id) && final(channel)@.ids == old(
            channel,
        )@.ids,
{
    assert(old(channel)@.ids.push(id) =~= old(channel)@.ids + seq![id]);
}

/// What is received is what was sent first, and the rest stays in its order. Nothing is received
/// exactly where there is nothing.
pub proof fn law_first_id_is_received(channel: &mut WakeChannel, id: Option<usize>)
    requires
        call_ensures(WakeChannel::try_recv, (channel,), id),
    ensures
        final(channel)@.open == old(channel)@.open,
        id matches Some(first) ==> old(channel)@.ids == seq![first] + final(channel)@.ids,
        id is None ==> old(channel)@.ids.len() == 0 && final(channel)@.ids.len() == 0,
{
    let ids = old(channel)@.ids;
    if ids.len() > 0 {
        assert(seq![ids[0]] + ids.drop_first() =~= ids);
    }
}

/// Draining takes all that is in the channel, in the order in which it was sent, and leaves
/// nothing.
pub proof fn law_drain_takes_all(channel: &mut WakeChannel, ids: Vec<usize>)
    requires
        call_ensures(WakeChannel::drain, (channel,), ids),
    ensures
        ids@ == old(channel)@.ids,
        final(channel)@.ids.len() == 0,
        final(channel)@.open == old(channel)@.open,
{
}

/// A channel that was closed holds nothing, and takes nothing any more.
pub proof fn law_closed_channel_stays_empty(
    channel: &mut WakeChannel,
    same: &mut WakeChannel,
    waker: MyWaker,
)
    requires
        call_ensures(WakeChannel::close, (channel,), ()),
        final(channel)@ == old(same)@,
        call_ensures(MyWaker::wake, (waker, same), ()),
    ensures
        final(channel)@.ids.len() == 0,
        !final(channel)@.open,
        final(same)@ == old(same)@,
{
}

/// The waker of a task sends the id of that task, and nothing else, behind all that was sent
/// before, whether the waker is kept or not.
pub proof fn law_wake_sends_the_id_of_the_task(
    id: usize,
    waker: MyWaker,
    channel: &mut WakeChannel,
)
    requires
        call_ensures(MyWaker::new, (id,), waker),
        call_ensures(MyWaker::wake, (waker, channel), ()) || call_ensures(
            MyWaker::wake_by_ref,
            (&waker, channel),
            (),
        ),
    ensures
        final(channel)@.open == old(channel)@.open,
        final(channel)@.ids == if old(channel)@.open {
            old(channel)@.ids + seq![id]
        } else {
            old(channel)@.ids
        },
{
    assert(old(channel)@.ids.push(id) =~= old(channel)@.ids + seq![id]);
}

/// A wake through an open channel is among what the next drain takes, behind what was sent before.
pub proof fn law_wake_comes_out_of_the_next_drain(
    waker: MyWaker,
    channel: &mut WakeChannel,
    same: &mut WakeChannel,
    ids: Vec<usize>,
)
    requires
        old(channel)@.open,
        call_ensures(MyWaker::wake, (waker, channel), ()),
        final(channel)@ == old(same)@,
        call_ensures(WakeChannel::drain, (same,), ids),
    ensures
        ids@.len() == old(channel)@.ids.len() + 1,
        ids@.last() == waker.task_id,
        ids@.drop_last() == old(channel)@.ids,
{
    assert(old(channel)@.ids.push(waker.task_id).drop_last() =~= old(channel)@.ids);
}

/// What the channel holds after a wake: all that it held, and then the id, where it is open.
pub proof fn law_woken_id_is_last(channel: ChannelModel, id: usize)
    ensures
        woken(channel, id).open == channel.open,
        channel.open ==> woken(channel, id).ids == channel.ids + seq![id],
        !channel.open ==> woken(channel, id).ids == channel.ids,
{
    assert(channel.ids.push(id) =~= channel.ids + seq![id]);
}

} // verus!
