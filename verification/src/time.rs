//! The runtime's clock, and sleeping until a deadline.
use crate::reactor::{
    law_deadline_outlasts_earlier_turns, law_due_timer_is_woken, law_others_wait_on,
    law_started_timer_bears_the_token, law_wait_lasts_until_the_nearest_deadline, token_is_due,
    ReactorHandle, ReactorModel,
};
use crate::timers::Timer;
use crate::Poll;
use std::time::{Duration, Instant};
use vstd::prelude::*;

verus! {

/// The longest duration there is, in nanoseconds: `u64::MAX` seconds and 999999999 nanoseconds.
pub const MAX_DURATION_NANOS: u128 = 18446744073709551615999999999;

/// How many nanoseconds a second has.
pub const NANOS_PER_SECOND: u128 = 1000000000;

/// `std::time::Instant`, a point in time that is carried along unread.
#[verifier::external_type_specification]
#[verifier::external_body]
pub struct ExInstant(Instant);

/// `Instant::now`. Nothing is claimed of the point in time that comes back.
#[verifier::external_body]
fn instant_now() -> (instant: Instant) {
    Instant::now()
}

/// `Instant::saturating_duration_since`, in nanoseconds: how much time has passed from `origin` to
/// `instant`. It is claimed only that this is no more than the longest duration; how much it is
/// rests on when the two points in time were taken.
#[verifier::external_body]
fn nanos_since(origin: &Instant, instant: &Instant) -> (nanos: u128)
    ensures
        nanos <= MAX_DURATION_NANOS,
{
    instant.saturating_duration_since(*origin).as_nanos()
}

/// `Instant::checked_add`, with a duration of `seconds` and `nanos`: the point in time that comes
/// so much later, or none where an `Instant` cannot hold it. It is claimed only that there is one
/// where no time is added; what else an `Instant` can hold rests on the machine.
#[verifier::external_body]
fn instant_after(instant: &Instant, seconds: u64, nanos: u32) -> (later: Option<Instant>)
    requires
        nanos < NANOS_PER_SECOND,
    ensures
        seconds == 0 && nanos == 0 ==> later is Some,
{
    instant.checked_add(Duration::new(seconds, nanos))
}

/// A clock that counts nanoseconds from the moment at which it was made.
pub struct Clock {
    origin: Instant,
}

impl Clock {
    /// A clock that starts now.
    pub fn new() -> (clock: Clock)
        ensures
            clock.started(),
    {
        Clock { origin: instant_now() }
    }

    /// The time on this clock.
    pub fn now(&self) -> (now: u128)
        ensures
            self.shows(now),
            now <= MAX_DURATION_NANOS,
    {
        self.read().1
    }

    /// The present point in time, and the time on this clock then.
    fn read(&self) -> (reading: (Instant, u128))
        ensures
            self.reads(reading.0, reading.1),
            reading.1 <= MAX_DURATION_NANOS,
    {
        let instant = instant_now();
        let now: u128 = nanos_since(&self.origin, &instant);
        (instant, now)
    }

    /// The clock's start is a point in time that `Instant::now` gives.
    pub closed spec fn started(self) -> bool {
        call_ensures(instant_now, (), self.origin)
    }

    /// `instant` is a point in time that `Instant::now` gives, and `now` is the time from the
    /// clock's start to it.
    pub closed spec fn reads(self, instant: Instant, now: u128) -> bool {
        &&& call_ensures(instant_now, (), instant)
        &&& call_ensures(nanos_since, (&self.origin, &instant), now)
    }

    /// `now` is a time from the clock's start to a point in time that `Instant::now` gives. Which
    /// of them it gives rests on when it is asked.
    pub open spec fn shows(self, now: u128) -> bool {
        exists|instant: Instant| self.reads(instant, now)
    }
}

/// `later` is what `Instant::checked_add` gives for `instant` and `duration` nanoseconds.
pub closed spec fn comes_later(instant: Instant, duration: u128, later: Option<Instant>) -> bool {
    call_ensures(
        instant_after,
        (
            &instant,
            (duration / NANOS_PER_SECOND) as u64,
            (duration % NANOS_PER_SECOND) as u32,
        ),
        later,
    )
}

/// What a poll of a sleep comes to.
#[derive(Clone, Copy, Debug, PartialEq, Eq, Structural)]
pub enum SleepTurn {
    /// The sleep is done.
    Done,
    /// A timer is to be started for it.
    StartTimer,
    /// A timer runs for it.
    Waiting,
}

/// A future that is done once its deadline has come.
#[derive(Debug, PartialEq, Eq, Structural)]
pub struct Sleep {
    /// When it is done, on the runtime's clock.
    pub deadline: u128,
    /// Whether a timer runs for it.
    pub registered: bool,
}

impl Sleep {
    /// The sleep that begins at the time `now` and takes `duration` nanoseconds: no timer runs
    /// for it yet.
    pub open spec fn begun(now: u128, duration: u128) -> Sleep {
        Sleep { deadline: (now + duration) as u128, registered: false }
    }

    /// A sleep that begins at the time `now` and takes `duration` nanoseconds.
    pub fn starting_at(now: u128, duration: u128) -> (sleep: Sleep)
        requires
            now + duration <= u128::MAX,
        ensures
            sleep == Sleep::begun(now, duration),
    {
        Sleep { deadline: now + duration, registered: false }
    }

    /// The sleep that begins at the time `now` and takes `duration` nanoseconds, where its end is a
    /// point in time that there is.
    pub fn ending_at(now: u128, duration: u128, end: Option<Instant>) -> (sleep: Option<Sleep>)
        requires
            now + duration <= u128::MAX,
        ensures
            sleep == (match end {
                Some(_) => Some(Sleep::begun(now, duration)),
                None => None,
            }),
    {
        match end {
            Some(_) => Some(Sleep::starting_at(now, duration)),
            None => None,
        }
    }

    /// What a poll at the time `now` comes to. From the deadline on the sleep is done, and
    /// nothing changes. Before, the first poll starts a timer that wakes `waker`; a later one
    /// changes nothing.
    pub open spec fn polled<W>(
        before: Sleep,
        after: Sleep,
        reactor_before: ReactorModel<W>,
        reactor_after: ReactorModel<W>,
        waker: W,
        now: u128,
        poll: Poll<()>,
    ) -> bool {
        if now >= before.deadline {
            poll == Poll::Ready(()) && after == before && reactor_after == reactor_before
        } else {
            &&& poll == Poll::<()>::Pending
            &&& after == (Sleep { deadline: before.deadline, registered: true })
            &&& reactor_after == if before.registered {
                reactor_before
            } else {
                reactor_before.timer_started(before.deadline, waker)
            }
        }
    }

    /// What a poll at the time `now` asks for.
    pub open spec fn turn(self, now: u128) -> SleepTurn {
        if now >= self.deadline {
            SleepTurn::Done
        } else if self.registered {
            SleepTurn::Waiting
        } else {
            SleepTurn::StartTimer
        }
    }

    /// Says what a poll at the time `now` asks for. A timer is asked for once.
    pub fn turn_at(&mut self, now: u128) -> (turn: SleepTurn)
        ensures
            turn == old(self).turn(now),
            *final(self) == (Sleep {
                deadline: old(self).deadline,
                registered: old(self).registered || turn is StartTimer,
            }),
    {
        if now >= self.deadline {
            SleepTurn::Done
        } else if self.registered {
            SleepTurn::Waiting
        } else {
            self.registered = true;
            SleepTurn::StartTimer
        }
    }

    /// Polls the sleep at the time `now`.
    pub fn poll_at<W>(&mut self, now: u128, handle: &mut ReactorHandle<W>, waker: W) -> (poll: Poll<
        (),
    >)
        requires
            old(handle).wf(),
            old(self).turn(now) is StartTimer ==> old(handle)@.has_token(),
        ensures
            final(handle).wf(),
            Sleep::polled(
                *old(self),
                *final(self),
                old(handle)@,
                final(handle)@,
                waker,
                now,
                poll,
            ),
    {
        match self.turn_at(now) {
            SleepTurn::Done => Poll::Ready(()),
            SleepTurn::StartTimer => {
                handle.start_timer(self.deadline, waker);
                Poll::Pending
            },
            SleepTurn::Waiting => Poll::Pending,
        }
    }

    /// Polls the sleep now.
    pub fn poll<W>(&mut self, clock: &Clock, handle: &mut ReactorHandle<W>, waker: W) -> (poll:
        Poll<()>)
        requires
            old(handle).wf(),
            !old(self).registered ==> old(handle)@.has_token(),
        ensures
            final(handle).wf(),
            exists|now: u128|
                clock.shows(now) && now <= MAX_DURATION_NANOS && #[trigger] Sleep::polled(
                    *old(self),
                    *final(self),
                    old(handle)@,
                    final(handle)@,
                    waker,
                    now,
                    poll,
                ),
    {
        let now: u128 = clock.now();
        self.poll_at(now, handle, waker)
    }
}

/// A sleep that begins now and takes `duration` nanoseconds. There is none where its end is too
/// far away for an `Instant`, which the end of a sleep that takes no time never is.
pub fn sleep(clock: &Clock, duration: u128) -> (sleep: Option<Sleep>)
    requires
        duration <= MAX_DURATION_NANOS,
    ensures
        duration == 0 ==> sleep is Some,
        exists|instant: Instant, now: u128, end: Option<Instant>| #[trigger]
            clock.reads(instant, now) && #[trigger] comes_later(instant, duration, end) && now
                <= MAX_DURATION_NANOS && sleep == (match end {
                Some(_) => Some(Sleep::begun(now, duration)),
                None => None,
            }),
{
    let (instant, now) = clock.read();
    let seconds: u64 = (duration / NANOS_PER_SECOND) as u64;
    let nanos: u32 = (duration % NANOS_PER_SECOND) as u32;
    let end = instant_after(&instant, seconds, nanos);
    assert(comes_later(instant, duration, end));
    Sleep::ending_at(now, duration, end)
}

/// A sleep is done exactly when its deadline has come: never before, and always from then on. The
/// deadline stays what it was.
pub proof fn law_sleep_is_done_from_its_deadline<W>(
    before: Sleep,
    after: Sleep,
    reactor_before: ReactorModel<W>,
    reactor_after: ReactorModel<W>,
    waker: W,
    now: u128,
    poll: Poll<()>,
)
    requires
        Sleep::polled(before, after, reactor_before, reactor_after, waker, now, poll),
    ensures
        poll is Ready <==> now >= before.deadline,
        after.deadline == before.deadline,
{
}

/// A sleep starts one timer at most: once it was polled before its deadline, no later poll
/// changes what the reactor knows.
pub proof fn law_sleep_starts_one_timer<W>(
    before: Sleep,
    between: Sleep,
    after: Sleep,
    reactor_before: ReactorModel<W>,
    reactor_between: ReactorModel<W>,
    reactor_after: ReactorModel<W>,
    waker: W,
    other_waker: W,
    now: u128,
    later: u128,
    poll: Poll<()>,
    later_poll: Poll<()>,
)
    requires
        Sleep::polled(before, between, reactor_before, reactor_between, waker, now, poll),
        poll is Pending,
        Sleep::polled(
            between,
            after,
            reactor_between,
            reactor_after,
            other_waker,
            later,
            later_poll,
        ),
    ensures
        reactor_after == reactor_between,
        after == between,
{
}

/// A sleep wakes: after its first poll before the deadline, the waker of that poll is woken as
/// soon as the reactor looks at the clock at or after the deadline, whatever events there are.
/// Before the deadline no timer wakes it.
pub proof fn law_sleep_wakes_at_its_deadline<W>(
    before: Sleep,
    after: Sleep,
    reactor_before: ReactorModel<W>,
    reactor_after: ReactorModel<W>,
    waker: W,
    now: u128,
    poll: Poll<()>,
    events: Seq<usize>,
    later: u128,
)
    requires
        Sleep::polled(before, after, reactor_before, reactor_after, waker, now, poll),
        poll is Pending,
        !before.registered,
    ensures
        later >= before.deadline ==> reactor_after.woken(events, later).contains(waker),
        later < before.deadline && reactor_before.issued() && !events.contains(
            reactor_before.next_token,
        ) ==> {
            let left = reactor_after.dispatched(events, later).waiters;
            left.contains_key(reactor_before.next_token) && left[reactor_before.next_token] == waker
        },
{
    broadcast use vstd::multiset::group_multiset_axioms;

    let timer = Timer { deadline: before.deadline, token: reactor_before.next_token };
    assert(reactor_after.timers.contains(timer));
    assert(reactor_after.waiters[timer.token] == waker);
    if later >= before.deadline {
        law_due_timer_is_woken(reactor_after, events, later, timer);
    } else if reactor_before.issued() && !events.contains(timer.token) {
        assert forall|t: Timer| #[trigger]
            reactor_after.timers.contains(t) && t.token == timer.token implies t.deadline
            > later by {
            if t != timer {
                assert(reactor_before.timers.contains(t));
            }
        }
        law_others_wait_on(reactor_after, events, later, timer.token);
    }
}

/// A sleep takes as long as it was asked to: it is not done before `duration` has passed since it
/// began, and it is done from then on.
pub proof fn law_sleep_takes_its_duration<W>(
    began: u128,
    duration: u128,
    after: Sleep,
    reactor_before: ReactorModel<W>,
    reactor_after: ReactorModel<W>,
    waker: W,
    now: u128,
    poll: Poll<()>,
)
    requires
        began + duration <= u128::MAX,
        Sleep::polled(
            Sleep::begun(began, duration),
            after,
            reactor_before,
            reactor_after,
            waker,
            now,
            poll,
        ),
    ensures
        poll is Ready <==> now - began >= duration,
{
}

/// A new clock starts at a point in time that `Instant::now` gives.
proof fn law_new_clock_starts_now(clock: Clock)
    requires
        call_ensures(Clock::new, (), clock),
    ensures
        call_ensures(instant_now, (), clock.origin),
{
}

/// What a clock shows is the time that has passed from its start to a point in time that
/// `Instant::now` gives, neither more nor less.
proof fn law_clock_counts_from_its_start(clock: &Clock, now: u128)
    requires
        call_ensures(Clock::now, (clock,), now) || clock.shows(now),
    ensures
        exists|instant: Instant| #[trigger]
            call_ensures(nanos_since, (&clock.origin, &instant), now) && call_ensures(
                instant_now,
                (),
                instant,
            ),
{
    let instant = choose|instant: Instant| clock.reads(instant, now);
    assert(call_ensures(nanos_since, (&clock.origin, &instant), now));
}

/// What comes later by some nanoseconds comes later by as many seconds and nanoseconds as make
/// them up.
proof fn law_later_by_the_whole_duration(instant: Instant, duration: u128, later: Option<Instant>)
    requires
        duration <= MAX_DURATION_NANOS,
        comes_later(instant, duration, later),
    ensures
        exists|seconds: u64, nanos: u32| #[trigger]
            call_ensures(instant_after, (&instant, seconds, nanos), later) && seconds * 1000000000
                + nanos == duration && nanos < 1000000000,
{
    let seconds = (duration / NANOS_PER_SECOND) as u64;
    let nanos = (duration % NANOS_PER_SECOND) as u32;
    assert(call_ensures(instant_after, (&instant, seconds, nanos), later));
}

/// A duration of whole seconds and of nanoseconds that make up less than a second is no longer than
/// the longest one, and the longest one is such a duration.
pub proof fn law_longest_duration(seconds: u64, nanos: u32)
    requires
        nanos < 1000000000,
    ensures
        seconds * 1000000000 + nanos <= MAX_DURATION_NANOS,
        u64::MAX * 1000000000 + 999999999 == MAX_DURATION_NANOS,
{
}

/// A sleep that begins ends when its duration has passed, and no timer runs for it yet, whatever
/// the duration.
pub proof fn law_new_sleep_has_no_timer(now: u128, duration: u128)
    requires
        now + duration <= u128::MAX,
    ensures
        Sleep::begun(now, duration).deadline == now + duration,
        !Sleep::begun(now, duration).registered,
{
}

/// What beginning a sleep at a given time comes to, and that there is none exactly where its end
/// is no point in time.
pub proof fn law_starting_at(
    now: u128,
    duration: u128,
    end: Option<Instant>,
    sleep: Sleep,
    ending: Option<Sleep>,
)
    requires
        now + duration <= u128::MAX,
        call_ensures(Sleep::starting_at, (now, duration), sleep),
        call_ensures(Sleep::ending_at, (now, duration, end), ending),
    ensures
        sleep.deadline == now + duration,
        !sleep.registered,
        ending is Some <==> end is Some,
        ending matches Some(s) ==> s.deadline == now + duration && !s.registered,
{
}

/// What beginning a sleep now comes to: it ends when its duration has passed since a time that the
/// clock shows, and no timer runs for it yet. There is none only where its end is no point in time.
pub proof fn law_sleep_begins_now(clock: &Clock, duration: u128, slept: Option<Sleep>)
    requires
        duration <= MAX_DURATION_NANOS,
        call_ensures(sleep, (clock, duration), slept),
    ensures
        duration == 0 ==> slept is Some,
        slept matches Some(s) ==> !s.registered && exists|now: u128| #[trigger]
            clock.shows(now) && s.deadline == now + duration,
        slept is None ==> exists|instant: Instant, now: u128| #[trigger]
            clock.reads(instant, now) && comes_later(instant, duration, None),
{
    let (instant, now, end) = choose|instant: Instant, now: u128, end: Option<Instant>| #[trigger]
        clock.reads(instant, now) && #[trigger] comes_later(instant, duration, end) && now
            <= MAX_DURATION_NANOS && slept == (match end {
            Some(_) => Some(Sleep::begun(now, duration)),
            None => None,
        });
    assert(clock.reads(instant, now));
    assert(clock.shows(now));
}

/// What a poll of a sleep asks for: nothing from its deadline on; before, a timer, unless one runs
/// for it. Its deadline stays, and a timer that was asked for counts as running.
pub proof fn law_turn_at(sleep: &mut Sleep, now: u128, turn: SleepTurn)
    requires
        call_ensures(Sleep::turn_at, (sleep, now), turn),
    ensures
        final(sleep).deadline == old(sleep).deadline,
        now >= old(sleep).deadline ==> turn is Done && final(sleep).registered == old(
            sleep,
        ).registered,
        now < old(sleep).deadline ==> final(sleep).registered && (turn is Waiting <==> old(
            sleep,
        ).registered) && (turn is StartTimer <==> !old(sleep).registered),
{
}

/// What a poll of a sleep comes to. From its deadline on it is done, and nothing changes. Before,
/// it is not done: where no timer runs for it, one timer more runs, with its deadline and the next
/// token, and the waker waits under that token; where one runs, nothing changes.
pub proof fn law_poll_of_a_sleep<W>(
    before: Sleep,
    after: Sleep,
    reactor_before: ReactorModel<W>,
    reactor_after: ReactorModel<W>,
    waker: W,
    now: u128,
    poll: Poll<()>,
    other: Timer,
)
    requires
        Sleep::polled(before, after, reactor_before, reactor_after, waker, now, poll),
    ensures
        now >= before.deadline ==> poll is Ready && after == before && reactor_after
            == reactor_before,
        now < before.deadline ==> poll is Pending && after.registered && after.deadline
            == before.deadline,
        now < before.deadline && before.registered ==> reactor_after == reactor_before,
        now < before.deadline && !before.registered ==> {
            let t = reactor_before.next_token;
            let timer = Timer { deadline: before.deadline, token: t };
            &&& t < usize::MAX ==> reactor_after.next_token == t + 1
            &&& reactor_after.waiters.contains_key(t) && reactor_after.waiters[t] == waker
            &&& reactor_after.waiters.remove(t) == reactor_before.waiters.remove(t)
            &&& reactor_after.timers.count(timer) == reactor_before.timers.count(timer) + 1
            &&& other != timer ==> reactor_after.timers.count(other)
                == reactor_before.timers.count(other)
        },
{
    law_started_timer_bears_the_token(reactor_before, before.deadline, waker, other);
}

/// What polling a sleep at a given time comes to.
pub proof fn law_poll_at<W>(
    sleep: &mut Sleep,
    now: u128,
    handle: &mut ReactorHandle<W>,
    waker: W,
    poll: Poll<()>,
    other: Timer,
)
    requires
        call_ensures(Sleep::poll_at::<W>, (sleep, now, handle, waker), poll),
    ensures
        final(handle).wf(),
        now >= old(sleep).deadline ==> poll is Ready && *final(sleep) == *old(sleep) && final(
            handle)@ == old(handle)@,
        now < old(sleep).deadline ==> poll is Pending && final(sleep).registered && final(
            sleep).deadline == old(sleep).deadline,
        now < old(sleep).deadline && old(sleep).registered ==> final(handle)@ == old(handle)@,
        now < old(sleep).deadline && !old(sleep).registered ==> {
            let t = old(handle)@.next_token;
            let timer = Timer { deadline: old(sleep).deadline, token: t };
            &&& t < usize::MAX ==> final(handle)@.next_token == t + 1
            &&& final(handle)@.waiters.contains_key(t) && final(handle)@.waiters[t] == waker
            &&& final(handle)@.waiters.remove(t) == old(handle)@.waiters.remove(t)
            &&& final(handle)@.timers.count(timer) == old(handle)@.timers.count(timer) + 1
            &&& other != timer ==> final(handle)@.timers.count(other) == old(
                handle,
            )@.timers.count(other)
        },
{
    law_started_timer_bears_the_token(old(handle)@, old(sleep).deadline, waker, other);
}

/// What polling a sleep now comes to: a poll at a time that the clock shows. It is done exactly
/// where that is not before its deadline; where it is not done, a timer runs for it, and where
/// none did before, the waker waits for the deadline.
pub proof fn law_poll_goes_by_the_clock<W>(
    sleep: &mut Sleep,
    clock: &Clock,
    handle: &mut ReactorHandle<W>,
    waker: W,
    poll: Poll<()>,
)
    requires
        call_ensures(Sleep::poll::<W>, (sleep, clock, handle, waker), poll),
    ensures
        final(handle).wf(),
        final(sleep).deadline == old(sleep).deadline,
        exists|now: u128| #[trigger]
            clock.shows(now) && (poll is Ready <==> now >= old(sleep).deadline),
        poll is Ready ==> *final(sleep) == *old(sleep) && final(handle)@ == old(handle)@,
        poll is Pending ==> final(sleep).registered,
        poll is Pending && old(sleep).registered ==> final(handle)@ == old(handle)@,
        poll is Pending && !old(sleep).registered ==> {
            let t = old(handle)@.next_token;
            let timer = Timer { deadline: old(sleep).deadline, token: t };
            &&& t < usize::MAX ==> final(handle)@.next_token == t + 1
            &&& final(handle)@.waiters == old(handle)@.waiters.insert(t, waker)
            &&& final(handle)@.timers == old(handle)@.timers.insert(timer)
        },
{
    let now = choose|now: u128|
        clock.shows(now) && now <= MAX_DURATION_NANOS && #[trigger] Sleep::polled(
            *old(sleep),
            *final(sleep),
            old(handle)@,
            final(handle)@,
            waker,
            now,
            poll,
        );
    assert(clock.shows(now) && (poll is Ready <==> now >= old(sleep).deadline));
}

/// A sleep that was begun and is polled before it is over is woken when its duration has passed,
/// whatever its duration, and whatever turns the reactor has before: the waker of that poll is
/// among those that are woken from its end on, also after a turn that came before, and no wait in
/// between lasts past its end.
pub proof fn law_new_sleep_is_woken_at_its_end<W>(
    began: u128,
    duration: u128,
    after: Sleep,
    reactor_before: ReactorModel<W>,
    reactor_after: ReactorModel<W>,
    waker: W,
    now: u128,
    poll: Poll<()>,
    events: Seq<usize>,
    between: u128,
    later_events: Seq<usize>,
    later: u128,
)
    requires
        began + duration <= u128::MAX,
        Sleep::polled(
            Sleep::begun(began, duration),
            after,
            reactor_before,
            reactor_after,
            waker,
            now,
            poll,
        ),
        now < began + duration,
        reactor_before.issued(),
        between < began + duration,
        !events.contains(reactor_before.next_token),
        later >= began + duration,
    ensures
        poll is Pending,
        after.registered,
        reactor_after.woken(later_events, later).contains(waker),
        reactor_after.dispatched(events, between).woken(later_events, later).contains(waker),
        reactor_after.timeout(now) matches Some(d) && now + d <= began + duration,
        reactor_after.dispatched(events, between).timeout(between) matches Some(d) && between + d
            <= began + duration,
{
    broadcast use vstd::multiset::group_multiset_axioms;

    let token = reactor_before.next_token;
    let timer = Timer { deadline: (began + duration) as u128, token };
    assert(reactor_after.timers.contains(timer));
    assert(reactor_after.waiters[token] == waker);
    law_due_timer_is_woken(reactor_after, later_events, later, timer);
    law_wait_lasts_until_the_nearest_deadline(reactor_after, now, timer);
    assert(!token_is_due(reactor_after.timers, between, token)) by {
        if token_is_due(reactor_after.timers, between, token) {
            let t = choose|t: Timer| #[trigger]
                reactor_after.timers.contains(t) && t.token == token && t.deadline <= between;
            assert(reactor_before.timers.contains(t));
        }
    }
    law_deadline_outlasts_earlier_turns(
        reactor_after,
        events,
        between,
        later_events,
        later,
        timer,
    );
}

/// A sleep can be polled wherever a token is left, or a timer runs for it, or it is over.
pub proof fn law_sleep_can_be_polled<W>(
    sleep: &mut Sleep,
    now: u128,
    handle: &mut ReactorHandle<W>,
    waker: W,
)
    requires
        old(handle).wf(),
        old(handle)@.next_token < usize::MAX || old(sleep).registered || now >= old(
            sleep,
        ).deadline,
    ensures
        call_requires(Sleep::poll_at::<W>, (sleep, now, handle, waker)),
{
}

} // verus!
