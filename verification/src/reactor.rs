//! The reactor: who waits for which token and for which deadline, and whom to wake.
use crate::time::{Clock, MAX_DURATION_NANOS};
use crate::timers::{
    ascending, due, in_order, lemma_in_order, lemma_nearest, nearest, not_due, timer_le, Timer,
    TimerHeap,
};
use std::collections::HashMap;
use vstd::multiset::Multiset;
use vstd::prelude::*;

verus! {

broadcast use vstd::std_specs::hash::group_hash_axioms;

/// How many events one wait on the operating system can bring.
pub const EVENTS_CAPACITY: usize = 1024;

/// What a resource waits to become.
#[derive(Clone, Copy, Debug, PartialEq, Eq, Structural)]
pub enum Interest {
    Readable,
    Writable,
}

/// What the operating system's registry is to be asked for a resource.
#[derive(Clone, Copy, Debug, PartialEq, Eq, Structural)]
pub enum Request {
    /// Nothing.
    Nothing,
    /// Watch the resource under a token it did not have before.
    Register { token: usize, interest: Interest },
    /// Watch the resource anew under the token it has.
    Reregister { token: usize, interest: Interest },
    /// Stop watching the resource.
    Deregister,
}

/// What the reactor knows: the token it gives out next, the waker that waits under each token,
/// and the timers that are still running.
#[verifier::ext_equal]
pub struct ReactorModel<W> {
    pub next_token: usize,
    pub waiters: Map<usize, W>,
    pub timers: Multiset<Timer>,
}

impl<W> ReactorModel<W> {
    /// Whether there is a token left to give out.
    pub open spec fn has_token(self) -> bool {
        self.next_token < usize::MAX
    }

    /// Whether every token that is in use was given out before, and no two timers share one.
    pub open spec fn issued(self) -> bool {
        &&& forall|t: usize| #[trigger] self.waiters.contains_key(t) ==> t < self.next_token
        &&& forall|t: Timer| #[trigger] self.timers.contains(t) ==> t.token < self.next_token
        &&& forall|t: Timer, u: Timer| #[trigger]
            self.timers.contains(t) && #[trigger] self.timers.contains(u) && t.token == u.token
                ==> t == u
    }

    /// The token of a resource that has `token` so far: a resource without one gets the next.
    pub open spec fn token_for(self, token: Option<usize>) -> usize {
        match token {
            Some(t) => t,
            None => self.next_token,
        }
    }

    /// After `waker` began to wait for a resource that had `token` so far.
    pub open spec fn registered(self, token: Option<usize>, waker: W) -> Self {
        ReactorModel {
            next_token: if token is None {
                (self.next_token + 1) as usize
            } else {
                self.next_token
            },
            waiters: self.waiters.insert(self.token_for(token), waker),
            timers: self.timers,
        }
    }

    /// What the registry is asked when somebody begins to wait for a resource that had `token` so
    /// far.
    pub open spec fn register_request(self, token: Option<usize>, interest: Interest) -> Request {
        match token {
            None => Request::Register { token: self.next_token, interest },
            Some(t) => Request::Reregister { token: t, interest },
        }
    }

    /// After nobody waits any more for a resource that had `token`.
    pub open spec fn deregistered(self, token: Option<usize>) -> Self {
        match token {
            Some(t) => ReactorModel { waiters: self.waiters.remove(t), ..self },
            None => self,
        }
    }

    /// After `waker` began to wait for `deadline`.
    pub open spec fn timer_started(self, deadline: u128, waker: W) -> Self {
        ReactorModel {
            next_token: (self.next_token + 1) as usize,
            waiters: self.waiters.insert(self.next_token, waker),
            timers: self.timers.insert(Timer { deadline, token: self.next_token }),
        }
    }

    /// The tokens whose time has come when the operating system reports `events` and it is
    /// `now`: first those of the events, then those of the timers that are due, nearest first.
    pub open spec fn ready_tokens(self, events: Seq<usize>, now: u128) -> Seq<usize> {
        events + in_order(due(self.timers, now)).map_values(|t: Timer| t.token)
    }

    /// The wakers to be woken, in this order, when the operating system reports `events` and it
    /// is `now`.
    pub open spec fn woken(self, events: Seq<usize>, now: u128) -> Seq<W> {
        claimed(self.waiters, self.ready_tokens(events, now)).map_values(
            |t: usize| self.waiters[t],
        )
    }

    /// After those wakers were woken.
    pub open spec fn dispatched(self, events: Seq<usize>, now: u128) -> Self {
        ReactorModel {
            next_token: self.next_token,
            waiters: self.waiters.remove_keys(self.ready_tokens(events, now).to_set()),
            timers: not_due(self.timers, now),
        }
    }

    /// How long to wait for events at the time `now`: until the nearest deadline, not at all
    /// where that has come, and without limit where no timer runs.
    pub open spec fn timeout(self, now: u128) -> Option<u128> {
        match nearest(self.timers) {
            Some(t) => Some(
                if t.deadline > now {
                    (t.deadline - now) as u128
                } else {
                    0
                },
            ),
            None => None,
        }
    }
}

/// What the registry is asked when nobody waits any more for a resource that had `token`.
pub open spec fn deregister_request(token: Option<usize>) -> Request {
    match token {
        Some(_) => Request::Deregister,
        None => Request::Nothing,
    }
}

/// The tokens of `tokens` under which somebody waits, in order and each of them once.
pub open spec fn claimed<W>(waiters: Map<usize, W>, tokens: Seq<usize>) -> Seq<usize>
    decreases tokens.len(),
{
    if tokens.len() == 0 {
        Seq::empty()
    } else {
        let before = claimed(waiters, tokens.drop_last());
        if waiters.contains_key(tokens.last()) && !tokens.drop_last().contains(tokens.last()) {
            before.push(tokens.last())
        } else {
            before
        }
    }
}

/// One more token: what it adds to `claimed`, and what taking it out leaves.
proof fn lemma_claim_one_more<W>(waiters: Map<usize, W>, tokens: Seq<usize>, t: usize)
    ensures
        claimed(waiters, tokens.push(t)) == (if waiters.remove_keys(
            tokens.to_set(),
        ).contains_key(t) {
            claimed(waiters, tokens).push(t)
        } else {
            claimed(waiters, tokens)
        }),
        waiters.remove_keys(tokens.push(t).to_set()) == waiters.remove_keys(tokens.to_set()).remove(
            t,
        ),
{
    assert(tokens.push(t).drop_last() =~= tokens);
    assert(tokens.push(t).to_set() =~= tokens.to_set().insert(t)) by {
        assert(tokens.push(t)[tokens.len() as int] == t);
        assert forall|u: usize| tokens.contains(u) implies tokens.push(t).contains(u) by {
            let i = choose|i: int| 0 <= i < tokens.len() && tokens[i] == u;
            assert(tokens.push(t)[i] == u);
        }
    }
    assert(waiters.remove_keys(tokens.push(t).to_set()) =~= waiters.remove_keys(
        tokens.to_set(),
    ).remove(t));
}

/// While timers leave the heap: `left` have left it, in order, and were due; `rest` are still in
/// it and leave later.
spec fn left_in_order(
    all: Multiset<Timer>,
    left: Seq<Timer>,
    rest: Multiset<Timer>,
    now: u128,
) -> bool {
    &&& left.to_multiset().add(rest) == all
    &&& ascending(left)
    &&& forall|i: int| 0 <= i < left.len() ==> (#[trigger] left[i]).deadline <= now
    &&& forall|i: int, u: Timer|
        0 <= i < left.len() && #[trigger] rest.contains(u) ==> timer_le(#[trigger] left[i], u)
}

/// The nearest timer leaves.
proof fn lemma_one_more_left(
    all: Multiset<Timer>,
    left: Seq<Timer>,
    rest: Multiset<Timer>,
    now: u128,
    t: Timer,
)
    requires
        left_in_order(all, left, rest, now),
        nearest(rest) == Some(t),
        t.deadline <= now,
    ensures
        left_in_order(all, left.push(t), rest.remove(t), now),
        rest.remove(t).len() < rest.len(),
{
    broadcast use vstd::multiset::group_multiset_axioms;

    lemma_nearest(rest);
    vstd::seq_lib::to_multiset_build(left, t);
    assert(left.push(t).to_multiset().add(rest.remove(t)) =~= all);
    let le = |a: Timer, b: Timer| timer_le(a, b);
    let s = left.push(t);
    assert forall|i: int, j: int| 0 <= i < j < s.len() implies #[trigger] le(s[i], s[j]) by {
        if j < left.len() {
            assert(le(left[i], left[j]));
        } else {
            assert(timer_le(left[i], t));
        }
    }
    assert forall|i: int, u: Timer|
        0 <= i < s.len() && #[trigger] rest.remove(t).contains(u) implies timer_le(
        #[trigger] s[i],
        u,
    ) by {
        assert(rest.contains(u));
        if i < left.len() {
            assert(timer_le(left[i], u));
        }
    }
}

/// Once the nearest timer is not due, those that left are the ones that were due.
proof fn lemma_all_left(
    all: Multiset<Timer>,
    left: Seq<Timer>,
    rest: Multiset<Timer>,
    now: u128,
)
    requires
        left_in_order(all, left, rest, now),
        nearest(rest) matches Some(t) ==> t.deadline > now,
    ensures
        left == in_order(due(all, now)),
        rest == not_due(all, now),
{
    broadcast use vstd::multiset::group_multiset_axioms;

    lemma_nearest(rest);
    let m = left.to_multiset();
    assert forall|u: Timer| m.count(u) > 0 implies u.deadline <= now by {
        vstd::seq_lib::to_multiset_contains(left, u);
        let i = choose|i: int| 0 <= i < left.len() && left[i] == u;
        assert(left[i].deadline <= now);
    }
    assert forall|u: Timer| rest.count(u) > 0 implies u.deadline > now by {
        assert(rest.contains(u));
    }
    assert(m =~= due(all, now));
    assert(rest =~= not_due(all, now));
    lemma_in_order(due(all, now));
}

/// The wakers that wait, and the token that is given out next.
pub struct ReactorState<W> {
    pub next_token: usize,
    pub waiters: HashMap<usize, W>,
}

impl<W> ReactorState<W> {
    /// Nobody waits, and the first token is still to be given out.
    pub fn new() -> (state: ReactorState<W>)
        ensures
            state.next_token == 0,
            state.waiters@ == Map::<usize, W>::empty(),
    {
        ReactorState { next_token: 0, waiters: HashMap::new() }
    }

    /// Moves the waker that waits under `token`, if there is one, to the end of `woken`.
    fn claim(&mut self, token: usize, woken: &mut Vec<W>)
        ensures
            final(self).next_token == old(self).next_token,
            final(self).waiters@ == old(self).waiters@.remove(token),
            final(woken)@ == (if old(self).waiters@.contains_key(token) {
                old(woken)@.push(old(self).waiters@[token])
            } else {
                old(woken)@
            }),
    {
        if let Some(waker) = self.waiters.remove(&token) {
            woken.push(waker);
        }
    }
}

/// Where futures register what they wait for.
pub struct ReactorHandle<W> {
    pub shared: ReactorState<W>,
    pub timers: TimerHeap,
}

impl<W> View for ReactorHandle<W> {
    type V = ReactorModel<W>;

    open spec fn view(&self) -> ReactorModel<W> {
        ReactorModel {
            next_token: self.shared.next_token,
            waiters: self.shared.waiters@,
            timers: self.timers@,
        }
    }
}

impl<W> ReactorHandle<W> {
    /// Whether the timers form a heap.
    pub open spec fn wf(&self) -> bool {
        self.timers.wf()
    }

    /// A handle with which nothing is registered yet.
    pub fn new() -> (handle: ReactorHandle<W>)
        ensures
            handle.wf(),
            handle@ == (ReactorModel {
                next_token: 0usize,
                waiters: Map::<usize, W>::empty(),
                timers: Multiset::<Timer>::empty(),
            }),
    {
        ReactorHandle { shared: ReactorState::new(), timers: TimerHeap::new() }
    }

    /// Lets `waker` wait until a resource becomes what `interest` says. A resource without a
    /// token gets the next one. Gives back what the registry is to be asked.
    pub fn register(&mut self, waker: W, interest: Interest, token: &mut Option<usize>) -> (request:
        Request)
        requires
            old(self).wf(),
            *old(token) is None ==> old(self)@.has_token(),
        ensures
            final(self).wf(),
            final(self)@ == old(self)@.registered(*old(token), waker),
            *final(token) == Some(old(self)@.token_for(*old(token))),
            request == old(self)@.register_request(*old(token), interest),
    {
        match *token {
            None => {
                let created: usize = self.shared.next_token;
                *token = Some(created);
                self.shared.next_token = created + 1;
                self.shared.waiters.insert(created, waker);
                Request::Register { token: created, interest }
            },
            Some(t) => {
                self.shared.waiters.insert(t, waker);
                Request::Reregister { token: t, interest }
            },
        }
    }

    /// Ends the waiting for a resource and takes its token away. Gives back what the registry is
    /// to be asked.
    pub fn deregister(&mut self, token: &mut Option<usize>) -> (request: Request)
        requires
            old(self).wf(),
        ensures
            final(self).wf(),
            final(self)@ == old(self)@.deregistered(*old(token)),
            *final(token) is None,
            request == deregister_request(*old(token)),
    {
        let request = match *token {
            Some(t) => {
                self.shared.waiters.remove(&t);
                Request::Deregister
            },
            None => Request::Nothing,
        };
        *token = None;
        request
    }

    /// Lets `waker` wait for `deadline`, under a token of its own.
    pub fn start_timer(&mut self, deadline: u128, waker: W)
        requires
            old(self).wf(),
            old(self)@.has_token(),
        ensures
            final(self).wf(),
            final(self)@ == old(self)@.timer_started(deadline, waker),
    {
        let token: usize = self.shared.next_token;
        self.shared.next_token = token + 1;
        self.timers.push(Timer { deadline, token });
        self.shared.waiters.insert(token, waker);
    }

    /// How long to wait for events at the time `now`.
    pub fn timeout_at(&self, now: u128) -> (timeout: Option<u128>)
        requires
            self.wf(),
        ensures
            timeout == self@.timeout(now),
    {
        match self.timers.peek() {
            Some(t) => Some(
                if t.deadline > now {
                    t.deadline - now
                } else {
                    0
                },
            ),
            None => None,
        }
    }

    /// Takes the wakers whose time has come out of the reactor when the operating system reports
    /// `events` and it is `now`. They come back in the order in which they are to be woken.
    pub fn dispatch_at(&mut self, events: &Vec<usize>, now: u128) -> (woken: Vec<W>)
        requires
            old(self).wf(),
        ensures
            final(self).wf(),
            final(self)@ == old(self)@.dispatched(events@, now),
            woken@ == old(self)@.woken(events@, now),
    {
        let mut woken: Vec<W> = Vec::new();
        let ghost waiters = self.shared.waiters@;
        let ghost timers = self.timers@;
        let ghost waker_of = |t: usize| waiters[t];
        let mut i: usize = 0;
        assert(waiters.remove_keys(events@.take(0).to_set()) =~= waiters);
        assert(claimed(waiters, events@.take(0)).map_values(waker_of) =~= woken@);
        while i < events.len()
            invariant
                0 <= i <= events@.len(),
                waker_of == (|t: usize| waiters[t]),
                self.timers == old(self).timers,
                self.shared.next_token == old(self).shared.next_token,
                self.shared.waiters@ == waiters.remove_keys(events@.take(i as int).to_set()),
                woken@ == claimed(waiters, events@.take(i as int)).map_values(waker_of),
            decreases events@.len() - i,
        {
            proof {
                let seen = events@.take(i as int);
                assert(events@.take(i + 1) =~= seen.push(events@[i as int]));
                lemma_claim_one_more(waiters, seen, events@[i as int]);
            }
            self.shared.claim(events[i], &mut woken);
            assert(woken@ =~= claimed(waiters, events@.take(i + 1)).map_values(waker_of));
            i = i + 1;
        }
        assert(events@.take(i as int) =~= events@);

        let ghost mut left: Seq<Timer> = Seq::empty();
        let ghost token_of = |t: Timer| t.token;
        proof {
            vstd::seq_lib::to_multiset_len(left);
            vstd::multiset::lemma_multiset_empty_len(left.to_multiset());
            broadcast use vstd::multiset::group_multiset_axioms;
            assert(left.to_multiset().add(timers) =~= timers);
            assert(events@ + left.map_values(token_of) =~= events@);
        }
        loop
            invariant
                self.wf(),
                waker_of == (|t: usize| waiters[t]),
                token_of == (|t: Timer| t.token),
                self.shared.next_token == old(self).shared.next_token,
                self.shared.waiters@ == waiters.remove_keys(
                    (events@ + left.map_values(token_of)).to_set(),
                ),
                woken@ == claimed(waiters, events@ + left.map_values(token_of)).map_values(
                    waker_of,
                ),
                left_in_order(timers, left, self.timers@, now),
            ensures
                self.wf(),
                self.shared.next_token == old(self).shared.next_token,
                self.shared.waiters@ == waiters.remove_keys(
                    (events@ + left.map_values(token_of)).to_set(),
                ),
                woken@ == claimed(waiters, events@ + left.map_values(token_of)).map_values(
                    waker_of,
                ),
                left_in_order(timers, left, self.timers@, now),
                nearest(self.timers@) matches Some(t) ==> t.deadline > now,
            decreases self.timers@.len(),
        {
            match self.timers.peek() {
                None => {
                    break;
                },
                Some(t) => {
                    if t.deadline > now {
                        break;
                    }
                },
            }
            let ghost rest = self.timers@;
            if let Some(t) = self.timers.pop() {
                proof {
                    lemma_one_more_left(timers, left, rest, now, t);
                    lemma_claim_one_more(waiters, events@ + left.map_values(token_of), t.token);
                    assert((events@ + left.map_values(token_of)).push(t.token) =~= events@
                        + left.push(t).map_values(token_of));
                    left = left.push(t);
                }
                self.shared.claim(t.token, &mut woken);
                assert(woken@ =~= claimed(waiters, events@ + left.map_values(token_of)).map_values(
                    waker_of,
                ));
            }
        }
        proof {
            lemma_all_left(timers, left, self.timers@, now);
        }
        woken
    }
}

/// The part of the event loop that waits for events.
pub struct Reactor {
    /// The tokens of the events that the last wait brought.
    pub events: Vec<usize>,
    /// Which task a token belongs to.
    pub token_to_task_id: HashMap<usize, usize>,
    /// The next token to be assigned to a task.
    pub next_token: usize,
}

impl Reactor {
    /// A reactor that has not waited yet.
    pub fn new() -> (reactor: Reactor)
        ensures
            reactor.events@ == Seq::<usize>::empty(),
            reactor.token_to_task_id@ == Map::<usize, usize>::empty(),
            reactor.next_token == 0,
    {
        Reactor { events: Vec::new(), token_to_task_id: HashMap::new(), next_token: 0 }
    }

    /// How long the wait for events may take now.
    pub fn timeout<W>(&self, clock: &Clock, handle: &ReactorHandle<W>) -> (timeout: Option<u128>)
        requires
            handle.wf(),
        ensures
            exists|now: u128|
                clock.shows(now) && now <= MAX_DURATION_NANOS && timeout
                    == #[trigger] handle@.timeout(now),
    {
        let now: u128 = clock.now();
        handle.timeout_at(now)
    }

    /// Once the wait is over: takes the wakers of the events that it brought, and of the timers
    /// that are due by now, out of the reactor. They come back in the order in which they are to
    /// be woken.
    pub fn epoll<W>(&self, clock: &Clock, handle: &mut ReactorHandle<W>) -> (woken: Vec<W>)
        requires
            old(handle).wf(),
        ensures
            final(handle).wf(),
            exists|now: u128|
                clock.shows(now) && now <= MAX_DURATION_NANOS && final(handle)@
                    == #[trigger] old(handle)@.dispatched(self.events@, now) && woken@
                    == old(handle)@.woken(self.events@, now),
    {
        let now: u128 = clock.now();
        handle.dispatch_at(&self.events, now)
    }
}

/// The tokens that are claimed are those among `tokens` under which somebody waits.
proof fn lemma_claimed_contains<W>(waiters: Map<usize, W>, tokens: Seq<usize>, t: usize)
    ensures
        claimed(waiters, tokens).contains(t) <==> tokens.contains(t) && waiters.contains_key(t),
    decreases tokens.len(),
{
    if tokens.len() > 0 {
        let before = tokens.drop_last();
        let last = tokens.last();
        lemma_claimed_contains(waiters, before, t);
        assert(tokens =~= before.push(last));
        assert(tokens.contains(t) <==> before.contains(t) || t == last) by {
            if before.contains(t) {
                let i = choose|i: int| 0 <= i < before.len() && before[i] == t;
                assert(tokens[i] == t);
            }
            if t == last {
                assert(tokens[tokens.len() - 1] == t);
            }
        }
        let c = claimed(waiters, before);
        if waiters.contains_key(last) && !before.contains(last) {
            assert(claimed(waiters, tokens) == c.push(last));
            assert(c.push(last)[c.len() as int] == last);
            if c.contains(t) {
                let i = choose|i: int| 0 <= i < c.len() && c[i] == t;
                assert(c.push(last)[i] == t);
            }
        }
    }
}

/// No token is claimed twice.
proof fn lemma_claimed_once<W>(waiters: Map<usize, W>, tokens: Seq<usize>)
    ensures
        claimed(waiters, tokens).no_duplicates(),
    decreases tokens.len(),
{
    if tokens.len() > 0 {
        lemma_claimed_once(waiters, tokens.drop_last());
        lemma_claimed_contains(waiters, tokens.drop_last(), tokens.last());
        let c = claimed(waiters, tokens.drop_last());
        assert(!c.contains(tokens.last()) ==> c.push(tokens.last()).no_duplicates());
    }
}

/// Tokens are claimed in the order in which they first occur.
proof fn lemma_claimed_in_order<W>(
    waiters: Map<usize, W>,
    tokens: Seq<usize>,
    i: int,
    j: int,
) -> (at: (int, int))
    requires
        0 <= i < j < tokens.len(),
        waiters.contains_key(tokens[i]),
        waiters.contains_key(tokens[j]),
        !tokens.take(j).contains(tokens[j]),
    ensures
        0 <= at.0 < at.1 < claimed(waiters, tokens).len(),
        claimed(waiters, tokens)[at.0] == tokens[i],
        claimed(waiters, tokens)[at.1] == tokens[j],
    decreases tokens.len(),
{
    let before = tokens.drop_last();
    let c = claimed(waiters, before);
    if j == tokens.len() - 1 {
        assert(before =~= tokens.take(j));
        lemma_claimed_contains(waiters, before, tokens[i]);
        assert(before[i] == tokens[i]);
        let p = choose|p: int| 0 <= p < c.len() && c[p] == tokens[i];
        (p, c.len() as int)
    } else {
        assert(before.take(j) =~= tokens.take(j));
        lemma_claimed_in_order(waiters, before, i, j)
    }
}

/// The tokens of the timers that are due are among the tokens whose time has come.
proof fn lemma_due_token_is_ready<W>(
    reactor: ReactorModel<W>,
    events: Seq<usize>,
    now: u128,
    timer: Timer,
) -> (i: int)
    requires
        reactor.timers.contains(timer),
        timer.deadline <= now,
    ensures
        0 <= i < in_order(due(reactor.timers, now)).len(),
        in_order(due(reactor.timers, now))[i] == timer,
        reactor.ready_tokens(events, now)[events.len() + i] == timer.token,
        reactor.ready_tokens(events, now).contains(timer.token),
{
    broadcast use vstd::multiset::group_multiset_axioms;

    let m = due(reactor.timers, now);
    lemma_in_order(m);
    let s = in_order(m);
    assert(m.count(timer) > 0);
    vstd::seq_lib::to_multiset_contains(s, timer);
    let i = choose|i: int| 0 <= i < s.len() && s[i] == timer;
    assert(reactor.ready_tokens(events, now)[events.len() + i] == timer.token);
    i
}

/// A waker whose token's time has come is woken, and waits no longer.
proof fn lemma_ready_waiter_is_woken<W>(
    reactor: ReactorModel<W>,
    events: Seq<usize>,
    now: u128,
    token: usize,
)
    requires
        reactor.waiters.contains_key(token),
        reactor.ready_tokens(events, now).contains(token),
    ensures
        reactor.woken(events, now).contains(reactor.waiters[token]),
        !reactor.dispatched(events, now).waiters.contains_key(token),
{
    let tokens = reactor.ready_tokens(events, now);
    let c = claimed(reactor.waiters, tokens);
    lemma_claimed_contains(reactor.waiters, tokens, token);
    let i = choose|i: int| 0 <= i < c.len() && c[i] == token;
    assert(reactor.woken(events, now)[i] == reactor.waiters[token]);
}

/// When the operating system reports a token, the waker that waits under it is woken, and waits
/// no longer.
pub proof fn law_reported_waiter_is_woken<W>(
    reactor: ReactorModel<W>,
    events: Seq<usize>,
    now: u128,
    token: usize,
)
    requires
        reactor.waiters.contains_key(token),
        events.contains(token),
    ensures
        reactor.woken(events, now).contains(reactor.waiters[token]),
        !reactor.dispatched(events, now).waiters.contains_key(token),
{
    let i = choose|i: int| 0 <= i < events.len() && events[i] == token;
    assert(reactor.ready_tokens(events, now)[i] == token);
    lemma_ready_waiter_is_woken(reactor, events, now, token);
}

/// Whoever began to wait for a resource is woken when the operating system reports its token.
pub proof fn law_registered_waker_is_woken<W>(
    reactor: ReactorModel<W>,
    token: Option<usize>,
    waker: W,
    events: Seq<usize>,
    now: u128,
)
    requires
        events.contains(reactor.token_for(token)),
    ensures
        reactor.registered(token, waker).woken(events, now).contains(waker),
{
    law_reported_waiter_is_woken(
        reactor.registered(token, waker),
        events,
        now,
        reactor.token_for(token),
    );
}

/// When a deadline has come, the waker that waits for it is woken, and waits no longer.
pub proof fn law_due_timer_is_woken<W>(
    reactor: ReactorModel<W>,
    events: Seq<usize>,
    now: u128,
    timer: Timer,
)
    requires
        reactor.timers.contains(timer),
        timer.deadline <= now,
        reactor.waiters.contains_key(timer.token),
    ensures
        reactor.woken(events, now).contains(reactor.waiters[timer.token]),
        !reactor.dispatched(events, now).waiters.contains_key(timer.token),
        !reactor.dispatched(events, now).timers.contains(timer),
{
    broadcast use vstd::multiset::group_multiset_axioms;

    lemma_due_token_is_ready(reactor, events, now, timer);
    lemma_ready_waiter_is_woken(reactor, events, now, timer.token);
}

/// Whoever waits for something that has not come is not woken and waits on: neither an event nor
/// a timer that is due bears the token.
pub proof fn law_others_wait_on<W>(
    reactor: ReactorModel<W>,
    events: Seq<usize>,
    now: u128,
    token: usize,
)
    requires
        reactor.waiters.contains_key(token),
        !events.contains(token),
        forall|t: Timer| #[trigger]
            reactor.timers.contains(t) && t.token == token ==> t.deadline > now,
    ensures
        reactor.dispatched(events, now).waiters.contains_key(token),
        reactor.dispatched(events, now).waiters[token] == reactor.waiters[token],
        !claimed(reactor.waiters, reactor.ready_tokens(events, now)).contains(token),
{
    broadcast use vstd::multiset::group_multiset_axioms;

    let m = due(reactor.timers, now);
    lemma_in_order(m);
    let s = in_order(m);
    let tokens = reactor.ready_tokens(events, now);
    if tokens.contains(token) {
        let i = choose|i: int| 0 <= i < tokens.len() && tokens[i] == token;
        if i < events.len() {
            assert(events[i] == token);
        } else {
            let t = s[i - events.len()];
            assert(s.contains(t));
            vstd::seq_lib::to_multiset_contains(s, t);
            assert(m.count(t) > 0);
            assert(reactor.timers.contains(t));
        }
    }
    lemma_claimed_contains(reactor.waiters, tokens, token);
}

/// Nobody is woken twice for one registration, and nobody is lost: as many wakers are woken as
/// stop waiting, and all those who are woken were waiting.
pub proof fn law_waiters_are_woken_once<W>(reactor: ReactorModel<W>, events: Seq<usize>, now: u128)
    requires
        reactor.waiters.dom().finite(),
    ensures
        claimed(reactor.waiters, reactor.ready_tokens(events, now)).no_duplicates(),
        reactor.woken(events, now).len() + reactor.dispatched(events, now).waiters.len()
            == reactor.waiters.len(),
        forall|i: int|
            0 <= i < reactor.woken(events, now).len() ==> exists|t: usize|
                #[trigger] reactor.waiters.contains_key(t) && reactor.waiters[t]
                    == #[trigger] reactor.woken(events, now)[i],
{
    let tokens = reactor.ready_tokens(events, now);
    let c = claimed(reactor.waiters, tokens);
    let left = reactor.dispatched(events, now).waiters;
    lemma_claimed_once(reactor.waiters, tokens);
    assert forall|t: usize| c.contains(t) <==> tokens.contains(t) && reactor.waiters.contains_key(
        t,
    ) by {
        lemma_claimed_contains(reactor.waiters, tokens, t);
    }
    c.unique_seq_to_set();
    assert(reactor.waiters.dom() =~= left.dom() + c.to_set());
    assert(left.dom().disjoint(c.to_set()));
    assert(left.dom().subset_of(reactor.waiters.dom()));
    vstd::set_lib::lemma_len_subset(left.dom(), reactor.waiters.dom());
    vstd::set_lib::lemma_set_disjoint_lens(left.dom(), c.to_set());
    assert forall|i: int| 0 <= i < reactor.woken(events, now).len() implies exists|t: usize|
        #[trigger] reactor.waiters.contains_key(t) && reactor.waiters[t]
            == #[trigger] reactor.woken(events, now)[i] by {
        assert(c.contains(c[i]));
        assert(reactor.waiters.contains_key(c[i]));
    }
}

/// Of two waiters whose deadlines have come, the one with the nearer deadline is woken first, or,
/// where the deadlines are the same, the one with the lower token, which began to wait first. No
/// event is reported for either.
pub proof fn law_nearer_deadline_is_woken_first<W>(
    reactor: ReactorModel<W>,
    events: Seq<usize>,
    now: u128,
    a: Timer,
    b: Timer,
)
    requires
        reactor.issued(),
        reactor.timers.contains(a),
        reactor.timers.contains(b),
        a != b,
        timer_le(a, b),
        b.deadline <= now,
        reactor.waiters.contains_key(a.token),
        reactor.waiters.contains_key(b.token),
        !events.contains(a.token),
        !events.contains(b.token),
    ensures
        exists|i: int, j: int|
            0 <= i < j < reactor.woken(events, now).len() && #[trigger] reactor.woken(
                events,
                now,
            )[i] == reactor.waiters[a.token] && #[trigger] reactor.woken(events, now)[j]
                == reactor.waiters[b.token],
{
    broadcast use vstd::multiset::group_multiset_axioms;

    let m = due(reactor.timers, now);
    let s = in_order(m);
    let tokens = reactor.ready_tokens(events, now);
    lemma_in_order(m);
    let p = lemma_due_token_is_ready(reactor, events, now, a);
    let some = lemma_due_token_is_ready(reactor, events, now, b);
    let first = s.index_of_first(b);
    s.index_of_first_ensures(b);
    assert(s.contains(b));
    let q = first.unwrap();
    let le = |x: Timer, y: Timer| timer_le(x, y);
    if q < p {
        assert(le(s[q], s[p]));
    }
    assert(p != q);
    let j = events.len() + q;
    assert(tokens[j] == b.token);
    assert(!tokens.take(j).contains(b.token)) by {
        if tokens.take(j).contains(b.token) {
            let k = choose|k: int| 0 <= k < j && tokens.take(j)[k] == b.token;
            if k < events.len() {
                assert(events[k] == b.token);
            } else {
                let t = s[k - events.len()];
                assert(s.contains(t));
                vstd::seq_lib::to_multiset_contains(s, t);
                assert(m.count(t) > 0);
                assert(reactor.timers.contains(t));
            }
        }
    }
    let at = lemma_claimed_in_order(reactor.waiters, tokens, events.len() + p, j);
    assert(reactor.woken(events, now)[at.0] == reactor.waiters[a.token]);
    assert(reactor.woken(events, now)[at.1] == reactor.waiters[b.token]);
}

/// The wait for events never lasts past a deadline that is still to come, and once it has lasted
/// as long as it may, the nearest deadline has come: whoever waits for it is woken.
pub proof fn law_timeout_reaches_the_nearest_deadline<W>(
    reactor: ReactorModel<W>,
    events: Seq<usize>,
    now: u128,
    later: u128,
    timeout: u128,
)
    requires
        reactor.timeout(now) == Some(timeout),
        later >= now + timeout,
    ensures
        forall|t: Timer| #[trigger]
            reactor.timers.contains(t) ==> now + timeout <= t.deadline || timeout == 0,
        nearest(reactor.timers) matches Some(t) && t.deadline <= later && (
        reactor.waiters.contains_key(t.token) ==> reactor.woken(events, later).contains(
            reactor.waiters[t.token],
        )),
{
    lemma_nearest(reactor.timers);
    let t = nearest(reactor.timers).unwrap();
    if reactor.waiters.contains_key(t.token) {
        law_due_timer_is_woken(reactor, events, later, t);
    }
}

/// A turn of the reactor that finds no event and no deadline that has come wakes nobody and changes
/// nothing, so that it does not matter whether one comes before a wait.
pub proof fn law_idle_turn_changes_nothing<W>(reactor: ReactorModel<W>, now: u128)
    requires
        forall|t: Timer| #[trigger] reactor.timers.contains(t) ==> t.deadline > now,
    ensures
        reactor.woken(Seq::empty(), now) == Seq::<W>::empty(),
        reactor.dispatched(Seq::empty(), now) == reactor,
{
    broadcast use vstd::multiset::group_multiset_axioms;

    let timers = due(reactor.timers, now);
    assert forall|t: Timer| timers.count(t) == 0 by {
        if timers.contains(t) {
            assert(reactor.timers.contains(t));
        }
    }
    assert(timers =~= Multiset::<Timer>::empty());
    lemma_in_order(timers);
    in_order(timers).to_multiset_ensures();
    assert(in_order(timers) =~= Seq::<Timer>::empty());
    assert(reactor.ready_tokens(Seq::empty(), now) =~= Seq::<usize>::empty());
    let rest = not_due(reactor.timers, now);
    assert forall|t: Timer| rest.count(t) == reactor.timers.count(t) by {
        if reactor.timers.count(t) > 0 {
            assert(reactor.timers.contains(t));
        }
    }
    assert(rest =~= reactor.timers);
    assert(reactor.dispatched(Seq::empty(), now).waiters =~= reactor.waiters);
}

/// The wait for events has no limit exactly when no timer runs.
pub proof fn law_wait_is_unlimited_without_timers<W>(reactor: ReactorModel<W>, now: u128)
    ensures
        reactor.timeout(now) is None <==> reactor.timers == Multiset::<Timer>::empty(),
{
    lemma_nearest(reactor.timers);
    broadcast use vstd::multiset::group_multiset_axioms;
}

/// A token that is given out is not in use, and whatever the reactor does, the tokens in use are
/// ones that were given out, and no two timers share one. Only to give out a token must there be
/// one left.
pub proof fn law_tokens_are_new<W>(
    reactor: ReactorModel<W>,
    waker: W,
    token: usize,
    deadline: u128,
    events: Seq<usize>,
    now: u128,
)
    requires
        reactor.issued(),
    ensures
        !reactor.waiters.contains_key(reactor.token_for(None)),
        forall|t: Timer| #[trigger]
            reactor.timers.contains(t) ==> t.token != reactor.token_for(None),
        reactor.has_token() ==> reactor.registered(None, waker).issued(),
        reactor.has_token() ==> reactor.timer_started(deadline, waker).issued(),
        token < reactor.next_token ==> reactor.registered(Some(token), waker).issued(),
        reactor.deregistered(Some(token)).issued(),
        reactor.dispatched(events, now).issued(),
{
    broadcast use vstd::multiset::group_multiset_axioms;

    if reactor.has_token() {
        let started = reactor.timer_started(deadline, waker);
        let timer = Timer { deadline, token: reactor.next_token };
        assert forall|t: Timer| #[trigger] started.timers.contains(t) implies t.token
            < started.next_token by {
            if t != timer {
                assert(reactor.timers.contains(t));
            }
        }
        assert forall|t: Timer, u: Timer| #[trigger]
            started.timers.contains(t) && #[trigger] started.timers.contains(u) && t.token
                == u.token implies t == u by {
            assert(t == timer || reactor.timers.contains(t));
            assert(u == timer || reactor.timers.contains(u));
        }
    }
    let after = reactor.dispatched(events, now);
    assert forall|t: Timer| #[trigger] after.timers.contains(t) implies reactor.timers.contains(
        t,
    ) by {}
}

/// Giving a resource up undoes that somebody began to wait for it: the same wakers wait as
/// before, and an event for its token wakes nobody.
pub proof fn law_deregister_undoes_register<W>(
    reactor: ReactorModel<W>,
    waker: W,
    events: Seq<usize>,
    now: u128,
)
    requires
        reactor.issued(),
    ensures
        ({
            let token = reactor.token_for(None);
            let after = reactor.registered(None, waker).deregistered(Some(token));
            &&& after.waiters == reactor.waiters
            &&& after.timers == reactor.timers
            &&& !claimed(after.waiters, after.ready_tokens(events, now)).contains(token)
        }),
{
    let token = reactor.token_for(None);
    let after = reactor.registered(None, waker).deregistered(Some(token));
    assert(after.waiters =~= reactor.waiters);
    lemma_claimed_contains(after.waiters, after.ready_tokens(events, now), token);
}

/// A new handle has given out no token, nobody waits, and no timer runs.
pub proof fn law_new_handle_knows_nothing<W>(handle: ReactorHandle<W>, state: ReactorState<W>)
    requires
        call_ensures(ReactorHandle::<W>::new, (), handle),
        call_ensures(ReactorState::<W>::new, (), state),
    ensures
        handle.wf(),
        handle@.next_token == 0,
        handle@.waiters.dom() == Set::<usize>::empty(),
        forall|t: Timer| #[trigger] handle@.timers.count(t) == 0,
        handle@.issued(),
        state.next_token == 0,
        state.waiters@.dom() == Set::<usize>::empty(),
{
    broadcast use vstd::multiset::group_multiset_axioms;

}

/// A new reactor has brought no event. One wait brings at most 1024 of them.
pub proof fn law_new_reactor_has_no_events(reactor: Reactor)
    requires
        call_ensures(Reactor::new, (), reactor),
    ensures
        reactor.events@.len() == 0,
        reactor.token_to_task_id@.dom() == Set::<usize>::empty(),
        reactor.next_token == 0,
        EVENTS_CAPACITY == 1024,
{
}

/// Whoever begins to wait for a resource waits under the token that the resource has, or, where it
/// has none, under the next one, which is given out by that. The others wait as before, and the
/// timers run on.
pub proof fn law_waker_waits_under_the_token<W>(
    reactor: ReactorModel<W>,
    token: Option<usize>,
    waker: W,
)
    ensures
        ({
            let t = reactor.token_for(token);
            let after = reactor.registered(token, waker);
            &&& token matches Some(had) ==> t == had && after.next_token == reactor.next_token
            &&& token is None ==> t == reactor.next_token
            &&& token is None && reactor.next_token < usize::MAX ==> after.next_token
                == reactor.next_token + 1
            &&& after.waiters.contains_key(t) && after.waiters[t] == waker
            &&& after.waiters.remove(t) == reactor.waiters.remove(t)
            &&& after.timers == reactor.timers
        }),
{
    let t = reactor.token_for(token);
    assert(reactor.registered(token, waker).waiters.remove(t) =~= reactor.waiters.remove(t));
}

/// The registry is asked to watch a resource for what is waited for, under the very token under
/// which its waker waits: an event for the token of the request wakes that waker.
pub proof fn law_requested_token_wakes_the_waker<W>(
    reactor: ReactorModel<W>,
    token: Option<usize>,
    waker: W,
    interest: Interest,
    events: Seq<usize>,
    now: u128,
)
    ensures
        ({
            let request = reactor.register_request(token, interest);
            let after = reactor.registered(token, waker);
            let asked = if token is None {
                request->Register_token
            } else {
                request->Reregister_token
            };
            &&& token is None ==> request is Register && request->Register_interest == interest
            &&& token is Some ==> request is Reregister && request->Reregister_interest
                == interest && token == Some(asked)
            &&& after.waiters.contains_key(asked) && after.waiters[asked] == waker
            &&& after.waiters.remove(asked) == reactor.waiters.remove(asked)
            &&& events.contains(asked) ==> after.woken(events, now).contains(waker)
        }),
{
    law_waker_waits_under_the_token(reactor, token, waker);
    if events.contains(reactor.token_for(token)) {
        law_registered_waker_is_woken(reactor, token, waker, events, now);
    }
}

/// What a registration comes to: a resource without a token gets one that was not given out
/// before, and keeps it; its waker waits under it; and the registry is asked to watch it under
/// that token for what is waited for, anew where it had one.
pub proof fn law_register<W>(
    handle: &mut ReactorHandle<W>,
    waker: W,
    interest: Interest,
    token: &mut Option<usize>,
    request: Request,
)
    requires
        *old(token) is None ==> old(handle)@.next_token < usize::MAX,
        call_ensures(
            ReactorHandle::<W>::register,
            (handle, waker, interest, token),
            request,
        ),
    ensures
        final(handle).wf(),
        *final(token) is Some,
        ({
            let t = final(token).unwrap();
            let before = old(handle)@;
            let after = final(handle)@;
            &&& *old(token) is None ==> {
                &&& t == before.next_token
                &&& after.next_token == t + 1
                &&& request == (Request::Register { token: t, interest })
            }
            &&& *old(token) is Some ==> {
                &&& *old(token) == Some(t)
                &&& after.next_token == before.next_token
                &&& request == (Request::Reregister { token: t, interest })
            }
            &&& after.waiters.contains_key(t) && after.waiters[t] == waker
            &&& after.waiters.remove(t) == before.waiters.remove(t)
            &&& after.timers == before.timers
        }),
{
    law_waker_waits_under_the_token(old(handle)@, *old(token), waker);
}

/// Whoever waited for a resource that is given up waits no longer, the others wait as before, and
/// the timers run on. The registry is asked to stop watching exactly where there was a token.
pub proof fn law_given_up_resource_wakes_nobody<W>(
    reactor: ReactorModel<W>,
    token: Option<usize>,
    other: usize,
)
    ensures
        ({
            let after = reactor.deregistered(token);
            &&& token != Some(other) && reactor.waiters.contains_key(other) ==> {
                &&& after.waiters.contains_key(other)
                &&& after.waiters[other] == reactor.waiters[other]
            }
            &&& token == Some(other) || !reactor.waiters.contains_key(other)
                ==> !after.waiters.contains_key(other)
            &&& after.next_token == reactor.next_token
            &&& after.timers == reactor.timers
        }),
        token is Some ==> deregister_request(token) == Request::Deregister,
        token is None ==> deregister_request(token) == Request::Nothing,
{
}

/// What giving a resource up comes to: it has no token any more, whoever waited for it waits no
/// longer, nothing else changes, and the registry is asked to stop watching it, where it had a
/// token.
pub proof fn law_deregister<W>(
    handle: &mut ReactorHandle<W>,
    token: &mut Option<usize>,
    request: Request,
)
    requires
        call_ensures(ReactorHandle::<W>::deregister, (handle, token), request),
    ensures
        final(handle).wf(),
        *final(token) is None,
        *old(token) is None ==> request == Request::Nothing && final(handle)@ == old(handle)@,
        *old(token) matches Some(t) ==> {
            &&& request == Request::Deregister
            &&& final(handle)@.waiters == old(handle)@.waiters.remove(t)
            &&& final(handle)@.next_token == old(handle)@.next_token
            &&& final(handle)@.timers == old(handle)@.timers
        },
{
}

/// Whoever begins to wait for a deadline waits under the next token, which is given out by that,
/// and one timer more runs, with that deadline and that token. The others wait as before, and the
/// other timers run on.
pub proof fn law_started_timer_bears_the_token<W>(
    reactor: ReactorModel<W>,
    deadline: u128,
    waker: W,
    other: Timer,
)
    ensures
        ({
            let t = reactor.next_token;
            let timer = Timer { deadline, token: t };
            let after = reactor.timer_started(deadline, waker);
            &&& t < usize::MAX ==> after.next_token == t + 1
            &&& after.waiters.contains_key(t) && after.waiters[t] == waker
            &&& after.waiters.remove(t) == reactor.waiters.remove(t)
            &&& after.timers.count(timer) == reactor.timers.count(timer) + 1
            &&& other != timer ==> after.timers.count(other) == reactor.timers.count(other)
        }),
{
    broadcast use vstd::multiset::group_multiset_axioms;

    let t = reactor.next_token;
    assert(reactor.timer_started(deadline, waker).waiters.remove(t) =~= reactor.waiters.remove(t));
}

/// What starting a timer comes to: one timer more runs, with that deadline and with the next
/// token, and the waker waits under that token. Nothing else changes.
pub proof fn law_start_timer<W>(
    handle: &mut ReactorHandle<W>,
    deadline: u128,
    waker: W,
    other: Timer,
)
    requires
        old(handle)@.next_token < usize::MAX,
        call_ensures(ReactorHandle::<W>::start_timer, (handle, deadline, waker), ()),
    ensures
        final(handle).wf(),
        ({
            let t = old(handle)@.next_token;
            let timer = Timer { deadline, token: t };
            let after = final(handle)@;
            &&& after.next_token == t + 1
            &&& after.waiters.contains_key(t) && after.waiters[t] == waker
            &&& after.waiters.remove(t) == old(handle)@.waiters.remove(t)
            &&& after.timers.count(timer) == old(handle)@.timers.count(timer) + 1
            &&& other != timer ==> after.timers.count(other) == old(handle)@.timers.count(other)
        }),
{
    law_started_timer_bears_the_token(old(handle)@, deadline, waker, other);
}

/// The wait for events lasts until the nearest deadline, not at all where one has come, and
/// without limit where no timer runs.
pub proof fn law_wait_lasts_until_the_nearest_deadline<W>(
    reactor: ReactorModel<W>,
    now: u128,
    other: Timer,
)
    ensures
        reactor.timeout(now) matches Some(d) ==> exists|t: Timer| #[trigger]
            reactor.timers.contains(t) && if t.deadline > now {
                t.deadline == now + d
            } else {
                d == 0
            },
        reactor.timers.contains(other) ==> {
            &&& reactor.timeout(now) is Some
            &&& other.deadline > now ==> now + reactor.timeout(now).unwrap() <= other.deadline
            &&& other.deadline <= now ==> reactor.timeout(now).unwrap() == 0
        },
{
    broadcast use vstd::multiset::group_multiset_axioms;

    lemma_nearest(reactor.timers);
    if let Some(t) = nearest(reactor.timers) {
        assert(reactor.timers.contains(t));
    }
}

/// What the timeout of a handle comes to: the time until the nearest of its deadlines, none where
/// one has come, and no limit where no timer runs.
pub proof fn law_timeout_at<W>(
    handle: &ReactorHandle<W>,
    now: u128,
    timeout: Option<u128>,
    other: Timer,
)
    requires
        call_ensures(ReactorHandle::<W>::timeout_at, (handle, now), timeout),
    ensures
        timeout matches Some(d) ==> exists|t: Timer| #[trigger]
            handle@.timers.contains(t) && if t.deadline > now {
                t.deadline == now + d
            } else {
                d == 0
            },
        handle@.timers.contains(other) ==> {
            &&& timeout is Some
            &&& other.deadline > now ==> now + timeout.unwrap() <= other.deadline
            &&& other.deadline <= now ==> timeout.unwrap() == 0
        },
{
    law_wait_lasts_until_the_nearest_deadline(handle@, now, other);
}

/// What the timeout of a reactor comes to: that of its handle, at a time that the clock shows.
pub proof fn law_timeout_goes_by_the_clock<W>(
    reactor: &Reactor,
    clock: &Clock,
    handle: &ReactorHandle<W>,
    timeout: Option<u128>,
)
    requires
        call_ensures(Reactor::timeout::<W>, (reactor, clock, handle), timeout),
    ensures
        timeout is None <==> forall|t: Timer| !#[trigger] handle@.timers.contains(t),
        timeout matches Some(d) ==> exists|now: u128, t: Timer| #[trigger]
            clock.shows(now) && #[trigger] handle@.timers.contains(t) && (forall|u: Timer| #[trigger]
                handle@.timers.contains(u) ==> t.deadline <= u.deadline) && if t.deadline > now {
                t.deadline == now + d
            } else {
                d == 0
            },
{
    broadcast use vstd::multiset::group_multiset_axioms;

    lemma_nearest(handle@.timers);
    let now = choose|now: u128|
        clock.shows(now) && now <= MAX_DURATION_NANOS && timeout == #[trigger] handle@.timeout(now);
    if let Some(t) = nearest(handle@.timers) {
        assert(clock.shows(now) && handle@.timers.contains(t));
    }
}

/// Whether a timer runs whose deadline has come and which bears `token`.
pub open spec fn token_is_due(timers: Multiset<Timer>, now: u128, token: usize) -> bool {
    exists|t: Timer| #[trigger] timers.contains(t) && t.token == token && t.deadline <= now
}

/// The tokens whose time has come are those of the events, and those of the timers that are due.
proof fn lemma_ready_tokens<W>(
    reactor: ReactorModel<W>,
    events: Seq<usize>,
    now: u128,
    token: usize,
)
    ensures
        reactor.ready_tokens(events, now).contains(token) <==> events.contains(token)
            || token_is_due(reactor.timers, now, token),
{
    broadcast use vstd::multiset::group_multiset_axioms;

    let m = due(reactor.timers, now);
    let s = in_order(m);
    let tokens = reactor.ready_tokens(events, now);
    lemma_in_order(m);
    if tokens.contains(token) {
        let i = choose|i: int| 0 <= i < tokens.len() && tokens[i] == token;
        if i < events.len() {
            assert(events[i] == token);
        } else {
            let t = s[i - events.len()];
            assert(s.contains(t));
            vstd::seq_lib::to_multiset_contains(s, t);
            assert(m.count(t) > 0);
            assert(reactor.timers.contains(t));
        }
    }
    if events.contains(token) {
        let i = choose|i: int| 0 <= i < events.len() && events[i] == token;
        assert(tokens[i] == token);
    }
    if token_is_due(reactor.timers, now, token) {
        let t = choose|t: Timer| #[trigger]
            reactor.timers.contains(t) && t.token == token && t.deadline <= now;
        lemma_due_token_is_ready(reactor, events, now, t);
    }
}

/// What a turn of the reactor leaves, whatever events are reported: each timer whose deadline is
/// still to come, as often as it was there, and no other; and each waiter for whose token there is
/// neither an event nor a timer that is due, and no other. No token is given out.
pub proof fn law_turn_leaves_what_is_to_come<W>(
    reactor: ReactorModel<W>,
    events: Seq<usize>,
    now: u128,
    timer: Timer,
    token: usize,
)
    ensures
        ({
            let after = reactor.dispatched(events, now);
            &&& timer.deadline > now ==> after.timers.count(timer) == reactor.timers.count(timer)
            &&& timer.deadline <= now ==> after.timers.count(timer) == 0
            &&& after.waiters.contains_key(token) <==> reactor.waiters.contains_key(token)
                && !events.contains(token) && !token_is_due(reactor.timers, now, token)
            &&& after.waiters.contains_key(token) ==> after.waiters[token]
                == reactor.waiters[token]
            &&& after.next_token == reactor.next_token
        }),
{
    broadcast use vstd::multiset::group_multiset_axioms;

    lemma_ready_tokens(reactor, events, now, token);
}

/// Whether the waiter of the token `a` is to be woken before that of the token `b`: those for whom
/// there is an event come first, in the order of the events; then those whose deadline has come,
/// with the nearest deadline first, and with the lowest token first among equal deadlines.
pub open spec fn woken_before(
    timers: Multiset<Timer>,
    events: Seq<usize>,
    now: u128,
    a: usize,
    b: usize,
) -> bool {
    if events.contains(a) {
        events.contains(b) ==> exists|p: int|
            0 <= p < events.len() && #[trigger] events[p] == a && !events.take(p + 1).contains(b)
    } else {
        &&& !events.contains(b)
        &&& exists|t: Timer| #[trigger]
            timers.contains(t) && t.token == a && t.deadline <= now && forall|u: Timer| #[trigger]
                timers.contains(u) && u.token == b && u.deadline <= now ==> t.deadline < u.deadline
                    || (t.deadline == u.deadline && t.token <= u.token)
    }
}

/// Of two tokens that are claimed, the first one occurs before the second one does.
proof fn lemma_claimed_in_order_of_tokens<W>(
    waiters: Map<usize, W>,
    tokens: Seq<usize>,
    i: int,
    j: int,
) -> (p: int)
    requires
        0 <= i < j < claimed(waiters, tokens).len(),
    ensures
        0 <= p < tokens.len(),
        tokens[p] == claimed(waiters, tokens)[i],
        !tokens.take(p + 1).contains(claimed(waiters, tokens)[j]),
    decreases tokens.len(),
{
    let before = tokens.drop_last();
    let c = claimed(waiters, before);
    if j < c.len() {
        let p = lemma_claimed_in_order_of_tokens(waiters, before, i, j);
        assert(before.take(p + 1) =~= tokens.take(p + 1));
        p
    } else {
        let a = c[i];
        assert(c.contains(a));
        lemma_claimed_contains(waiters, before, a);
        let p = choose|p: int| 0 <= p < before.len() && before[p] == a;
        assert(tokens[p] == a);
        let head = tokens.take(p + 1);
        if head.contains(tokens.last()) {
            let q = choose|q: int| 0 <= q < head.len() && head[q] == tokens.last();
            assert(before[q] == tokens.last());
        }
        p
    }
}

/// Whom a turn of the reactor wakes: the waiters for whose token there is an event or a timer that
/// is due, all of them and nobody else, each of them once, in their order. `tokens` are theirs.
pub proof fn law_turn_wakes_whose_time_has_come<W>(
    reactor: ReactorModel<W>,
    events: Seq<usize>,
    now: u128,
) -> (tokens: Seq<usize>)
    ensures
        tokens.no_duplicates(),
        forall|t: usize| #[trigger]
            tokens.contains(t) <==> reactor.waiters.contains_key(t) && (events.contains(t)
                || token_is_due(reactor.timers, now, t)),
        reactor.woken(events, now).len() == tokens.len(),
        forall|i: int|
            0 <= i < tokens.len() ==> #[trigger] reactor.woken(events, now)[i]
                == reactor.waiters[tokens[i]],
        forall|i: int, j: int|
            0 <= i < j < tokens.len() ==> woken_before(
                reactor.timers,
                events,
                now,
                #[trigger] tokens[i],
                #[trigger] tokens[j],
            ),
{
    broadcast use vstd::multiset::group_multiset_axioms;

    let ready = reactor.ready_tokens(events, now);
    let tokens = claimed(reactor.waiters, ready);
    let m = due(reactor.timers, now);
    let s = in_order(m);
    let n = events.len() as int;
    let le = |x: Timer, y: Timer| timer_le(x, y);
    lemma_in_order(m);
    lemma_claimed_once(reactor.waiters, ready);
    assert forall|t: usize| #[trigger]
        tokens.contains(t) <==> reactor.waiters.contains_key(t) && (events.contains(t)
            || token_is_due(reactor.timers, now, t)) by {
        lemma_claimed_contains(reactor.waiters, ready, t);
        lemma_ready_tokens(reactor, events, now, t);
    }
    assert forall|i: int, j: int| 0 <= i < j < tokens.len() implies woken_before(
        reactor.timers,
        events,
        now,
        #[trigger] tokens[i],
        #[trigger] tokens[j],
    ) by {
        let a = tokens[i];
        let b = tokens[j];
        let p = lemma_claimed_in_order_of_tokens(reactor.waiters, ready, i, j);
        if p < n {
            assert(events[p] == a);
            assert(ready.take(p + 1) =~= events.take(p + 1));
        } else {
            if events.contains(b) {
                let q = choose|q: int| 0 <= q < n && events[q] == b;
                assert(ready.take(p + 1)[q] == b);
            }
            if !events.contains(a) {
                let t = s[p - n];
                assert(s.contains(t));
                vstd::seq_lib::to_multiset_contains(s, t);
                assert(m.count(t) > 0);
                assert(reactor.timers.contains(t));
                assert forall|u: Timer| #[trigger]
                    reactor.timers.contains(u) && u.token == b && u.deadline <= now implies
                    t.deadline < u.deadline || (t.deadline == u.deadline && t.token
                    <= u.token) by {
                    let q = lemma_due_token_is_ready(reactor, events, now, u);
                    if n + q <= p {
                        assert(ready.take(p + 1)[n + q] == b);
                    }
                    assert(le(s[p - n], s[q]));
                }
            }
        }
    }
    tokens
}

/// What a dispatch comes to: the reactor has had its turn at that time with those events, and its
/// wakers come back.
pub proof fn law_dispatch_at<W>(
    handle: &mut ReactorHandle<W>,
    events: &Vec<usize>,
    now: u128,
    woken: Vec<W>,
    timer: Timer,
    token: usize,
) -> (tokens: Seq<usize>)
    requires
        call_ensures(ReactorHandle::<W>::dispatch_at, (handle, events, now), woken),
    ensures
        final(handle).wf(),
        ({
            let before = old(handle)@;
            let after = final(handle)@;
            &&& timer.deadline > now ==> after.timers.count(timer) == before.timers.count(timer)
            &&& timer.deadline <= now ==> after.timers.count(timer) == 0
            &&& after.waiters.contains_key(token) <==> before.waiters.contains_key(token)
                && !events@.contains(token) && !token_is_due(before.timers, now, token)
            &&& after.waiters.contains_key(token) ==> after.waiters[token]
                == before.waiters[token]
            &&& after.next_token == before.next_token
            &&& tokens.no_duplicates()
            &&& tokens.contains(token) <==> before.waiters.contains_key(token) && (
            events@.contains(token) || token_is_due(before.timers, now, token))
            &&& woken@.len() == tokens.len()
        }),
        forall|i: int|
            0 <= i < tokens.len() ==> #[trigger] woken@[i] == old(handle)@.waiters[tokens[i]],
        forall|i: int, j: int|
            0 <= i < j < tokens.len() ==> woken_before(
                old(handle)@.timers,
                events@,
                now,
                #[trigger] tokens[i],
                #[trigger] tokens[j],
            ),
{
    law_turn_leaves_what_is_to_come(old(handle)@, events@, now, timer, token);
    law_turn_wakes_whose_time_has_come(old(handle)@, events@, now)
}

/// What the end of a wait comes to: a turn with the events that the wait brought, at a time that
/// the clock shows. Whoever waits for one of these events, or for a deadline that has come by
/// then, is woken and waits no longer; the others wait on, and the timers whose deadline is still
/// to come run on.
pub proof fn law_epoll_goes_by_the_clock<W>(
    reactor: &Reactor,
    clock: &Clock,
    handle: &mut ReactorHandle<W>,
    woken: Vec<W>,
)
    requires
        call_ensures(Reactor::epoll::<W>, (reactor, clock, handle), woken),
    ensures
        final(handle).wf(),
        exists|now: u128| #[trigger]
            clock.shows(now) && woken@ == old(handle)@.woken(reactor.events@, now) && (forall|
                t: usize,
            |
                #[trigger] old(handle)@.waiters.contains_key(t) ==> if reactor.events@.contains(t)
                    || token_is_due(old(handle)@.timers, now, t) {
                    woken@.contains(old(handle)@.waiters[t]) && !final(
                        handle)@.waiters.contains_key(t)
                } else {
                    final(handle)@.waiters.contains_key(t) && final(handle)@.waiters[t] == old(
                        handle,
                    )@.waiters[t]
                }) && (forall|t: Timer| #[trigger]
                final(handle)@.timers.count(t) == if t.deadline > now {
                    old(handle)@.timers.count(t)
                } else {
                    0
                }) && final(handle)@.next_token == old(handle)@.next_token,
{
    let events = reactor.events@;
    let before = old(handle)@;
    let now = choose|now: u128|
        clock.shows(now) && now <= MAX_DURATION_NANOS && final(handle)@
            == #[trigger] before.dispatched(events, now) && woken@ == before.woken(events, now);
    assert(clock.shows(now));
    assert forall|t: usize| #[trigger] before.waiters.contains_key(t) implies if events.contains(t)
        || token_is_due(before.timers, now, t) {
        woken@.contains(before.waiters[t]) && !final(handle)@.waiters.contains_key(t)
    } else {
        final(handle)@.waiters.contains_key(t) && final(handle)@.waiters[t] == before.waiters[t]
    } by {
        lemma_ready_tokens(before, events, now, t);
        if events.contains(t) || token_is_due(before.timers, now, t) {
            lemma_ready_waiter_is_woken(before, events, now, t);
        }
    }
    assert forall|t: Timer| #[trigger] final(handle)@.timers.count(t) == if t.deadline > now {
        before.timers.count(t)
    } else {
        0
    } by {
        law_turn_leaves_what_is_to_come(before, events, now, t, 0);
    }
}

/// Whoever waits for a deadline that is still to come is woken by a later turn at or after it,
/// whatever events the turn in between brought for others: neither the timer nor the waiter is
/// lost, and the wait in between does not last past the deadline.
pub proof fn law_deadline_outlasts_earlier_turns<W>(
    reactor: ReactorModel<W>,
    events: Seq<usize>,
    now: u128,
    later_events: Seq<usize>,
    later: u128,
    timer: Timer,
)
    requires
        reactor.timers.contains(timer),
        reactor.waiters.contains_key(timer.token),
        timer.deadline > now,
        !events.contains(timer.token),
        !token_is_due(reactor.timers, now, timer.token),
        later >= timer.deadline,
    ensures
        reactor.dispatched(events, now).woken(later_events, later).contains(
            reactor.waiters[timer.token],
        ),
        reactor.dispatched(events, now).timeout(now) matches Some(d) && now + d <= timer.deadline,
{
    broadcast use vstd::multiset::group_multiset_axioms;

    let after = reactor.dispatched(events, now);
    law_turn_leaves_what_is_to_come(reactor, events, now, timer, timer.token);
    assert(after.timers.contains(timer));
    law_due_timer_is_woken(after, later_events, later, timer);
    law_wait_lasts_until_the_nearest_deadline(after, now, timer);
}

/// A token can be given out as long as the next one is not the last there is, and needs nothing
/// else.
pub proof fn law_tokens_last_long<W>(
    handle: &mut ReactorHandle<W>,
    waker: W,
    interest: Interest,
    token: &mut Option<usize>,
    deadline: u128,
)
    requires
        old(handle).wf(),
    ensures
        old(handle)@.next_token < usize::MAX || *old(token) is Some ==> call_requires(
            ReactorHandle::<W>::register,
            (handle, waker, interest, token),
        ),
        old(handle)@.next_token < usize::MAX ==> call_requires(
            ReactorHandle::<W>::start_timer,
            (handle, deadline, waker),
        ),
{
}

} // verus!
