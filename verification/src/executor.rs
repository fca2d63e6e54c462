//! The executor: the tasks that are not done, and which of them to poll next.
use crate::reactor::{law_due_timer_is_woken, law_reported_waiter_is_woken, ReactorModel};
use crate::timers::Timer;
use crate::waker::{woken, ChannelModel, MyWaker};
use std::collections::hash_map::Entry;
use std::collections::{HashMap, VecDeque};
use vstd::prelude::*;

verus! {

broadcast use vstd::std_specs::hash::group_hash_axioms;

/// A task: a future of the type `F`, and the id that it has in its executor.
pub struct Task<F> {
    pub future: F,
    pub id: usize,
}

impl<F> Task<F> {
    /// The task `id`, which runs `future`.
    pub fn new(future: F, id: usize) -> (task: Task<F>)
        ensures
            task == (Task { future, id }),
    {
        Task { future, id }
    }
}

/// What an executor holds: the tasks by their ids, and the ids of the tasks that are ready to be
/// polled, in the order in which they are.
#[verifier::ext_equal]
pub struct ExecutorModel<F> {
    pub tasks: Map<usize, Task<F>>,
    pub ready: Seq<usize>,
}

/// An executor that has not begun to run: tasks are still spawned on it.
pub struct Executor<F> {
    tasks: HashMap<usize, Task<F>>,
    ready_queue: VecDeque<usize>,
}

impl<F> View for Executor<F> {
    type V = ExecutorModel<F>;

    closed spec fn view(&self) -> ExecutorModel<F> {
        ExecutorModel { tasks: self.tasks@, ready: self.ready_queue@ }
    }
}

/// A map whose keys are the numbers below `n` has `n` entries.
proof fn lemma_numbered<V>(m: Map<usize, V>, n: nat)
    requires
        m.dom().finite(),
        n <= usize::MAX + 1,
        forall|k: usize| #[trigger] m.contains_key(k) <==> k < n,
    ensures
        m.len() == n,
    decreases n,
{
    if n == 0 {
        assert(m.dom() =~= Set::<usize>::empty());
    } else {
        let last = (n - 1) as usize;
        assert(m.contains_key(last));
        lemma_numbered(m.remove(last), (n - 1) as nat);
    }
}

impl<F> ExecutorModel<F> {
    /// Whether the tasks are numbered from 0 on in the order in which they were spawned, and all
    /// of them are ready, in that order.
    pub open spec fn numbered(self) -> bool {
        &&& forall|id: usize| #[trigger] self.tasks.contains_key(id) <==> id < self.ready.len()
        &&& forall|id: usize| #[trigger] self.tasks.contains_key(id) ==> self.tasks[id].id == id
        &&& forall|i: int| 0 <= i < self.ready.len() ==> #[trigger] self.ready[i] == i
    }

    /// The run that begins with these tasks.
    pub open spec fn begun(self) -> RunModel<F> {
        RunModel { tasks: self.tasks, ready: self.ready, phase: Phase::Starting }
    }
}

impl<F> Executor<F> {
    /// Whether the tasks are numbered in the order in which they were spawned.
    pub open spec fn wf(&self) -> bool {
        self@.numbered()
    }

    /// An executor without tasks.
    pub fn new() -> (executor: Executor<F>)
        ensures
            executor.wf(),
            executor@ == (ExecutorModel {
                tasks: Map::<usize, Task<F>>::empty(),
                ready: Seq::<usize>::empty(),
            }),
    {
        Executor { tasks: HashMap::new(), ready_queue: VecDeque::new() }
    }

    /// Spawns a task. It gets the number of tasks so far as its id, which no other task has, and
    /// is ready to be polled after the tasks that were spawned before.
    pub fn spawn(&mut self, future: F)
        requires
            old(self).wf(),
        ensures
            final(self).wf(),
            ({
                let id = old(self)@.ready.len() as usize;
                &&& !old(self)@.tasks.contains_key(id)
                &&& final(self)@ == (ExecutorModel {
                    tasks: old(self)@.tasks.insert(id, Task { future, id }),
                    ready: old(self)@.ready.push(id),
                })
            }),
    {
        let id: usize = self.tasks.len();
        proof {
            let ready = self@.ready;
            if ready.len() > usize::MAX + 1 {
                assert(ready[usize::MAX + 1] == usize::MAX + 1);
            }
            lemma_numbered(self@.tasks, ready.len());
        }
        self.tasks.insert(id, Task::new(future, id));
        self.ready_queue.push_back(id);
    }

    /// Begins to run the tasks until all of them are done. The run is carried on step by step.
    pub fn block_on(self) -> (run: Run<F>)
        requires
            self.wf(),
        ensures
            run@ == self@.begun(),
    {
        proof {
            assert forall|i: int| 0 <= i < self@.ready.len() implies self@.tasks.contains_key(
                #[trigger] self@.ready[i],
            ) by {
                assert(self@.ready[i] == i);
            }
            lemma_left_all(self@.tasks, self@.ready);
        }
        Run { tasks: self.tasks, ready_queue: self.ready_queue, phase: Phase::Starting }
    }
}

/// What a run waits for.
#[derive(Clone, Copy, Debug, PartialEq, Eq, Structural)]
pub enum Phase {
    /// To be started.
    Starting,
    /// For the poll of the task with this id.
    Polling(usize),
    /// For the channel to be drained.
    Draining,
    /// For a look at the reactor.
    Looking,
    /// For the reactor.
    Waiting,
    /// For nothing: all tasks are done.
    Finished,
}

/// What has happened since the last step of a run.
#[derive(Debug, PartialEq, Eq)]
pub enum Event {
    /// The run was started.
    Started,
    /// The task that was polled is done.
    Ready,
    /// The task that was polled is not done.
    Pending,
    /// The channel was drained, and held these ids.
    Drained(Vec<usize>),
    /// The reactor has woken whom it had to wake by now.
    Looked,
    /// The reactor has waited, and has woken whom it had to wake.
    Waited,
}

impl Event {
    /// The ids that came out of the channel.
    pub open spec fn woken(self) -> Seq<usize> {
        match self {
            Event::Drained(ids) => ids@,
            _ => Seq::empty(),
        }
    }
}

/// What is to be done before the next step of a run.
#[derive(Clone, Copy, Debug, PartialEq, Eq, Structural)]
pub enum Action {
    /// Poll the task with this id.
    Poll(usize),
    /// Drain the channel.
    Drain,
    /// Let the reactor wake whom it has to wake by now, without waiting.
    Look,
    /// Let the reactor wait, and wake whom it has to wake.
    Wait,
    /// Nothing: all tasks are done.
    Finish,
}

/// The ids among `ids` that belong to one of `tasks`, in their order.
#[verifier::opaque]
pub open spec fn left<F>(tasks: Map<usize, Task<F>>, ids: Seq<usize>) -> Seq<usize> {
    ids.filter(|id: usize| tasks.contains_key(id))
}

/// What is left of two sequences is left of the first, and then of the second.
pub proof fn lemma_left_add<F>(tasks: Map<usize, Task<F>>, a: Seq<usize>, b: Seq<usize>)
    ensures
        left(tasks, a + b) == left(tasks, a) + left(tasks, b),
{
    reveal(left);
    Seq::filter_distributes_over_add(a, b, |id: usize| tasks.contains_key(id));
}

/// Where all the ids belong to tasks, all of them are left.
pub proof fn lemma_left_all<F>(tasks: Map<usize, Task<F>>, ids: Seq<usize>)
    requires
        forall|i: int| 0 <= i < ids.len() ==> tasks.contains_key(#[trigger] ids[i]),
    ensures
        left(tasks, ids) == ids,
    decreases ids.len(),
{
    reveal(left);
    reveal(Seq::filter);
    if ids.len() > 0 {
        let before = ids.drop_last();
        assert(tasks.contains_key(ids[ids.len() - 1]));
        assert forall|i: int| 0 <= i < before.len() implies tasks.contains_key(
            #[trigger] before[i],
        ) by {
            assert(before[i] == ids[i]);
        }
        lemma_left_all(tasks, before);
        assert(before.push(ids.last()) =~= ids);
    } else {
        assert(left(tasks, ids) =~= ids);
    }
}

/// The ids that are left are those that belong to tasks.
pub proof fn lemma_left_contains<F>(tasks: Map<usize, Task<F>>, ids: Seq<usize>, id: usize)
    ensures
        left(tasks, ids).contains(id) <==> ids.contains(id) && tasks.contains_key(id),
{
    broadcast use vstd::seq_lib::group_filter_ensures;

    reveal(left);
    let pred = |id: usize| tasks.contains_key(id);
    if ids.contains(id) && tasks.contains_key(id) {
        let i = choose|i: int| 0 <= i < ids.len() && ids[i] == id;
        assert(pred(ids[i]));
    }
    if left(tasks, ids).contains(id) {
        let i = choose|i: int| 0 <= i < left(tasks, ids).len() && left(tasks, ids)[i] == id;
        assert(pred(ids.filter(pred)[i]));
        ids.lemma_filter_contains_rev(pred, id);
    }
}

/// Where tasks go, what is left of what was left is what is left of all.
proof fn lemma_left_of_left<F>(
    tasks: Map<usize, Task<F>>,
    fewer: Map<usize, Task<F>>,
    ids: Seq<usize>,
)
    requires
        fewer.dom().subset_of(tasks.dom()),
    ensures
        left(fewer, left(tasks, ids)) == left(fewer, ids),
    decreases ids.len(),
{
    reveal(left);
    reveal(Seq::filter);
    if ids.len() > 0 {
        let before = ids.drop_last();
        lemma_left_of_left(tasks, fewer, before);
        if tasks.contains_key(ids.last()) {
            assert(left(tasks, ids).drop_last() =~= left(tasks, before));
        } else {
            assert(!fewer.dom().contains(ids.last()));
        }
    }
}

/// Which ids are left depends on the ids of the tasks alone.
proof fn lemma_left_by_ids<F>(
    tasks: Map<usize, Task<F>>,
    others: Map<usize, Task<F>>,
    ids: Seq<usize>,
)
    requires
        tasks.dom() == others.dom(),
    ensures
        left(tasks, ids) == left(others, ids),
    decreases ids.len(),
{
    reveal(left);
    reveal(Seq::filter);
    if ids.len() > 0 {
        lemma_left_by_ids(tasks, others, ids.drop_last());
        assert(tasks.dom().contains(ids.last()) == others.dom().contains(ids.last()));
    }
}

/// The first id is the first that is left where it belongs to a task, and goes where it does not.
pub proof fn lemma_left_first<F>(tasks: Map<usize, Task<F>>, ids: Seq<usize>)
    requires
        ids.len() > 0,
    ensures
        left(tasks, ids) == if tasks.contains_key(ids[0]) {
            seq![ids[0]] + left(tasks, ids.drop_first())
        } else {
            left(tasks, ids.drop_first())
        },
{
    let first = seq![ids[0]];
    lemma_left_add(tasks, first, ids.drop_first());
    assert(first + ids.drop_first() =~= ids);
    reveal(left);
    reveal_with_fuel(Seq::filter, 2);
    if tasks.contains_key(ids[0]) {
        assert(left(tasks, first) =~= first);
    } else {
        assert(left(tasks, first) =~= Seq::<usize>::empty());
        assert(left(tasks, first) + left(tasks, ids.drop_first()) =~= left(
            tasks,
            ids.drop_first(),
        ));
    }
}

/// What a run holds: the tasks that are not done by their ids, the ids of those that are ready to
/// be polled, in the order in which they will be, and what the run waits for.
#[verifier::ext_equal]
pub struct RunModel<F> {
    pub tasks: Map<usize, Task<F>>,
    pub ready: Seq<usize>,
    pub phase: Phase,
}

impl<F> RunModel<F> {
    /// Whether `event` can be what has happened.
    pub open spec fn expects(self, event: Event) -> bool {
        match event {
            Event::Started => self.phase is Starting,
            Event::Ready | Event::Pending => self.phase is Polling,
            Event::Drained(_) => self.phase is Draining,
            Event::Looked => self.phase is Looking,
            Event::Waited => self.phase is Waiting,
        }
    }

    /// The tasks that are not done after `event`: one that was polled and is done goes.
    pub open spec fn tasks_after(self, event: Event) -> Map<usize, Task<F>> {
        if event is Ready {
            self.tasks.remove(self.phase->Polling_0)
        } else {
            self.tasks
        }
    }

    /// The tasks that are ready after `event`: those that were woken join at the end. A wake of a
    /// task that is done counts for nothing.
    pub open spec fn ready_after(self, event: Event) -> Seq<usize> {
        left(self.tasks_after(event), self.ready + event.woken())
    }

    /// What is to be done after `event`. Where no task is left, finish. Where one is ready, poll
    /// the one that has been ready for longest. Once none is, the reactor has its turn, without
    /// waiting, so that tasks that wake each other do not keep it from its work; then the channel
    /// is drained. Only where that held nothing does the reactor wait, and the channel is drained
    /// again.
    pub open spec fn action(self, event: Event) -> Action {
        if self.tasks_after(event).is_empty() {
            Action::Finish
        } else if self.ready_after(event).len() > 0 {
            Action::Poll(self.ready_after(event)[0])
        } else {
            match event {
                Event::Started | Event::Ready | Event::Pending => Action::Look,
                Event::Looked | Event::Waited => Action::Drain,
                Event::Drained(ids) => if ids@.len() == 0 {
                    Action::Wait
                } else {
                    Action::Drain
                },
            }
        }
    }

    /// The run after the step that `event` brings.
    pub open spec fn stepped(self, event: Event) -> RunModel<F> {
        let ready = self.ready_after(event);
        RunModel {
            tasks: self.tasks_after(event),
            ready: if self.action(event) is Poll {
                ready.drop_first()
            } else {
                ready
            },
            phase: match self.action(event) {
                Action::Poll(id) => Phase::Polling(id),
                Action::Drain => Phase::Draining,
                Action::Look => Phase::Looking,
                Action::Wait => Phase::Waiting,
                Action::Finish => Phase::Finished,
            },
        }
    }

    /// The run after it took note of `events`, one after the other.
    pub open spec fn followed(self, events: Seq<Event>) -> RunModel<F>
        decreases events.len(),
    {
        if events.len() == 0 {
            self
        } else {
            self.followed(events.drop_last()).stepped(events.last())
        }
    }

    /// Whether `events` can be what happens, one after the other.
    pub open spec fn allows(self, events: Seq<Event>) -> bool
        decreases events.len(),
    {
        events.len() > 0 ==> {
            &&& self.allows(events.drop_last())
            &&& self.followed(events.drop_last()).expects(events.last())
        }
    }
}

/// An executor that runs its tasks. No more tasks are spawned on it.
pub struct Run<F> {
    tasks: HashMap<usize, Task<F>>,
    ready_queue: VecDeque<usize>,
    phase: Phase,
}

impl<F> View for Run<F> {
    type V = RunModel<F>;

    closed spec fn view(&self) -> RunModel<F> {
        RunModel {
            tasks: self.tasks@,
            ready: left(self.tasks@, self.ready_queue@),
            phase: self.phase,
        }
    }
}

impl<F> Run<F> {
    /// Takes note of `event` and says what is to be done next.
    pub fn step(&mut self, event: Event) -> (action: Action)
        requires
            old(self)@.expects(event),
        ensures
            final(self)@ == old(self)@.stepped(event),
            action == old(self)@.action(event),
    {
        let idle = Self::idle_action(&event);
        self.note(event);
        self.skip_done();
        if self.tasks.is_empty() {
            self.phase = Phase::Finished;
            Action::Finish
        } else if self.ready_queue.len() > 0 {
            proof {
                lemma_left_first(self.tasks@, self.ready_queue@);
            }
            let ghost ready = self@.ready;
            let id: usize = self.ready_queue.pop_front().unwrap();
            assert(ready.drop_first() =~= left(self.tasks@, self.ready_queue@));
            self.phase = Phase::Polling(id);
            Action::Poll(id)
        } else {
            proof {
                lemma_left_all(self.tasks@, self.ready_queue@);
            }
            match idle {
                Action::Look => {
                    self.phase = Phase::Looking;
                },
                Action::Wait => {
                    self.phase = Phase::Waiting;
                },
                _ => {
                    self.phase = Phase::Draining;
                },
            }
            idle
        }
    }

    /// What is to be done after `event` while tasks are left and none is ready.
    fn idle_action(event: &Event) -> (action: Action)
        ensures
            action == (match *event {
                Event::Started | Event::Ready | Event::Pending => Action::Look,
                Event::Looked | Event::Waited => Action::Drain,
                Event::Drained(ids) => if ids@.len() == 0 {
                    Action::Wait
                } else {
                    Action::Drain
                },
            }),
    {
        match event {
            Event::Started | Event::Ready | Event::Pending => Action::Look,
            Event::Looked | Event::Waited => Action::Drain,
            Event::Drained(ids) => {
                if ids.len() == 0 {
                    Action::Wait
                } else {
                    Action::Drain
                }
            },
        }
    }

    /// Lets a task go that is done, and puts those that were woken at the end of the ready queue.
    fn note(&mut self, event: Event)
        requires
            old(self)@.expects(event),
        ensures
            final(self)@ == (RunModel {
                tasks: old(self)@.tasks_after(event),
                ready: old(self)@.ready_after(event),
                phase: old(self)@.phase,
            }),
    {
        let ghost queue = self.ready_queue@;
        match event {
            Event::Ready => {
                if let Phase::Polling(id) = self.phase {
                    self.tasks.remove(&id);
                }
            },
            Event::Drained(ids) => {
                self.make_ready(&ids);
            },
            Event::Started | Event::Pending | Event::Looked | Event::Waited => {},
        }
        proof {
            let tasks = self.tasks@;
            assert(self.ready_queue@ =~= queue + event.woken());
            lemma_left_of_left(old(self).tasks@, tasks, queue);
            lemma_left_add(tasks, queue, event.woken());
            lemma_left_add(tasks, old(self)@.ready, event.woken());
        }
    }

    /// Puts `ids` at the end of the ready queue, in their order.
    fn make_ready(&mut self, ids: &Vec<usize>)
        ensures
            final(self).tasks == old(self).tasks,
            final(self).phase == old(self).phase,
            final(self).ready_queue@ == old(self).ready_queue@ + ids@,
    {
        let mut i: usize = 0;
        assert(self.ready_queue@ =~= old(self).ready_queue@ + ids@.take(0));
        while i < ids.len()
            invariant
                i <= ids@.len(),
                self.tasks == old(self).tasks,
                self.phase == old(self).phase,
                self.ready_queue@ == old(self).ready_queue@ + ids@.take(i as int),
            decreases ids@.len() - i,
        {
            self.ready_queue.push_back(ids[i]);
            assert(self.ready_queue@ =~= old(self).ready_queue@ + ids@.take(i + 1));
            i = i + 1;
        }
        assert(ids@.take(i as int) =~= ids@);
    }

    /// Takes ids of tasks that are done off the front of the ready queue.
    fn skip_done(&mut self)
        ensures
            final(self)@ == old(self)@,
            final(self).tasks == old(self).tasks,
            final(self).phase == old(self).phase,
            final(self).ready_queue@.len() > 0 ==> final(self).tasks@.contains_key(
                final(self).ready_queue@[0],
            ),
    {
        while self.ready_queue.len() > 0 && !self.tasks.contains_key(&self.ready_queue[0])
            invariant
                self@ == old(self)@,
                self.tasks == old(self).tasks,
                self.phase == old(self).phase,
            decreases self.ready_queue@.len(),
        {
            proof {
                lemma_left_first(self.tasks@, self.ready_queue@);
            }
            self.ready_queue.pop_front();
        }
    }

    /// The future of the task `id`, to be polled, where that task is not done.
    pub fn future_mut(&mut self, id: usize) -> (future: Option<&mut F>)
        ensures
            match future {
                Some(f) => {
                    &&& old(self)@.tasks.contains_key(id)
                    &&& *f == old(self)@.tasks[id].future
                    &&& final(self)@ == (RunModel {
                        tasks: old(self)@.tasks.insert(
                            id,
                            Task { future: *final(f), id: old(self)@.tasks[id].id },
                        ),
                        ..old(self)@
                    })
                },
                None => !old(self)@.tasks.contains_key(id) && final(self)@ == old(self)@,
            },
    {
        proof {
            let tasks = self.tasks@;
            let queue = self.ready_queue@;
            assert forall|task: Task<F>| tasks.contains_key(id) implies left(
                #[trigger] tasks.insert(id, task),
                queue,
            ) == left(tasks, queue) by {
                assert(tasks.insert(id, task).dom() =~= tasks.dom());
                lemma_left_by_ids(tasks, tasks.insert(id, task), queue);
            }
        }
        match self.tasks.entry(id) {
            Entry::Occupied(entry) => Some(&mut entry.into_mut().future),
            Entry::Vacant(_) => None,
        }
    }
}

/// No two tasks of an executor have the same id, and no task is ready twice.
pub proof fn law_ids_are_unique<F>(executor: ExecutorModel<F>, a: usize, b: usize)
    requires
        executor.numbered(),
        executor.tasks.contains_key(a),
        executor.tasks.contains_key(b),
        executor.tasks[a].id == executor.tasks[b].id,
    ensures
        a == b,
        executor.ready.no_duplicates(),
        executor.ready.contains(a),
{
    assert(executor.ready[a as int] == a);
}

/// The tasks that are ready are polled one after the other, in the order in which they became
/// ready, whatever their polls come to; only then has the reactor its turn, or is the run
/// finished.
/// None of them is ready twice, or polled just now: such a task is polled again only if it is not
/// done then.
pub proof fn law_ready_tasks_are_polled_in_order<F>(run: RunModel<F>, events: Seq<Event>)
    requires
        run.allows(events),
        0 < events.len() <= run.ready.len() + 1,
        forall|i: int|
            0 <= i < events.len() ==> {
                ||| (#[trigger] events[i]) is Started
                ||| events[i] is Ready
                ||| events[i] is Pending
            },
        run.ready.no_duplicates(),
        forall|i: int| 0 <= i < run.ready.len() ==> run.tasks.contains_key(#[trigger] run.ready[i]),
        run.phase matches Phase::Polling(id) ==> !run.ready.contains(id),
    ensures
        events.len() <= run.ready.len() ==> {
            &&& run.followed(events).phase == Phase::Polling(run.ready[events.len() - 1])
            &&& run.followed(events).ready == run.ready.skip(events.len() as int)
            &&& forall|i: int|
                events.len() - 1 <= i < run.ready.len() ==> run.followed(events).tasks.contains_key(
                    #[trigger] run.ready[i],
                )
        },
        events.len() == run.ready.len() + 1 ==> {
            ||| run.followed(events).phase is Looking
            ||| run.followed(events).phase is Finished
        },
    decreases events.len(),
{
    let before = events.drop_last();
    let event = events.last();
    let reached = run.followed(before);
    let n = before.len() as int;
    assert(events[events.len() - 1] == event);
    if n > 0 {
        assert forall|i: int| 0 <= i < before.len() implies {
            ||| (#[trigger] before[i]) is Started
            ||| before[i] is Ready
            ||| before[i] is Pending
        } by {
            assert(before[i] == events[i]);
        }
        law_ready_tasks_are_polled_in_order(run, before);
    }
    assert(reached.ready =~= run.ready.skip(n));
    assert forall|i: int| n <= i < run.ready.len() implies reached.tasks_after(event).contains_key(
        #[trigger] run.ready[i],
    ) by {
        if n == 0 {
            assert(run.ready.contains(run.ready[i]));
        } else {
            assert(run.ready[n - 1] != run.ready[i]);
        }
    }
    assert(reached.ready + event.woken() =~= reached.ready);
    assert forall|i: int| 0 <= i < reached.ready.len() implies reached.tasks_after(
        event,
    ).contains_key(#[trigger] reached.ready[i]) by {
        assert(reached.ready[i] == run.ready[n + i]);
    }
    lemma_left_all(reached.tasks_after(event), reached.ready);
    if n < run.ready.len() {
        assert(reached.tasks_after(event).contains_key(run.ready[n]));
        assert(reached.ready[0] == run.ready[n]);
        assert(run.ready.skip(n).drop_first() =~= run.ready.skip(n + 1));
    }
}

/// No task that is ready or woken is passed over, however often it stands in the queue: as long as
/// it is not done, it is polled next or stays ready, and the run neither waits nor finishes. The
/// task that is polled is the first of those that are ready, and the others stay in their order.
pub proof fn law_ready_task_is_not_passed_over<F>(run: RunModel<F>, event: Event, id: usize)
    requires
        run.ready.contains(id) || event.woken().contains(id),
        run.tasks_after(event).contains_key(id),
    ensures
        run.action(event) is Poll,
        run.action(event) == Action::Poll(id) || run.stepped(event).ready.contains(id),
        run.ready_after(event) == seq![run.action(event)->Poll_0] + run.stepped(event).ready,
{
    let ids = run.ready + event.woken();
    if run.ready.contains(id) {
        let i = choose|i: int| 0 <= i < run.ready.len() && run.ready[i] == id;
        assert(ids[i] == id);
    } else {
        let i = choose|i: int| 0 <= i < event.woken().len() && event.woken()[i] == id;
        assert(ids[run.ready.len() + i] == id);
    }
    lemma_left_contains(run.tasks_after(event), ids, id);
    assert(run.tasks_after(event).dom().contains(id));
    let ready = run.ready_after(event);
    let at = choose|i: int| 0 <= i < ready.len() && ready[i] == id;
    assert(ready =~= seq![ready[0]] + ready.drop_first());
    if at > 0 {
        assert(ready.drop_first()[at - 1] == id);
    }
}

/// A run finishes exactly when no task is left. While tasks are left and none is ready, the
/// channel is drained or the reactor has its turn.
pub proof fn law_run_ends_with_its_tasks<F>(run: RunModel<F>, event: Event)
    ensures
        run.action(event) is Finish <==> run.tasks_after(event).is_empty(),
        !run.tasks_after(event).is_empty() && run.ready_after(event).len() == 0 ==> {
            ||| run.action(event) is Look
            ||| run.action(event) is Drain
            ||| run.action(event) is Wait
        },
{
}

/// The reactor waits only where no task is ready, and only directly after the channel was drained
/// and held nothing: no wake that was sent by then is waited over.
pub proof fn law_wait_follows_an_empty_drain<F>(run: RunModel<F>, event: Event)
    requires
        run.action(event) is Wait,
    ensures
        event is Drained,
        event.woken().len() == 0,
        run.ready_after(event).len() == 0,
{
}

/// The reactor has its turn only once no task is ready, and it has it whenever the tasks that were
/// ready have been polled; after each turn the channel is drained, and tasks that this makes ready
/// are polled at once.
pub proof fn law_reactor_has_its_turn<F>(run: RunModel<F>, event: Event)
    ensures
        run.action(event) is Look || run.action(event) is Wait ==> run.ready_after(event).len()
            == 0,
        (event is Ready || event is Pending) && !run.tasks_after(event).is_empty()
            && run.ready_after(event).len() == 0 ==> run.action(event) is Look,
        (event is Looked || event is Waited) && !run.tasks_after(event).is_empty()
            && run.ready_after(event).len() == 0 ==> run.action(event) is Drain,
        run.action(event) is Drain ==> event is Looked || event is Waited || event is Drained,
        event is Drained && run.ready_after(event).len() > 0 ==> run.action(event) is Poll,
{
    if run.ready_after(event).len() > 0 {
        let id = run.ready_after(event)[0];
        assert(run.ready_after(event).contains(id));
        lemma_left_contains(run.tasks_after(event), run.ready + event.woken(), id);
        assert(run.tasks_after(event).dom().contains(id));
    }
}

/// A task that is done goes, all the others stay, and no step brings a task.
pub proof fn law_only_done_tasks_go<F>(run: RunModel<F>, event: Event, id: usize)
    requires
        run.expects(event),
    ensures
        run.stepped(event).tasks.submap_of(run.tasks),
        run.tasks.contains_key(id) ==> (run.stepped(event).tasks.contains_key(id) <==> !(
        event is Ready && run.phase == Phase::Polling(id))),
{
}

/// Only a task that was ready, or that was woken, is polled, and only one that is not done: a
/// surplus wake of a task that is done disturbs nothing.
pub proof fn law_only_ready_tasks_are_polled<F>(run: RunModel<F>, event: Event, id: usize)
    requires
        run.action(event) == Action::Poll(id),
    ensures
        run.tasks_after(event).contains_key(id),
        run.ready.contains(id) || event.woken().contains(id),
{
    let ids = run.ready + event.woken();
    assert(run.ready_after(event).contains(run.ready_after(event)[0]));
    lemma_left_contains(run.tasks_after(event), ids, id);
    let i = choose|i: int| 0 <= i < ids.len() && ids[i] == id;
    if i < run.ready.len() {
        assert(run.ready[i] == id);
    } else {
        assert(event.woken()[i - run.ready.len()] == id);
    }
}

/// Whenever a run is to poll a task, that task is one of those it holds.
pub proof fn law_polled_task_is_held<F>(run: RunModel<F>, events: Seq<Event>, id: usize)
    requires
        run.phase is Starting,
        run.followed(events).phase == Phase::Polling(id),
    ensures
        run.followed(events).tasks.contains_key(id),
{
    law_only_ready_tasks_are_polled(run.followed(events.drop_last()), events.last(), id);
}

/// A task that is not done and was woken is polled next, or is ready.
pub proof fn law_woken_task_is_ready<F>(run: RunModel<F>, event: Event, id: usize)
    requires
        event.woken().contains(id),
        run.tasks.contains_key(id),
    ensures
        run.action(event) is Poll,
        run.action(event) == Action::Poll(id) || run.stepped(event).ready.contains(id),
{
    law_ready_task_is_not_passed_over(run, event, id);
}

/// A task that wakes itself while it is polled is polled again, with no event and no deadline to
/// wait for: where nothing else is ready or woken, it is polled next after the reactor had its
/// turn and the channel was drained.
pub proof fn law_task_that_wakes_itself_is_polled_again<F>(
    run: RunModel<F>,
    channel: ChannelModel,
    id: usize,
    drained: Event,
)
    requires
        run.phase == Phase::Polling(id),
        run.tasks.contains_key(id),
        run.ready.len() == 0,
        channel == (ChannelModel { ids: Seq::<usize>::empty(), open: true }),
        drained is Drained,
        drained.woken() == woken(channel, id).ids,
    ensures
        run.action(Event::Pending) == Action::Look,
        run.stepped(Event::Pending).action(Event::Looked) == Action::Drain,
        run.stepped(Event::Pending).stepped(Event::Looked).action(drained) == Action::Poll(id),
{
    let pending = run.stepped(Event::Pending);
    let looked = pending.stepped(Event::Looked);
    assert(run.tasks.dom().contains(id));
    lemma_left_all(run.tasks, Seq::<usize>::empty());
    assert(run.ready + Event::Pending.woken() =~= Seq::<usize>::empty());
    assert(pending.ready + Event::Looked.woken() =~= Seq::<usize>::empty());
    assert(looked.ready + drained.woken() =~= seq![id]);
    lemma_left_all(run.tasks, seq![id]);
}

/// Which step comes next depends on the ids of the tasks alone, not on what their futures hold.
pub proof fn law_futures_do_not_matter<F>(run: RunModel<F>, other: RunModel<F>, event: Event)
    requires
        run.tasks.dom() == other.tasks.dom(),
        run.ready == other.ready,
        run.phase == other.phase,
    ensures
        run.action(event) == other.action(event),
        run.stepped(event).tasks.dom() == other.stepped(event).tasks.dom(),
        run.stepped(event).ready == other.stepped(event).ready,
        run.stepped(event).phase == other.stepped(event).phase,
{
    assert(run.tasks_after(event).dom() =~= other.tasks_after(event).dom());
    lemma_left_by_ids(
        run.tasks_after(event),
        other.tasks_after(event),
        run.ready + event.woken(),
    );
}

/// Whether a poll of the task `id` came to its end among `events`.
pub open spec fn came_to_its_end<F>(run: RunModel<F>, events: Seq<Event>, id: usize) -> bool {
    exists|i: int|
        0 <= i < events.len() && (#[trigger] events[i]) is Ready && run.followed(
            events.take(i),
        ).phase == Phase::Polling(id)
}

/// A run that has finished has polled each of its tasks to its end.
pub proof fn law_finished_run_has_done_all_tasks<F>(
    run: RunModel<F>,
    events: Seq<Event>,
    id: usize,
)
    requires
        run.phase is Starting,
        run.allows(events),
        run.followed(events).phase is Finished,
        run.tasks.contains_key(id),
    ensures
        came_to_its_end(run, events, id),
{
    let last = run.followed(events.drop_last());
    assert(last.action(events.last()) is Finish);
    assert(!run.followed(events).tasks.dom().contains(id));
    lemma_task_that_went_is_done(run, events, id);
}

/// A task that is no longer there has come to its end.
proof fn lemma_task_that_went_is_done<F>(run: RunModel<F>, events: Seq<Event>, id: usize)
    requires
        run.allows(events),
        run.tasks.contains_key(id),
        !run.followed(events).tasks.contains_key(id),
    ensures
        came_to_its_end(run, events, id),
    decreases events.len(),
{
    let before = events.drop_last();
    if run.followed(before).tasks.contains_key(id) {
        let i = events.len() - 1;
        assert(events.take(i) =~= before);
        assert(events[i] is Ready);
    } else {
        lemma_task_that_went_is_done(run, before, id);
        let i = choose|i: int|
            0 <= i < before.len() && (#[trigger] before[i]) is Ready && run.followed(
                before.take(i),
            ).phase == Phase::Polling(id);
        assert(before.take(i) =~= events.take(i));
        assert(events[i] is Ready);
    }
}

/// How often `id` stands in `ids`.
pub open spec fn times(ids: Seq<usize>, id: usize) -> nat {
    ids.filter(|other: usize| other == id).len()
}

/// How often the task `id` is polled when a run follows `events`.
pub open spec fn polls<F>(run: RunModel<F>, events: Seq<Event>, id: usize) -> nat
    decreases events.len(),
{
    if events.len() == 0 {
        0
    } else {
        let before = events.drop_last();
        polls(run, before, id) + if run.followed(before).action(events.last()) == Action::Poll(id) {
            1nat
        } else {
            0nat
        }
    }
}

/// How often the task `id` is woken among `events`.
pub open spec fn wakes(events: Seq<Event>, id: usize) -> nat
    decreases events.len(),
{
    if events.len() == 0 {
        0
    } else {
        wakes(events.drop_last(), id) + times(events.last().woken(), id)
    }
}

/// A task is polled at most once more than it was woken: the first poll is for nothing, and each
/// further one follows a wake of its own.
pub proof fn law_polls_follow_wakes<F>(executor: ExecutorModel<F>, events: Seq<Event>, id: usize)
    requires
        executor.numbered(),
    ensures
        polls(executor.begun(), events, id) <= 1 + wakes(events, id),
{
    lemma_polls_and_ready(executor.begun(), events, id);
    assert(executor.ready.no_duplicates());
    lemma_times_unique(executor.ready, id);
}

/// The ids of two sequences are as many as those of the first and those of the second.
proof fn lemma_times_add(a: Seq<usize>, b: Seq<usize>, id: usize)
    ensures
        times(a + b, id) == times(a, id) + times(b, id),
{
    Seq::filter_distributes_over_add(a, b, |other: usize| other == id);
}

/// Of ids that are all different, each stands there once at most.
proof fn lemma_times_unique(ids: Seq<usize>, id: usize)
    requires
        ids.no_duplicates(),
    ensures
        times(ids, id) <= 1,
        times(ids, id) > 0 ==> ids.contains(id),
    decreases ids.len(),
{
    reveal(Seq::filter);
    if ids.len() > 0 {
        let before = ids.drop_last();
        lemma_times_unique(before, id);
        assert(ids[ids.len() - 1] == ids.last());
        if times(before, id) > 0 {
            let i = choose|i: int| 0 <= i < before.len() && before[i] == id;
            assert(ids[i] == id);
        }
    }
}

/// No id is left more often than it was there.
proof fn lemma_times_left<F>(tasks: Map<usize, Task<F>>, ids: Seq<usize>, id: usize)
    ensures
        times(left(tasks, ids), id) <= times(ids, id),
    decreases ids.len(),
{
    reveal(left);
    reveal(Seq::filter);
    if ids.len() > 0 {
        let before = ids.drop_last();
        lemma_times_left(tasks, before, id);
        if tasks.contains_key(ids.last()) {
            assert(left(tasks, ids).drop_last() =~= left(tasks, before));
        }
    }
}

/// Each poll of a task uses up one of the times that it was ready at first or was woken.
proof fn lemma_polls_and_ready<F>(run: RunModel<F>, events: Seq<Event>, id: usize)
    ensures
        polls(run, events, id) + times(run.followed(events).ready, id) <= times(run.ready, id)
            + wakes(events, id),
    decreases events.len(),
{
    if events.len() > 0 {
        let reached = run.followed(events.drop_last());
        let event = events.last();
        let ready = reached.ready_after(event);
        lemma_polls_and_ready(run, events.drop_last(), id);
        lemma_times_add(reached.ready, event.woken(), id);
        lemma_times_left(reached.tasks_after(event), reached.ready + event.woken(), id);
        if reached.action(event) is Poll {
            assert(seq![ready[0]] + ready.drop_first() =~= ready);
            lemma_times_add(seq![ready[0]], ready.drop_first(), id);
            reveal_with_fuel(Seq::filter, 2);
        }
    }
}

/// What the channel holds after all of `wakers` were woken, one after the other.
pub open spec fn all_woken(channel: ChannelModel, wakers: Seq<MyWaker>) -> ChannelModel
    decreases wakers.len(),
{
    if wakers.len() == 0 {
        channel
    } else {
        woken(all_woken(channel, wakers.drop_last()), wakers.last().task_id)
    }
}

/// Wakes are neither lost nor reordered: the ids of the tasks stand in the open channel in the
/// order in which the tasks were woken.
pub proof fn law_wakes_are_kept_in_order(channel: ChannelModel, wakers: Seq<MyWaker>)
    requires
        channel.open,
    ensures
        all_woken(channel, wakers) == (ChannelModel {
            ids: channel.ids + wakers.map_values(|w: MyWaker| w.task_id),
            open: true,
        }),
    decreases wakers.len(),
{
    let id_of = |w: MyWaker| w.task_id;
    if wakers.len() == 0 {
        assert(channel.ids + wakers.map_values(id_of) =~= channel.ids);
    } else {
        law_wakes_are_kept_in_order(channel, wakers.drop_last());
        assert((channel.ids + wakers.drop_last().map_values(id_of)).push(wakers.last().task_id)
            =~= channel.ids + wakers.map_values(id_of));
    }
}

/// When the operating system reports a token, the task whose waker waits under it is polled next
/// or is ready, if it is not done, once the reactor has woken whom it had to wake and the channel
/// was drained.
pub proof fn law_reported_task_becomes_ready<F>(
    run: RunModel<F>,
    reactor: ReactorModel<MyWaker>,
    channel: ChannelModel,
    events: Seq<usize>,
    now: u128,
    token: usize,
    drained: Event,
)
    requires
        channel.open,
        reactor.waiters.contains_key(token),
        events.contains(token),
        run.tasks.contains_key(reactor.waiters[token].task_id),
        drained.woken() == all_woken(channel, reactor.woken(events, now)).ids,
    ensures
        ({
            let id = reactor.waiters[token].task_id;
            run.action(drained) == Action::Poll(id) || run.stepped(drained).ready.contains(id)
        }),
{
    law_reported_waiter_is_woken(reactor, events, now, token);
    lemma_woken_waker_is_ready(
        run,
        channel,
        reactor.woken(events, now),
        reactor.waiters[token],
        drained,
    );
}

/// When a deadline has come, the task whose waker waits for it is polled next or is ready, if it
/// is not done, once the reactor has woken whom it had to wake and the channel was drained.
pub proof fn law_due_task_becomes_ready<F>(
    run: RunModel<F>,
    reactor: ReactorModel<MyWaker>,
    channel: ChannelModel,
    events: Seq<usize>,
    now: u128,
    timer: Timer,
    drained: Event,
)
    requires
        channel.open,
        reactor.timers.contains(timer),
        timer.deadline <= now,
        reactor.waiters.contains_key(timer.token),
        run.tasks.contains_key(reactor.waiters[timer.token].task_id),
        drained.woken() == all_woken(channel, reactor.woken(events, now)).ids,
    ensures
        ({
            let id = reactor.waiters[timer.token].task_id;
            run.action(drained) == Action::Poll(id) || run.stepped(drained).ready.contains(id)
        }),
{
    law_due_timer_is_woken(reactor, events, now, timer);
    lemma_woken_waker_is_ready(
        run,
        channel,
        reactor.woken(events, now),
        reactor.waiters[timer.token],
        drained,
    );
}

/// The task of a waker among `wakers` is polled next or is ready, if it is not done, once the
/// channel was drained.
proof fn lemma_woken_waker_is_ready<F>(
    run: RunModel<F>,
    channel: ChannelModel,
    wakers: Seq<MyWaker>,
    waker: MyWaker,
    drained: Event,
)
    requires
        channel.open,
        wakers.contains(waker),
        run.tasks.contains_key(waker.task_id),
        drained.woken() == all_woken(channel, wakers).ids,
    ensures
        run.action(drained) == Action::Poll(waker.task_id) || run.stepped(drained).ready.contains(
            waker.task_id,
        ),
{
    let i = choose|i: int| 0 <= i < wakers.len() && wakers[i] == waker;
    law_wakes_are_kept_in_order(channel, wakers);
    assert(drained.woken()[channel.ids.len() + i] == waker.task_id);
    law_woken_task_is_ready(run, drained, waker.task_id);
}

/// A task has the future and the id that it was made with.
pub proof fn law_task_keeps_future_and_id<F>(future: F, id: usize, task: Task<F>)
    requires
        call_ensures(Task::<F>::new, (future, id), task),
    ensures
        task.future == future,
        task.id == id,
{
}

/// A new executor has no tasks.
pub proof fn law_new_executor_has_no_tasks<F>(executor: Executor<F>)
    requires
        call_ensures(Executor::<F>::new, (), executor),
    ensures
        executor.wf(),
        executor@.tasks.dom() == Set::<usize>::empty(),
        executor@.ready.len() == 0,
{
}

/// What spawning a task comes to: all the tasks that were there stay as they are, and one joins
/// them, with that future and with an id that none of them has. It is ready, behind all that were
/// ready before, which stay in their order.
pub proof fn law_spawned_task_joins<F>(executor: &mut Executor<F>, future: F)
    requires
        old(executor).wf(),
        call_ensures(Executor::<F>::spawn, (executor, future), ()),
    ensures
        final(executor).wf(),
        ({
            let before = old(executor)@;
            let after = final(executor)@;
            let id = after.ready.last();
            &&& after.ready.len() == before.ready.len() + 1
            &&& after.ready.drop_last() == before.ready
            &&& id == before.ready.len()
            &&& !before.tasks.contains_key(id)
            &&& after.tasks.contains_key(id)
            &&& after.tasks[id].future == future
            &&& after.tasks[id].id == id
            &&& after.tasks.remove(id) == before.tasks
        }),
{
    let before = old(executor)@;
    let after = final(executor)@;
    let id = before.ready.len() as usize;
    if before.ready.len() > usize::MAX {
        assert(before.ready[usize::MAX as int] == usize::MAX);
        assert(before.tasks.contains_key(id));
    }
    assert(after.ready.drop_last() =~= before.ready);
    assert(after.tasks.remove(id) =~= before.tasks);
}

/// The run that an executor begins holds all of its tasks, and every one of them is ready, in the
/// order in which they were spawned. Nothing has happened yet.
pub proof fn law_run_begins_with_all_tasks_ready<F>(executor: ExecutorModel<F>, id: usize)
    requires
        executor.numbered(),
    ensures
        ({
            let run = executor.begun();
            &&& run.tasks == executor.tasks
            &&& run.ready.len() == executor.tasks.dom().len()
            &&& executor.tasks.dom().finite()
            &&& forall|i: int| 0 <= i < run.ready.len() ==> #[trigger] run.ready[i] == i
            &&& executor.tasks.contains_key(id) <==> id < run.ready.len()
            &&& executor.tasks.contains_key(id) ==> run.ready.contains(id)
            &&& run.phase is Starting
        }),
{
    let ready = executor.ready;
    assert(ready.no_duplicates());
    assert forall|k: usize| #[trigger] executor.tasks.contains_key(k) implies ready.contains(k) by {
        assert(ready[k as int] == k);
    }
    assert forall|k: usize| #[trigger] ready.contains(k) implies executor.tasks.contains_key(k) by {
        let i = choose|i: int| 0 <= i < ready.len() && ready[i] == k;
        assert(ready[i] == i);
    }
    ready.unique_seq_to_set();
    assert(executor.tasks.dom() =~= ready.to_set());
}

/// What beginning a run comes to: it holds all the tasks of the executor, and every one of them is
/// ready, in the order in which they were spawned. Nothing has happened yet.
pub proof fn law_block_on<F>(executor: Executor<F>, run: Run<F>, id: usize)
    requires
        executor.wf(),
        call_ensures(Executor::<F>::block_on, (executor,), run),
    ensures
        run@.tasks == executor@.tasks,
        run@.ready.len() == executor@.tasks.dom().len(),
        forall|i: int| 0 <= i < run@.ready.len() ==> #[trigger] run@.ready[i] == i,
        executor@.tasks.contains_key(id) <==> id < run@.ready.len(),
        run@.phase is Starting,
{
    law_run_begins_with_all_tasks_ready(executor@, id);
}

/// An executor can be run whatever tasks were spawned on it, and tasks can always be spawned.
pub proof fn law_executor_can_be_run<F>(executor: Executor<F>, same: &mut Executor<F>, future: F)
    requires
        executor.wf(),
        old(same).wf(),
    ensures
        call_requires(Executor::<F>::block_on, (executor,)),
        call_requires(Executor::<F>::spawn, (same, future)),
{
}

/// What a step of a run comes to. A task that was polled and is done goes; all others stay as they
/// are. The ids that came out of the channel join those that were ready, at the end; ids of tasks
/// that are not there are passed over, and the others stay in their order. Where no task is left,
/// the run finishes. Otherwise the first that is ready is polled. Where none is, a look at the
/// reactor comes after a poll or at the start, and the channel is drained after the reactor had
/// its turn, and until it is empty; the reactor waits only when it is.
pub proof fn law_step_of_a_run<F>(run: RunModel<F>, event: Event, id: usize)
    requires
        run.expects(event),
    ensures
        ({
            let after = run.stepped(event);
            let tasks = after.tasks;
            let woken = match event {
                Event::Drained(ids) => ids@,
                _ => Seq::empty(),
            };
            let ready = (run.ready + woken).filter(|id: usize| tasks.contains_key(id));
            &&& tasks.contains_key(id) <==> run.tasks.contains_key(id) && !(event is Ready
                && run.phase == Phase::Polling(id))
            &&& tasks.contains_key(id) ==> tasks[id] == run.tasks[id]
            &&& match run.action(event) {
                Action::Poll(next) => {
                    &&& tasks.contains_key(next)
                    &&& ready == seq![next] + after.ready
                    &&& after.phase == Phase::Polling(next)
                },
                Action::Finish => {
                    &&& tasks.dom() == Set::<usize>::empty()
                    &&& after.ready.len() == 0
                    &&& after.phase is Finished
                },
                Action::Look => {
                    &&& tasks.dom() != Set::<usize>::empty()
                    &&& ready.len() == 0 && after.ready.len() == 0
                    &&& event is Started || event is Ready || event is Pending
                    &&& after.phase is Looking
                },
                Action::Drain => {
                    &&& tasks.dom() != Set::<usize>::empty()
                    &&& ready.len() == 0 && after.ready.len() == 0
                    &&& event is Looked || event is Waited || (event is Drained && woken.len() > 0)
                    &&& after.phase is Draining
                },
                Action::Wait => {
                    &&& tasks.dom() != Set::<usize>::empty()
                    &&& after.ready.len() == 0
                    &&& event is Drained && woken.len() == 0
                    &&& run.ready.filter(|id: usize| tasks.contains_key(id)).len() == 0
                    &&& after.phase is Waiting
                },
            }
        }),
{
    let after = run.stepped(event);
    let tasks = after.tasks;
    let ids = run.ready + event.woken();
    let ready = left(tasks, ids);
    reveal(left);
    assert(ready == ids.filter(|id: usize| tasks.contains_key(id)));
    assert(ready == run.ready_after(event));
    if run.action(event) is Poll {
        assert(ready =~= seq![ready[0]] + ready.drop_first());
        assert(ready.contains(ready[0]));
        lemma_left_contains(tasks, ids, ready[0]);
    }
    if run.action(event) is Wait {
        assert(ids =~= run.ready);
    }
    if run.action(event) is Finish && ready.len() > 0 {
        assert(ready.contains(ready[0]));
        lemma_left_contains(tasks, ids, ready[0]);
        assert(tasks.dom().contains(ready[0]));
    }
}

/// What carrying a run on by one step comes to, and what is to be done next. A task that is to be
/// polled is one that the run holds, and was ready or woken; none is polled exactly where none of
/// those is ready that are not done; and the run finishes exactly where no task is left.
pub proof fn law_step<F>(run: &mut Run<F>, event: Event, action: Action, id: usize)
    requires
        old(run)@.expects(event),
        call_ensures(Run::<F>::step, (run, event), action),
    ensures
        final(run)@ == old(run)@.stepped(event),
        action == old(run)@.action(event),
        ({
            let tasks = final(run)@.tasks;
            let woken = match event {
                Event::Drained(ids) => ids@,
                _ => Seq::empty(),
            };
            &&& tasks.contains_key(id) <==> old(run)@.tasks.contains_key(id) && !(event is Ready
                && old(run)@.phase == Phase::Polling(id))
            &&& tasks.contains_key(id) ==> tasks[id] == old(run)@.tasks[id]
            &&& action is Finish <==> tasks.dom() == Set::<usize>::empty()
            &&& action matches Action::Poll(next) ==> final(run)@.phase == Phase::Polling(next)
                && tasks.contains_key(next) && (old(run)@.ready.contains(next)
                || woken.contains(next))
            &&& tasks.contains_key(id) && (old(run)@.ready.contains(id) || woken.contains(id)) ==> {
                &&& action is Poll
                &&& action == Action::Poll(id) || final(run)@.ready.contains(id)
            }
        }),
{
    law_step_of_a_run(old(run)@, event, id);
    if let Action::Poll(next) = action {
        law_only_ready_tasks_are_polled(old(run)@, event, next);
    }
    if final(run)@.tasks.contains_key(id) && (old(run)@.ready.contains(id) || event.woken().contains(
        id,
    )) {
        law_ready_task_is_not_passed_over(old(run)@, event, id);
    }
}

/// A run can be carried on with every event that answers to what it asked for, whatever came out
/// of the channel.
pub proof fn law_run_takes_every_answer<F>(run: &mut Run<F>, event: Event)
    requires
        ({
            ||| old(run)@.phase is Starting && event is Started
            ||| old(run)@.phase is Polling && (event is Ready || event is Pending)
            ||| old(run)@.phase is Draining && event is Drained
            ||| old(run)@.phase is Looking && event is Looked
            ||| old(run)@.phase is Waiting && event is Waited
        }),
    ensures
        old(run)@.expects(event),
        call_requires(Run::<F>::step, (run, event)),
{
}

/// The future of a task is handed out exactly where the task is not done. Nothing else changes,
/// and the task goes on with what was made of its future.
pub proof fn law_future_of_a_task<F>(run: &mut Run<F>, id: usize, future: Option<&mut F>)
    requires
        call_ensures(Run::<F>::future_mut, (run, id), future),
    ensures
        future is Some <==> old(run)@.tasks.contains_key(id),
        future is None ==> final(run)@ == old(run)@,
        future matches Some(f) ==> {
            &&& *f == old(run)@.tasks[id].future
            &&& final(run)@.tasks.contains_key(id)
            &&& final(run)@.tasks[id].future == *final(f)
            &&& final(run)@.tasks[id].id == old(run)@.tasks[id].id
            &&& final(run)@.tasks.remove(id) == old(run)@.tasks.remove(id)
            &&& final(run)@.ready == old(run)@.ready
            &&& final(run)@.phase == old(run)@.phase
        },
{
    assert(final(run)@.tasks.remove(id) =~= old(run)@.tasks.remove(id));
}

/// The first round of a run: after the start, and as long as polls come to anything, every task
/// that was spawned is polled once, in the order of spawning. Where all of these polls come to
/// their end, the run is finished then; where not, the reactor has its turn.
pub proof fn law_every_spawned_task_is_polled<F>(executor: ExecutorModel<F>, events: Seq<Event>)
    requires
        executor.numbered(),
        0 < events.len() <= executor.ready.len() + 1,
        events[0] is Started,
        forall|i: int|
            0 < i < events.len() ==> (#[trigger] events[i]) is Ready || events[i] is Pending,
    ensures
        ({
            let run = executor.begun();
            let n = executor.tasks.dom().len();
            &&& run.allows(events)
            &&& events.len() <= n ==> run.followed(events).phase == Phase::Polling(
                (events.len() - 1) as usize,
            )
            &&& events.len() == n + 1 && (forall|i: int|
                0 < i < events.len() ==> (#[trigger] events[i]) is Ready)
                ==> run.followed(events).phase is Finished
            &&& events.len() == n + 1 && (exists|i: int|
                0 < i < events.len() && (#[trigger] events[i]) is Pending)
                ==> run.followed(events).phase is Looking
            &&& forall|id: usize| #[trigger]
                run.followed(events).tasks.contains_key(id) <==> id < n && !(id + 1
                    < events.len() && events[id + 1] is Ready)
        }),
    decreases events.len(),
{
    let run = executor.begun();
    law_run_begins_with_all_tasks_ready(executor, 0);
    let before = events.drop_last();
    let event = events.last();
    let reached = run.followed(before);
    let n = executor.tasks.dom().len();
    assert(events[events.len() - 1] == event);
    assert forall|i: int| 0 <= i < run.ready.len() implies run.tasks.contains_key(
        #[trigger] run.ready[i],
    ) by {
        assert(run.ready[i] == i);
    }
    if before.len() > 0 {
        assert(before[0] == events[0]);
        assert forall|i: int| 0 < i < before.len() implies (#[trigger] before[i]) is Ready
            || before[i] is Pending by {
            assert(before[i] == events[i]);
        }
        law_every_spawned_task_is_polled(executor, before);
        assert(run.ready[before.len() - 1] == before.len() - 1);
        assert(reached.phase == Phase::Polling((before.len() - 1) as usize));
    }
    assert(reached.expects(event));
    assert(run.allows(events)) by {
        if before.len() == 0 {
            assert(run.allows(before));
        }
    }
    assert forall|i: int| 0 <= i < events.len() implies {
        ||| (#[trigger] events[i]) is Started
        ||| events[i] is Ready
        ||| events[i] is Pending
    } by {}
    law_ready_tasks_are_polled_in_order(run, events);
    let after = run.followed(events);
    assert forall|id: usize| #[trigger] after.tasks.contains_key(id) <==> id < n && !(id + 1
        < events.len() && events[id + 1] is Ready) by {
        law_step_of_a_run(reached, event, id);
        if before.len() > 0 {
            assert(reached.tasks.contains_key(id) <==> id < n && !(id + 1 < before.len()
                && before[id + 1] is Ready));
            if id + 1 < before.len() {
                assert(before[id + 1] == events[id + 1]);
            }
            if id + 1 == before.len() {
                assert(events[id + 1] == event);
            }
        } else {
            assert(executor.tasks.contains_key(id) <==> id < executor.ready.len());
        }
    }
    if events.len() == n + 1 {
        law_step_of_a_run(reached, event, 0);
        if forall|i: int| 0 < i < events.len() ==> (#[trigger] events[i]) is Ready {
            assert forall|id: usize| !after.tasks.contains_key(id) by {
                if id < n {
                    assert(events[id + 1] is Ready);
                }
            }
            assert(after.tasks.dom() =~= Set::<usize>::empty());
        }
        if exists|i: int| 0 < i < events.len() && (#[trigger] events[i]) is Pending {
            let i = choose|i: int| 0 < i < events.len() && (#[trigger] events[i]) is Pending;
            let id = (i - 1) as usize;
            assert(run.ready[i - 1] == i - 1);
            assert(events[id + 1] is Pending);
            assert(after.tasks.contains_key(id));
            assert(after.tasks.dom().contains(id));
        }
    }
}

/// What is left of ids are those that belong to tasks, each as often and in the order in which it
/// stands there.
pub proof fn law_ids_of_tasks_are_left<F>(tasks: Map<usize, Task<F>>, ids: Seq<usize>)
    ensures
        left(tasks, ids) == ids.filter(|id: usize| tasks.contains_key(id)),
{
    reveal(left);
}

} // verus!
