//! The deadlines that the runtime is waiting for, in a binary min-heap.
use vstd::multiset::Multiset;
use vstd::prelude::*;
use vstd::relations::{sorted_by, total_ordering};

verus! {

/// One pending deadline: when it falls due, in nanoseconds on the runtime's clock, and the
/// token under which its waker waits.
#[derive(Clone, Copy, Debug, PartialEq, Eq, Structural)]
pub struct Timer {
    pub deadline: u128,
    pub token: usize,
}

/// The order in which timers leave the heap: by deadline, and among equal deadlines by token.
pub open spec fn timer_le(a: Timer, b: Timer) -> bool {
    a.deadline < b.deadline || (a.deadline == b.deadline && a.token <= b.token)
}

/// Whether `t` leaves the heap before, or together with, every timer of `m`.
pub open spec fn is_nearest(m: Multiset<Timer>, t: Timer) -> bool {
    m.contains(t) && forall|u: Timer| #[trigger] m.contains(u) ==> timer_le(t, u)
}

/// Whether the timers of `s` stand in the order in which they leave the heap.
pub open spec fn ascending(s: Seq<Timer>) -> bool {
    sorted_by(s, |a: Timer, b: Timer| timer_le(a, b))
}

/// The timers of `m`, one after the other, in the order in which they leave the heap.
pub open spec fn in_order(m: Multiset<Timer>) -> Seq<Timer> {
    choose|s: Seq<Timer>| #[trigger] ascending(s) && s.to_multiset() == m
}

/// The timer of `m` that leaves the heap next.
pub open spec fn nearest(m: Multiset<Timer>) -> Option<Timer> {
    if m.len() == 0 {
        None
    } else {
        Some(in_order(m)[0])
    }
}

/// The timers of `m` whose deadline has come at the time `now`.
pub open spec fn due(m: Multiset<Timer>, now: u128) -> Multiset<Timer> {
    m.filter(|t: Timer| t.deadline <= now)
}

/// The timers of `m` whose deadline is still to come at the time `now`.
pub open spec fn not_due(m: Multiset<Timer>, now: u128) -> Multiset<Timer> {
    m.filter(|t: Timer| t.deadline > now)
}

impl Timer {
    /// Whether this timer leaves the heap no later than `other`.
    pub fn le(&self, other: &Timer) -> (r: bool)
        ensures
            r == timer_le(*self, *other),
    {
        self.deadline < other.deadline || (self.deadline == other.deadline && self.token
            <= other.token)
    }
}

/// A binary min-heap of timers: the nearest one is read in constant time.
pub struct TimerHeap {
    items: Vec<Timer>,
}

impl View for TimerHeap {
    type V = Multiset<Timer>;

    closed spec fn view(&self) -> Multiset<Timer> {
        self.items@.to_multiset()
    }
}

/// The index of the parent of node `i`.
spec fn parent(i: int) -> int {
    (i - 1) / 2
}

/// Whether node `i` of `s` leaves no earlier than its parent.
spec fn in_place(s: Seq<Timer>, i: int) -> bool {
    timer_le(s[parent(i)], s[i])
}

/// Whether every node of `s` but the root is in place.
spec fn heap_ordered(s: Seq<Timer>) -> bool {
    forall|i: int| 0 < i < s.len() ==> #[trigger] in_place(s, i)
}

/// Whether `s` is a heap but for node `hole`, which may leave earlier than its parent.
spec fn heap_but_up(s: Seq<Timer>, hole: int) -> bool {
    &&& forall|i: int| 0 < i < s.len() && i != hole ==> #[trigger] in_place(s, i)
    &&& forall|i: int|
        0 < i < s.len() && hole > 0 && parent(i) == hole ==> timer_le(
            s[parent(hole)],
            #[trigger] s[i],
        )
}

/// Whether `s` is a heap but for node `hole`, which may leave later than its children.
spec fn heap_but_down(s: Seq<Timer>, hole: int) -> bool {
    &&& forall|i: int| 0 < i < s.len() && parent(i) != hole ==> #[trigger] in_place(s, i)
    &&& forall|i: int|
        0 < i < s.len() && hole > 0 && parent(i) == hole ==> timer_le(
            s[parent(hole)],
            #[trigger] s[i],
        )
}

/// The root of a heap leaves no later than any other node.
proof fn lemma_root_is_first(s: Seq<Timer>, i: int)
    requires
        heap_ordered(s),
        0 <= i < s.len(),
    ensures
        timer_le(s[0], s[i]),
    decreases i,
{
    if i > 0 {
        lemma_root_is_first(s, parent(i));
        assert(in_place(s, i));
    }
}

/// Exchanging two nodes keeps the timers.
proof fn lemma_exchange_keeps_timers(s: Seq<Timer>, i: int, j: int)
    requires
        0 <= i < s.len(),
        0 <= j < s.len(),
        i != j,
    ensures
        s.update(i, s[j]).update(j, s[i]).to_multiset() == s.to_multiset(),
{
    broadcast use vstd::multiset::group_multiset_axioms;
    broadcast use vstd::multiset::group_multiset_properties;

    vstd::seq_lib::to_multiset_update(s, i, s[j]);
    vstd::seq_lib::to_multiset_update(s.update(i, s[j]), j, s[i]);
    vstd::seq_lib::to_multiset_contains(s, s[i]);
    vstd::seq_lib::to_multiset_contains(s, s[j]);
    assert(s.contains(s[i]) && s.contains(s[j]));
    assert(s.update(i, s[j]).update(j, s[i]).to_multiset() =~= s.to_multiset());
}

/// The timers leave the heap in a total order.
proof fn lemma_timer_le_is_total()
    ensures
        total_ordering(|a: Timer, b: Timer| timer_le(a, b)),
{
}

/// What `in_order` names is there for every collection of timers, and is the only sequence in
/// order with those timers.
pub proof fn lemma_in_order(m: Multiset<Timer>)
    ensures
        ascending(in_order(m)),
        in_order(m).to_multiset() == m,
        forall|s: Seq<Timer>| #[trigger] ascending(s) && s.to_multiset() == m ==> s == in_order(m),
{
    let le = |a: Timer, b: Timer| timer_le(a, b);
    lemma_timer_le_is_total();
    let some = lemma_some_sequence(m);
    some.lemma_sort_by_ensures(le);
    assert(ascending(some.sort_by(le)) && some.sort_by(le).to_multiset() == m);
    assert forall|s: Seq<Timer>| #[trigger] ascending(s) && s.to_multiset() == m implies s
        == in_order(m) by {
        vstd::seq_lib::lemma_sorted_unique(s, in_order(m), le);
    }
}

/// What `nearest` names leaves before, or together with, every other timer, and is the only timer
/// that does.
pub proof fn lemma_nearest(m: Multiset<Timer>)
    ensures
        nearest(m) matches Some(t) ==> is_nearest(m, t),
        nearest(m) is None ==> m == Multiset::<Timer>::empty(),
        forall|t: Timer| #[trigger] is_nearest(m, t) ==> nearest(m) == Some(t),
{
    broadcast use vstd::multiset::group_multiset_axioms;

    lemma_in_order(m);
    let s = in_order(m);
    vstd::seq_lib::to_multiset_len(s);
    if m.len() == 0 {
        vstd::multiset::lemma_multiset_empty_len(m);
    } else {
        let le = |a: Timer, b: Timer| timer_le(a, b);
        assert(s.contains(s[0]));
        vstd::seq_lib::to_multiset_contains(s, s[0]);
        assert forall|u: Timer| #[trigger] m.contains(u) implies timer_le(s[0], u) by {
            vstd::seq_lib::to_multiset_contains(s, u);
            let i = choose|i: int| 0 <= i < s.len() && s[i] == u;
            if i > 0 {
                assert(le(s[0], s[i]));
            }
        }
        assert(is_nearest(m, s[0]));
    }
}

/// Every collection of timers can be written down as a sequence.
proof fn lemma_some_sequence(m: Multiset<Timer>) -> (s: Seq<Timer>)
    ensures
        s.to_multiset() == m,
    decreases m.len(),
{
    broadcast use vstd::multiset::group_multiset_axioms;

    if m.len() == 0 {
        let s = Seq::<Timer>::empty();
        vstd::multiset::lemma_multiset_empty_len(m);
        vstd::seq_lib::to_multiset_len(s);
        vstd::multiset::lemma_multiset_empty_len(s.to_multiset());
        s
    } else {
        let t = m.choose();
        let rest = lemma_some_sequence(m.remove(t));
        vstd::seq_lib::to_multiset_build(rest, t);
        assert(m.remove(t).insert(t) =~= m);
        rest.push(t)
    }
}

impl TimerHeap {
    /// Whether every timer leaves no earlier than its parent in the tree.
    pub closed spec fn wf(&self) -> bool {
        heap_ordered(self.items@)
    }

    /// A heap without timers.
    pub fn new() -> (heap: TimerHeap)
        ensures
            heap.wf(),
            heap@ == Multiset::<Timer>::empty(),
    {
        let heap = TimerHeap { items: Vec::new() };
        proof {
            vstd::seq_lib::to_multiset_len(heap.items@);
            vstd::multiset::lemma_multiset_empty_len(heap@);
        }
        heap
    }

    /// The timer that leaves next.
    pub fn peek(&self) -> (next: Option<Timer>)
        requires
            self.wf(),
        ensures
            next == nearest(self@),
    {
        proof {
            lemma_nearest(self@);
        }
        if self.items.len() == 0 {
            proof {
                vstd::seq_lib::to_multiset_len(self.items@);
                vstd::multiset::lemma_multiset_empty_len(self@);
            }
            None
        } else {
            proof {
                self.lemma_root_is_nearest();
            }
            Some(self.items[0])
        }
    }

    proof fn lemma_root_is_nearest(&self)
        requires
            self.wf(),
            self.items@.len() > 0,
        ensures
            is_nearest(self@, self.items@[0]),
    {
        let s = self.items@;
        vstd::seq_lib::to_multiset_contains(s, s[0]);
        assert(s.contains(s[0]));
        assert forall|u: Timer| #[trigger] self@.contains(u) implies timer_le(s[0], u) by {
            vstd::seq_lib::to_multiset_contains(s, u);
            let i = choose|i: int| 0 <= i < s.len() && s[i] == u;
            lemma_root_is_first(s, i);
        }
    }

    /// Exchanges the nodes `i` and `j`.
    fn exchange(&mut self, i: usize, j: usize)
        requires
            i < old(self).items@.len(),
            j < old(self).items@.len(),
            i != j,
        ensures
            final(self)@ == old(self)@,
            final(self).items@ == old(self).items@.update(
                i as int,
                old(self).items@[j as int],
            ).update(j as int, old(self).items@[i as int]),
    {
        let a = self.items[i];
        let b = self.items[j];
        self.items.set(i, b);
        self.items.set(j, a);
        proof {
            lemma_exchange_keeps_timers(old(self).items@, i as int, j as int);
        }
    }

    /// Adds a timer.
    pub fn push(&mut self, timer: Timer)
        requires
            old(self).wf(),
        ensures
            final(self).wf(),
            final(self)@ == old(self)@.insert(timer),
    {
        let mut hole: usize = self.items.len();
        self.items.push(timer);
        proof {
            vstd::seq_lib::to_multiset_build(old(self).items@, timer);
            let s = self.items@;
            assert forall|i: int| 0 < i < s.len() && i != hole implies #[trigger] in_place(s, i)
            by {
                assert(in_place(old(self).items@, i));
            }
        }
        while hole > 0
            invariant
                hole < self.items@.len(),
                heap_but_up(self.items@, hole as int),
                self@ == old(self)@.insert(timer),
            ensures
                heap_ordered(self.items@),
                self@ == old(self)@.insert(timer),
            decreases hole,
        {
            let up: usize = (hole - 1) / 2;
            let ghost before = self.items@;
            if self.items[up].le(&self.items[hole]) {
                assert(in_place(before, hole as int));
                break;
            }
            self.exchange(hole, up);
            proof {
                let s = self.items@;
                assert forall|i: int| 0 < i < s.len() && i != up implies #[trigger] in_place(s, i)
                by {
                    if i != hole {
                        assert(in_place(before, i));
                    }
                    if up > 0 {
                        assert(in_place(before, up as int));
                    }
                }
                assert forall|i: int|
                    0 < i < s.len() && up > 0 && parent(i) == up implies timer_le(
                    s[parent(up as int)],
                    #[trigger] s[i],
                ) by {
                    assert(in_place(before, up as int));
                    if i != hole {
                        assert(in_place(before, i));
                    }
                }
            }
            hole = up;
        }
    }

    /// Takes the timer that leaves next.
    pub fn pop(&mut self) -> (next: Option<Timer>)
        requires
            old(self).wf(),
        ensures
            final(self).wf(),
            next == nearest(old(self)@),
            final(self)@ == match next {
                Some(t) => old(self)@.remove(t),
                None => old(self)@,
            },
    {
        proof {
            lemma_nearest(self@);
        }
        let n: usize = self.items.len();
        if n == 0 {
            proof {
                vstd::seq_lib::to_multiset_len(self.items@);
                vstd::multiset::lemma_multiset_empty_len(self@);
            }
            return None;
        }
        proof {
            self.lemma_root_is_nearest();
        }
        let ghost whole = self.items@;
        let top = self.items[0];
        let last = self.items[n - 1];
        self.items.set(0, last);
        self.items.truncate(n - 1);
        proof {
            let s = self.items@;
            if n > 1 {
                assert(s =~= whole.remove(n - 1).update(0, last));
                vstd::seq_lib::to_multiset_remove(whole, n - 1);
                vstd::seq_lib::to_multiset_update(whole.remove(n - 1), 0, last);
                vstd::seq_lib::to_multiset_contains(whole, last);
                assert(whole.contains(whole[n - 1]));
                broadcast use vstd::multiset::group_multiset_axioms;
                assert(s.to_multiset() =~= whole.to_multiset().remove(top));
            } else {
                assert(s =~= whole.remove(0));
                vstd::seq_lib::to_multiset_remove(whole, 0);
            }
            assert forall|i: int| 0 < i < s.len() && parent(i) != 0 implies #[trigger] in_place(s, i)
            by {
                assert(in_place(whole, i));
            }
        }
        let mut hole: usize = 0;
        let len: usize = n - 1;
        loop
            invariant
                len == self.items@.len(),
                hole < len || len == 0,
                heap_but_down(self.items@, hole as int),
                self@ == old(self)@.remove(top),
            ensures
                heap_ordered(self.items@),
                self@ == old(self)@.remove(top),
            decreases len - hole,
        {
            if hole >= len || len - hole <= hole + 1 {
                proof {
                    let s = self.items@;
                    assert forall|i: int| 0 < i < s.len() implies #[trigger] in_place(s, i)
                    by {
                        assert(parent(i) != hole);
                    }
                }
                break;
            }
            let left: usize = 2 * hole + 1;
            let ghost before = self.items@;
            let least: usize = if left + 1 < len && self.items[left + 1].le(&self.items[left]) {
                left + 1
            } else {
                left
            };
            if self.items[hole].le(&self.items[least]) {
                proof {
                    assert forall|i: int| 0 < i < before.len() implies #[trigger] in_place(before, i)
                    by {
                        if parent(i) == hole {
                            assert(i == left || i == left + 1);
                        }
                    }
                }
                break;
            }
            self.exchange(hole, least);
            proof {
                let s = self.items@;
                assert forall|i: int| 0 < i < s.len() && parent(i) != least implies #[trigger] in_place(
                    s,
                    i,
                )
                by {
                    if parent(i) == hole {
                        assert(i == left || i == left + 1);
                    } else if i == hole {
                        assert(timer_le(before[parent(hole as int)], before[least as int]));
                    } else {
                        assert(in_place(before, i));
                    }
                }
                assert forall|i: int|
                    0 < i < s.len() && parent(i) == least implies timer_le(
                    s[parent(least as int)],
                    #[trigger] s[i],
                ) by {
                    assert(in_place(before, i));
                }
            }
            hole = least;
        }
        Some(top)
    }
}

/// One timer leaves no later than another exactly if its deadline is nearer, or if the deadlines
/// are the same and its token is not the higher one.
pub proof fn law_timers_are_ordered_by_deadline_and_token(a: Timer, b: Timer, le: bool)
    requires
        call_ensures(Timer::le, (&a, &b), le),
    ensures
        a.deadline < b.deadline ==> le,
        a.deadline > b.deadline ==> !le,
        a.deadline == b.deadline ==> (le <==> a.token <= b.token),
{
}

/// A new heap holds no timer.
pub proof fn law_new_heap_is_empty(heap: TimerHeap, t: Timer)
    requires
        call_ensures(TimerHeap::new, (), heap),
    ensures
        heap.wf(),
        heap@.count(t) == 0,
{
    broadcast use vstd::multiset::group_multiset_axioms;

}

/// A timer that is added is there once more, and every other timer as often as before.
pub proof fn law_added_timer_is_there(heap: &mut TimerHeap, timer: Timer, other: Timer)
    requires
        call_ensures(TimerHeap::push, (heap, timer), ()),
    ensures
        final(heap).wf(),
        final(heap)@.count(timer) == old(heap)@.count(timer) + 1,
        other != timer ==> final(heap)@.count(other) == old(heap)@.count(other),
{
    broadcast use vstd::multiset::group_multiset_axioms;

}

/// The timer that is read as the next one is in the heap, and no timer there has a nearer
/// deadline, or the same deadline and a lower token. None is read exactly where there is none.
pub proof fn law_next_timer_is_the_nearest(heap: &TimerHeap, next: Option<Timer>, other: Timer)
    requires
        call_ensures(TimerHeap::peek, (heap,), next),
    ensures
        next matches Some(t) ==> heap@.count(t) > 0,
        heap@.count(other) > 0 ==> {
            &&& next is Some
            &&& next.unwrap().deadline <= other.deadline
            &&& next.unwrap().deadline == other.deadline ==> next.unwrap().token <= other.token
        },
{
    broadcast use vstd::multiset::group_multiset_axioms;

    lemma_nearest(heap@);
    if heap@.count(other) > 0 {
        assert(heap@.contains(other));
    }
}

/// The timer that is taken was in the heap, and no timer there has a nearer deadline, or the same
/// deadline and a lower token. It is there once less, and every other timer as often as before.
/// None is taken exactly where there is none.
pub proof fn law_nearest_timer_is_taken(heap: &mut TimerHeap, next: Option<Timer>, other: Timer)
    requires
        call_ensures(TimerHeap::pop, (heap,), next),
    ensures
        final(heap).wf(),
        next matches Some(t) ==> old(heap)@.count(t) > 0 && final(heap)@.count(t) + 1 == old(
            heap,
        )@.count(t),
        next != Some(other) ==> final(heap)@.count(other) == old(heap)@.count(other),
        old(heap)@.count(other) > 0 ==> {
            &&& next is Some
            &&& next.unwrap().deadline <= other.deadline
            &&& next.unwrap().deadline == other.deadline ==> next.unwrap().token <= other.token
        },
{
    broadcast use vstd::multiset::group_multiset_axioms;

    lemma_nearest(old(heap)@);
    if old(heap)@.count(other) > 0 {
        assert(old(heap)@.contains(other));
    }
}

/// Timers that are taken one after the other come out with the nearest deadline first, and with
/// the lowest token first among equal deadlines.
pub proof fn law_timers_come_out_in_order(
    heap: &mut TimerHeap,
    same: &mut TimerHeap,
    first: Timer,
    second: Timer,
)
    requires
        call_ensures(TimerHeap::pop, (heap,), Some(first)),
        final(heap)@ == old(same)@,
        call_ensures(TimerHeap::pop, (same,), Some(second)),
    ensures
        first.deadline <= second.deadline,
        first.deadline == second.deadline ==> first.token <= second.token,
{
    broadcast use vstd::multiset::group_multiset_axioms;

    law_nearest_timer_is_taken(heap, Some(first), second);
    law_nearest_timer_is_taken(same, Some(second), second);
}

/// Every timer is either due or not: it is due from its deadline on, and as often as it is there.
pub proof fn law_timers_are_due_from_their_deadline(m: Multiset<Timer>, now: u128, t: Timer)
    ensures
        t.deadline <= now ==> due(m, now).count(t) == m.count(t) && not_due(m, now).count(t) == 0,
        t.deadline > now ==> due(m, now).count(t) == 0 && not_due(m, now).count(t) == m.count(t),
{
    broadcast use vstd::multiset::group_multiset_axioms;

}

/// Timers in order are the timers, each as often as it was there, with the nearest deadline first
/// and with the lowest token first among equal deadlines.
pub proof fn law_timers_in_order(m: Multiset<Timer>, i: int, j: int)
    ensures
        in_order(m).to_multiset() == m,
        0 <= i < j < in_order(m).len() ==> {
            &&& in_order(m)[i].deadline <= in_order(m)[j].deadline
            &&& in_order(m)[i].deadline == in_order(m)[j].deadline ==> in_order(m)[i].token
                <= in_order(m)[j].token
        },
{
    lemma_in_order(m);
    let le = |a: Timer, b: Timer| timer_le(a, b);
    if 0 <= i < j < in_order(m).len() {
        assert(le(in_order(m)[i], in_order(m)[j]));
    }
}

} // verus!
