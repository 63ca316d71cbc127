use vstd::prelude::*;

use crate::control::Id;
use core::hash::{BuildHasher, Hash};
use keyed_priority_queue::KeyedPriorityQueue;

verus! {

#[verifier::external_type_specification]
#[verifier::external_body]
#[verifier::reject_recursive_types(TKey)]
#[verifier::reject_recursive_types(TPriority)]
#[verifier::reject_recursive_types(S)]
pub struct ExKeyedPriorityQueue<TKey: Hash + Eq, TPriority: Ord, S: BuildHasher>(
    KeyedPriorityQueue<TKey, TPriority, S>,
);

/// The queue of scheduled events: event keys and their priorities.
type EventQueue = KeyedPriorityQueue<u64, (u64, u64)>;

/// What a queue holds: each key with its priority.
pub uninterp spec fn queue_entries(q: KeyedPriorityQueue<u64, (u64, u64)>) -> Map<u64, (u64, u64)>;

/// `a <= b` in the order of pairs (the first items decide, then the second ones).
pub open spec fn pair_le(a: (u64, u64), b: (u64, u64)) -> bool {
    a.0 < b.0 || (a.0 == b.0 && a.1 <= b.1)
}

/// `p` is the priority of the key `k` of the queue `m`, and no key has a greater one.
pub open spec fn is_max_entry(m: Map<u64, (u64, u64)>, k: u64, p: (u64, u64)) -> bool {
    &&& m.dom().contains(k)
    &&& m[k] == p
    &&& forall|k2: u64| m.dom().contains(k2) ==> pair_le(#[trigger] m[k2], p)
}

/// `KeyedPriorityQueue::new`: an empty queue.
#[verifier::external_body]
fn queue_new() -> (queue: EventQueue)
    ensures
        queue_entries(queue).dom().is_empty(),
{
    KeyedPriorityQueue::new()
}

/// `KeyedPriorityQueue::push`: the key gets the priority, and the priority it had before, if any,
/// is returned.
#[verifier::external_body]
fn queue_push(q: &mut EventQueue, key: u64, priority: (u64, u64)) -> (prev: Option<(u64, u64)>)
    ensures
        queue_entries(*final(q)) == queue_entries(*old(q)).insert(key, priority),
        prev == (if queue_entries(*old(q)).dom().contains(key) {
            Some(queue_entries(*old(q))[key])
        } else {
            None
        }),
{
    q.push(key, priority)
}

/// `KeyedPriorityQueue::peek`: a key of the queue with the greatest priority, if the queue is not
/// empty. Which key comes out among equal priorities is not stated.
#[verifier::external_body]
fn queue_peek(q: &EventQueue) -> (top: Option<(u64, (u64, u64))>)
    ensures
        match top {
            None => queue_entries(*q).dom().is_empty(),
            Some((k, p)) => is_max_entry(queue_entries(*q), k, p),
        },
{
    q.peek().map(|(k, p)| (*k, *p))
}

/// `KeyedPriorityQueue::pop`: removes and returns a key with the greatest priority, if the queue
/// is not empty. Which key comes out among equal priorities is not stated.
#[verifier::external_body]
fn queue_pop(q: &mut EventQueue) -> (top: Option<(u64, (u64, u64))>)
    ensures
        match top {
            None => queue_entries(*old(q)).dom().is_empty() && queue_entries(*final(q)) == queue_entries(
                *old(q),
            ),
            Some((k, p)) => is_max_entry(queue_entries(*old(q)), k, p) && queue_entries(*final(q))
                == queue_entries(*old(q)).remove(k),
        },
{
    q.pop()
}

/// `KeyedPriorityQueue::remove`: removes the key, returning its priority if it was there.
#[verifier::external_body]
fn queue_remove(q: &mut EventQueue, key: u64) -> (prev: Option<(u64, u64)>)
    ensures
        queue_entries(*final(q)) == queue_entries(*old(q)).remove(key),
        prev == (if queue_entries(*old(q)).dom().contains(key) {
            Some(queue_entries(*old(q))[key])
        } else {
            None
        }),
{
    q.remove(&key)
}

/// An event scheduled for a control.
pub struct ScheduledEvent<E> {
    /// The key it was scheduled with, which cancels it.
    pub key: u64,
    /// When it is due.
    pub time: u64,
    /// The control it is sent to.
    pub id: Id,
    pub event: E,
}

/// The priority of an event in the queue: the earlier it is due, and then the earlier it was
/// scheduled, the greater.
pub open spec fn priority_of(time: u64, key: u64) -> (u64, u64) {
    ((u64::MAX - time) as u64, (u64::MAX - key) as u64)
}

/// `a` comes before `b`: it is due earlier, or at the same time and was scheduled earlier.
pub open spec fn due_before<E>(a: ScheduledEvent<E>, b: ScheduledEvent<E>) -> bool {
    a.time < b.time || (a.time == b.time && a.key <= b.key)
}

/// `e` is the pending event that comes first.
pub open spec fn is_first<E>(pending: Map<u64, ScheduledEvent<E>>, e: ScheduledEvent<E>) -> bool {
    &&& pending.dom().contains(e.key)
    &&& pending[e.key] == e
    &&& forall|k: u64| pending.dom().contains(k) ==> due_before(e, #[trigger] pending[k])
}

/// What `pop_due` found.
pub enum Due<E> {
    /// This event is due; it was taken out of the schedule.
    Event(ScheduledEvent<E>),
    /// No event is due; the next one is due at this time.
    Wait(u64),
    /// Nothing is scheduled.
    Empty,
}

/// Events sent to controls at a given time, in the order they become due. Time is any
/// increasing count (such as milliseconds since the program started).
pub struct Scheduler<E> {
    queue: EventQueue,
    events: Vec<ScheduledEvent<E>>,
    next_key: u64,
}

/// The position of the event with the key `k` among `s`.
pub open spec fn position_of_key<E>(s: Seq<ScheduledEvent<E>>, k: u64) -> int {
    choose|i: int| 0 <= i < s.len() && (#[trigger] s[i]).key == k
}

/// No two events of `s` have the same key.
pub open spec fn unique_keys<E>(s: Seq<ScheduledEvent<E>>) -> bool {
    forall|i: int, j: int| 0 <= i < j < s.len() ==> (#[trigger] s[i]).key != (#[trigger] s[j]).key
}

/// With unique keys, the event with the key `k` is the one at `i`.
proof fn lemma_position_unique<E>(s: Seq<ScheduledEvent<E>>, k: u64, i: int)
    requires
        unique_keys(s),
        0 <= i < s.len(),
        s[i].key == k,
    ensures
        has_key(s, k),
        position_of_key(s, k) == i,
{
    assert(has_key(s, k));
    let j = position_of_key(s, k);
    if j < i {
        assert(s[j].key != s[i].key);
    } else if j > i {
        assert(s[i].key != s[j].key);
    }
}

/// Taking the event with the key `key` out of `s0` (or nothing, where there is none) leaves
/// every other event where the keys find it.
proof fn lemma_after_take<E>(s0: Seq<ScheduledEvent<E>>, s1: Seq<ScheduledEvent<E>>, key: u64)
    requires
        unique_keys(s0),
        unique_keys(s1),
        (has_key(s0, key) && s1 == s0.remove(position_of_key(s0, key))) || (!has_key(s0, key) && s1
            == s0),
    ensures
        !has_key(s1, key),
        forall|k: u64|
            k != key ==> (#[trigger] has_key(s1, k)) == has_key(s0, k) && (has_key(s0, k) ==> s1[position_of_key(s1, k)]
                == s0[position_of_key(s0, k)]),
{
    if has_key(s0, key) {
        let r = position_of_key(s0, key);
        assert forall|k: u64|
            k != key implies (#[trigger] has_key(s1, k)) == has_key(s0, k) && (has_key(s0, k)
                ==> s1[position_of_key(s1, k)] == s0[position_of_key(s0, k)]) by {
            if has_key(s0, k) {
                let j = position_of_key(s0, k);
                assert(j != r);
                let j1 = if j < r { j } else { j - 1 };
                assert(s1[j1] == s0[j]);
                lemma_position_unique(s1, k, j1);
            }
            if has_key(s1, k) {
                let j1 = position_of_key(s1, k);
                let j = if j1 < r { j1 } else { j1 + 1 };
                assert(s0[j] == s1[j1]);
            }
        }
        if has_key(s1, key) {
            let j1 = position_of_key(s1, key);
            let j = if j1 < r { j1 } else { j1 + 1 };
            assert(s0[j] == s1[j1]);
            lemma_position_unique(s0, key, j);
        }
    }
}

/// Some event of `s` has the key `k`.
pub open spec fn has_key<E>(s: Seq<ScheduledEvent<E>>, k: u64) -> bool {
    exists|i: int| 0 <= i < s.len() && (#[trigger] s[i]).key == k
}

impl<E> Scheduler<E> {
    /// The events waiting, by key.
    pub closed spec fn pending(&self) -> Map<u64, ScheduledEvent<E>> {
        Map::new(
            |k: u64| has_key(self.events@, k),
            |k: u64| self.events@[position_of_key(self.events@, k)],
        )
    }

    /// The key the next scheduled event gets.
    pub closed spec fn next_key(&self) -> u64 {
        self.next_key
    }

    /// The queue holds the key of each event with its priority, and no two events share a key.
    pub closed spec fn wf(&self) -> bool {
        let s = self.events@;
        &&& unique_keys(s)
        &&& forall|k: u64| #[trigger] queue_entries(self.queue).dom().contains(k) <==> has_key(s, k)
        &&& forall|i: int|
            0 <= i < s.len() ==> queue_entries(self.queue)[(#[trigger] s[i]).key] == priority_of(
                s[i].time,
                s[i].key,
            )
    }

    /// An empty schedule.
    pub fn new() -> (s: Scheduler<E>)
        ensures
            s.wf(),
            s.pending() == Map::<u64, ScheduledEvent<E>>::empty(),
            s.next_key() == 0,
    {
        let s = Scheduler { queue: queue_new(), events: Vec::new(), next_key: 0 };
        assert(s.pending() =~= Map::<u64, ScheduledEvent<E>>::empty());
        s
    }

    /// Take the event with the key `key` out of the list, if there is one.
    fn take_event(&mut self, key: u64) -> (taken: Option<ScheduledEvent<E>>)
        requires
            unique_keys(old(self).events@),
        ensures
            final(self).queue == old(self).queue,
            final(self).next_key == old(self).next_key,
            unique_keys(final(self).events@),
            match taken {
                Some(e) => {
                    let i = position_of_key(old(self).events@, key);
                    &&& has_key(old(self).events@, key)
                    &&& e == old(self).events@[i]
                    &&& final(self).events@ == old(self).events@.remove(i)
                },
                None => !has_key(old(self).events@, key) && final(self).events@ == old(self).events@,
            },
    {
        let ghost s = self.events@;
        let mut i: usize = 0;
        while i < self.events.len()
            invariant
                s == self.events@,
                s == old(self).events@,
                self.queue == old(self).queue,
                self.next_key == old(self).next_key,
                unique_keys(s),
                i <= s.len(),
                forall|j: int| 0 <= j < i ==> (#[trigger] s[j]).key != key,
            decreases s.len() - i,
        {
            if self.events[i].key == key {
                proof {
                    lemma_position_unique(s, key, i as int);
                }
                let e = self.events.remove(i);
                proof {
                    assert forall|a: int, b: int|
                        0 <= a < b < self.events@.len() implies (#[trigger] self.events@[a]).key
                        != (#[trigger] self.events@[b]).key by {
                        let oa = if a < i { a } else { a + 1 };
                        let ob = if b < i { b } else { b + 1 };
                        assert(s[oa].key != s[ob].key);
                    }
                }
                return Some(e);
            }
            i = i + 1;
        }
        None
    }

    /// Schedule `event` for the control `id` at `time`. Returns the key that cancels it: the
    /// keys go up by one with each event (wrapping around), and an event still waiting with the
    /// same key is replaced.
    pub fn schedule(&mut self, id: Id, event: E, time: u64) -> (key: u64)
        requires
            old(self).wf(),
        ensures
            final(self).wf(),
            key == old(self).next_key(),
            final(self).next_key() == old(self).next_key().wrapping_add(1),
            final(self).pending() == old(self).pending().insert(
                key,
                ScheduledEvent { key, time, id, event },
            ),
    {
        let key = self.next_key;
        self.next_key = self.next_key.wrapping_add(1);
        let ghost s0 = self.events@;
        let ghost q0 = queue_entries(self.queue);
        queue_push(&mut self.queue, key, (u64::MAX - time, u64::MAX - key));
        let taken = self.take_event(key);
        let ghost s1 = self.events@;
        self.events.push(ScheduledEvent { key, time, id, event });
        proof {
            let s2 = self.events@;
            let e = ScheduledEvent { key, time, id, event };
            lemma_after_take(s0, s1, key);
            assert forall|a: int, b: int| 0 <= a < b < s2.len() implies (#[trigger] s2[a]).key != (
            #[trigger] s2[b]).key by {
                if b == s1.len() {
                    assert(s2[a] == s1[a]);
                }
            }
            lemma_position_unique(s2, key, s1.len() as int);
            assert forall|k: u64| k != key && has_key(s1, k) implies s2[position_of_key(s2, k)] == s1[position_of_key(s1, k)] && has_key(s2, k) by {
                let j = position_of_key(s1, k);
                assert(s2[j] == s1[j]);
                lemma_position_unique(s2, k, j);
            }
            assert forall|k: u64| has_key(s2, k) implies k == key || has_key(s1, k) by {
                let j = position_of_key(s2, k);
                if j < s1.len() {
                    assert(s2[j] == s1[j]);
                }
            }
            assert(self.pending() =~= old(self).pending().insert(key, e));
            assert forall|i: int| 0 <= i < s2.len() implies queue_entries(self.queue)[(#[trigger] s2[i]).key]
                == priority_of(s2[i].time, s2[i].key) by {
                if i < s1.len() {
                    assert(s2[i] == s1[i]);
                    let k = s1[i].key;
                    lemma_position_unique(s1, k, i);
                    let j0 = position_of_key(s0, k);
                    assert(s0[j0] == s1[i]);
                }
            }
            assert forall|k: u64| #[trigger] queue_entries(self.queue).dom().contains(k) <==> has_key(s2, k) by {
                if k != key && has_key(s0, k) {
                    assert(has_key(s1, k));
                }
                if k != key && has_key(s1, k) {
                    assert(has_key(s0, k));
                }
            }
        }
        key
    }

    /// Cancel the event scheduled with the key `key`, if it is still waiting.
    pub fn cancel(&mut self, key: u64)
        requires
            old(self).wf(),
        ensures
            final(self).wf(),
            final(self).next_key() == old(self).next_key(),
            final(self).pending() == old(self).pending().remove(key),
    {
        let ghost s0 = self.events@;
        queue_remove(&mut self.queue, key);
        let _ = self.take_event(key);
        proof {
            let s1 = self.events@;
            lemma_after_take(s0, s1, key);
            assert(self.pending() =~= old(self).pending().remove(key));
            assert forall|i: int| 0 <= i < s1.len() implies queue_entries(self.queue)[(#[trigger] s1[i]).key]
                == priority_of(s1[i].time, s1[i].key) by {
                let k = s1[i].key;
                lemma_position_unique(s1, k, i);
                let j0 = position_of_key(s0, k);
                assert(s0[j0] == s1[i]);
            }
        }
    }

    /// Take out the event that comes first, if it is due at `now`. Otherwise say when the first
    /// event is due, or that nothing is scheduled.
    pub fn pop_due(&mut self, now: u64) -> (due: Due<E>)
        requires
            old(self).wf(),
        ensures
            final(self).wf(),
            final(self).next_key() == old(self).next_key(),
            match due {
                Due::Event(e) => {
                    &&& is_first(old(self).pending(), e)
                    &&& e.time <= now
                    &&& final(self).pending() == old(self).pending().remove(e.key)
                },
                Due::Wait(t) => {
                    &&& exists|e: ScheduledEvent<E>| is_first(old(self).pending(), e) && e.time == t
                    &&& now < t
                    &&& final(self).pending() == old(self).pending()
                },
                Due::Empty => {
                    &&& old(self).pending().dom().is_empty()
                    &&& final(self).pending() == old(self).pending()
                },
            },
    {
        let ghost s0 = self.events@;
        let ghost m = queue_entries(self.queue);
        match queue_peek(&self.queue) {
            None => {
                assert(old(self).pending().dom() =~= Set::<u64>::empty());
                Due::Empty
            },
            Some((k, p)) => {
                let ghost i = position_of_key(s0, k);
                let ghost e = s0[i];
                proof {
                    assert(m.dom().contains(k));
                    assert(has_key(s0, k));
                    assert(e.key == k);
                    assert(m[k] == priority_of(e.time, e.key));
                    assert forall|k2: u64| old(self).pending().dom().contains(k2) implies due_before(
                        e,
                        #[trigger] old(self).pending()[k2],
                    ) by {
                        let j = position_of_key(s0, k2);
                        assert(s0[j].key == k2);
                        assert(m.dom().contains(k2));
                        assert(m[k2] == priority_of(s0[j].time, s0[j].key));
                        assert(pair_le(m[k2], p));
                    }
                    assert(is_first(old(self).pending(), e));
                }
                let time = u64::MAX - p.0;
                if now >= time {
                    let popped = queue_pop(&mut self.queue);
                    proof {
                        match popped {
                            Some((k2, p2)) => {
                                assert(pair_le(p2, p) && pair_le(p, p2));
                                let j = position_of_key(s0, k2);
                                assert(m.dom().contains(k2));
                                assert(m[k2] == priority_of(s0[j].time, s0[j].key));
                                assert(s0[j].key == k2);
                                assert(k2 == k);
                            },
                            None => {
                                assert(m.dom().contains(k));
                            },
                        }
                    }
                    let taken = self.take_event(k);
                    match taken {
                        Some(ev) => {
                            proof {
                                let s1 = self.events@;
                                lemma_after_take(s0, s1, k);
                                assert(self.pending() =~= old(self).pending().remove(k));
                                assert forall|i: int| 0 <= i < s1.len() implies queue_entries(self.queue)[(
                                #[trigger] s1[i]).key] == priority_of(s1[i].time, s1[i].key) by {
                                    let k3 = s1[i].key;
                                    lemma_position_unique(s1, k3, i);
                                    let j0 = position_of_key(s0, k3);
                                    assert(s0[j0] == s1[i]);
                                }
                            }
                            Due::Event(ev)
                        },
                        None => {
                            assert(false);
                            Due::Empty
                        },
                    }
                } else {
                    Due::Wait(time)
                }
            },
        }
    }
}

/// Cancelling an event right after scheduling it, with the key it got, leaves the pending events
/// as they were (when no event was waiting with that key).
pub proof fn lemma_cancel_undoes_schedule<E>(
    before: Scheduler<E>,
    scheduled: Scheduler<E>,
    after: Scheduler<E>,
    key: u64,
    e: ScheduledEvent<E>,
)
    requires
        !before.pending().dom().contains(key),
        scheduled.pending() == before.pending().insert(key, e),
        after.pending() == scheduled.pending().remove(key),
    ensures
        after.pending() == before.pending(),
{
    assert(after.pending() =~= before.pending());
}

/// Events come out in the order they are due: when `pop_due` takes out `first`, and the next call,
/// with no event scheduled or cancelled in between, takes out `second`, then `second` is not due
/// before `first` (a later time, or the same time and a later key).
pub proof fn lemma_due_in_order<E>(
    pending: Map<u64, ScheduledEvent<E>>,
    first: ScheduledEvent<E>,
    second: ScheduledEvent<E>,
)
    requires
        is_first(pending, first),
        is_first(pending.remove(first.key), second),
    ensures
        due_before(first, second),
        second.key != first.key,
{
    assert(pending.dom().contains(second.key));
    assert(pending[second.key] == second);
}

/// What is scheduled comes out: when `event` is the only event waiting, it is the one that comes
/// first.
pub proof fn lemma_only_event_comes_first<E>(
    pending: Map<u64, ScheduledEvent<E>>,
    event: ScheduledEvent<E>,
)
    requires
        pending == Map::<u64, ScheduledEvent<E>>::empty().insert(event.key, event),
    ensures
        is_first(pending, event),
        forall|e: ScheduledEvent<E>| is_first(pending, e) ==> e == event,
{
    assert forall|k: u64| pending.dom().contains(k) implies due_before(event, #[trigger] pending[k]) by {
        assert(k == event.key);
    }
}

} // verus!
