//! The event-bus router: the sole owner of the ring buffer and of the live
//! subscriber table.
//!
//! The router is driven by a mailbox whose entries — publish an item,
//! subscribe, unsubscribe — arrive in one total order and are handled to
//! completion one at a time; that serialization is the bus's only
//! concurrency-control mechanism. The channel sends themselves happen outside
//! this library: the router computes, for each mailbox entry, which
//! `(sequence, event)` pairs are owed to which subscriber, and how the state
//! changes once the caller reports which deliveries failed (dead
//! subscribers).

use vstd::prelude::*;

use crate::ring_buffer::base_of;
use crate::ring_buffer::retained_of;
use crate::ring_buffer::RingBuffer;

verus! {

/// A mailbox operation, processed by the router in arrival order.
pub enum EventLogEntry<T> {
    /// Publish an event to every live subscriber, then retain it.
    Item(T),
    /// Register the subscriber with this id, replaying the retained backlog
    /// to it first.
    Subscribe(u128),
    /// Remove the subscriber with this id, if still present.
    UnSubscribe(u128),
}

/// One planned delivery: `event`, carrying the global sequence number
/// `sequence`, owed to the subscriber with id `subscriber`.
pub struct Delivery<T> {
    pub subscriber: u128,
    pub sequence: usize,
    pub event: T,
}

/// How often `id` occurs in the subscriber table `s`.
pub open spec fn occurrences(s: Seq<u128>, id: u128) -> nat
    decreases s.len(),
{
    if s.len() == 0 {
        0
    } else {
        (if s[0] == id {
            1nat
        } else {
            0nat
        }) + occurrences(s.skip(1), id)
    }
}

/// The subscriber table `s` with every id in `dead` removed, order kept.
pub open spec fn prune(s: Seq<u128>, dead: Seq<u128>) -> Seq<u128>
    decreases s.len(),
{
    if s.len() == 0 {
        s
    } else if dead.contains(s[0]) {
        prune(s.skip(1), dead)
    } else {
        seq![s[0]] + prune(s.skip(1), dead)
    }
}

/// The subscriber table `s` with the first entry equal to `id` removed;
/// unchanged when `id` is absent.
pub open spec fn remove_first(s: Seq<u128>, id: u128) -> Seq<u128>
    decreases s.len(),
{
    if s.len() == 0 {
        s
    } else if s[0] == id {
        s.skip(1)
    } else {
        seq![s[0]] + remove_first(s.skip(1), id)
    }
}

/// The abstract state of a router: the full publish history (of which only
/// the last `capacity` events are physically retained) and the subscriber
/// table in subscription order.
#[verifier::ext_equal]
pub struct RouterModel<T> {
    pub capacity: nat,
    pub history: Seq<T>,
    pub subs: Seq<u128>,
}

/// How one mailbox entry changes the router state. For `Item`, `dead` is the
/// set of subscriber ids whose delivery failed during the fan-out (their
/// consumers are gone); it is irrelevant to the other entries.
pub open spec fn router_step<T>(
    m: RouterModel<T>,
    entry: EventLogEntry<T>,
    dead: Seq<u128>,
) -> RouterModel<T> {
    match entry {
        EventLogEntry::Item(e) => RouterModel {
            capacity: m.capacity,
            history: m.history.push(e),
            subs: prune(m.subs, dead),
        },
        EventLogEntry::Subscribe(id) => RouterModel {
            capacity: m.capacity,
            history: m.history,
            subs: m.subs.push(id),
        },
        EventLogEntry::UnSubscribe(id) => RouterModel {
            capacity: m.capacity,
            history: m.history,
            subs: remove_first(m.subs, id),
        },
    }
}

/// The events of `evs`, each paired with its sequence number, counting from
/// `start`.
pub open spec fn enumerate_from<T>(start: int, evs: Seq<T>) -> Seq<(int, T)> {
    Seq::new(evs.len(), |i: int| (start + i, evs[i]))
}

/// The `(sequence, event)` pairs replayed to a fresh subscriber: the retained
/// backlog, oldest to newest, with its true sequence numbers.
pub open spec fn backlog_deliveries<T>(m: RouterModel<T>) -> Seq<(int, T)> {
    enumerate_from(
        base_of(m.history.len(), m.capacity) as int,
        retained_of(m.history, m.capacity),
    )
}

/// The `(sequence, event)` pairs owed to subscriber `s` while the router
/// handles one mailbox entry.
pub open spec fn step_deliveries_to<T>(
    s: u128,
    m: RouterModel<T>,
    entry: EventLogEntry<T>,
) -> Seq<(int, T)> {
    match entry {
        EventLogEntry::Item(e) => Seq::new(
            occurrences(m.subs, s),
            |i: int| (m.history.len() as int, e),
        ),
        EventLogEntry::Subscribe(id) => if id == s {
            backlog_deliveries(m)
        } else {
            Seq::empty()
        },
        EventLogEntry::UnSubscribe(id) => Seq::empty(),
    }
}

/// Everything subscriber `s` receives while the router processes `trace`,
/// a mailbox history where each entry is paired with the ids reported dead
/// during its turn.
pub open spec fn run_deliveries_to<T>(
    s: u128,
    m: RouterModel<T>,
    trace: Seq<(EventLogEntry<T>, Seq<u128>)>,
) -> Seq<(int, T)>
    decreases trace.len(),
{
    if trace.len() == 0 {
        Seq::empty()
    } else {
        step_deliveries_to(s, m, trace[0].0) + run_deliveries_to(
            s,
            router_step(m, trace[0].0, trace[0].1),
            trace.skip(1),
        )
    }
}

/// The events published over `trace`, in publish order.
pub open spec fn published_events<T>(trace: Seq<(EventLogEntry<T>, Seq<u128>)>) -> Seq<T>
    decreases trace.len(),
{
    if trace.len() == 0 {
        Seq::empty()
    } else {
        (match trace[0].0 {
            EventLogEntry::Item(e) => seq![e],
            _ => Seq::<T>::empty(),
        }) + published_events(trace.skip(1))
    }
}

/// One mailbox turn neither registers nor removes subscriber `s`: it is not
/// subscribed again, not unsubscribed, and not reported dead.
pub open spec fn op_leaves_alone<T>(s: u128, op: (EventLogEntry<T>, Seq<u128>)) -> bool {
    match op.0 {
        EventLogEntry::Item(_) => !op.1.contains(s),
        EventLogEntry::Subscribe(id) => id != s,
        EventLogEntry::UnSubscribe(id) => id != s,
    }
}

/// No turn of `trace` touches subscriber `s`'s registration.
pub open spec fn leaves_subscriber_alone<T>(
    s: u128,
    trace: Seq<(EventLogEntry<T>, Seq<u128>)>,
) -> bool {
    forall|i: int| 0 <= i < trace.len() ==> op_leaves_alone(s, #[trigger] trace[i])
}

/// The router state proper: the ring buffer of retained events and the live
/// subscriber table, in subscription order. Only the router mutates either.
pub struct Router<T> {
    ring: RingBuffer<T>,
    subscribers: Vec<u128>,
}

impl<T> View for Router<T> {
    type V = RouterModel<T>;

    closed spec fn view(&self) -> RouterModel<T> {
        RouterModel { capacity: self.ring.cap(), history: self.ring@, subs: self.subscribers@ }
    }
}

impl<T: Copy> Router<T> {
    pub closed spec fn wf(&self) -> bool {
        self.ring.wf()
    }

    pub fn new(capacity: usize) -> (r: Router<T>)
        requires
            capacity >= 1,
        ensures
            r.wf(),
            r@ == (RouterModel {
                capacity: capacity as nat,
                history: Seq::<T>::empty(),
                subs: Seq::<u128>::empty(),
            }),
    {
        Router { ring: RingBuffer::new(capacity), subscribers: Vec::new() }
    }

    /// The fan-out plan for publishing `event`: one delivery per live
    /// subscriber, in subscription order, all carrying the sequence number
    /// this event will receive.
    pub fn plan_publish(&self, event: T) -> (plan: Vec<Delivery<T>>)
        requires
            self.wf(),
        ensures
            plan@.len() == self@.subs.len(),
            forall|i: int|
                0 <= i < plan@.len() ==> #[trigger] plan@[i] == (Delivery {
                    subscriber: self@.subs[i],
                    sequence: self@.history.len() as usize,
                    event,
                }),
    {
        let sequence = self.ring.get_next_number();
        let mut plan: Vec<Delivery<T>> = Vec::new();
        let mut i: usize = 0;
        while i < self.subscribers.len()
            invariant
                i <= self.subscribers.len(),
                self.wf(),
                sequence == self@.history.len(),
                plan@.len() == i,
                forall|j: int|
                    0 <= j < i ==> #[trigger] plan@[j] == (Delivery {
                        subscriber: self@.subs[j],
                        sequence,
                        event,
                    }),
            decreases self.subscribers.len() - i,
        {
            plan.push(Delivery { subscriber: self.subscribers[i], sequence, event });
            i = i + 1;
        }
        plan
    }

    /// Completes a publish turn: retains `event` in the ring buffer — it
    /// becomes visible to later subscribers only now, after the fan-out — and
    /// prunes every subscriber whose delivery the caller reports as failed.
    pub fn commit_publish(&mut self, event: T, dead: &Vec<u128>)
        requires
            old(self).wf(),
            old(self)@.history.len() < usize::MAX,
        ensures
            final(self).wf(),
            final(self)@ == router_step(old(self)@, EventLogEntry::Item(event), dead@),
    {
        self.ring.push(event);
        let ghost subs0 = self.subscribers@;
        let mut kept: Vec<u128> = Vec::new();
        let mut i: usize = 0;
        proof {
            assert(subs0.skip(0) =~= subs0);
            assert(Seq::<u128>::empty() + prune(subs0, dead@) =~= prune(subs0, dead@));
        }
        while i < self.subscribers.len()
            invariant
                i <= self.subscribers.len(),
                self.subscribers@ == subs0,
                prune(subs0, dead@) == kept@ + prune(subs0.skip(i as int), dead@),
            decreases self.subscribers.len() - i,
        {
            let id = self.subscribers[i];
            proof {
                assert(subs0.skip(i as int).skip(1) =~= subs0.skip(i + 1));
                assert(subs0.skip(i as int)[0] == id);
            }
            if !contains_id(dead, id) {
                let ghost kept0 = kept@;
                kept.push(id);
                proof {
                    assert(kept@ + prune(subs0.skip(i + 1), dead@) =~= kept0 + (seq![id] + prune(
                        subs0.skip(i + 1),
                        dead@,
                    )));
                }
            }
            i = i + 1;
        }
        proof {
            assert(subs0.skip(subs0.len() as int) =~= Seq::<u128>::empty());
            assert(kept@ + prune(subs0.skip(subs0.len() as int), dead@) =~= kept@);
        }
        self.subscribers = kept;
    }

    /// Registers a new subscriber in one atomic mailbox turn: first the
    /// retained backlog is replayed to it, oldest to newest with the true
    /// global sequence numbers, then the id is appended to the table — so it
    /// receives every retained event exactly once, followed by every later
    /// event exactly once, with no gap and no duplicate.
    pub fn subscribe(&mut self, id: u128) -> (backlog: Vec<Delivery<T>>)
        requires
            old(self).wf(),
        ensures
            final(self).wf(),
            final(self)@ == router_step(
                old(self)@,
                EventLogEntry::<T>::Subscribe(id),
                Seq::empty(),
            ),
            backlog@.map_values(|d: Delivery<T>| (d.sequence as int, d.event))
                == backlog_deliveries(old(self)@),
            forall|i: int| 0 <= i < backlog@.len() ==> #[trigger] backlog@[i].subscriber == id,
    {
        let ghost ret = self.ring.retained();
        let ghost b = self.ring.base();
        proof {
            self.ring.lemma_wf_bounds();
        }
        let base = self.ring.get_base_index();
        let mut backlog: Vec<Delivery<T>> = Vec::new();
        let mut it = self.ring.iter();
        loop
            invariant_except_break
                it.wf(),
                it.ring() == self.ring,
                self.ring.wf(),
                base == b,
                backlog@.len() <= ret.len(),
                it.pos() == backlog@.len(),
                it.future() == ret.skip(backlog@.len() as int),
                b + ret.len() == self.ring@.len(),
                self.ring@.len() <= usize::MAX,
                ret == self.ring.retained(),
                forall|k: int|
                    0 <= k < backlog@.len() ==> #[trigger] backlog@[k] == (Delivery {
                        subscriber: id,
                        sequence: (b + k) as usize,
                        event: ret[k],
                    }),
            ensures
                self.ring.wf(),
                backlog@.len() == ret.len(),
                forall|k: int|
                    0 <= k < backlog@.len() ==> #[trigger] backlog@[k] == (Delivery {
                        subscriber: id,
                        sequence: (b + k) as usize,
                        event: ret[k],
                    }),
            decreases it.future().len(),
        {
            proof {
                assert(it.future().len() > 0 ==> it.future()[0] == ret[backlog@.len() as int]);
                assert(it.future().len() > 0 ==> ret.skip(backlog@.len() as int).skip(1)
                    =~= ret.skip(backlog@.len() as int + 1));
            }
            match it.next() {
                Some(event) => {
                    let k = backlog.len();
                    backlog.push(Delivery { subscriber: id, sequence: base + k, event: *event });
                },
                None => {
                    proof {
                        assert(backlog@.len() == ret.len());
                    }
                    break ;
                },
            }
        }
        self.subscribers.push(id);
        proof {
            assert(backlog@.map_values(|d: Delivery<T>| (d.sequence as int, d.event))
                =~= backlog_deliveries(old(self)@));
        }
        backlog
    }

    /// Removes the matching subscriber entry, if one is present; a no-op when
    /// the id is absent (for instance when it was already pruned as dead).
    pub fn unsubscribe(&mut self, id: u128)
        requires
            old(self).wf(),
        ensures
            final(self).wf(),
            final(self)@ == router_step(
                old(self)@,
                EventLogEntry::<T>::UnSubscribe(id),
                Seq::empty(),
            ),
    {
        let mut i: usize = 0;
        while i < self.subscribers.len()
            invariant
                i <= self.subscribers.len(),
                self == old(self),
                self.wf(),
                forall|j: int| 0 <= j < i ==> self.subscribers@[j] != id,
            decreases self.subscribers.len() - i,
        {
            if self.subscribers[i] == id {
                self.subscribers.remove(i);
                proof {
                    lemma_remove_first_at(old(self).subscribers@, id, i as int);
                }
                return ;
            }
            i = i + 1;
        }
        proof {
            lemma_remove_first_absent(self.subscribers@, id);
        }
    }
}

/// Whether the id list `v` contains `id`.
fn contains_id(v: &Vec<u128>, id: u128) -> (r: bool)
    ensures
        r == v@.contains(id),
{
    let mut i: usize = 0;
    while i < v.len()
        invariant
            i <= v.len(),
            forall|j: int| 0 <= j < i ==> v@[j] != id,
        decreases v.len() - i,
    {
        if v[i] == id {
            return true;
        }
        i = i + 1;
    }
    false
}

/// Removing the first occurrence of `id`, when it sits at position `p`, cuts
/// exactly that position out of the table.
proof fn lemma_remove_first_at(s: Seq<u128>, id: u128, p: int)
    requires
        0 <= p < s.len(),
        s[p] == id,
        forall|j: int| 0 <= j < p ==> s[j] != id,
    ensures
        remove_first(s, id) == s.remove(p),
    decreases p,
{
    if p == 0 {
        assert(s.remove(0) =~= s.skip(1));
    } else {
        assert(forall|j: int| 0 <= j < p - 1 ==> s.skip(1)[j] != id);
        lemma_remove_first_at(s.skip(1), id, p - 1);
        assert(seq![s[0]] + s.skip(1).remove(p - 1) =~= s.remove(p));
    }
}

/// Removing an absent id changes nothing.
proof fn lemma_remove_first_absent(s: Seq<u128>, id: u128)
    requires
        !s.contains(id),
    ensures
        remove_first(s, id) == s,
    decreases s.len(),
{
    if s.len() > 0 {
        assert(!s.skip(1).contains(id)) by {
            assert(forall|j: int| 0 <= j < s.skip(1).len() ==> s.skip(1)[j] == s[j + 1]);
        }
        lemma_remove_first_absent(s.skip(1), id);
        assert(seq![s[0]] + s.skip(1) =~= s);
    }
}

/// Appending an entry adds one occurrence of that id and none of any other.
proof fn lemma_occ_snoc(s: Seq<u128>, a: u128, x: u128)
    ensures
        occurrences(s.push(a), x) == occurrences(s, x) + (if a == x {
            1nat
        } else {
            0nat
        }),
    decreases s.len(),
{
    if s.len() == 0 {
        assert(s.push(a).skip(1) =~= Seq::<u128>::empty());
        assert(occurrences(Seq::<u128>::empty(), x) == 0);
        assert(s.push(a)[0] == a);
    } else {
        assert(s.push(a).skip(1) =~= s.skip(1).push(a));
        lemma_occ_snoc(s.skip(1), a, x);
        assert(s.push(a)[0] == s[0]);
    }
}

/// Pruning dead ids does not touch the entries of an id not reported dead.
proof fn lemma_occ_prune(s: Seq<u128>, dead: Seq<u128>, x: u128)
    requires
        !dead.contains(x),
    ensures
        occurrences(prune(s, dead), x) == occurrences(s, x),
    decreases s.len(),
{
    if s.len() > 0 {
        lemma_occ_prune(s.skip(1), dead, x);
        if !dead.contains(s[0]) {
            assert((seq![s[0]] + prune(s.skip(1), dead)).skip(1) =~= prune(s.skip(1), dead));
        }
    }
}

/// Pruning removes every entry of an id that is reported dead.
proof fn lemma_occ_prune_dead(s: Seq<u128>, dead: Seq<u128>, x: u128)
    requires
        dead.contains(x),
    ensures
        occurrences(prune(s, dead), x) == 0,
    decreases s.len(),
{
    if s.len() > 0 {
        lemma_occ_prune_dead(s.skip(1), dead, x);
        if !dead.contains(s[0]) {
            assert((seq![s[0]] + prune(s.skip(1), dead)).skip(1) =~= prune(s.skip(1), dead));
        }
    }
}

/// Removing one id's first entry does not touch the entries of another id.
proof fn lemma_occ_remove_first_other(s: Seq<u128>, id: u128, x: u128)
    requires
        id != x,
    ensures
        occurrences(remove_first(s, id), x) == occurrences(s, x),
    decreases s.len(),
{
    if s.len() > 0 {
        if s[0] != id {
            lemma_occ_remove_first_other(s.skip(1), id, x);
            assert((seq![s[0]] + remove_first(s.skip(1), id)).skip(1) =~= remove_first(
                s.skip(1),
                id,
            ));
        }
    }
}

/// Removing an id's first entry lowers its occurrence count by one, to a
/// minimum of zero.
proof fn lemma_occ_remove_first_same(s: Seq<u128>, id: u128)
    ensures
        occurrences(remove_first(s, id), id) == (if occurrences(s, id) == 0 {
            0nat
        } else {
            (occurrences(s, id) - 1) as nat
        }),
    decreases s.len(),
{
    if s.len() > 0 {
        if s[0] != id {
            lemma_occ_remove_first_same(s.skip(1), id);
            assert((seq![s[0]] + remove_first(s.skip(1), id)).skip(1) =~= remove_first(
                s.skip(1),
                id,
            ));
        }
    }
}

/// An id occurs zero times in a table exactly when the table does not
/// contain it.
proof fn lemma_occ_zero_iff_absent(s: Seq<u128>, x: u128)
    ensures
        (occurrences(s, x) == 0) <==> !s.contains(x),
    decreases s.len(),
{
    if s.len() > 0 {
        lemma_occ_zero_iff_absent(s.skip(1), x);
        assert(s.contains(x) ==> s[0] == x || s.skip(1).contains(x)) by {
            if s.contains(x) {
                let k = choose|k: int| 0 <= k < s.len() && s[k] == x;
                if k > 0 {
                    assert(s.skip(1)[k - 1] == x);
                }
            }
        }
        assert(s.skip(1).contains(x) ==> s.contains(x)) by {
            if s.skip(1).contains(x) {
                let k = choose|k: int| 0 <= k < s.skip(1).len() && s.skip(1)[k] == x;
                assert(s[k + 1] == x);
            }
        }
    }
}

/// Once a subscriber is registered exactly once and no later mailbox turn
/// subscribes it again, unsubscribes it, or reports it dead, it receives
/// every event published over those turns exactly once, in publish order,
/// with consecutive sequence numbers starting at the publish count at the
/// start of the run.
pub proof fn lemma_live_stream<T>(
    s: u128,
    m: RouterModel<T>,
    trace: Seq<(EventLogEntry<T>, Seq<u128>)>,
)
    requires
        occurrences(m.subs, s) == 1,
        leaves_subscriber_alone(s, trace),
    ensures
        run_deliveries_to(s, m, trace) == enumerate_from(
            m.history.len() as int,
            published_events(trace),
        ),
    decreases trace.len(),
{
    if trace.len() == 0 {
        assert(run_deliveries_to(s, m, trace) =~= enumerate_from(
            m.history.len() as int,
            published_events(trace),
        ));
    } else {
        let m2 = router_step(m, trace[0].0, trace[0].1);
        assert(op_leaves_alone(s, trace[0]));
        match trace[0].0 {
            EventLogEntry::Item(e) => {
                lemma_occ_prune(m.subs, trace[0].1, s);
            },
            EventLogEntry::Subscribe(id) => {
                lemma_occ_snoc(m.subs, id, s);
            },
            EventLogEntry::UnSubscribe(id) => {
                lemma_occ_remove_first_other(m.subs, id, s);
            },
        }
        assert(leaves_subscriber_alone(s, trace.skip(1))) by {
            assert forall|i: int| 0 <= i < trace.skip(1).len() implies op_leaves_alone(
                s,
                #[trigger] trace.skip(1)[i],
            ) by {
                assert(trace.skip(1)[i] == trace[i + 1]);
                assert(op_leaves_alone(s, trace[i + 1]));
            }
        }
        lemma_live_stream(s, m2, trace.skip(1));
        assert(run_deliveries_to(s, m, trace) =~= enumerate_from(
            m.history.len() as int,
            published_events(trace),
        ));
    }
}

/// A new subscriber receives, in order and with consecutive sequence
/// numbers, the retained backlog followed by every event published after its
/// subscription — no gap and no duplicate — as long as no later turn touches
/// its registration.
pub proof fn lemma_subscribe_replay_then_live<T>(
    s: u128,
    m0: RouterModel<T>,
    trace: Seq<(EventLogEntry<T>, Seq<u128>)>,
)
    requires
        occurrences(m0.subs, s) == 0,
        trace.len() >= 1,
        trace[0].0 == EventLogEntry::<T>::Subscribe(s),
        leaves_subscriber_alone(s, trace.skip(1)),
    ensures
        run_deliveries_to(s, m0, trace) == enumerate_from(
            base_of(m0.history.len(), m0.capacity) as int,
            retained_of(m0.history, m0.capacity) + published_events(trace.skip(1)),
        ),
{
    let m1 = router_step(m0, trace[0].0, trace[0].1);
    lemma_occ_snoc(m0.subs, s, s);
    lemma_live_stream(s, m1, trace.skip(1));
    assert(run_deliveries_to(s, m0, trace) =~= enumerate_from(
        base_of(m0.history.len(), m0.capacity) as int,
        retained_of(m0.history, m0.capacity) + published_events(trace.skip(1)),
    ));
}

/// A subscriber that subscribes before any publish receives nothing until
/// the first publish, then every published event exactly once, in publish
/// order, with sequence numbers counting up from 0.
pub proof fn lemma_subscribe_before_first_publish<T>(
    s: u128,
    m0: RouterModel<T>,
    trace: Seq<(EventLogEntry<T>, Seq<u128>)>,
)
    requires
        m0.history.len() == 0,
        occurrences(m0.subs, s) == 0,
        trace.len() >= 1,
        trace[0].0 == EventLogEntry::<T>::Subscribe(s),
        leaves_subscriber_alone(s, trace.skip(1)),
    ensures
        run_deliveries_to(s, m0, trace) == enumerate_from(0, published_events(trace.skip(1))),
        forall|i: int|
            0 <= i < run_deliveries_to(s, m0, trace).len() ==> #[trigger] run_deliveries_to(
                s,
                m0,
                trace,
            )[i] == (i, published_events(trace.skip(1))[i]),
{
    lemma_subscribe_replay_then_live(s, m0, trace);
    assert(retained_of(m0.history, m0.capacity) + published_events(trace.skip(1))
        =~= published_events(trace.skip(1)));
}

/// A subscriber that subscribes after `K > capacity` publishes receives
/// exactly the last `capacity` events (sequence numbers `K - capacity`
/// through `K - 1`) as backlog, immediately followed by every later event,
/// with no gap and no duplicate sequence number.
pub proof fn lemma_subscribe_after_backlog<T>(
    s: u128,
    m0: RouterModel<T>,
    trace: Seq<(EventLogEntry<T>, Seq<u128>)>,
)
    requires
        m0.history.len() > m0.capacity,
        occurrences(m0.subs, s) == 0,
        trace.len() >= 1,
        trace[0].0 == EventLogEntry::<T>::Subscribe(s),
        leaves_subscriber_alone(s, trace.skip(1)),
    ensures
        run_deliveries_to(s, m0, trace).len() == m0.capacity + published_events(
            trace.skip(1),
        ).len(),
        forall|i: int|
            0 <= i < run_deliveries_to(s, m0, trace).len() ==> #[trigger] run_deliveries_to(
                s,
                m0,
                trace,
            )[i].0 == m0.history.len() - m0.capacity + i,
        forall|i: int|
            0 <= i < m0.capacity ==> #[trigger] run_deliveries_to(s, m0, trace)[i].1
                == m0.history[m0.history.len() - m0.capacity + i],
        forall|i: int|
            m0.capacity <= i < run_deliveries_to(s, m0, trace).len()
                ==> #[trigger] run_deliveries_to(s, m0, trace)[i].1 == published_events(
                trace.skip(1),
            )[i - m0.capacity],
{
    lemma_subscribe_replay_then_live(s, m0, trace);
}

/// Unsubscribing is idempotent: since an id is registered at most once,
/// a second unsubscribe with the same id finds nothing to remove and the
/// state is unchanged — no error and no duplicate removal side effect.
pub proof fn lemma_unsubscribe_idempotent<T>(m: RouterModel<T>, id: u128)
    requires
        occurrences(m.subs, id) <= 1,
    ensures
        router_step(
            router_step(m, EventLogEntry::<T>::UnSubscribe(id), Seq::empty()),
            EventLogEntry::<T>::UnSubscribe(id),
            Seq::empty(),
        ) == router_step(m, EventLogEntry::<T>::UnSubscribe(id), Seq::empty()),
{
    let m1 = router_step(m, EventLogEntry::<T>::UnSubscribe(id), Seq::empty());
    lemma_occ_remove_first_same(m.subs, id);
    lemma_occ_zero_iff_absent(m1.subs, id);
    lemma_remove_first_absent(m1.subs, id);
    assert(router_step(m1, EventLogEntry::<T>::UnSubscribe(id), Seq::empty()) =~= m1);
}

/// The pairs a fan-out plan owes one subscriber: walking the table in
/// order, `(sequence, event)` is owed once per entry carrying that id —
/// the shape `plan_publish` promises, restricted to a single subscriber.
pub open spec fn plan_deliveries_to<T>(
    s: u128,
    subs: Seq<u128>,
    sequence: int,
    e: T,
) -> Seq<(int, T)>
    decreases subs.len(),
{
    if subs.len() == 0 {
        Seq::empty()
    } else {
        (if subs[0] == s {
            seq![(sequence, e)]
        } else {
            Seq::empty()
        }) + plan_deliveries_to(s, subs.skip(1), sequence, e)
    }
}

proof fn lemma_plan_deliveries<T>(s: u128, subs: Seq<u128>, n: int, e: T)
    ensures
        plan_deliveries_to(s, subs, n, e) == Seq::new(occurrences(subs, s), |i: int| (n, e)),
    decreases subs.len(),
{
    if subs.len() == 0 {
        assert(plan_deliveries_to(s, subs, n, e) =~= Seq::new(
            occurrences(subs, s),
            |i: int| (n, e),
        ));
    } else {
        lemma_plan_deliveries(s, subs.skip(1), n, e);
        assert(plan_deliveries_to(s, subs, n, e) =~= Seq::new(
            occurrences(subs, s),
            |i: int| (n, e),
        ));
    }
}

/// What the fan-out plan of a publish turn owes subscriber `s` — one
/// delivery per table entry with its id, all under the sequence number the
/// event receives — is exactly what the model says an `Item` turn delivers
/// to `s`.
pub proof fn lemma_fan_out_deliveries<T>(s: u128, m: RouterModel<T>, e: T)
    ensures
        plan_deliveries_to(s, m.subs, m.history.len() as int, e) == step_deliveries_to(
            s,
            m,
            EventLogEntry::Item(e),
        ),
{
    lemma_plan_deliveries(s, m.subs, m.history.len() as int, e);
}

/// A publish turn removes exactly the subscribers whose delivery failed:
/// every id reported dead leaves the table, every other subscriber keeps its
/// entries — the publish does not fail for them — and each was owed the
/// published event once per table entry, under the sequence number the event
/// received.
pub proof fn lemma_publish_prunes_dead_only<T>(
    m: RouterModel<T>,
    e: T,
    dead: Seq<u128>,
    x: u128,
)
    ensures
        dead.contains(x) ==> occurrences(
            router_step(m, EventLogEntry::Item(e), dead).subs,
            x,
        ) == 0,
        !dead.contains(x) ==> occurrences(
            router_step(m, EventLogEntry::Item(e), dead).subs,
            x,
        ) == occurrences(m.subs, x),
        step_deliveries_to(x, m, EventLogEntry::Item(e)) == Seq::new(
            occurrences(m.subs, x),
            |i: int| (m.history.len() as int, e),
        ),
{
    if dead.contains(x) {
        lemma_occ_prune_dead(m.subs, dead, x);
    } else {
        lemma_occ_prune(m.subs, dead, x);
    }
}

} // verus!
