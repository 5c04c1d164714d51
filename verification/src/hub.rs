//! The broadcast hub: the single point of fan-out.  Any session publishes a
//! broadcast event; the hub appends it to the history buffer and enqueues it
//! for every other live subscription.  Publishing is total: it never fails
//! and never blocks on a slow consumer — when a subscriber's bounded queue
//! is full, its oldest undelivered entry is dropped to make room (lossy,
//! newest-biased), and the subscriber is marked as having lagged.

use std::collections::VecDeque;
use vstd::prelude::*;

use crate::event::BroadcastEvent;
use crate::event::EventModel;
use crate::history::HistoryBuffer;
use crate::history::events_of;
use crate::history::fifo_push;
use crate::history::history_model;
use crate::history::lemma_events_of_index;
use crate::history::lemma_events_of_len;
use crate::history::lemma_fifo_tracks;
use crate::stream::LogEntry;
use crate::stream::is_subsequence;
use crate::stream::lemma_others_of_push;
use crate::stream::lemma_skip_push;
use crate::stream::lemma_subseq_push_both;
use crate::stream::lemma_subseq_remove;
use crate::stream::others_of;

verus! {

/// The event models of a publish log, in order.
pub open spec fn pubs_of(log: Seq<LogEntry>) -> Seq<EventModel> {
    log.map_values(|en: LogEntry| en.event)
}

/// One more log entry appends one more published event.
pub proof fn lemma_pubs_of_push(log: Seq<LogEntry>, entry: LogEntry)
    ensures
        pubs_of(log.push(entry)) == pubs_of(log).push(entry.event),
{
    assert(pubs_of(log.push(entry)) =~= pubs_of(log).push(entry.event));
}

/// One consumer registered with the hub: a session identity, a bounded
/// queue of undelivered events, and the ghost record of what it has already
/// taken and where in the log it subscribed.
pub struct Subscription {
    pub identity: u64,
    pub queue: VecDeque<BroadcastEvent>,
    pub capacity: usize,
    pub lagged: bool,
    pub start: Ghost<int>,
    pub taken: Ghost<Seq<EventModel>>,
}

impl Subscription {
    /// Everything this subscription has handed out or still holds, oldest
    /// first.
    pub open spec fn delivered(self) -> Seq<EventModel> {
        self.taken@ + events_of(self.queue@)
    }

    /// What still waits in the queue.
    pub open spec fn pending(self) -> Seq<EventModel> {
        events_of(self.queue@)
    }
}

/// What must hold of one subscription against the hub's publish log: its
/// stream is an order-preserving selection of the events published by other
/// sessions since it subscribed — and all of them, while it never lagged.
pub open spec fn sub_wf(s: Subscription, log: Seq<LogEntry>) -> bool {
    &&& s.capacity >= 1
    &&& s.queue@.len() <= s.capacity
    &&& 0 <= s.start@ <= log.len()
    &&& is_subsequence(s.delivered(), others_of(log.skip(s.start@), s.identity))
    &&& (!s.lagged ==> s.delivered() == others_of(log.skip(s.start@), s.identity))
}

/// How one fan-out pass changes one subscription: nothing for the
/// publisher's own subscription; one more queued event for everyone else,
/// with the oldest undelivered entry dropped first when the queue is full.
pub open spec fn sub_update(s0: Subscription, s1: Subscription, publisher: u64, ev: EventModel) -> bool {
    &&& s1.identity == s0.identity
    &&& s1.capacity == s0.capacity
    &&& s1.start == s0.start
    &&& s1.taken == s0.taken
    &&& (s0.identity == publisher ==> s1.queue@ == s0.queue@ && s1.lagged == s0.lagged)
    &&& (s0.identity != publisher && s0.queue@.len() < s0.capacity ==> events_of(s1.queue@)
        == events_of(s0.queue@).push(ev) && s1.lagged == s0.lagged)
    &&& (s0.identity != publisher && s0.queue@.len() >= s0.capacity ==> events_of(s1.queue@)
        == events_of(s0.queue@).drop_first().push(ev) && s1.lagged)
}

/// A fan-out pass keeps a subscription well formed against the grown log.
proof fn lemma_sub_wf_publish(s0: Subscription, s1: Subscription, log: Seq<LogEntry>, entry: LogEntry)
    requires
        sub_wf(s0, log),
        s1.queue@.len() <= s1.capacity,
        sub_update(s0, s1, entry.publisher, entry.event),
    ensures
        sub_wf(s1, log.push(entry)),
{
    let oth0 = others_of(log.skip(s0.start@), s0.identity);
    lemma_skip_push(log, entry, s0.start@);
    lemma_others_of_push(log.skip(s0.start@), entry, s0.identity);
    lemma_events_of_len(s0.queue@);
    lemma_events_of_len(s1.queue@);
    if s0.identity == entry.publisher {
        assert(s1.delivered() =~= s0.delivered());
    } else if s0.queue@.len() < s0.capacity {
        assert(s1.delivered() =~= s0.delivered().push(entry.event));
        lemma_subseq_push_both(s0.delivered(), oth0, entry.event);
    } else {
        let i = s0.taken@.len() as int;
        assert(s0.delivered().len() > i);
        assert(s1.delivered() =~= s0.delivered().remove(i).push(entry.event));
        lemma_subseq_remove(s0.delivered(), oth0, i);
        lemma_subseq_push_both(s0.delivered().remove(i), oth0, entry.event);
    }
}

/// Deliver one event to one subscription, applying the lag policy.
fn deliver_to(s: Subscription, publisher: u64, e: &BroadcastEvent) -> (r: Subscription)
    requires
        s.capacity >= 1,
        s.queue@.len() <= s.capacity,
    ensures
        r.queue@.len() <= r.capacity,
        sub_update(s, r, publisher, e@),
{
    let mut s = s;
    if s.identity != publisher {
        let ghost q0 = s.queue@;
        if s.queue.len() == s.capacity {
            let dropped = s.queue.pop_front();
            s.lagged = true;
            proof {
                assert(s.queue@ =~= q0.drop_first());
            }
        }
        let ghost q1 = s.queue@;
        let d = e.duplicate();
        s.queue.push_back(d);
        proof {
            lemma_events_of_len(q0);
            lemma_events_of_len(q1);
            lemma_events_of_len(s.queue@);
            assert forall|t: int| 0 <= t < s.queue@.len() implies events_of(s.queue@)[t] == (
            if q0.len() < s.capacity {
                events_of(q0).push(e@)
            } else {
                events_of(q0).drop_first().push(e@)
            })[t] by {
                lemma_events_of_index(s.queue@, t);
                if t < q1.len() {
                    lemma_events_of_index(q1, t);
                    if q0.len() == s.capacity {
                        lemma_events_of_index(q0, t + 1);
                    } else {
                        lemma_events_of_index(q0, t);
                    }
                }
            }
            if q0.len() < s.capacity {
                assert(events_of(s.queue@) =~= events_of(q0).push(e@));
            } else {
                assert(events_of(s.queue@) =~= events_of(q0).drop_first().push(e@));
            }
        }
    }
    s
}

/// The broadcast hub: the history buffer, the subscriber registry, and the
/// ghost log of everything ever published through it.
pub struct Hub {
    pub history: HistoryBuffer,
    pub subs: Vec<Subscription>,
    pub log: Ghost<Seq<LogEntry>>,
}

impl Hub {
    /// Every event ever published, in order.
    pub open spec fn published(self) -> Seq<EventModel> {
        pubs_of(self.log@)
    }

    /// Whether a subscription with this identity is registered.
    pub open spec fn spec_has_subscriber(self, identity: u64) -> bool {
        exists|i: int| 0 <= i < self.subs@.len() && self.subs@[i].identity == identity
    }

    /// The hub's invariant: the history buffer holds exactly the bounded
    /// window of the publish log, every subscription is well formed against
    /// that log, and identities are distinct.
    pub open spec fn wf(self) -> bool {
        &&& self.history.wf()
        &&& self.history.model() == history_model(self.published(), self.history.capacity as nat)
        &&& forall|i: int| 0 <= i < self.subs@.len() ==> sub_wf(#[trigger] self.subs@[i], self.log@)
        &&& forall|i: int, j: int|
            0 <= i < j < self.subs@.len() ==> self.subs@[i].identity != self.subs@[
                j
            ].identity
    }

    /// A hub with an empty history buffer and no subscribers.
    pub fn new(history_capacity: usize) -> (h: Hub)
        requires
            history_capacity >= 1,
        ensures
            h.wf(),
            h.log@ == Seq::<LogEntry>::empty(),
            h.subs@.len() == 0,
            h.history.capacity == history_capacity,
            h.history.model() == Seq::<EventModel>::empty(),
    {
        let h = Hub {
            history: HistoryBuffer::new(history_capacity),
            subs: Vec::new(),
            log: Ghost(Seq::empty()),
        };
        proof {
            assert(h.published() =~= Seq::<EventModel>::empty());
        }
        h
    }

    /// Accept one event from `publisher`: append it to the history buffer,
    /// then enqueue it for every other subscription, dropping the oldest
    /// undelivered entry of any queue that is full.  Total: never fails,
    /// whatever any consumer does.
    #[verifier::loop_isolation(false)]
    pub fn publish(&mut self, publisher: u64, e: &BroadcastEvent)
        requires
            old(self).wf(),
        ensures
            final(self).wf(),
            final(self).log@ == old(self).log@.push(
                LogEntry { publisher, event: e@ },
            ),
            final(self).history.capacity == old(self).history.capacity,
            final(self).history.model() == fifo_push(
                old(self).history.model(),
                e@,
                old(self).history.capacity as nat,
            ),
            final(self).subs@.len() == old(self).subs@.len(),
            forall|i: int|
                0 <= i < old(self).subs@.len() ==> sub_update(
                    old(self).subs@[i],
                    #[trigger] final(self).subs@[i],
                    publisher,
                    e@,
                ),
    {
        let ghost entry = LogEntry { publisher, event: e@ };
        let ghost log0 = self.log@;
        self.history.append(e.duplicate());
        self.log = Ghost(log0.push(entry));
        proof {
            lemma_pubs_of_push(log0, entry);
            lemma_fifo_tracks(
                pubs_of(log0),
                e@,
                self.history.capacity as nat,
            );
        }
        let ghost hist1 = self.history;
        let mut k: usize = 0;
        while k < self.subs.len()
            invariant
                self.history == hist1,
                self.log@ == log0.push(entry),
                self.subs@.len() == old(self).subs@.len(),
                k <= self.subs@.len(),
                forall|i: int|
                    k <= i < self.subs@.len() ==> #[trigger] self.subs@[i] == old(
                        self,
                    ).subs@[i] && sub_wf(self.subs@[i], log0),
                forall|i: int|
                    0 <= i < k ==> sub_update(
                        old(self).subs@[i],
                        #[trigger] self.subs@[i],
                        publisher,
                        e@,
                    ) && sub_wf(self.subs@[i], log0.push(entry)),
            decreases self.subs@.len() - k,
        {
            let ghost subs_pre = self.subs@;
            let s = self.subs.remove(k);
            let ghost s0 = s;
            let s1 = deliver_to(s, publisher, e);
            proof {
                lemma_sub_wf_publish(s0, s1, log0, entry);
            }
            self.subs.insert(k, s1);
            proof {
                assert(self.subs@ =~= subs_pre.update(k as int, s1));
            }
            k = k + 1;
        }
        proof {
            assert forall|i: int, j: int|
                0 <= i < j < self.subs@.len() implies self.subs@[i].identity != self.subs@[
                j
            ].identity by {
                assert(sub_update(old(self).subs@[i], self.subs@[i], publisher, e@));
                assert(sub_update(old(self).subs@[j], self.subs@[j], publisher, e@));
            }
        }
    }

    /// Register a new consumer.  Its stream starts strictly after everything
    /// already published: no event published after this call is missed until
    /// the queue first overflows.
    pub fn subscribe(&mut self, identity: u64, capacity: usize)
        requires
            old(self).wf(),
            capacity >= 1,
            !old(self).spec_has_subscriber(identity),
        ensures
            final(self).wf(),
            final(self).log == old(self).log,
            final(self).history == old(self).history,
            final(self).subs@.len() == old(self).subs@.len() + 1,
            forall|i: int|
                0 <= i < old(self).subs@.len() ==> final(self).subs@[i] == old(
                    self,
                ).subs@[i],
            ({
                let s = final(self).subs@.last();
                &&& s.identity == identity
                &&& s.capacity == capacity
                &&& s.queue@.len() == 0
                &&& s.lagged == false
                &&& s.start@ == old(self).log@.len()
                &&& s.taken@ == Seq::<EventModel>::empty()
            }),
    {
        let s = Subscription {
            identity,
            queue: VecDeque::new(),
            capacity,
            lagged: false,
            start: Ghost(self.log@.len() as int),
            taken: Ghost(Seq::empty()),
        };
        proof {
            assert(s.delivered() =~= Seq::<EventModel>::empty());
            assert(self.log@.skip(self.log@.len() as int) =~= Seq::<LogEntry>::empty());
        }
        self.subs.push(s);
    }

    /// The index of the subscription with this identity, if any.
    fn find_sub(&self, identity: u64) -> (r: Option<usize>)
        ensures
            match r {
                Some(k) => k < self.subs@.len() && self.subs@[k as int].identity == identity,
                None => !self.spec_has_subscriber(identity),
            },
    {
        let mut k: usize = 0;
        while k < self.subs.len()
            invariant
                k <= self.subs@.len(),
                forall|t: int| 0 <= t < k ==> self.subs@[t].identity != identity,
            decreases self.subs@.len() - k,
        {
            if self.subs[k].identity == identity {
                return Some(k);
            }
            k = k + 1;
        }
        None
    }

    /// Whether a subscription with this identity is registered.
    pub fn has_subscriber(&self, identity: u64) -> (b: bool)
        ensures
            b == self.spec_has_subscriber(identity),
    {
        match self.find_sub(identity) {
            Some(k) => {
                proof {
                    assert(self.subs@[k as int].identity == identity);
                }
                true
            },
            None => false,
        }
    }

    /// Hand out the oldest undelivered event of this identity's
    /// subscription, if it has one.
    pub fn take(&mut self, identity: u64) -> (r: Option<BroadcastEvent>)
        requires
            old(self).wf(),
        ensures
            final(self).wf(),
            final(self).log == old(self).log,
            final(self).history == old(self).history,
            final(self).subs@.len() == old(self).subs@.len(),
            forall|i: int|
                0 <= i < old(self).subs@.len() && old(self).subs@[i].identity != identity
                    ==> final(self).subs@[i] == old(self).subs@[i],
            !old(self).spec_has_subscriber(identity) ==> r is None && final(self).subs@ == old(
                self,
            ).subs@,
            forall|i: int|
                0 <= i < old(self).subs@.len() && old(self).subs@[i].identity == identity
                    ==> match r {
                    None => final(self).subs@[i] == old(self).subs@[i] && old(
                        self,
                    ).subs@[i].queue@.len() == 0,
                    Some(ev) => {
                        let s0 = old(self).subs@[i];
                        let s1 = final(self).subs@[i];
                        &&& s0.queue@.len() > 0
                        &&& ev@ == s0.pending()[0]
                        &&& s1.identity == s0.identity
                        &&& s1.capacity == s0.capacity
                        &&& s1.start == s0.start
                        &&& s1.lagged == s0.lagged
                        &&& s1.taken@ == s0.taken@.push(ev@)
                        &&& s1.pending() == s0.pending().drop_first()
                        &&& s1.delivered() == s0.delivered()
                    },
                },
    {
        match self.find_sub(identity) {
            None => None,
            Some(k) => {
                let ghost subs_pre = self.subs@;
                let mut s = self.subs.remove(k);
                let ghost s0 = s;
                if s.queue.len() == 0 {
                    self.subs.insert(k, s);
                    proof {
                        assert(self.subs@ =~= subs_pre);
                    }
                    return None;
                }
                let popped = s.queue.pop_front();
                match popped {
                    None => {
                        proof {
                            assert(false);
                        }
                        None
                    },
                    Some(ev) => {
                        proof {
                            lemma_events_of_len(s0.queue@);
                            lemma_events_of_index(s0.queue@, 0);
                        }
                        s.taken = Ghost(s.taken@.push(ev@));
                        self.subs.insert(k, s);
                        proof {
                            assert(self.subs@ =~= subs_pre.update(k as int, s));
                            assert(s.queue@ =~= s0.queue@.drop_first());
                            lemma_events_of_len(s.queue@);
                            assert forall|t: int| 0 <= t < s.queue@.len() implies events_of(
                                s.queue@,
                            )[t] == events_of(s0.queue@).drop_first()[t] by {
                                lemma_events_of_index(s.queue@, t);
                                lemma_events_of_index(s0.queue@, t + 1);
                            }
                            assert(events_of(s.queue@) =~= events_of(s0.queue@).drop_first());
                            assert(s.delivered() =~= s0.delivered());
                        }
                        Some(ev)
                    },
                }
            },
        }
    }

    /// Remove this identity's subscription; its undelivered queue is
    /// discarded.
    pub fn unsubscribe(&mut self, identity: u64)
        requires
            old(self).wf(),
        ensures
            final(self).wf(),
            final(self).log == old(self).log,
            final(self).history == old(self).history,
            !old(self).spec_has_subscriber(identity) ==> final(self).subs@ == old(self).subs@,
            forall|k: int|
                0 <= k < old(self).subs@.len() && old(self).subs@[k].identity == identity
                    ==> final(self).subs@ == old(self).subs@.remove(k),
            !final(self).spec_has_subscriber(identity),
    {
        match self.find_sub(identity) {
            None => {},
            Some(k) => {
                let removed = self.subs.remove(k);
                proof {
                    assert forall|i: int|
                        0 <= i < self.subs@.len() implies sub_wf(
                        #[trigger] self.subs@[i],
                        self.log@,
                    ) by {
                        if i < k {
                            assert(self.subs@[i] == old(self).subs@[i]);
                        } else {
                            assert(self.subs@[i] == old(self).subs@[i + 1]);
                        }
                    }
                    assert forall|i: int|
                        0 <= i < self.subs@.len() implies self.subs@[i].identity != identity by {
                        if i < k {
                            assert(self.subs@[i] == old(self).subs@[i]);
                        } else {
                            assert(self.subs@[i] == old(self).subs@[i + 1]);
                        }
                    }
                }
            },
        }
    }

    /// A point-in-time copy of the history buffer, oldest first.
    pub fn snapshot(&self) -> (r: Vec<BroadcastEvent>)
        ensures
            events_of(r@) == self.history.model(),
    {
        self.history.snapshot()
    }
}

/// The history buffer never holds more than its capacity, and once more
/// events were published than fit, the oldest retained entry is exactly the
/// first publish that has not yet been evicted: eviction is strict FIFO.
pub proof fn lemma_hub_history_window(h: Hub)
    requires
        h.wf(),
    ensures
        h.history.model().len() <= h.history.capacity,
        h.published().len() <= h.history.capacity ==> h.history.model() == h.published(),
        h.published().len() > h.history.capacity ==> h.history.model().len()
            == h.history.capacity && h.history.model()[0] == h.published()[h.published().len()
            - h.history.capacity],
{
    crate::history::lemma_history_window(h.published(), h.history.capacity as nat);
}

/// Self-echo suppression is exact: every event a subscription ever receives
/// was published, after it subscribed, by a session other than its own.
pub proof fn lemma_no_self_echo(h: Hub, i: int, t: int)
    requires
        h.wf(),
        0 <= i < h.subs@.len(),
        0 <= t < h.subs@[i].delivered().len(),
    ensures
        exists|k: int|
            {
                let s = h.subs@[i];
                &&& s.start@ <= k < h.log@.len()
                &&& (#[trigger] h.log@[k]).publisher != s.identity
                &&& h.log@[k].event == s.delivered()[t]
            },
{
    let s = h.subs@[i];
    let tail = h.log@.skip(s.start@);
    let oth = others_of(tail, s.identity);
    crate::stream::lemma_subseq_contains(s.delivered(), oth, t);
    let u = choose|u: int| 0 <= u < oth.len() && oth[u] == s.delivered()[t];
    crate::stream::lemma_others_of_member(tail, s.identity, u);
    let k0 = choose|k: int|
        0 <= k < tail.len() && tail[k].publisher != s.identity && #[trigger] tail[k].event
            == oth[u];
    assert(tail[k0] == h.log@[k0 + s.start@]);
    assert((h.log@[k0 + s.start@]).publisher != s.identity && h.log@[k0 + s.start@].event
        == s.delivered()[t]);
}

/// Per-publisher order is kept: when one session's two publishes stand in
/// the log with only other sessions' publishes around them, a subscription
/// that has never lagged receives the first strictly before the second.
pub proof fn lemma_per_publisher_order(
    h: Hub,
    i: int,
    a: u64,
    e1: EventModel,
    e2: EventModel,
    l1: Seq<LogEntry>,
    l2: Seq<LogEntry>,
    l3: Seq<LogEntry>,
)
    requires
        h.wf(),
        0 <= i < h.subs@.len(),
        !h.subs@[i].lagged,
        a != h.subs@[i].identity,
        h.log@.skip(h.subs@[i].start@) == l1 + seq![LogEntry { publisher: a, event: e1 }] + l2
            + seq![LogEntry { publisher: a, event: e2 }] + l3,
    ensures
        ({
            let id = h.subs@[i].identity;
            let stream = h.subs@[i].delivered();
            let p1 = others_of(l1, id).len() as int;
            let p2 = others_of(l1, id).len() + 1 + others_of(l2, id).len();
            &&& stream == others_of(l1, id) + seq![e1] + others_of(l2, id) + seq![e2]
                + others_of(l3, id)
            &&& 0 <= p1 < p2 < stream.len()
            &&& stream[p1] == e1
            &&& stream[p2 as int] == e2
        }),
{
    let id = h.subs@[i].identity;
    let s1 = seq![LogEntry { publisher: a, event: e1 }];
    let s2 = seq![LogEntry { publisher: a, event: e2 }];
    crate::stream::lemma_others_of_concat(l1 + s1 + l2 + s2, l3, id);
    crate::stream::lemma_others_of_concat(l1 + s1 + l2, s2, id);
    crate::stream::lemma_others_of_concat(l1 + s1, l2, id);
    crate::stream::lemma_others_of_concat(l1, s1, id);
    assert(s1.drop_last() =~= Seq::<LogEntry>::empty());
    assert(s2.drop_last() =~= Seq::<LogEntry>::empty());
    assert(others_of(Seq::<LogEntry>::empty(), id) =~= Seq::<EventModel>::empty());
    assert(others_of(s1, id) =~= seq![e1]);
    assert(others_of(s2, id) =~= seq![e2]);
    let stream = h.subs@[i].delivered();
    assert(stream == others_of(l1, id) + seq![e1] + others_of(l2, id) + seq![e2] + others_of(
        l3,
        id,
    ));
    let p1 = others_of(l1, id).len() as int;
    let p2 = others_of(l1, id).len() + 1 + others_of(l2, id).len();
    assert(stream[p1] == e1);
    assert(stream[p2 as int] == e2);
}

} // verus!
