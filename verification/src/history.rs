//! The history buffer: a bounded FIFO of the most recent broadcast events,
//! appended to on every publish and read once, as a snapshot, by each newly
//! joined session.

use std::collections::VecDeque;
use vstd::prelude::*;

use crate::event::BroadcastEvent;
use crate::event::EventModel;

verus! {

/// The models of a run of broadcast events.
pub open spec fn events_of(s: Seq<BroadcastEvent>) -> Seq<EventModel> {
    s.map_values(|e: BroadcastEvent| e@)
}

/// Indexing into the models of a run of events.
pub proof fn lemma_events_of_index(s: Seq<BroadcastEvent>, t: int)
    requires
        0 <= t < s.len(),
    ensures
        events_of(s).len() == s.len(),
        events_of(s)[t] == s[t]@,
{
}

/// The models of a run are as long as the run.
pub proof fn lemma_events_of_len(s: Seq<BroadcastEvent>)
    ensures
        events_of(s).len() == s.len(),
{
}

/// What a bounded FIFO holds after one more event: the event goes to the
/// tail, and if the buffer was full the oldest entry leaves first.
pub open spec fn fifo_push(h: Seq<EventModel>, e: EventModel, cap: nat) -> Seq<EventModel> {
    if h.len() < cap {
        h.push(e)
    } else {
        h.drop_first().push(e)
    }
}

/// What the buffer holds after a whole run of publishes: the last `cap` of
/// them, oldest first.
pub open spec fn history_model(pubs: Seq<EventModel>, cap: nat) -> Seq<EventModel> {
    if pubs.len() <= cap {
        pubs
    } else {
        pubs.skip(pubs.len() - cap)
    }
}

/// A bounded FIFO of the last `capacity` broadcast events.
pub struct HistoryBuffer {
    pub entries: VecDeque<BroadcastEvent>,
    pub capacity: usize,
}

impl HistoryBuffer {
    /// The buffer's contents, oldest first.
    pub open spec fn model(self) -> Seq<EventModel> {
        events_of(self.entries@)
    }

    /// The buffer never outgrows its capacity.
    pub open spec fn wf(self) -> bool {
        self.capacity >= 1 && self.entries@.len() <= self.capacity
    }

    /// An empty buffer.
    pub fn new(capacity: usize) -> (r: HistoryBuffer)
        requires
            capacity >= 1,
        ensures
            r.wf(),
            r.model() == Seq::<EventModel>::empty(),
            r.capacity == capacity,
    {
        let r = HistoryBuffer { entries: VecDeque::new(), capacity };
        proof {
            assert(r.model() =~= Seq::<EventModel>::empty());
        }
        r
    }

    /// Append one event, evicting the oldest entry first when full.
    pub fn append(&mut self, e: BroadcastEvent)
        requires
            old(self).wf(),
        ensures
            final(self).wf(),
            final(self).capacity == old(self).capacity,
            final(self).model() == fifo_push(
                old(self).model(),
                e@,
                old(self).capacity as nat,
            ),
    {
        let ghost pre = self.model();
        if self.entries.len() == self.capacity {
            let evicted = self.entries.pop_front();
            proof {
                assert(events_of(self.entries@) =~= pre.drop_first());
            }
        }
        let ghost mid = self.model();
        self.entries.push_back(e);
        proof {
            assert(events_of(self.entries@) =~= mid.push(e@));
        }
    }

    /// A point-in-time copy of the contents, oldest first.
    pub fn snapshot(&self) -> (r: Vec<BroadcastEvent>)
        ensures
            events_of(r@) == self.model(),
    {
        let mut r: Vec<BroadcastEvent> = Vec::new();
        let mut i: usize = 0;
        while i < self.entries.len()
            invariant
                i <= self.entries@.len(),
                r@.len() == i,
                forall|t: int| 0 <= t < i ==> (#[trigger] r@[t])@ == self.entries@[t]@,
            decreases self.entries@.len() - i,
        {
            let d = self.entries[i].duplicate();
            r.push(d);
            i = i + 1;
        }
        proof {
            lemma_events_of_len(r@);
            lemma_events_of_len(self.entries@);
            assert forall|t: int| 0 <= t < r@.len() implies events_of(r@)[t]
                == self.model()[t] by {
                lemma_events_of_index(r@, t);
                lemma_events_of_index(self.entries@, t);
            }
            assert(events_of(r@) =~= self.model());
        }
        r
    }
}

/// A buffer that held the last `cap` publishes still holds the last `cap`
/// after one more: appending commutes with the window.
pub proof fn lemma_fifo_tracks(pubs: Seq<EventModel>, e: EventModel, cap: nat)
    requires
        cap >= 1,
    ensures
        fifo_push(history_model(pubs, cap), e, cap) == history_model(pubs.push(e), cap),
{
    assert(fifo_push(history_model(pubs, cap), e, cap) =~= history_model(pubs.push(e), cap));
}

/// The window never holds more than `cap` entries, and once more than `cap`
/// events were published the oldest retained entry is exactly the first
/// publish that has not yet been evicted.
pub proof fn lemma_history_window(pubs: Seq<EventModel>, cap: nat)
    requires
        cap >= 1,
    ensures
        history_model(pubs, cap).len() <= cap,
        pubs.len() <= cap ==> history_model(pubs, cap) == pubs,
        pubs.len() > cap ==> history_model(pubs, cap).len() == cap && history_model(pubs, cap)[0]
            == pubs[pubs.len() - cap],
        forall|t: int|
            0 <= t < history_model(pubs, cap).len() ==> #[trigger] history_model(pubs, cap)[t]
                == pubs[pubs.len() - history_model(pubs, cap).len() + t],
{
}

} // verus!
