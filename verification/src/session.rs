//! The per-connection session: the protocol state machine driven by inbound
//! payloads, and the writer that replays the history snapshot before
//! draining live deliveries.
//!
//! A protocol violation — a first payload that is not a well-formed join
//! announcement, or a later payload that is not a pitch-class token — closes
//! only this session; the hub and every other session are untouched, which
//! the step function shows by taking no hub at all: it only asks its caller
//! to act.

use vstd::prelude::*;

use crate::codec::decode_join;
use crate::codec::decode_note;
use crate::codec::is_join_payload;
use crate::codec::is_note_token;
use crate::codec::join_payload;
use crate::codec::note_token;
use crate::codec::wf_join;
use crate::event::BroadcastEvent;
use crate::event::EventModel;
use crate::event::JoinModel;
use crate::event::Position;
use crate::event::clone_bytes;
use crate::history::events_of;
use crate::hub::Hub;
use crate::stream::others_of;

verus! {

/// Allocates session identities: an owner-held counter, monotonically
/// increasing, never reused for the life of the process.
pub struct IdentityGen {
    pub next: u64,
}

impl IdentityGen {
    /// A generator that starts at zero.
    pub fn new() -> (g: IdentityGen)
        ensures
            g.next == 0,
    {
        IdentityGen { next: 0 }
    }

    /// The next identity; never handed out twice.
    pub fn fresh(&mut self) -> (id: u64)
        requires
            old(self).next < u64::MAX,
        ensures
            id == old(self).next,
            final(self).next == old(self).next + 1,
    {
        let id = self.next;
        self.next = self.next + 1;
        id
    }
}

/// Where a session stands in its protocol lifecycle.
pub enum SessionState {
    /// The transport is up; exactly one join announcement is owed.
    AwaitingJoin { identity: u64 },
    /// The join handshake is done; the identity and position it established
    /// are stamped onto every event this session publishes.
    Active { identity: u64, display_id: Vec<u8>, position: Position },
    /// Terminal: the session is torn down.
    Closed,
}

/// What the session asks its surroundings to do after one inbound payload.
pub enum SessionAction {
    /// Nothing: keep reading.
    Quiet,
    /// Hand this event to the hub.
    Publish(BroadcastEvent),
    /// Protocol violation: close this session, and only this session.
    CloseSession,
}

/// Drive the session state machine with one inbound payload.
///
/// Awaiting a join: a well-formed join payload activates the session with
/// the announced display id and position; anything else closes it.  Active:
/// a pitch-class token becomes a broadcast event stamped with the captured
/// identity, position and the caller's clock reading; anything else closes
/// the session.  Closed is terminal.
pub fn session_step(state: SessionState, payload: &Vec<u8>, now_ms: u64) -> (r: (
    SessionState,
    SessionAction,
))
    ensures
        match state {
            SessionState::AwaitingJoin { identity } => {
                if is_join_payload(payload@) {
                    &&& r.1 is Quiet
                    &&& match r.0 {
                        SessionState::Active { identity: id2, display_id, position } => {
                            &&& id2 == identity
                            &&& wf_join(
                                JoinModel { display_id: display_id@, position: position@ },
                            )
                            &&& payload@ == join_payload(
                                JoinModel { display_id: display_id@, position: position@ },
                            )
                        },
                        _ => false,
                    }
                } else {
                    r.0 is Closed && r.1 is CloseSession
                }
            },
            SessionState::Active { identity, display_id, position } => {
                if is_note_token(payload@) {
                    &&& match r.1 {
                        SessionAction::Publish(ev) => {
                            &&& ev@.display_id == display_id@
                            &&& ev@.position == position@
                            &&& ev@.timestamp_ms == now_ms
                            &&& payload@ == note_token(ev@.note)
                        },
                        _ => false,
                    }
                    &&& match r.0 {
                        SessionState::Active { identity: id2, display_id: d2, position: p2 } => {
                            id2 == identity && d2@ == display_id@ && p2@ == position@
                        },
                        _ => false,
                    }
                } else {
                    r.0 is Closed && r.1 is CloseSession
                }
            },
            SessionState::Closed => r.0 is Closed && r.1 is Quiet,
        },
{
    match state {
        SessionState::AwaitingJoin { identity } => match decode_join(payload) {
            Some(j) => (
                SessionState::Active { identity, display_id: j.display_id, position: j.position },
                SessionAction::Quiet,
            ),
            None => (SessionState::Closed, SessionAction::CloseSession),
        },
        SessionState::Active { identity, display_id, position } => match decode_note(payload) {
            Some(n) => {
                let ev = BroadcastEvent {
                    display_id: clone_bytes(&display_id),
                    position: position.duplicate(),
                    timestamp_ms: now_ms,
                    note: n,
                };
                (
                    SessionState::Active { identity, display_id, position },
                    SessionAction::Publish(ev),
                )
            },
            None => (SessionState::Closed, SessionAction::CloseSession),
        },
        SessionState::Closed => (SessionState::Closed, SessionAction::Quiet),
    }
}

/// The send side of a session: it replays the history snapshot taken at
/// join time, oldest first, and only then drains live hub deliveries.
pub struct SessionWriter {
    pub identity: u64,
    pub snapshot: Vec<BroadcastEvent>,
    pub cursor: usize,
    pub emitted: Ghost<Seq<EventModel>>,
}

impl SessionWriter {
    /// The models of the snapshot, oldest first.
    pub open spec fn snapshot_models(self) -> Seq<EventModel> {
        events_of(self.snapshot@)
    }

    /// The writer's invariant against the hub: everything it has emitted is
    /// the snapshot prefix it has replayed so far followed by what its
    /// subscription has handed out.
    pub open spec fn wf(self, h: Hub) -> bool {
        &&& self.cursor <= self.snapshot@.len()
        &&& h.spec_has_subscriber(self.identity)
        &&& forall|i: int|
            0 <= i < h.subs@.len() && h.subs@[i].identity == self.identity ==> {
                &&& self.emitted@ == self.snapshot_models().take(self.cursor as int)
                    + #[trigger] h.subs@[i].taken@
                &&& (self.cursor < self.snapshot@.len() ==> h.subs@[i].taken@ == Seq::<
                    EventModel,
                >::empty())
            }
    }
}

/// Open the writer for a newly joined session: snapshot first, subscribe
/// second, so that no event published after the snapshot is missed and none
/// is delivered twice relative to it.
pub fn open_writer(hub: &mut Hub, identity: u64, queue_capacity: usize) -> (w: SessionWriter)
    requires
        old(hub).wf(),
        queue_capacity >= 1,
        !old(hub).spec_has_subscriber(identity),
    ensures
        final(hub).wf(),
        w.wf(*final(hub)),
        final(hub).log == old(hub).log,
        final(hub).history == old(hub).history,
        w.identity == identity,
        w.cursor == 0,
        w.emitted@ == Seq::<EventModel>::empty(),
        w.snapshot_models() == old(hub).history.model(),
        final(hub).subs@.len() == old(hub).subs@.len() + 1,
        forall|i: int|
            0 <= i < old(hub).subs@.len() ==> final(hub).subs@[i] == old(hub).subs@[i],
        ({
            let s = final(hub).subs@.last();
            &&& s.identity == identity
            &&& s.start@ == old(hub).log@.len()
            &&& s.taken@ == Seq::<EventModel>::empty()
            &&& s.queue@.len() == 0
            &&& !s.lagged
        }),
{
    let snapshot = hub.snapshot();
    hub.subscribe(identity, queue_capacity);
    let w = SessionWriter { identity, snapshot, cursor: 0, emitted: Ghost(Seq::empty()) };
    proof {
        let n = hub.subs@.len() as int;
        assert(hub.subs@[n - 1].identity == identity);
        assert forall|i: int|
            0 <= i < hub.subs@.len() && hub.subs@[i].identity == identity implies {
            &&& w.emitted@ == w.snapshot_models().take(w.cursor as int)
                + #[trigger] hub.subs@[i].taken@
            &&& (w.cursor < w.snapshot@.len() ==> hub.subs@[i].taken@ == Seq::<
                EventModel,
            >::empty())
        } by {
            if i < n - 1 {
                assert(old(hub).subs@[i].identity == identity);
                assert(old(hub).spec_has_subscriber(identity));
            }
            assert(w.emitted@ =~= w.snapshot_models().take(0) + hub.subs@[i].taken@);
        }
    }
    w
}

/// The next outbound event of a session, if one is ready: the next snapshot
/// entry while the replay lasts, then the oldest live delivery of its
/// subscription.
pub fn next_outbound(w: &mut SessionWriter, hub: &mut Hub) -> (r: Option<BroadcastEvent>)
    requires
        old(hub).wf(),
        old(w).wf(*old(hub)),
    ensures
        final(hub).wf(),
        final(w).wf(*final(hub)),
        final(hub).log == old(hub).log,
        final(hub).history == old(hub).history,
        final(hub).subs@.len() == old(hub).subs@.len(),
        final(w).identity == old(w).identity,
        final(w).snapshot@ == old(w).snapshot@,
        forall|i: int|
            0 <= i < old(hub).subs@.len() && old(hub).subs@[i].identity != old(w).identity
                ==> final(hub).subs@[i] == old(hub).subs@[i],
        match r {
            Some(ev) => final(w).emitted@ == old(w).emitted@.push(ev@),
            None => final(w).emitted@ == old(w).emitted@,
        },
        old(w).cursor < old(w).snapshot@.len() ==> {
            &&& *final(hub) == *old(hub)
            &&& final(w).cursor == old(w).cursor + 1
            &&& match r {
                Some(ev) => ev@ == old(w).snapshot_models()[old(w).cursor as int],
                None => false,
            }
        },
        old(w).cursor >= old(w).snapshot@.len() ==> {
            &&& final(w).cursor == old(w).cursor
            &&& forall|i: int|
                0 <= i < old(hub).subs@.len() && old(hub).subs@[i].identity == old(w).identity
                    ==> (match r {
                    None => final(hub).subs@[i] == old(hub).subs@[i] && old(
                        hub,
                    ).subs@[i].queue@.len() == 0,
                    Some(ev) => {
                        &&& old(hub).subs@[i].pending().len() > 0
                        &&& ev@ == old(hub).subs@[i].pending()[0]
                        &&& final(hub).subs@[i].delivered() == old(hub).subs@[i].delivered()
                        &&& final(hub).subs@[i].lagged == old(hub).subs@[i].lagged
                    },
                })
        },
{
    if w.cursor < w.snapshot.len() {
        let ev = w.snapshot[w.cursor].duplicate();
        w.cursor = w.cursor + 1;
        proof {
            crate::history::lemma_events_of_index(w.snapshot@, w.cursor as int - 1);
        }
        w.emitted = Ghost(w.emitted@.push(ev@));
        proof {
            assert forall|i: int|
                0 <= i < hub.subs@.len() && hub.subs@[i].identity == w.identity implies {
                &&& w.emitted@ == w.snapshot_models().take(w.cursor as int)
                    + #[trigger] hub.subs@[i].taken@
                &&& (w.cursor < w.snapshot@.len() ==> hub.subs@[i].taken@ == Seq::<
                    EventModel,
                >::empty())
            } by {
                assert(old(w).emitted@ == old(w).snapshot_models().take(w.cursor as int - 1)
                    + hub.subs@[i].taken@);
                assert(hub.subs@[i].taken@ == Seq::<EventModel>::empty());
                assert(w.emitted@ =~= w.snapshot_models().take(w.cursor as int)
                    + hub.subs@[i].taken@);
            }
        }
        Some(ev)
    } else {
        let r = hub.take(w.identity);
        match r {
            Some(ev) => {
                w.emitted = Ghost(w.emitted@.push(ev@));
                proof {
                    assert forall|i: int|
                        0 <= i < hub.subs@.len() && hub.subs@[i].identity == w.identity
                            implies {
                        &&& w.emitted@ == w.snapshot_models().take(w.cursor as int)
                            + #[trigger] hub.subs@[i].taken@
                        &&& (w.cursor < w.snapshot@.len() ==> hub.subs@[i].taken@ == Seq::<
                            EventModel,
                        >::empty())
                    } by {
                        assert(old(hub).subs@[i].identity == w.identity);
                        assert(old(w).emitted@ == old(w).snapshot_models().take(
                            w.cursor as int,
                        ) + old(hub).subs@[i].taken@);
                        assert(w.emitted@ =~= w.snapshot_models().take(w.cursor as int)
                            + hub.subs@[i].taken@);
                    }
                }
                Some(ev)
            },
            None => None,
        }
    }
}

/// A newly joined session's outbound stream begins with the history
/// snapshot taken at join time, oldest first, followed by the live events
/// its subscription hands out; and while the subscription has never lagged,
/// those live events are exactly the events other sessions published after
/// it subscribed, in order — none lost.
pub proof fn lemma_newcomer_stream(w: SessionWriter, h: Hub, i: int)
    requires
        h.wf(),
        w.wf(h),
        0 <= i < h.subs@.len(),
        h.subs@[i].identity == w.identity,
    ensures
        w.emitted@ == w.snapshot_models().take(w.cursor as int) + h.subs@[i].taken@,
        !h.subs@[i].lagged ==> h.subs@[i].taken@ + h.subs@[i].pending() == others_of(
            h.log@.skip(h.subs@[i].start@),
            w.identity,
        ),
{
    assert(crate::hub::sub_wf(h.subs@[i], h.log@));
}

} // verus!
