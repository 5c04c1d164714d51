//! The event model: notes, positions, join announcements and broadcast
//! events, together with the ghost models that contracts speak of.
//!
//! Coordinates arrive on the wire as decimal text inside the join payload.
//! The relay never computes with them — it captures them at join time and
//! carries them verbatim into every event it fans out — so the library holds
//! each coordinate as the exact byte text it arrived as.

use vstd::prelude::*;

verus! {

/// The twelve chromatic pitch classes.  Decoding is a closed set: any other
/// token is a protocol error, never a silent default.
#[derive(Clone, Copy, PartialEq, Eq, Structural, Debug)]
pub enum Note {
    C,
    Cs,
    D,
    Ds,
    E,
    F,
    Fs,
    G,
    Gs,
    A,
    As,
    B,
}

/// A client position: a pair of coordinates, each kept as the decimal text
/// it arrived as in the join payload.
pub struct Position {
    pub lat: Vec<u8>,
    pub long: Vec<u8>,
}

/// The mathematical model of a `Position`.
pub ghost struct PositionModel {
    pub lat: Seq<u8>,
    pub long: Seq<u8>,
}

impl View for Position {
    type V = PositionModel;

    open spec fn view(&self) -> PositionModel {
        PositionModel { lat: self.lat@, long: self.long@ }
    }
}

/// The first payload of every session: a client-supplied display id and a
/// position.  Never stored in history; it only establishes session identity.
pub struct JoinAnnouncement {
    pub display_id: Vec<u8>,
    pub position: Position,
}

/// The mathematical model of a `JoinAnnouncement`.
pub ghost struct JoinModel {
    pub display_id: Seq<u8>,
    pub position: PositionModel,
}

impl View for JoinAnnouncement {
    type V = JoinModel;

    open spec fn view(&self) -> JoinModel {
        JoinModel { display_id: self.display_id@, position: self.position@ }
    }
}

/// One unit of fan-out: a note, attributed to a display id and position,
/// stamped with milliseconds since the epoch.  Immutable once constructed.
pub struct BroadcastEvent {
    pub display_id: Vec<u8>,
    pub position: Position,
    pub timestamp_ms: u64,
    pub note: Note,
}

/// The mathematical model of a `BroadcastEvent`.
pub ghost struct EventModel {
    pub display_id: Seq<u8>,
    pub position: PositionModel,
    pub timestamp_ms: u64,
    pub note: Note,
}

impl View for BroadcastEvent {
    type V = EventModel;

    open spec fn view(&self) -> EventModel {
        EventModel {
            display_id: self.display_id@,
            position: self.position@,
            timestamp_ms: self.timestamp_ms,
            note: self.note,
        }
    }
}

/// Byte-for-byte copy of a byte string.
pub fn clone_bytes(v: &Vec<u8>) -> (r: Vec<u8>)
    ensures
        r@ == v@,
{
    let mut r: Vec<u8> = Vec::new();
    let mut i: usize = 0;
    while i < v.len()
        invariant
            i <= v.len(),
            r@ == v@.take(i as int),
        decreases v.len() - i,
    {
        r.push(v[i]);
        proof {
            assert(r@ =~= v@.take(i as int + 1));
        }
        i = i + 1;
    }
    proof {
        assert(v@.take(v@.len() as int) =~= v@);
    }
    r
}

impl Position {
    /// A copy with the same model.
    pub fn duplicate(&self) -> (r: Position)
        ensures
            r@ == self@,
    {
        Position { lat: clone_bytes(&self.lat), long: clone_bytes(&self.long) }
    }
}

impl BroadcastEvent {
    /// A copy with the same model.
    pub fn duplicate(&self) -> (r: BroadcastEvent)
        ensures
            r@ == self@,
    {
        BroadcastEvent {
            display_id: clone_bytes(&self.display_id),
            position: self.position.duplicate(),
            timestamp_ms: self.timestamp_ms,
            note: self.note,
        }
    }
}

} // verus!
