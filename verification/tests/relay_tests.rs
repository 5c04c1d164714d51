use note_relay::Note;
use note_relay::event::BroadcastEvent;
use note_relay::event::Position;
use note_relay::history::HistoryBuffer;
use note_relay::hub::Hub;
use note_relay::session::IdentityGen;
use note_relay::session::SessionAction;
use note_relay::session::SessionState;
use note_relay::session::next_outbound;
use note_relay::session::open_writer;
use note_relay::session::session_step;

fn bytes(s: &str) -> Vec<u8> {
    s.as_bytes().to_vec()
}

fn event(id: &str, lat: &str, long: &str, ts: u64, note: Note) -> BroadcastEvent {
    BroadcastEvent {
        display_id: bytes(id),
        position: Position { lat: bytes(lat), long: bytes(long) },
        timestamp_ms: ts,
        note,
    }
}

#[test]
fn history_keeps_everything_below_capacity() {
    let mut h = HistoryBuffer::new(3);
    h.append(event("a", "1", "2", 1, Note::C));
    h.append(event("a", "1", "2", 2, Note::D));
    let snap = h.snapshot();
    assert_eq!(snap.len(), 2);
    assert_eq!(snap[0].timestamp_ms, 1);
    assert_eq!(snap[1].timestamp_ms, 2);
}

#[test]
fn history_evicts_oldest_first() {
    let mut h = HistoryBuffer::new(3);
    for t in 1..=5u64 {
        h.append(event("a", "1", "2", t, Note::C));
        assert!(h.snapshot().len() <= 3);
    }
    let snap = h.snapshot();
    assert_eq!(snap.len(), 3);
    // After five appends into a buffer of three, the oldest retained entry
    // is the third one published.
    assert_eq!(snap[0].timestamp_ms, 3);
    assert_eq!(snap[1].timestamp_ms, 4);
    assert_eq!(snap[2].timestamp_ms, 5);
}

#[test]
fn publisher_never_hears_its_own_event() {
    let mut hub = Hub::new(8);
    hub.subscribe(0, 4);
    hub.subscribe(1, 4);
    hub.publish(0, &event("a", "1", "2", 10, Note::C));
    // The other session receives it; the publisher does not.
    let got = hub.take(1).expect("other session receives the event");
    assert_eq!(got.note, Note::C);
    assert_eq!(got.display_id, bytes("a"));
    assert!(hub.take(0).is_none());
}

#[test]
fn take_from_unknown_identity_is_none() {
    let mut hub = Hub::new(8);
    assert!(hub.take(42).is_none());
}

#[test]
fn per_publisher_order_is_kept() {
    let mut hub = Hub::new(8);
    hub.subscribe(0, 4);
    hub.subscribe(1, 4);
    hub.publish(0, &event("a", "1", "2", 1, Note::C));
    hub.publish(0, &event("a", "1", "2", 2, Note::D));
    let first = hub.take(1).expect("first event");
    let second = hub.take(1).expect("second event");
    assert_eq!(first.note, Note::C);
    assert_eq!(second.note, Note::D);
    assert!(hub.take(1).is_none());
}

#[test]
fn full_queue_drops_oldest_undelivered() {
    let mut hub = Hub::new(8);
    hub.subscribe(0, 4);
    hub.subscribe(1, 1);
    hub.publish(0, &event("a", "1", "2", 1, Note::C));
    hub.publish(0, &event("a", "1", "2", 2, Note::D));
    // The lagging subscriber's queue held one entry; the older one was
    // dropped to make room for the newer.
    let got = hub.take(1).expect("newest event kept");
    assert_eq!(got.note, Note::D);
    assert!(hub.take(1).is_none());
}

#[test]
fn unsubscribe_discards_the_queue() {
    let mut hub = Hub::new(8);
    hub.subscribe(0, 4);
    hub.subscribe(1, 4);
    hub.publish(0, &event("a", "1", "2", 1, Note::C));
    assert!(hub.has_subscriber(1));
    hub.unsubscribe(1);
    assert!(!hub.has_subscriber(1));
    assert!(hub.take(1).is_none());
}

#[test]
fn identities_increase_and_never_repeat() {
    let mut g = IdentityGen::new();
    assert_eq!(g.fresh(), 0);
    assert_eq!(g.fresh(), 1);
    assert_eq!(g.fresh(), 2);
}

#[test]
fn join_activates_the_session() {
    let state = SessionState::AwaitingJoin { identity: 5 };
    let payload = bytes("{\"displayId\":\"a\",\"coords\":{\"lat\":1,\"long\":2}}");
    let (next, action) = session_step(state, &payload, 100);
    assert!(matches!(action, SessionAction::Quiet));
    match next {
        SessionState::Active { identity, display_id, position } => {
            assert_eq!(identity, 5);
            assert_eq!(display_id, bytes("a"));
            assert_eq!(position.lat, bytes("1"));
            assert_eq!(position.long, bytes("2"));
        }
        _ => panic!("expected the session to become active"),
    }
}

#[test]
fn malformed_join_closes_the_session() {
    let state = SessionState::AwaitingJoin { identity: 5 };
    let (next, action) = session_step(state, &bytes("{\"coords\":{\"lat\":1,\"long\":2}}"), 100);
    assert!(matches!(next, SessionState::Closed));
    assert!(matches!(action, SessionAction::CloseSession));
}

#[test]
fn non_join_first_payload_closes_the_session() {
    let state = SessionState::AwaitingJoin { identity: 5 };
    let (next, action) = session_step(state, &bytes("C"), 100);
    assert!(matches!(next, SessionState::Closed));
    assert!(matches!(action, SessionAction::CloseSession));
}

#[test]
fn note_payload_publishes_a_stamped_event() {
    let state = SessionState::Active {
        identity: 5,
        display_id: bytes("a"),
        position: Position { lat: bytes("1"), long: bytes("2") },
    };
    let (next, action) = session_step(state, &bytes("G#"), 777);
    match action {
        SessionAction::Publish(ev) => {
            assert_eq!(ev.display_id, bytes("a"));
            assert_eq!(ev.position.lat, bytes("1"));
            assert_eq!(ev.position.long, bytes("2"));
            assert_eq!(ev.timestamp_ms, 777);
            assert_eq!(ev.note, Note::Gs);
        }
        _ => panic!("expected a publish action"),
    }
    assert!(matches!(next, SessionState::Active { .. }));
}

#[test]
fn invalid_note_closes_only_that_session() {
    let mut hub = Hub::new(8);
    hub.subscribe(0, 4);
    hub.subscribe(1, 4);
    let state = SessionState::Active {
        identity: 0,
        display_id: bytes("a"),
        position: Position { lat: bytes("1"), long: bytes("2") },
    };
    let (next, action) = session_step(state, &bytes("H"), 100);
    assert!(matches!(next, SessionState::Closed));
    assert!(matches!(action, SessionAction::CloseSession));
    // The hub and the other session are untouched: a publish from another
    // session still reaches its subscriber.
    hub.unsubscribe(0);
    hub.publish(2, &event("b", "3", "4", 5, Note::E));
    let got = hub.take(1).expect("other session still served");
    assert_eq!(got.note, Note::E);
}

#[test]
fn closed_session_stays_closed() {
    let (next, action) = session_step(SessionState::Closed, &bytes("C"), 100);
    assert!(matches!(next, SessionState::Closed));
    assert!(matches!(action, SessionAction::Quiet));
}

#[test]
fn newcomer_replays_snapshot_before_live_events() {
    let mut hub = Hub::new(8);
    hub.subscribe(7, 4);
    hub.publish(7, &event("a", "1", "2", 1, Note::C));
    hub.publish(7, &event("a", "1", "2", 2, Note::D));
    // The newcomer's writer first drains the snapshot taken at join time...
    let mut w = open_writer(&mut hub, 9, 4);
    let first = next_outbound(&mut w, &mut hub).expect("first snapshot entry");
    let second = next_outbound(&mut w, &mut hub).expect("second snapshot entry");
    assert_eq!(first.timestamp_ms, 1);
    assert_eq!(second.timestamp_ms, 2);
    // ... and only then the live events published after it subscribed.
    hub.publish(7, &event("a", "1", "2", 3, Note::E));
    let live = next_outbound(&mut w, &mut hub).expect("live event");
    assert_eq!(live.timestamp_ms, 3);
    assert_eq!(live.note, Note::E);
    assert!(next_outbound(&mut w, &mut hub).is_none());
}

#[test]
fn end_to_end_one_note_reaches_only_the_other_client() {
    let mut ids = IdentityGen::new();
    let mut hub = Hub::new(1024);

    // Client A joins.
    let a_id = ids.fresh();
    let a_state = SessionState::AwaitingJoin { identity: a_id };
    let join_a = bytes("{\"displayId\":\"a\",\"coords\":{\"lat\":1,\"long\":2}}");
    let (a_state, _) = session_step(a_state, &join_a, 1000);
    let mut a_writer = open_writer(&mut hub, a_id, 1024);

    // Client B joins after A.
    let b_id = ids.fresh();
    let b_state = SessionState::AwaitingJoin { identity: b_id };
    let join_b = bytes("{\"displayId\":\"b\",\"coords\":{\"lat\":3,\"long\":4}}");
    let (_b_state, _) = session_step(b_state, &join_b, 1001);
    let mut b_writer = open_writer(&mut hub, b_id, 1024);

    // A sends "C".
    let now: u64 = 1002;
    let (_a_state, action) = session_step(a_state, &bytes("C"), now);
    match action {
        SessionAction::Publish(ev) => hub.publish(a_id, &ev),
        _ => panic!("expected a publish action"),
    }

    // B's live stream receives exactly one event, with A's identity,
    // position, note, and the clock reading at receipt.
    let got = next_outbound(&mut b_writer, &mut hub).expect("the one event");
    assert_eq!(got.display_id, bytes("a"));
    assert_eq!(got.position.lat, bytes("1"));
    assert_eq!(got.position.long, bytes("2"));
    assert_eq!(got.note, Note::C);
    assert_eq!(got.timestamp_ms, now);
    assert!(next_outbound(&mut b_writer, &mut hub).is_none());

    // A's own stream receives nothing for its own "C".
    assert!(next_outbound(&mut a_writer, &mut hub).is_none());
}

#[test]
fn history_replay_is_unconditional_even_for_own_events() {
    let mut hub = Hub::new(8);
    hub.subscribe(7, 4);
    hub.publish(7, &event("g", "5", "6", 1, Note::B));
    hub.unsubscribe(7);
    // History necessarily predates a rejoin, so the snapshot replays it
    // even to the session that published it; suppression is live-only.
    let mut w = open_writer(&mut hub, 7, 4);
    let got = next_outbound(&mut w, &mut hub).expect("own historical event replayed");
    assert_eq!(got.timestamp_ms, 1);
    assert_eq!(got.note, Note::B);
    assert!(next_outbound(&mut w, &mut hub).is_none());
}
