use note_relay::Note;
use note_relay::codec::decode_join;
use note_relay::codec::decode_note;
use note_relay::codec::encode_event;
use note_relay::codec::encode_note;
use note_relay::codec::encode_u64;
use note_relay::event::BroadcastEvent;
use note_relay::event::Position;

fn bytes(s: &str) -> Vec<u8> {
    s.as_bytes().to_vec()
}

#[test]
fn decodes_every_pitch_class_token() {
    let cases: Vec<(&str, Note)> = vec![
        ("C", Note::C),
        ("C#", Note::Cs),
        ("D", Note::D),
        ("D#", Note::Ds),
        ("E", Note::E),
        ("F", Note::F),
        ("F#", Note::Fs),
        ("G", Note::G),
        ("G#", Note::Gs),
        ("A", Note::A),
        ("A#", Note::As),
        ("B", Note::B),
    ];
    for (token, expected) in cases {
        assert_eq!(decode_note(&bytes(token)), Some(expected));
    }
}

#[test]
fn encode_note_round_trips() {
    let notes = vec![
        Note::C,
        Note::Cs,
        Note::D,
        Note::Ds,
        Note::E,
        Note::F,
        Note::Fs,
        Note::G,
        Note::Gs,
        Note::A,
        Note::As,
        Note::B,
    ];
    for n in notes {
        let encoded = encode_note(n);
        assert_eq!(decode_note(&encoded), Some(n));
    }
}

#[test]
fn rejects_h_token() {
    assert_eq!(decode_note(&bytes("H")), None);
}

#[test]
fn rejects_tokens_outside_the_closed_set() {
    assert_eq!(decode_note(&bytes("")), None);
    assert_eq!(decode_note(&bytes("c")), None);
    assert_eq!(decode_note(&bytes("E#")), None);
    assert_eq!(decode_note(&bytes("B#")), None);
    assert_eq!(decode_note(&bytes("C##")), None);
    assert_eq!(decode_note(&bytes("Db")), None);
    assert_eq!(decode_note(&bytes("#")), None);
}

#[test]
fn decodes_a_well_formed_join_payload() {
    let p = bytes("{\"displayId\":\"a\",\"coords\":{\"lat\":1,\"long\":2}}");
    let j = decode_join(&p).expect("payload is well formed");
    assert_eq!(j.display_id, bytes("a"));
    assert_eq!(j.position.lat, bytes("1"));
    assert_eq!(j.position.long, bytes("2"));
}

#[test]
fn decodes_fractional_and_negative_coordinates() {
    let p = bytes("{\"displayId\":\"alice\",\"coords\":{\"lat\":-12.5,\"long\":3.25e1}}");
    let j = decode_join(&p).expect("payload is well formed");
    assert_eq!(j.display_id, bytes("alice"));
    assert_eq!(j.position.lat, bytes("-12.5"));
    assert_eq!(j.position.long, bytes("3.25e1"));
}

#[test]
fn rejects_join_missing_display_id() {
    let p = bytes("{\"coords\":{\"lat\":1,\"long\":2}}");
    assert!(decode_join(&p).is_none());
}

#[test]
fn rejects_join_missing_coords() {
    let p = bytes("{\"displayId\":\"a\"}");
    assert!(decode_join(&p).is_none());
}

#[test]
fn rejects_non_join_first_payload() {
    assert!(decode_join(&bytes("C")).is_none());
    assert!(decode_join(&bytes("")).is_none());
    assert!(decode_join(&bytes("{}")).is_none());
}

#[test]
fn rejects_join_with_empty_coordinate() {
    let p = bytes("{\"displayId\":\"a\",\"coords\":{\"lat\":,\"long\":2}}");
    assert!(decode_join(&p).is_none());
}

#[test]
fn rejects_join_with_trailing_bytes() {
    let p = bytes("{\"displayId\":\"a\",\"coords\":{\"lat\":1,\"long\":2}}x");
    assert!(decode_join(&p).is_none());
}

#[test]
fn rejects_join_with_escape_in_display_id() {
    let p = bytes("{\"displayId\":\"a\\\"b\",\"coords\":{\"lat\":1,\"long\":2}}");
    assert!(decode_join(&p).is_none());
}

#[test]
fn encode_u64_gives_decimal_digits() {
    assert_eq!(encode_u64(0), bytes("0"));
    assert_eq!(encode_u64(7), bytes("7"));
    assert_eq!(encode_u64(10), bytes("10"));
    assert_eq!(encode_u64(1234567890), bytes("1234567890"));
    assert_eq!(encode_u64(u64::MAX), bytes("18446744073709551615"));
}

#[test]
fn encode_event_gives_exact_payload() {
    let ev = BroadcastEvent {
        display_id: bytes("a"),
        position: Position { lat: bytes("1"), long: bytes("2") },
        timestamp_ms: 1234,
        note: Note::Cs,
    };
    let out = encode_event(&ev);
    assert_eq!(
        out,
        bytes(
            "{\"displayId\":\"a\",\"coords\":{\"lat\":1,\"long\":2},\"timestamp\":1234,\"note\":\"C#\"}"
        )
    );
}

#[test]
fn display_id_may_hold_any_bytes_but_quote_and_backslash() {
    let p = bytes("{\"displayId\":\"a b{,}:#\",\"coords\":{\"lat\":1,\"long\":2}}");
    let j = decode_join(&p).expect("payload is well formed");
    assert_eq!(j.display_id, bytes("a b{,}:#"));
}
