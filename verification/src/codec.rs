//! The wire codec for the relay's text payloads.
//!
//! Inbound: the first payload of a session is a join announcement,
//! `{"displayId":"<id>","coords":{"lat":<num>,"long":<num>}}`; every later
//! payload is a single pitch-class token from the closed set
//! `C C# D D# E F F# G G# A A# B`.  Outbound: each broadcast event is encoded
//! as `{"displayId":"<id>","coords":{"lat":<num>,"long":<num>},"timestamp":
//! <ms>,"note":"<token>"}`.
//!
//! The decoders are exact: they return a value if and only if the payload is
//! a well-formed encoding, so a rejection is a protocol violation and never a
//! silent default.  Coordinates are validated by shape (a non-empty run of
//! numeric characters) and carried verbatim; the relay never computes with
//! them.

use vstd::prelude::*;

use crate::event::BroadcastEvent;
use crate::event::EventModel;
use crate::event::JoinAnnouncement;
use crate::event::JoinModel;
use crate::event::Note;
use crate::event::Position;
use crate::event::PositionModel;

verus! {

// Byte values of the ASCII characters the codec matches on.
pub const B_HASH: u8 = 35;
pub const B_UC_A: u8 = 65;
pub const B_UC_B: u8 = 66;
pub const B_UC_C: u8 = 67;
pub const B_UC_D: u8 = 68;
pub const B_UC_E: u8 = 69;
pub const B_UC_F: u8 = 70;
pub const B_UC_G: u8 = 71;

// ---------------------------------------------------------------------------
// Note tokens
// ---------------------------------------------------------------------------

/// The wire token of a pitch class: sharp notation, no flats, no octave.
pub open spec fn note_token(n: Note) -> Seq<u8> {
    match n {
        Note::C => seq![B_UC_C],
        Note::Cs => seq![B_UC_C, B_HASH],
        Note::D => seq![B_UC_D],
        Note::Ds => seq![B_UC_D, B_HASH],
        Note::E => seq![B_UC_E],
        Note::F => seq![B_UC_F],
        Note::Fs => seq![B_UC_F, B_HASH],
        Note::G => seq![B_UC_G],
        Note::Gs => seq![B_UC_G, B_HASH],
        Note::A => seq![B_UC_A],
        Note::As => seq![B_UC_A, B_HASH],
        Note::B => seq![B_UC_B],
    }
}

/// Whether a payload is the token of some pitch class.
pub open spec fn is_note_token(p: Seq<u8>) -> bool {
    exists|n: Note| p == note_token(n)
}

fn byte1(x: u8) -> (r: Vec<u8>)
    ensures
        r@ == seq![x],
{
    let mut r: Vec<u8> = Vec::new();
    r.push(x);
    proof {
        assert(r@ =~= seq![x]);
    }
    r
}

fn byte2(x: u8, y: u8) -> (r: Vec<u8>)
    ensures
        r@ == seq![x, y],
{
    let mut r: Vec<u8> = Vec::new();
    r.push(x);
    r.push(y);
    proof {
        assert(r@ =~= seq![x, y]);
    }
    r
}

/// Encode a pitch class as its wire token.
pub fn encode_note(n: Note) -> (r: Vec<u8>)
    ensures
        r@ == note_token(n),
{
    match n {
        Note::C => byte1(B_UC_C),
        Note::Cs => byte2(B_UC_C, B_HASH),
        Note::D => byte1(B_UC_D),
        Note::Ds => byte2(B_UC_D, B_HASH),
        Note::E => byte1(B_UC_E),
        Note::F => byte1(B_UC_F),
        Note::Fs => byte2(B_UC_F, B_HASH),
        Note::G => byte1(B_UC_G),
        Note::Gs => byte2(B_UC_G, B_HASH),
        Note::A => byte1(B_UC_A),
        Note::As => byte2(B_UC_A, B_HASH),
        Note::B => byte1(B_UC_B),
    }
}

/// Decode a pitch-class token.  Returns the pitch class if and only if the
/// payload is exactly one of the twelve tokens.
pub fn decode_note(p: &Vec<u8>) -> (r: Option<Note>)
    ensures
        match r {
            Some(n) => p@ == note_token(n),
            None => !is_note_token(p@),
        },
{
    if p.len() == 1 {
        let c = p[0];
        let r = if c == B_UC_C {
            Some(Note::C)
        } else if c == B_UC_D {
            Some(Note::D)
        } else if c == B_UC_E {
            Some(Note::E)
        } else if c == B_UC_F {
            Some(Note::F)
        } else if c == B_UC_G {
            Some(Note::G)
        } else if c == B_UC_A {
            Some(Note::A)
        } else if c == B_UC_B {
            Some(Note::B)
        } else {
            None
        };
        proof {
            match r {
                Some(n) => {
                    assert(p@ =~= note_token(n));
                },
                None => {
                    assert forall|n: Note| p@ != note_token(n) by {
                        match n {
                            Note::C => {},
                            Note::Cs => {},
                            Note::D => {},
                            Note::Ds => {},
                            Note::E => {},
                            Note::F => {},
                            Note::Fs => {},
                            Note::G => {},
                            Note::Gs => {},
                            Note::A => {},
                            Note::As => {},
                            Note::B => {},
                        }
                    }
                },
            }
        }
        r
    } else if p.len() == 2 && p[1] == B_HASH {
        let c = p[0];
        let r = if c == B_UC_C {
            Some(Note::Cs)
        } else if c == B_UC_D {
            Some(Note::Ds)
        } else if c == B_UC_F {
            Some(Note::Fs)
        } else if c == B_UC_G {
            Some(Note::Gs)
        } else if c == B_UC_A {
            Some(Note::As)
        } else {
            None
        };
        proof {
            match r {
                Some(n) => {
                    assert(p@ =~= note_token(n));
                },
                None => {
                    assert forall|n: Note| p@ != note_token(n) by {
                        match n {
                            Note::C => {},
                            Note::Cs => {},
                            Note::D => {},
                            Note::Ds => {},
                            Note::E => {},
                            Note::F => {},
                            Note::Fs => {},
                            Note::G => {},
                            Note::Gs => {},
                            Note::A => {},
                            Note::As => {},
                            Note::B => {},
                        }
                    }
                },
            }
        }
        r
    } else {
        proof {
            assert forall|n: Note| p@ != note_token(n) by {
                match n {
                    Note::C => {},
                    Note::Cs => {},
                    Note::D => {},
                    Note::Ds => {},
                    Note::E => {},
                    Note::F => {},
                    Note::Fs => {},
                    Note::G => {},
                    Note::Gs => {},
                    Note::A => {},
                    Note::As => {},
                    Note::B => {},
                }
            }
        }
        None
    }
}

// ---------------------------------------------------------------------------
// Join payloads
// ---------------------------------------------------------------------------

pub const B_QUOTE: u8 = 34;
pub const B_BACKSLASH: u8 = 92;
pub const B_COMMA: u8 = 44;
pub const B_RBRACE: u8 = 125;
pub const B_PLUS: u8 = 43;
pub const B_MINUS: u8 = 45;
pub const B_DOT: u8 = 46;
pub const B_LC_E: u8 = 101;

/// A byte that may appear inside a display id: anything but the closing
/// quote or a backslash (the protocol uses no escape sequences).
pub open spec fn id_byte(b: u8) -> bool {
    b != B_QUOTE && b != B_BACKSLASH
}

/// A byte that may appear inside a coordinate: the characters of decimal
/// and scientific numeric notation.
pub open spec fn coord_byte(b: u8) -> bool {
    (48 <= b && b <= 57) || b == B_MINUS || b == B_PLUS || b == B_DOT || b == B_LC_E || b
        == B_UC_E
}

/// The literal `{"displayId":"`.
pub open spec fn join_head() -> Seq<u8> {
    seq![123u8, 34, 100, 105, 115, 112, 108, 97, 121, 73, 100, 34, 58, 34]
}

/// The literal `","coords":{"lat":`.
pub open spec fn join_mid() -> Seq<u8> {
    seq![34u8, 44, 34, 99, 111, 111, 114, 100, 115, 34, 58, 123, 34, 108, 97, 116, 34, 58]
}

/// The literal `,"long":`.
pub open spec fn join_sep() -> Seq<u8> {
    seq![44u8, 34, 108, 111, 110, 103, 34, 58]
}

/// The literal `}}`.
pub open spec fn join_tail() -> Seq<u8> {
    seq![125u8, 125]
}

/// A display id carries no quote and no backslash.
pub open spec fn valid_display_id(s: Seq<u8>) -> bool {
    forall|k: int| 0 <= k < s.len() ==> id_byte(s[k])
}

/// A coordinate is a non-empty run of numeric characters, carried verbatim.
pub open spec fn valid_coord(s: Seq<u8>) -> bool {
    s.len() > 0 && forall|k: int| 0 <= k < s.len() ==> coord_byte(s[k])
}

/// A join announcement the protocol can carry.
pub open spec fn wf_join(j: JoinModel) -> bool {
    valid_display_id(j.display_id) && valid_coord(j.position.lat) && valid_coord(
        j.position.long,
    )
}

/// The join payload of an announcement:
/// `{"displayId":"<id>","coords":{"lat":<lat>,"long":<long>}}`.
pub open spec fn join_payload(j: JoinModel) -> Seq<u8> {
    join_head() + j.display_id + join_mid() + j.position.lat + join_sep() + j.position.long
        + join_tail()
}

/// Whether a payload is the join payload of some well-formed announcement.
pub open spec fn is_join_payload(p: Seq<u8>) -> bool {
    exists|j: JoinModel| wf_join(j) && p == join_payload(j)
}

/// Where each piece of a join payload stands.
pub proof fn lemma_join_structure(p: Seq<u8>, j: JoinModel)
    requires
        wf_join(j),
        p == join_payload(j),
    ensures
        ({
            let i1 = 14 + j.display_id.len() as int;
            let i2 = i1 + 18;
            let i3 = i2 + j.position.lat.len() as int;
            let i4 = i3 + 8;
            let i5 = i4 + j.position.long.len() as int;
            &&& p.len() == i5 + 2
            &&& p.subrange(0, 14) == join_head()
            &&& p.subrange(14, i1) == j.display_id
            &&& p.subrange(i1, i2) == join_mid()
            &&& p.subrange(i2, i3) == j.position.lat
            &&& p.subrange(i3, i4) == join_sep()
            &&& p.subrange(i4, i5) == j.position.long
            &&& p.subrange(i5, p.len() as int) == join_tail()
            &&& p[i1] == B_QUOTE
            &&& p[i3] == B_COMMA
            &&& p[i5] == B_RBRACE
        }),
{
    let i1 = 14 + j.display_id.len() as int;
    let i2 = i1 + 18;
    let i3 = i2 + j.position.lat.len() as int;
    let i4 = i3 + 8;
    let i5 = i4 + j.position.long.len() as int;
    let s1 = join_head() + j.display_id;
    let s2 = s1 + join_mid();
    let s3 = s2 + j.position.lat;
    let s4 = s3 + join_sep();
    let s5 = s4 + j.position.long;
    assert(p == s5 + join_tail());
    assert(p.len() == i5 + 2);
    assert(p.subrange(0, 14) =~= join_head()) by {
        assert forall|k: int| 0 <= k < 14 implies p.subrange(0, 14)[k] == join_head()[k] by {
            assert(p[k] == s5[k] && s5[k] == s4[k] && s4[k] == s3[k] && s3[k] == s2[k]
                && s2[k] == s1[k] && s1[k] == join_head()[k]);
        }
    }
    assert(p.subrange(14, i1) =~= j.display_id) by {
        assert forall|k: int| 0 <= k < i1 - 14 implies p.subrange(14, i1)[k]
            == j.display_id[k] by {
            assert(p[14 + k] == s5[14 + k] && s5[14 + k] == s4[14 + k] && s4[14 + k] == s3[14
                + k] && s3[14 + k] == s2[14 + k] && s2[14 + k] == s1[14 + k] && s1[14 + k]
                == j.display_id[k]);
        }
    }
    assert(p.subrange(i1, i2) =~= join_mid()) by {
        assert forall|k: int| 0 <= k < 18 implies p.subrange(i1, i2)[k] == join_mid()[k] by {
            assert(p[i1 + k] == s5[i1 + k] && s5[i1 + k] == s4[i1 + k] && s4[i1 + k] == s3[i1
                + k] && s3[i1 + k] == s2[i1 + k] && s2[i1 + k] == join_mid()[k]);
        }
    }
    assert(p.subrange(i2, i3) =~= j.position.lat) by {
        assert forall|k: int| 0 <= k < i3 - i2 implies p.subrange(i2, i3)[k]
            == j.position.lat[k] by {
            assert(p[i2 + k] == s5[i2 + k] && s5[i2 + k] == s4[i2 + k] && s4[i2 + k] == s3[i2
                + k] && s3[i2 + k] == j.position.lat[k]);
        }
    }
    assert(p.subrange(i3, i4) =~= join_sep()) by {
        assert forall|k: int| 0 <= k < 8 implies p.subrange(i3, i4)[k] == join_sep()[k] by {
            assert(p[i3 + k] == s5[i3 + k] && s5[i3 + k] == s4[i3 + k] && s4[i3 + k]
                == join_sep()[k]);
        }
    }
    assert(p.subrange(i4, i5) =~= j.position.long) by {
        assert forall|k: int| 0 <= k < i5 - i4 implies p.subrange(i4, i5)[k]
            == j.position.long[k] by {
            assert(p[i4 + k] == s5[i4 + k] && s5[i4 + k] == j.position.long[k]);
        }
    }
    assert(p.subrange(i5, p.len() as int) =~= join_tail()) by {
        assert forall|k: int| 0 <= k < 2 implies p.subrange(i5, p.len() as int)[k]
            == join_tail()[k] by {
            assert(p[i5 + k] == join_tail()[k]);
        }
    }
    assert(p[i1] == p.subrange(i1, i2)[0]);
    assert(p[i3] == p.subrange(i3, i4)[0]);
    assert(p[i5] == p.subrange(i5, p.len() as int)[0]);
}

/// The display-id bytes of a join payload, seen pointwise.
proof fn lemma_join_id_run(p: Seq<u8>, j: JoinModel)
    requires
        wf_join(j),
        p == join_payload(j),
    ensures
        forall|k: int| 14 <= k < 14 + j.display_id.len() ==> id_byte(#[trigger] p[k]),
        !id_byte(p[14 + j.display_id.len() as int]),
        14 + j.display_id.len() < p.len(),
{
    lemma_join_structure(p, j);
    let i1 = 14 + j.display_id.len() as int;
    assert forall|k: int| 14 <= k < i1 implies id_byte(#[trigger] p[k]) by {
        assert(p[k] == p.subrange(14, i1)[k - 14]);
        assert(id_byte(j.display_id[k - 14]));
    }
    assert(p[i1] == B_QUOTE);
}

/// The latitude bytes of a join payload, seen pointwise.
proof fn lemma_join_lat_run(p: Seq<u8>, j: JoinModel)
    requires
        wf_join(j),
        p == join_payload(j),
    ensures
        ({
            let i2 = 32 + j.display_id.len() as int;
            let i3 = i2 + j.position.lat.len() as int;
            &&& forall|k: int| i2 <= k < i3 ==> coord_byte(#[trigger] p[k])
            &&& !coord_byte(p[i3])
            &&& i3 < p.len()
            &&& j.position.lat.len() > 0
        }),
{
    lemma_join_structure(p, j);
    let i2 = 32 + j.display_id.len() as int;
    let i3 = i2 + j.position.lat.len() as int;
    assert forall|k: int| i2 <= k < i3 implies coord_byte(#[trigger] p[k]) by {
        assert(p[k] == p.subrange(i2, i3)[k - i2]);
        assert(coord_byte(j.position.lat[k - i2]));
    }
    assert(p[i3] == B_COMMA);
}

/// The longitude bytes of a join payload, seen pointwise.
proof fn lemma_join_long_run(p: Seq<u8>, j: JoinModel)
    requires
        wf_join(j),
        p == join_payload(j),
    ensures
        ({
            let i4 = 40 + j.display_id.len() + j.position.lat.len() as int;
            let i5 = i4 + j.position.long.len() as int;
            &&& forall|k: int| i4 <= k < i5 ==> coord_byte(#[trigger] p[k])
            &&& !coord_byte(p[i5])
            &&& i5 < p.len()
            &&& j.position.long.len() > 0
        }),
{
    lemma_join_structure(p, j);
    let i4 = 40 + j.display_id.len() + j.position.lat.len() as int;
    let i5 = i4 + j.position.long.len() as int;
    assert forall|k: int| i4 <= k < i5 implies coord_byte(#[trigger] p[k]) by {
        assert(p[k] == p.subrange(i4, i5)[k - i4]);
        assert(coord_byte(j.position.long[k - i4]));
    }
    assert(p[i5] == B_RBRACE);
}

/// A scan that stops at the first byte outside the display-id class stops
/// exactly where the encoded run of that class ends.
proof fn lemma_scan_pin_id(p: Seq<u8>, lo: int, e: int, i: int)
    requires
        0 <= lo <= e <= p.len(),
        forall|k: int| lo <= k < e ==> id_byte(#[trigger] p[k]),
        e < p.len(),
        !id_byte(p[e]),
        lo <= i <= p.len(),
        forall|k: int| lo <= k < i ==> id_byte(#[trigger] p[k]),
        i == p.len() || !id_byte(p[i]),
    ensures
        i == e,
{
    if i < e {
        assert(id_byte(p[i]));
    }
    if e < i {
        assert(id_byte(p[e]));
    }
}

/// A scan that stops at the first byte outside the coordinate class stops
/// exactly where the encoded run of that class ends.
proof fn lemma_scan_pin_coord(p: Seq<u8>, lo: int, e: int, i: int)
    requires
        0 <= lo <= e <= p.len(),
        forall|k: int| lo <= k < e ==> coord_byte(#[trigger] p[k]),
        e < p.len(),
        !coord_byte(p[e]),
        lo <= i <= p.len(),
        forall|k: int| lo <= k < i ==> coord_byte(#[trigger] p[k]),
        i == p.len() || !coord_byte(p[i]),
    ensures
        i == e,
{
    if i < e {
        assert(coord_byte(p[i]));
    }
    if e < i {
        assert(coord_byte(p[e]));
    }
}

/// A payload whose pieces all match is the join payload of the announcement
/// they assemble to.
pub proof fn lemma_join_assemble(p: Seq<u8>, j: JoinModel)
    requires
        wf_join(j),
        ({
            let i1 = 14 + j.display_id.len() as int;
            let i2 = i1 + 18;
            let i3 = i2 + j.position.lat.len() as int;
            let i4 = i3 + 8;
            let i5 = i4 + j.position.long.len() as int;
            &&& p.len() == i5 + 2
            &&& p.subrange(0, 14) == join_head()
            &&& p.subrange(14, i1) == j.display_id
            &&& p.subrange(i1, i2) == join_mid()
            &&& p.subrange(i2, i3) == j.position.lat
            &&& p.subrange(i3, i4) == join_sep()
            &&& p.subrange(i4, i5) == j.position.long
            &&& p.subrange(i5, p.len() as int) == join_tail()
        }),
    ensures
        p == join_payload(j),
{
    let q = join_payload(j);
    lemma_join_structure(q, j);
    let i1 = 14 + j.display_id.len() as int;
    let i2 = i1 + 18;
    let i3 = i2 + j.position.lat.len() as int;
    let i4 = i3 + 8;
    let i5 = i4 + j.position.long.len() as int;
    assert(q.len() == p.len());
    assert forall|k: int| 0 <= k < p.len() implies p[k] == q[k] by {
        if k < 14 {
            assert(p[k] == p.subrange(0, 14)[k]);
            assert(q[k] == q.subrange(0, 14)[k]);
        } else if k < i1 {
            assert(p[k] == p.subrange(14, i1)[k - 14]);
            assert(q[k] == q.subrange(14, i1)[k - 14]);
        } else if k < i2 {
            assert(p[k] == p.subrange(i1, i2)[k - i1]);
            assert(q[k] == q.subrange(i1, i2)[k - i1]);
        } else if k < i3 {
            assert(p[k] == p.subrange(i2, i3)[k - i2]);
            assert(q[k] == q.subrange(i2, i3)[k - i2]);
        } else if k < i4 {
            assert(p[k] == p.subrange(i3, i4)[k - i3]);
            assert(q[k] == q.subrange(i3, i4)[k - i3]);
        } else if k < i5 {
            assert(p[k] == p.subrange(i4, i5)[k - i4]);
            assert(q[k] == q.subrange(i4, i5)[k - i4]);
        } else {
            assert(p[k] == p.subrange(i5, p.len() as int)[k - i5]);
            assert(q[k] == q.subrange(i5, q.len() as int)[k - i5]);
        }
    }
    assert(p =~= q);
}

fn join_head_vec() -> (r: Vec<u8>)
    ensures
        r@ == join_head(),
{
    let mut r: Vec<u8> = Vec::new();
    r.push(123);
    r.push(34);
    r.push(100);
    r.push(105);
    r.push(115);
    r.push(112);
    r.push(108);
    r.push(97);
    r.push(121);
    r.push(73);
    r.push(100);
    r.push(34);
    r.push(58);
    r.push(34);
    proof {
        assert(r@ =~= join_head());
    }
    r
}

fn join_mid_vec() -> (r: Vec<u8>)
    ensures
        r@ == join_mid(),
{
    let mut r: Vec<u8> = Vec::new();
    r.push(34);
    r.push(44);
    r.push(34);
    r.push(99);
    r.push(111);
    r.push(111);
    r.push(114);
    r.push(100);
    r.push(115);
    r.push(34);
    r.push(58);
    r.push(123);
    r.push(34);
    r.push(108);
    r.push(97);
    r.push(116);
    r.push(34);
    r.push(58);
    proof {
        assert(r@ =~= join_mid());
    }
    r
}

fn join_sep_vec() -> (r: Vec<u8>)
    ensures
        r@ == join_sep(),
{
    let mut r: Vec<u8> = Vec::new();
    r.push(44);
    r.push(34);
    r.push(108);
    r.push(111);
    r.push(110);
    r.push(103);
    r.push(34);
    r.push(58);
    proof {
        assert(r@ =~= join_sep());
    }
    r
}

fn join_tail_vec() -> (r: Vec<u8>)
    ensures
        r@ == join_tail(),
{
    let mut r: Vec<u8> = Vec::new();
    r.push(125);
    r.push(125);
    proof {
        assert(r@ =~= join_tail());
    }
    r
}

/// Whether `seg` stands in `p` starting at `at`.
#[verifier::loop_isolation(false)]
fn is_seg_at(p: &Vec<u8>, at: usize, seg: &Vec<u8>) -> (b: bool)
    requires
        at <= p@.len(),
    ensures
        b <==> (at + seg@.len() <= p@.len() && p@.subrange(
            at as int,
            at + seg@.len(),
        ) == seg@),
{
    if p.len() - at < seg.len() {
        return false;
    }
    let mut k: usize = 0;
    while k < seg.len()
        invariant
            at + seg@.len() <= p@.len(),
            k <= seg@.len(),
            forall|t: int| 0 <= t < k ==> p@[at + t] == seg@[t],
        decreases seg@.len() - k,
    {
        if p[at + k] != seg[k] {
            proof {
                assert(p@.subrange(at as int, at + seg@.len())[k as int] == p@[at + k]);
            }
            return false;
        }
        k = k + 1;
    }
    proof {
        assert(p@.subrange(at as int, at + seg@.len()) =~= seg@);
    }
    true
}

/// The end of the run of display-id bytes that starts at `from`.
#[verifier::loop_isolation(false)]
fn scan_id_end(p: &Vec<u8>, from: usize) -> (i: usize)
    requires
        from <= p@.len(),
    ensures
        from <= i <= p@.len(),
        forall|k: int| from <= k < i ==> id_byte(p@[k]),
        i < p@.len() ==> !id_byte(p@[i as int]),
{
    let mut i = from;
    while i < p.len() && p[i] != B_QUOTE && p[i] != B_BACKSLASH
        invariant
            from <= i <= p@.len(),
            forall|k: int| from <= k < i ==> id_byte(p@[k]),
        decreases p@.len() - i,
    {
        i = i + 1;
    }
    i
}

/// The end of the run of coordinate bytes that starts at `from`.
#[verifier::loop_isolation(false)]
fn scan_coord_end(p: &Vec<u8>, from: usize) -> (i: usize)
    requires
        from <= p@.len(),
    ensures
        from <= i <= p@.len(),
        forall|k: int| from <= k < i ==> coord_byte(p@[k]),
        i < p@.len() ==> !coord_byte(p@[i as int]),
{
    let mut i = from;
    while i < p.len() && ((48 <= p[i] && p[i] <= 57) || p[i] == B_MINUS || p[i] == B_PLUS
        || p[i] == B_DOT || p[i] == B_LC_E || p[i] == B_UC_E)
        invariant
            from <= i <= p@.len(),
            forall|k: int| from <= k < i ==> coord_byte(p@[k]),
        decreases p@.len() - i,
    {
        i = i + 1;
    }
    i
}

/// A copy of the bytes of `p` in `[a, b)`.
#[verifier::loop_isolation(false)]
fn copy_range(p: &Vec<u8>, a: usize, b: usize) -> (r: Vec<u8>)
    requires
        a <= b <= p@.len(),
    ensures
        r@ == p@.subrange(a as int, b as int),
{
    let mut r: Vec<u8> = Vec::new();
    let mut i = a;
    while i < b
        invariant
            a <= i <= b <= p@.len(),
            r@ == p@.subrange(a as int, i as int),
        decreases b - i,
    {
        r.push(p[i]);
        proof {
            assert(r@ =~= p@.subrange(a as int, i + 1));
        }
        i = i + 1;
    }
    r
}

/// A join payload determines its announcement: the encoding is injective on
/// well-formed announcements, so what `decode_join` returns is the one
/// announcement its argument encodes.
pub proof fn lemma_join_unique(p: Seq<u8>, j1: JoinModel, j2: JoinModel)
    requires
        wf_join(j1),
        wf_join(j2),
        p == join_payload(j1),
        p == join_payload(j2),
    ensures
        j1 == j2,
{
    lemma_join_structure(p, j1);
    lemma_join_structure(p, j2);
    lemma_join_id_run(p, j1);
    lemma_join_id_run(p, j2);
    let a1 = 14 + j1.display_id.len() as int;
    let a2 = 14 + j2.display_id.len() as int;
    lemma_scan_pin_id(p, 14, a1, a2);
    assert(j1.display_id == j2.display_id);
    lemma_join_lat_run(p, j1);
    lemma_join_lat_run(p, j2);
    let b1 = a1 + 18 + j1.position.lat.len() as int;
    let b2 = a2 + 18 + j2.position.lat.len() as int;
    lemma_scan_pin_coord(p, a1 + 18, b1, b2);
    assert(j1.position.lat == j2.position.lat);
    let c1 = b1 + 8;
    let e1 = c1 + j1.position.long.len() as int;
    let e2 = c1 + j2.position.long.len() as int;
    assert(p.len() == e1 + 2 && p.len() == e2 + 2);
    assert(j1.position.long == p.subrange(c1, e1) && j2.position.long == p.subrange(c1, e2));
    assert(j1.position == j2.position);
}

/// A payload whose first bytes are not the join-head literal is no join.
proof fn lemma_no_join_head(p: Seq<u8>)
    requires
        !(14 <= p.len() && p.subrange(0, 14) == join_head()),
    ensures
        !is_join_payload(p),
{
    if is_join_payload(p) {
        let jm = choose|jm: JoinModel| wf_join(jm) && p == join_payload(jm);
        lemma_join_structure(p, jm);
    }
}

/// A payload whose display-id run does not end at a quote is no join.
proof fn lemma_no_join_quote(p: Seq<u8>, i: int)
    requires
        14 <= i <= p.len(),
        forall|k: int| 14 <= k < i ==> id_byte(#[trigger] p[k]),
        i < p.len() ==> !id_byte(p[i]),
        i == p.len() || p[i] != B_QUOTE,
    ensures
        !is_join_payload(p),
{
    if is_join_payload(p) {
        let jm = choose|jm: JoinModel| wf_join(jm) && p == join_payload(jm);
        lemma_join_structure(p, jm);
        lemma_join_id_run(p, jm);
        let i1 = 14 + jm.display_id.len() as int;
        lemma_scan_pin_id(p, 14, i1, i);
        assert(p[i1] == B_QUOTE);
    }
}

/// A payload without the coords literal after the display id is no join.
proof fn lemma_no_join_mid(p: Seq<u8>, i: int)
    requires
        14 <= i <= p.len(),
        forall|k: int| 14 <= k < i ==> id_byte(#[trigger] p[k]),
        i < p.len() && p[i] == B_QUOTE,
        !(i + 18 <= p.len() && p.subrange(i, i + 18) == join_mid()),
    ensures
        !is_join_payload(p),
{
    if is_join_payload(p) {
        let jm = choose|jm: JoinModel| wf_join(jm) && p == join_payload(jm);
        lemma_join_structure(p, jm);
        lemma_join_id_run(p, jm);
        let i1 = 14 + jm.display_id.len() as int;
        lemma_scan_pin_id(p, 14, i1, i);
        assert(p.subrange(i1, i1 + 18) == join_mid());
    }
}

/// A payload whose latitude is empty or is not followed by the longitude
/// literal is no join.
proof fn lemma_no_join_lat(p: Seq<u8>, i: int, c: int)
    requires
        14 <= i <= p.len(),
        forall|k: int| 14 <= k < i ==> id_byte(#[trigger] p[k]),
        i < p.len() && p[i] == B_QUOTE,
        i + 18 <= p.len() && p.subrange(i, i + 18) == join_mid(),
        i + 18 <= c <= p.len(),
        forall|k: int| i + 18 <= k < c ==> coord_byte(#[trigger] p[k]),
        c < p.len() ==> !coord_byte(p[c]),
        c == i + 18 || !(c + 8 <= p.len() && p.subrange(c, c + 8) == join_sep()),
    ensures
        !is_join_payload(p),
{
    if is_join_payload(p) {
        let jm = choose|jm: JoinModel| wf_join(jm) && p == join_payload(jm);
        lemma_join_structure(p, jm);
        lemma_join_id_run(p, jm);
        let i1 = 14 + jm.display_id.len() as int;
        lemma_scan_pin_id(p, 14, i1, i);
        lemma_join_lat_run(p, jm);
        let i2 = i1 + 18;
        let i3 = i2 + jm.position.lat.len() as int;
        lemma_scan_pin_coord(p, i2, i3, c);
        assert(c != i + 18);
        assert(p.subrange(i3, i3 + 8) == join_sep());
    }
}

/// A payload whose longitude is empty or that does not end in the tail
/// literal right after it is no join.
proof fn lemma_no_join_long(p: Seq<u8>, i: int, c: int, d: int)
    requires
        14 <= i <= p.len(),
        forall|k: int| 14 <= k < i ==> id_byte(#[trigger] p[k]),
        i < p.len() && p[i] == B_QUOTE,
        i + 18 <= p.len() && p.subrange(i, i + 18) == join_mid(),
        i + 18 <= c <= p.len(),
        forall|k: int| i + 18 <= k < c ==> coord_byte(#[trigger] p[k]),
        c < p.len() ==> !coord_byte(p[c]),
        c + 8 <= p.len() && p.subrange(c, c + 8) == join_sep(),
        c + 8 <= d <= p.len(),
        forall|k: int| c + 8 <= k < d ==> coord_byte(#[trigger] p[k]),
        d < p.len() ==> !coord_byte(p[d]),
        d == c + 8 || !(d + 2 <= p.len() && p.subrange(d, d + 2) == join_tail()) || d + 2
            != p.len(),
    ensures
        !is_join_payload(p),
{
    if is_join_payload(p) {
        let jm = choose|jm: JoinModel| wf_join(jm) && p == join_payload(jm);
        lemma_join_structure(p, jm);
        lemma_join_id_run(p, jm);
        let i1 = 14 + jm.display_id.len() as int;
        lemma_scan_pin_id(p, 14, i1, i);
        lemma_join_lat_run(p, jm);
        let i2 = i1 + 18;
        let i3 = i2 + jm.position.lat.len() as int;
        lemma_scan_pin_coord(p, i2, i3, c);
        lemma_join_long_run(p, jm);
        let i4 = i3 + 8;
        let i5 = i4 + jm.position.long.len() as int;
        lemma_scan_pin_coord(p, i4, i5, d);
        assert(d != c + 8);
        assert(p.subrange(i5, i5 + 2) == join_tail());
        assert(p.len() == i5 + 2);
    }
}

/// Decode a join payload.  Returns the announcement if and only if the
/// payload is the join payload of a well-formed announcement; in particular
/// a payload missing the display id or the coordinates, or any other first
/// payload, is rejected.
pub fn decode_join(p: &Vec<u8>) -> (r: Option<JoinAnnouncement>)
    ensures
        match r {
            Some(j) => wf_join(j@) && p@ == join_payload(j@),
            None => !is_join_payload(p@),
        },
{
    let head = join_head_vec();
    let mid = join_mid_vec();
    let sep = join_sep_vec();
    let tail = join_tail_vec();

    if !is_seg_at(p, 0, &head) {
        proof {
            lemma_no_join_head(p@);
        }
        return None;
    }
    let i = scan_id_end(p, 14);
    if i == p.len() || p[i] != B_QUOTE {
        proof {
            lemma_no_join_quote(p@, i as int);
        }
        return None;
    }
    if !is_seg_at(p, i, &mid) {
        proof {
            lemma_no_join_mid(p@, i as int);
        }
        return None;
    }
    let a = i + 18;
    let c = scan_coord_end(p, a);
    if c == a || !is_seg_at(p, c, &sep) {
        proof {
            lemma_no_join_lat(p@, i as int, c as int);
        }
        return None;
    }
    let d0 = c + 8;
    let d = scan_coord_end(p, d0);
    if d == d0 || !is_seg_at(p, d, &tail) || d + 2 != p.len() {
        proof {
            lemma_no_join_long(p@, i as int, c as int, d as int);
        }
        return None;
    }
    let display_id = copy_range(p, 14, i);
    let lat = copy_range(p, a, c);
    let long = copy_range(p, d0, d);
    let j = JoinAnnouncement { display_id, position: Position { lat, long } };
    proof {
        assert forall|k: int| 0 <= k < j@.display_id.len() implies id_byte(
            #[trigger] j@.display_id[k],
        ) by {
            assert(j@.display_id[k] == p@[14 + k]);
        }
        assert forall|k: int| 0 <= k < j@.position.lat.len() implies coord_byte(
            #[trigger] j@.position.lat[k],
        ) by {
            assert(j@.position.lat[k] == p@[a + k]);
        }
        assert forall|k: int| 0 <= k < j@.position.long.len() implies coord_byte(
            #[trigger] j@.position.long[k],
        ) by {
            assert(j@.position.long[k] == p@[d0 + k]);
        }
        assert(wf_join(j@));
        lemma_join_assemble(p@, j@);
    }
    Some(j)
}

// ---------------------------------------------------------------------------
// Outbound event payloads
// ---------------------------------------------------------------------------

/// The decimal digits of a number, most significant first.
pub open spec fn dec_rep(n: nat) -> Seq<u8>
    decreases n,
{
    if n < 10 {
        seq![(48 + n) as u8]
    } else {
        dec_rep(n / 10).push((48 + n % 10) as u8)
    }
}

/// The literal `},"timestamp":`.
pub open spec fn ts_lit() -> Seq<u8> {
    seq![125u8, 44, 34, 116, 105, 109, 101, 115, 116, 97, 109, 112, 34, 58]
}

/// The literal `,"note":"`.
pub open spec fn note_lit() -> Seq<u8> {
    seq![44u8, 34, 110, 111, 116, 101, 34, 58, 34]
}

/// The literal `"}`.
pub open spec fn end_lit() -> Seq<u8> {
    seq![34u8, 125]
}

/// The outbound payload of a broadcast event:
/// `{"displayId":"<id>","coords":{"lat":<lat>,"long":<long>},"timestamp":
/// <ms>,"note":"<token>"}`.
pub open spec fn event_payload(e: EventModel) -> Seq<u8> {
    join_head() + e.display_id + join_mid() + e.position.lat + join_sep() + e.position.long
        + ts_lit() + dec_rep(e.timestamp_ms as nat) + note_lit() + note_token(e.note)
        + end_lit()
}

/// Append a copy of `src` to `dst`.
#[verifier::loop_isolation(false)]
fn append_bytes(dst: &mut Vec<u8>, src: &Vec<u8>)
    ensures
        final(dst)@ == old(dst)@ + src@,
{
    let mut i: usize = 0;
    while i < src.len()
        invariant
            i <= src@.len(),
            dst@ == old(dst)@ + src@.take(i as int),
        decreases src@.len() - i,
    {
        dst.push(src[i]);
        proof {
            assert(dst@ =~= old(dst)@ + src@.take(i + 1));
        }
        i = i + 1;
    }
    proof {
        assert(old(dst)@ + src@.take(src@.len() as int) =~= old(dst)@ + src@);
    }
}

/// The decimal digits of `x`, most significant first.
#[verifier::loop_isolation(false)]
pub fn encode_u64(x: u64) -> (r: Vec<u8>)
    ensures
        r@ == dec_rep(x as nat),
{
    let mut rev: Vec<u8> = Vec::new();
    let mut v: u64 = x;
    let d0: u8 = (v % 10) as u8 + 48;
    rev.push(d0);
    v = v / 10;
    proof {
        if x < 10 {
            assert(dec_rep(x as nat) =~= rev@.reverse());
        } else {
            assert(dec_rep(x as nat) == dec_rep((x / 10) as nat).push((48 + x % 10) as u8));
            assert(dec_rep(x as nat) =~= dec_rep(v as nat) + rev@.reverse());
        }
    }
    while v > 0
        invariant
            rev@.len() >= 1,
            v > 0 ==> dec_rep(x as nat) == dec_rep(v as nat) + rev@.reverse(),
            v == 0 ==> dec_rep(x as nat) == rev@.reverse(),
        decreases v,
    {
        let ghost rev0 = rev@;
        let ghost v0 = v;
        let d: u8 = (v % 10) as u8 + 48;
        rev.push(d);
        v = v / 10;
        proof {
            assert(rev@.reverse() =~= seq![d] + rev0.reverse());
            if v == 0 {
                assert(dec_rep(v0 as nat) =~= seq![d]);
                assert(dec_rep(x as nat) =~= rev@.reverse());
            } else {
                assert(dec_rep(v0 as nat) == dec_rep((v0 / 10) as nat).push(
                    (48 + v0 % 10) as u8,
                ));
                assert(dec_rep(v0 as nat) + rev0.reverse() =~= dec_rep(v as nat)
                    + rev@.reverse());
            }
        }
    }
    let mut r: Vec<u8> = Vec::new();
    let mut i: usize = rev.len();
    while i > 0
        invariant
            i <= rev@.len(),
            r@.len() == rev@.len() - i,
            forall|t: int| 0 <= t < r@.len() ==> r@[t] == rev@[rev@.len() - 1 - t],
        decreases i,
    {
        i = i - 1;
        r.push(rev[i]);
    }
    proof {
        assert(r@ =~= rev@.reverse());
    }
    r
}

fn ts_lit_vec() -> (r: Vec<u8>)
    ensures
        r@ == ts_lit(),
{
    let mut r: Vec<u8> = Vec::new();
    r.push(125);
    r.push(44);
    r.push(34);
    r.push(116);
    r.push(105);
    r.push(109);
    r.push(101);
    r.push(115);
    r.push(116);
    r.push(97);
    r.push(109);
    r.push(112);
    r.push(34);
    r.push(58);
    proof {
        assert(r@ =~= ts_lit());
    }
    r
}

fn note_lit_vec() -> (r: Vec<u8>)
    ensures
        r@ == note_lit(),
{
    let mut r: Vec<u8> = Vec::new();
    r.push(44);
    r.push(34);
    r.push(110);
    r.push(111);
    r.push(116);
    r.push(101);
    r.push(34);
    r.push(58);
    r.push(34);
    proof {
        assert(r@ =~= note_lit());
    }
    r
}

fn end_lit_vec() -> (r: Vec<u8>)
    ensures
        r@ == end_lit(),
{
    let mut r: Vec<u8> = Vec::new();
    r.push(34);
    r.push(125);
    proof {
        assert(r@ =~= end_lit());
    }
    r
}

/// Encode a broadcast event as its outbound payload.
pub fn encode_event(e: &BroadcastEvent) -> (r: Vec<u8>)
    ensures
        r@ == event_payload(e@),
{
    let mut out = join_head_vec();
    append_bytes(&mut out, &e.display_id);
    let mid = join_mid_vec();
    append_bytes(&mut out, &mid);
    append_bytes(&mut out, &e.position.lat);
    let sep = join_sep_vec();
    append_bytes(&mut out, &sep);
    append_bytes(&mut out, &e.position.long);
    let ts = ts_lit_vec();
    append_bytes(&mut out, &ts);
    let digits = encode_u64(e.timestamp_ms);
    append_bytes(&mut out, &digits);
    let nl = note_lit_vec();
    append_bytes(&mut out, &nl);
    let tok = encode_note(e.note);
    append_bytes(&mut out, &tok);
    let el = end_lit_vec();
    append_bytes(&mut out, &el);
    proof {
        assert(out@ =~= event_payload(e@));
    }
    out
}

} // verus!
