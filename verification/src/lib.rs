//! A verified core for a real-time fan-out relay.
//!
//! Clients announce an identity and a position, then emit note events; the
//! relay rebroadcasts every event to all other connected clients and replays
//! a bounded window of recent history to newcomers.  This crate holds the
//! relay's logic: the event model and payload codec, the bounded FIFO history
//! buffer, the broadcast hub with self-echo suppression and its lag policy,
//! and the per-connection session state machine.  Transport plumbing (socket
//! accept, websocket framing, task scheduling) lives outside the library.

pub mod codec;
pub mod event;
pub mod history;
pub mod hub;
pub mod session;
pub mod stream;

pub use event::BroadcastEvent;
pub use event::JoinAnnouncement;
pub use event::Note;
pub use event::Position;
