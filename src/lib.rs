//! A sharded real-time chat fabric: searchers of the same term are routed to
//! the same room on the same chatroom instance.
//!
//! The library holds the fabric's logic, each part with its contract:
//! the room id of a term (`channel`), the wire frames (`wire`), text and
//! numbers (`text`), the room actor's state machine (`room`), the per-socket
//! session (`session`), the chat store (`store`), an instance's room
//! registry (`registry`), the discovery service's registry of leases and
//! sticky bindings (`discovery`), the search gateway's assembly
//! (`gateway`), socket addresses (`address`) and the local day (`clock`).
pub mod address;
pub mod channel;
pub mod clock;
pub mod discovery;
pub mod gateway;
mod random;
pub mod registry;
pub mod room;
pub mod session;
pub mod store;
pub mod text;
pub mod wire;

pub use channel::get_channel_id;
pub use wire::{ClientToServerMessage, ServerToClientMessage};
