//! One node of a gossip-replicated broadcast service: the message envelope, the
//! node runtime with request/reply correlation, the grow-only replicated value set
//! with per-neighbor knowledge, delta-aware gossip, and the event dispatcher.
pub mod envelope;
pub mod node;
pub mod store;
pub mod gossip;
pub mod broadcast;
pub mod laws;

pub use envelope::{Body, BroadcastPayload, InitPayload, Message};
pub use node::{InitError, Node};
pub use store::BroadcastState;
pub use gossip::{get_neighbors, gossip_tick, next_gossip_delay_ms, GOSSIP_BASE_MS, GOSSIP_JITTER_MS};
pub use broadcast::{handle_message, step, BroadcastError, Event};
