//! A sans-I/O engine for a small proposal / acknowledgment / commit protocol.
//!
//! A node proposes a new lifecycle state to a fixed set of peers, the peers
//! acknowledge, and once a majority has acknowledged the proposer announces
//! the commit. This crate holds the per-node decisions, the acknowledgment
//! bookkeeping and the wire format; sockets, channels and timers belong to
//! the caller, who feeds events in and carries the returned actions out.

pub mod message;
pub mod node;
mod parse;
pub mod proposal_id;
pub mod quorum;
pub mod state;
pub mod wire;

pub use message::Message;
pub use message::MessageType;
pub use message::MessageView;
pub use node::Node;
pub use node::Proposed;
pub use node::Reception;
pub use node::Transmission;
pub use node::WaitStep;
pub use node::POLL_INTERVAL_MILLIS;
pub use node::READ_BUFFER_SIZE;
pub use quorum::has_quorum;
pub use quorum::majority_threshold;
pub use quorum::AckTracker;
pub use state::State;
pub use state::StateStore;
pub use wire::decode;
pub use wire::encode;
