//! Connection-multiplexed message broker and device pairing for a fleet
//! command center: WebSocket framing, the connection registry, the pairing
//! state machine and the routing of envelopes between operator consoles and
//! devices. Sockets, JSON and the database live with the caller; this crate
//! holds the decisions.

pub mod codes;
pub mod date;
pub mod frame;
pub mod handshake;
pub mod http;
pub mod server;
pub mod store;
pub mod text;
