//! A real-time broadcast relay core: clients connect, announce a username,
//! and exchange text messages that the server fans out to every other
//! connected client. This crate holds the verified core — the payload
//! codec, the client registry, the history log, the broadcast engine and
//! the per-connection state machine; listeners and transports live outside.

pub mod codec;
pub mod configuration;
pub mod laws;
pub mod payload;
pub mod state;

pub use codec::{decode, encode};
pub use payload::{ChatError, Payload, PayloadEventType, PayloadView};
pub use state::{ChatClient, ServerState};
