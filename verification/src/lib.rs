//! A clipboard-synchronization relay: named clients authenticate with a
//! shared token over a message channel and exchange timestamped text clips.
//! The relay keeps the single most recent clip (last-writer-wins with a
//! duplicate-text guard) and rebroadcasts every accepted clip to all
//! connected clients.
//!
//! This crate holds the verified core: the clip store, the connection
//! registry with its mark-then-remove pruning discipline, the handshake
//! decisions, and the wire codec. The surrounding process (sockets, the
//! async loop, configuration files) drives these functions from outside.

pub mod auth;
pub mod clip;
pub mod clock;
pub mod codec;
pub mod config;
pub mod errors;
pub mod event_loop;
pub mod ids;
pub mod jsonnum;
pub mod jsontext;
pub mod multiplexer;
pub mod name;
pub mod payload;
pub mod store;
pub mod text;
