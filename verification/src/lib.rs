//! A reliability layer over unreliable datagrams: per-peer connections that
//! carry fire-and-forget, reliable and reliable-ordered messages, estimate
//! round-trip time and packet loss, and are multiplexed by a server.
//!
//! Nothing here touches a socket or a clock: packets go in and come out as
//! bytes, and every call that depends on time takes the time in
//! milliseconds.

pub mod address;
pub mod config;
pub mod connection;
pub mod estimator;
pub mod handler;
pub mod ledger;
pub mod message;
pub mod queue;
pub mod sequence;
pub mod server;
pub mod wire;

pub use address::Address;
pub use config::Config;
pub use connection::{Connection, ConnectionID, ConnectionState};
pub use handler::{Handler, Quiet};
pub use message::MessageKind;
pub use server::{ConnectionMap, Datagram, Server, ServerError};
