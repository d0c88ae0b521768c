//! The mTCP protocol: one byte stream carried over several TCP connections.
//!
//! This crate holds the protocol's data formats, state and decisions, each with a contract
//! that Verus proves. Sockets, threads and locks belong to the program around it.
pub mod args;
pub mod bridge;
pub mod client;
pub mod connection;
pub mod decoder;
pub mod dial;
pub mod error;
pub mod pool;
pub mod protocol;
pub mod remote;
pub mod server;
pub mod socket_laws;
pub mod stream;
pub mod text;

pub use bridge::{ClientConfig, RemoteConfig};
pub use connection::MSocket;
pub use decoder::{FrameDecoder, Packet};
pub use error::{ErrorKind, MtcpError};
