//! Local-network peer discovery over IPv4 multicast: a length-prefixed
//! binary codec for discovery messages, the server and client state
//! machines that exchange them, and nickname resolution for the peers
//! that were found.

pub mod app_common;
pub mod avalanche;
pub mod client;
pub mod message;
pub mod server;
pub mod text;
pub mod tlv;
