//! Verified core of a local-network peer layer: a registry of connected
//! peers, the wire codec of the two addressed message shapes, the table of
//! discovered peers, and the dispatcher's transition function.
pub mod peer_counter;
pub mod message;
pub mod codec;
pub mod bytes;
pub mod discovery;
pub mod node;
