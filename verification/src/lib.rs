//! Path table and outbound message queue of a Reticulum-style mesh node.

pub mod bytes;
pub mod delivery;
pub mod delivery_laws;
pub mod digest;
pub mod hash;
pub mod links;
pub mod message;
pub mod msgpack;
pub mod outbound;
pub mod path;
pub mod path_laws;
pub mod persist;
pub mod persist_laws;
pub mod queue_laws;
pub mod receipts;
pub mod search;
pub mod sending_laws;
pub mod settlement_laws;
pub mod snapshot;
pub mod stamp;
pub mod storage;
pub mod ticket;
pub mod transport;
