//! Fast approximate broadcast: the verified core of a gossip protocol.
//!
//! The library holds the decisions of the protocol; the program around it
//! performs the network I/O and runs the asynchronous loops.

pub mod error;
pub mod dedup;
pub mod node;
pub mod message;
pub mod listeners;
