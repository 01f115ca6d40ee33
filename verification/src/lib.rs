//! Speed daemon: a vehicle-speed enforcement server core.
//!
//! The crate verifies the pieces that make up the daemon:
//! a binary wire codec, a per-connection session state machine,
//! an observation store with a ticket engine, and per-road ticket
//! routing with FIFO queues and dispatcher registration.

pub mod codec;
pub mod daemon;
pub mod msg;
pub mod routing;
pub mod engine;
pub mod session;
pub mod store;
