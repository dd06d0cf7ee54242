//! A fan-out relay hub: connections tagged with a channel name exchange text
//! messages with the other connections on the same channel.
//!
//! The crate holds the connection registry, the routing rule of the broadcast
//! dispatcher, the recogniser for the liveness probe and the lifecycle of one
//! connection's session. Transport and task scheduling are left to the caller.

pub mod key;
pub mod queue;
pub mod registry;
pub mod envelope;
pub mod dispatch;
pub mod session;
