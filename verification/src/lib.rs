//! A transport-layer channel that layers sequence-numbered framing, loss
//! detection, and round-trip-latency estimation on top of an unreliable,
//! boundary-preserving datagram transport.

pub mod channel;
pub mod header;
pub mod sequence;
