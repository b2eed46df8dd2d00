//! A reliable-delivery transport core for an unreliable datagram network.
//!
//! Application messages are fragmented into bounded-size packets, reliable
//! fragments are tracked in an outbox until a peer acknowledges them, and a
//! periodic maintenance sweep retransmits overdue fragments until a retry
//! budget is exhausted.  All socket, queue and clock interaction lives with
//! the caller: the functions here take plain values (drained queue items,
//! the current time, a fresh transmission identifier) and hand back the
//! datagrams to transmit.

pub mod addr;
pub mod codec;
pub mod engine;
pub mod protocol;
pub mod transport;
