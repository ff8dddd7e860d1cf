//! A reliable, ordered, message-oriented transport over an unreliable
//! datagram service: the per-connection protocol control block, its
//! segment codec, windowing, retransmission and congestion control.

pub mod wire;
pub mod staging;
pub mod kcp;
pub mod receive;
pub mod ack;
pub mod rtt;
pub mod input;
pub mod send;
pub mod flush;
pub mod clock;
pub mod laws;

pub use crate::kcp::{Kcp, KcpError};
pub use crate::wire::{Header, Segment};
