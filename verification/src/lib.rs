//! Receive-side stream reassembly for a QUIC transport.
//!
//! The crate turns an unordered, possibly redundant sequence of incoming
//! STREAM frames into a single in-order byte stream, while enforcing the
//! receive-stream state machine, per-stream flow control and the protocol's
//! final-size rules.  It is a pure state core: no I/O happens here.
//!
//! - [`orderer`] buffers disjoint byte ranges, deduplicates overlaps on
//!   insertion and drains contiguous bytes to the application.
//! - [`stream`] wraps an orderer in the five-state receive-stream machine
//!   and decides credit updates.
//! - [`control`] holds the connection-side collaborators: the outbound
//!   control-frame queue and the application event queue.
//! - [`registry`] maps stream identifiers to their streams.

pub mod control;
pub mod orderer;
pub mod registry;
pub mod stream;

