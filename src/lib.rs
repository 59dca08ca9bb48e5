//! Routing engine and peer-link protocol stack of an IPv6 overlay mesh node.
//!
//! The wire codec, the distance-vector route table, the peer registry with its
//! packet dispatch, and the per-link state machine are all verified; sockets,
//! timers and the virtual interface live outside this library.

pub mod seqno;
pub mod codec;
pub mod route;
pub mod peer;
pub mod node;
pub mod api;
pub mod link;
pub mod device;
