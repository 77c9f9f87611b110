//! Sequence-windowed request/reply correlation for polling a sensor over an
//! unreliable datagram channel.
//!
//! Every request carries one of 26 cyclic slot identifiers. A reply is matched
//! to its request by that identifier, and a request that is still unanswered
//! when its slot comes round again, one revolution later, is reported as
//! missing. The crate holds the slot arithmetic, the frame codec, the
//! correlator and the scheduler's decisions; sockets, clocks and files belong
//! to the caller.

pub mod codec;
pub mod correlator;
pub mod scheduler;
pub mod slot;
pub mod trace;
