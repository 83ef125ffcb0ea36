//! Wire-format codec and unicast receive pipeline for a publish/subscribe
//! and query messaging protocol.
//!
//! The crate has three parts:
//!
//! - the codec: variable-length integers, length-prefixed byte arrays,
//!   chained extensions with forward-compatible skipping of unknown ones,
//!   and the `Request` network message built from them;
//! - the receive pipeline: per-conduit sequence tracking, fragment
//!   reassembly and dispatch of transport messages to a user callback;
//! - configuration helpers: a small string-keyed property map.

pub mod buffer;
pub mod config;
pub mod defrag;
pub mod ext;
pub mod oam;
pub mod request;
pub mod rx;
pub mod seqnum;
pub mod zint;

use vstd::prelude::*;

verus! {

/// Errors of the receive pipeline. Sequence gaps on whole-message frames
/// are not errors: they are silent drops.
#[derive(Debug, Clone, Copy, PartialEq, Eq, Structural)]
pub enum TransportError {
    /// A sequence number does not fit the negotiated resolution.
    InvalidSn,
    /// A frame named a priority with no conduit behind it.
    UnknownConduit,
    /// A fragment arrived with a sequence number that does not continue
    /// the buffered run.
    FragmentGap,
    /// The reassembled bytes did not parse as one message.
    Defragmentation,
}

} // verus!
