//! Wire framing for a chunked, length-prefixed binary message protocol.
//!
//! A logical message is split into chunks, each carrying a fixed 24-byte
//! little-endian header followed by a payload slice; a reassembler collects
//! chunks by message identifier and yields the message once every chunk has
//! arrived.  One request schema, a fixed-position array of typed fields, is
//! defined on top of the framing.

pub mod chunk;
pub mod descriptor;
pub mod envelope;
pub mod reassembler;
pub mod roundtrip;
pub mod splitter;
pub mod vpack;

use vstd::prelude::*;

verus! {

/// Failure taxonomy of the framing layer.
#[derive(Clone, Copy, Debug, PartialEq, Eq, Structural)]
pub enum VstError {
    /// A malformed raw chunk: header too short, or a length field that does
    /// not match the buffer.  Fatal to that chunk.
    Framing,
    /// Conflicting or duplicate chunk metadata while reassembling.  Fatal to
    /// that logical message; its partial state is discarded.
    Protocol,
    /// Caller misuse rejected up front: a zero message identifier or a zero
    /// chunk size.  No partial state is created.
    InvalidInput,
    /// The external structured-value encoder failed while encoding a
    /// request envelope.
    Serialization,
}

} // verus!
