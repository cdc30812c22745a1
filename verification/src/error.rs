//! Why a packet could not be built.
use vstd::prelude::*;

verus! {

/// Why a packet could not be built from the data it was asked for.
#[derive(Debug, Clone, Copy, PartialEq, Eq)]
pub enum PacketError {
    /// The request is shorter than a DNS header.
    InvalidRequest,
    /// The request's question section cannot be read.
    InvalidQuestion,
    /// A name has a label longer than 63 bytes.
    LabelTooLong,
}

} // verus!
