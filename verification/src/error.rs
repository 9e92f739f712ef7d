//! Decode errors.  No part of the decoder recovers locally: every error
//! unwinds the whole parse call to the caller.

use vstd::prelude::*;

verus! {

use crate::cursor::CodecError;

/// A schema entry that cannot be decoded or resolved.
#[derive(Clone, Copy, Debug, PartialEq, Eq, Structural)]
pub enum MalformedSendPropDefinitionError {
    /// An "inside array" entry arrived while another was already pending,
    /// or carried the "changes often" flag.
    ArrayChangesOften,
    /// An array-typed entry had no pending element to claim, or a pending
    /// element was followed by a non-array entry.
    UntypedArray,
    /// A pending array element was still unclaimed when the list ended.
    UnpairedArrayElement,
    /// The five-bit type tag does not name a property kind.
    InvalidPropType(u32),
    /// A leaf entry lacks the fields its declared type demands.
    InvalidDefinition,
}

/// Any failure of the packet decoder.
#[derive(Clone, Copy, Debug, PartialEq, Eq, Structural)]
pub enum ParseError {
    /// The packet discriminant is outside the supported range.
    UnsupportedPacketType(u8),
    /// A length-delimited region held this many unread bits (more than the
    /// seven tolerated as alignment padding).
    DataRemaining(usize),
    /// A schema entry was malformed.
    Malformed(MalformedSendPropDefinitionError),
    /// A low-level cursor failure, passed through.
    Codec(CodecError),
}

impl From<CodecError> for ParseError {
    fn from(e: CodecError) -> (r: Self) {
        ParseError::Codec(e)
    }
}

impl vstd::std_specs::convert::FromSpecImpl<CodecError> for ParseError {
    open spec fn obeys_from_spec() -> bool {
        true
    }

    open spec fn from_spec(e: CodecError) -> Self {
        ParseError::Codec(e)
    }
}

} // verus!
