//! Error types of the storage engine.

use vstd::prelude::*;

verus! {

/// Why a run of bytes is not a well-formed entry.
#[derive(Debug, Clone, Copy, PartialEq, Eq)]
pub enum DecodeError {
    /// Fewer bytes than the fixed header takes.
    SliceTooShortForHeader,
    /// The length field asks for more bytes than there are.
    EntryTruncated,
    /// The length field leaves no room for the checksum and the tag.
    PayloadTruncated,
    /// The checksum of the payload is not the one stored in the header.
    ChecksumMismatch { computed: u32, stored: u32 },
    /// The tag is none of the four known ones.
    UnknownTypeTag(u8),
    /// An integer payload of fewer than eight bytes.
    MissingIntegerPayload,
    /// An empty boolean payload.
    MissingBoolPayload,
    /// A text payload too short for its length prefix.
    MissingTextLength,
    /// A text payload shorter than its length prefix says.
    MissingTextPayload,
    /// A text payload that is not UTF-8.
    InvalidUtf8,
    /// A byte-sequence payload too short for its length prefix.
    MissingBlobLength,
    /// A byte-sequence payload shorter than its length prefix says.
    MissingBlobPayload,
}

/// What the store reports to its caller.
#[derive(Debug, Clone, Copy, PartialEq, Eq)]
pub enum KvError {
    /// Stored bytes do not decode.
    Corrupted(DecodeError),
    /// A boolean or a byte sequence stands where a key was expected.
    InvalidKeyType,
    /// The input ends inside a key/value pair.
    UnexpectedEof,
}

pub type KvResult<T> = Result<T, KvError>;

} // verus!
