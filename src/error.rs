use vstd::prelude::*;

verus! {

/// Every way in which building or reading a container can fail.
#[derive(Debug, Clone, Copy, PartialEq, Eq, Structural)]
pub enum ArchiveError {
    /// The password hash refused its inputs.
    KeyDerivationFailed,
    /// A key does not have `KEY_LENGTH_IN_BYTES` bytes.
    InvalidKeyLength,
    /// A block did not authenticate: wrong password, or altered bytes.
    AuthenticationFailed,
    /// The input ended before a field or a declared length was complete.
    TruncatedInput,
    /// A file body held a marker byte other than the chunk or end marker.
    MalformedEntryBody,
    /// A table row held a flag byte other than 0x00 or 0x01.
    MalformedTable,
    /// A stored path was not valid UTF-8.
    InvalidPath,
    /// A path or a ciphertext is too long for its 32-bit length prefix.
    LengthOverflow,
    /// An extraction target is occupied by an object of the wrong kind.
    FilesystemConflict,
    /// The operating system's random generator reported an error.
    RandomnessUnavailable,
    /// The output container already exists.
    OutputAlreadyExists,
}

} // verus!
