use vstd::prelude::*;

verus! {

/// The cryptographic key length in bytes.
pub const KEY_LENGTH_IN_BYTES: usize = 32;

/// Size of the plaintext chunks that file bodies are cut into (128 KiB).
pub const CHUNK_SIZE: usize = 131072;

/// The length of a salt in bytes.
pub const SALT_LENGTH_IN_BYTES: usize = 32;

/// The length of the nonce that starts every encrypted block.
pub const NONCE_LENGTH_IN_BYTES: usize = 12;

/// The length of the authentication tag appended to every ciphertext.
pub const TAG_LENGTH_IN_BYTES: usize = 16;

/// Marker byte that precedes each encrypted chunk of a file body.
pub const CHUNK_MARKER: u8 = 0;

/// Marker byte that ends a file body.
pub const END_MARKER: u8 = 1;

} // verus!
