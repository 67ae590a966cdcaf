use vstd::prelude::*;
use chacha20poly1305::aead::rand_core::RngCore;
use chacha20poly1305::aead::{Aead, OsRng};
use chacha20poly1305::{ChaCha20Poly1305, KeyInit};
use argon2::Argon2;
use crate::constants::{KEY_LENGTH_IN_BYTES, NONCE_LENGTH_IN_BYTES, SALT_LENGTH_IN_BYTES, TAG_LENGTH_IN_BYTES};
use crate::error::ArchiveError;
use crate::ioutils::{append_bytes, le_u32, lemma_le_u32_round_trip, read_u32, u32_of_le, write_u32, ByteReader};

verus! {

/// The ChaCha20-Poly1305 ciphertext (with its tag) of `plaintext` under `key` and `nonce`.
pub uninterp spec fn sealed(key: Seq<u8>, nonce: Seq<u8>, plaintext: Seq<u8>) -> Seq<u8>;

/// The ChaCha20-Poly1305 decryption of `ciphertext`; `None` when the tag does not verify.
pub uninterp spec fn opened(key: Seq<u8>, nonce: Seq<u8>, ciphertext: Seq<u8>) -> Option<Seq<u8>>;

/// The Argon2 (default parameters) hash of `password` with `salt`, `len` bytes long.
pub uninterp spec fn argon2_key(password: Seq<u8>, salt: Seq<u8>, len: nat) -> Seq<u8>;

/// The key that the container derives from a password and a salt.
pub open spec fn derived_key(password: Seq<u8>, salt: Seq<u8>) -> Seq<u8> {
    argon2_key(password, salt, KEY_LENGTH_IN_BYTES as nat)
}

/// Whether a key can be derived from this password and salt.
pub open spec fn key_derivable(password: Seq<u8>, salt: Seq<u8>) -> bool {
    password.len() <= u32::MAX && 8 <= salt.len() <= u32::MAX
}

/// Relies on `Argon2::default().hash_password_into`: with default parameters it
/// fills `out` with a hash of password and salt that depends on them and on the
/// output length alone. For an output of 4..=`u32::MAX` bytes it fails exactly
/// for a password over `u32::MAX` bytes or a salt outside 8..=`u32::MAX` bytes.
#[verifier::external_body]
fn argon2_hash_into(password: &[u8], salt: &[u8], out: &mut Vec<u8>) -> (ok: bool)
    ensures
        final(out)@.len() == old(out)@.len(),
        ok ==> final(out)@ == argon2_key(password@, salt@, old(out)@.len()),
        4 <= old(out)@.len() <= u32::MAX ==> (ok <==> key_derivable(password@, salt@)),
{
    Argon2::default().hash_password_into(password, salt, out.as_mut_slice()).is_ok()
}

/// Relies on `ChaCha20Poly1305::new` and `Aead::encrypt`: the ciphertext depends
/// on key, nonce and plaintext alone, is the plaintext's length plus the 16-byte
/// tag, opens again under the same key and nonce, and is refused only for a
/// plaintext of `u32::MAX` or more 64-byte blocks.
#[verifier::external_body]
fn aead_seal(key: &[u8], nonce: &[u8], plaintext: &[u8]) -> (r: Option<Vec<u8>>)
    requires
        key@.len() == 32,
        nonce@.len() == 12,
    ensures
        plaintext@.len() / 64 < u32::MAX ==> r is Some,
        r matches Some(c) ==> c@ == sealed(key@, nonce@, plaintext@),
        r matches Some(c) ==> c@.len() == plaintext@.len() + 16,
        r matches Some(c) ==> opened(key@, nonce@, c@) == Some(plaintext@),
{
    let cipher = ChaCha20Poly1305::new(chacha20poly1305::Key::from_slice(key));
    cipher.encrypt(chacha20poly1305::Nonce::from_slice(nonce), plaintext).ok()
}

/// Relies on `ChaCha20Poly1305::new` and `Aead::decrypt`: it yields the plaintext
/// when the tag verifies and fails otherwise, as a function of its arguments.
#[verifier::external_body]
fn aead_open(key: &[u8], nonce: &[u8], ciphertext: &[u8]) -> (r: Option<Vec<u8>>)
    requires
        key@.len() == 32,
        nonce@.len() == 12,
    ensures
        r is Some <==> opened(key@, nonce@, ciphertext@) is Some,
        r matches Some(p) ==> opened(key@, nonce@, ciphertext@) == Some(p@),
{
    let cipher = ChaCha20Poly1305::new(chacha20poly1305::Key::from_slice(key));
    cipher.decrypt(chacha20poly1305::Nonce::from_slice(nonce), ciphertext).ok()
}

/// Relies on `RngCore::try_fill_bytes` of the operating system's generator
/// (`OsRng`): `n` random bytes, or `None` when the generator reports an error.
#[verifier::external_body]
fn try_random_bytes(n: usize) -> (r: Option<Vec<u8>>)
    ensures
        r matches Some(v) ==> v@.len() == n,
{
    let mut buf = vec![0u8; n];
    match OsRng.try_fill_bytes(&mut buf) {
        Ok(()) => Some(buf),
        Err(_) => None,
    }
}

/// On-disk shape of an encrypted block: nonce, ciphertext length (`u32`,
/// little-endian), ciphertext with its tag.
pub open spec fn block_bytes(nonce: Seq<u8>, ciphertext: Seq<u8>) -> Seq<u8> {
    nonce + le_u32(ciphertext.len() as u32) + ciphertext
}

/// `bytes` is an encrypted block that seals `plaintext` under `key`, with some nonce.
pub open spec fn is_block_of(key: Seq<u8>, bytes: Seq<u8>, plaintext: Seq<u8>) -> bool {
    exists|nonce: Seq<u8>|
        nonce.len() == 12 && sealed(key, nonce, plaintext).len() <= u32::MAX
            && sealed(key, nonce, plaintext).len() == plaintext.len() + TAG_LENGTH_IN_BYTES
            && #[trigger] block_bytes(nonce, sealed(key, nonce, plaintext)) == bytes
            && opened(key, nonce, sealed(key, nonce, plaintext)) == Some(plaintext)
}

/// What reading an encrypted block at position `p` of `b` under `key` yields:
/// the plaintext and the position after the block, or the failure.
pub open spec fn block_at(key: Seq<u8>, b: Seq<u8>, p: int) -> Result<(Seq<u8>, int), ArchiveError> {
    if p + 16 > b.len() {
        Err(ArchiveError::TruncatedInput)
    } else {
        let n = u32_of_le(b.subrange(p + 12, p + 16)) as int;
        if p + 16 + n > b.len() {
            Err(ArchiveError::TruncatedInput)
        } else {
            match opened(key, b.subrange(p, p + 12), b.subrange(p + 16, p + 16 + n)) {
                Some(pt) => Ok((pt, p + 16 + n)),
                None => Err(ArchiveError::AuthenticationFailed),
            }
        }
    }
}

/// A block that seals `plaintext` reads back as `plaintext` wherever it stands.
pub proof fn lemma_block_round_trip(key: Seq<u8>, pre: Seq<u8>, block: Seq<u8>, post: Seq<u8>, plaintext: Seq<u8>)
    requires
        is_block_of(key, block, plaintext),
    ensures
        block_at(key, pre + block + post, pre.len() as int)
            == Ok::<(Seq<u8>, int), ArchiveError>((plaintext, (pre.len() + block.len()) as int)),
{
    let nonce = choose|nonce: Seq<u8>|
        nonce.len() == 12 && sealed(key, nonce, plaintext).len() <= u32::MAX
            && sealed(key, nonce, plaintext).len() == plaintext.len() + TAG_LENGTH_IN_BYTES
            && #[trigger] block_bytes(nonce, sealed(key, nonce, plaintext)) == block
            && opened(key, nonce, sealed(key, nonce, plaintext)) == Some(plaintext);
    let c = sealed(key, nonce, plaintext);
    let b = pre + block + post;
    let p = pre.len() as int;
    lemma_le_u32_round_trip(c.len() as u32);
    assert(b.subrange(p + 12, p + 16) =~= le_u32(c.len() as u32));
    assert(b.subrange(p, p + 12) =~= nonce);
    assert(b.subrange(p + 16, p + 16 + c.len()) =~= c);
}

/// Altering bytes outside a block never changes what the block reads as: a
/// block reads the same in any two byte strings that agree on its own bytes.
pub proof fn lemma_block_reads_locally(key: Seq<u8>, b1: Seq<u8>, b2: Seq<u8>, p: int, plaintext: Seq<u8>, q: int)
    requires
        0 <= p,
        q <= b2.len(),
        block_at(key, b1, p) == Ok::<(Seq<u8>, int), ArchiveError>((plaintext, q)),
        b1.subrange(p, q) == b2.subrange(p, q),
    ensures
        block_at(key, b2, p) == Ok::<(Seq<u8>, int), ArchiveError>((plaintext, q)),
{
    let n = u32_of_le(b1.subrange(p + 12, p + 16)) as int;
    assert(q == p + 16 + n);
    assert(b1.subrange(p + 12, p + 16) =~= b1.subrange(p, q).subrange(12, 16));
    assert(b2.subrange(p + 12, p + 16) =~= b2.subrange(p, q).subrange(12, 16));
    assert(b1.subrange(p, p + 12) =~= b1.subrange(p, q).subrange(0, 12));
    assert(b2.subrange(p, p + 12) =~= b2.subrange(p, q).subrange(0, 12));
    assert(b1.subrange(p + 16, q) =~= b1.subrange(p, q).subrange(16, q - p));
    assert(b2.subrange(p + 16, q) =~= b2.subrange(p, q).subrange(16, q - p));
}

/// A read result moved `s` bytes further on.
pub open spec fn shifted(r: Result<(Seq<u8>, int), ArchiveError>, s: int) -> Result<(Seq<u8>, int), ArchiveError> {
    match r {
        Ok((c, q)) => Ok((c, q + s)),
        Err(e) => Err(e),
    }
}

/// A block reads the same in a window of the bytes that starts at or before
/// it and either runs to the end of the bytes or holds the whole block.
pub proof fn lemma_block_window(key: Seq<u8>, b: Seq<u8>, s: int, e: int, p: int)
    requires
        0 <= s <= p <= e <= b.len(),
        e == b.len() || (p + 16 <= e && p + 16 + u32_of_le(b.subrange(p + 12, p + 16)) <= e),
    ensures
        block_at(key, b, p) == shifted(block_at(key, b.subrange(s, e), p - s), s),
{
    let w = b.subrange(s, e);
    let r = p - s;
    if p + 16 <= e {
        assert(w.subrange(r + 12, r + 16) =~= b.subrange(p + 12, p + 16));
        assert(w.subrange(r, r + 12) =~= b.subrange(p, p + 12));
        let n = u32_of_le(b.subrange(p + 12, p + 16)) as int;
        if p + 16 + n <= e {
            assert(w.subrange(r + 16, r + 16 + n) =~= b.subrange(p + 16, p + 16 + n));
        }
    }
}

/// Deriving a key twice from the same salt and password gives the same key.
pub proof fn lemma_key_derivation_deterministic(salt: Seq<u8>, password: Seq<u8>, first: Seq<u8>, second: Seq<u8>)
    requires
        first == derived_key(password, salt),
        second == derived_key(password, salt),
    ensures
        first == second,
{
}

/// Generates a fresh random salt of `SALT_LENGTH_IN_BYTES` bytes; fails only
/// when the operating system's random generator does.
pub fn generate_salt() -> (res: Result<Vec<u8>, ArchiveError>)
    ensures
        match res {
            Ok(salt) => salt@.len() == SALT_LENGTH_IN_BYTES,
            Err(e) => e == ArchiveError::RandomnessUnavailable,
        },
{
    match try_random_bytes(SALT_LENGTH_IN_BYTES) {
        Some(salt) => Ok(salt),
        None => Err(ArchiveError::RandomnessUnavailable),
    }
}

/// Overwrites every byte of `bytes` with zero.
pub fn erase_bytes(bytes: &mut Vec<u8>)
    ensures
        final(bytes)@.len() == old(bytes)@.len(),
        forall|i: int| 0 <= i < final(bytes)@.len() ==> #[trigger] final(bytes)@[i] == 0,
{
    let mut i: usize = 0;
    while i < bytes.len()
        invariant
            i <= bytes@.len(),
            bytes@.len() == old(bytes)@.len(),
            forall|j: int| 0 <= j < i ==> #[trigger] bytes@[j] == 0,
        decreases bytes@.len() - i,
    {
        bytes.set(i, 0);
        i += 1;
    }
}

/// Derives the key from a salt and the UTF-8 bytes of a password: the Argon2
/// hash of the password with that salt, `KEY_LENGTH_IN_BYTES` long. The same
/// inputs always give the same key.
pub fn create_key(salt: &[u8], password: &[u8]) -> (res: Result<Vec<u8>, ArchiveError>)
    ensures
        res is Ok <==> key_derivable(password@, salt@),
        match res {
            Ok(key) => key@ == derived_key(password@, salt@) && key@.len() == KEY_LENGTH_IN_BYTES,
            Err(e) => e == ArchiveError::KeyDerivationFailed,
        },
{
    let mut key: Vec<u8> = vec![0u8; KEY_LENGTH_IN_BYTES];
    if argon2_hash_into(password, salt, &mut key) {
        Ok(key)
    } else {
        Err(ArchiveError::KeyDerivationFailed)
    }
}

/// Appends one encrypted block that seals `data` under `key` with a fresh random
/// nonce. Writes nothing and fails with `InvalidKeyLength` for a key that is
/// not `KEY_LENGTH_IN_BYTES` long, with `LengthOverflow` when the ciphertext
/// would not fit its 32-bit length field, and otherwise only with
/// `RandomnessUnavailable`, when no nonce can be drawn.
pub fn write_encrypted(writer: &mut Vec<u8>, key: &[u8], data: &[u8]) -> (res: Result<(), ArchiveError>)
    ensures
        match res {
            Ok(()) => key@.len() == KEY_LENGTH_IN_BYTES && data@.len() + TAG_LENGTH_IN_BYTES <= u32::MAX
                && exists|block: Seq<u8>|
                is_block_of(key@, block, data@) && #[trigger] (old(writer)@ + block) == final(writer)@,
            Err(e) => final(writer)@ == old(writer)@ && e == (if key@.len() != KEY_LENGTH_IN_BYTES {
                ArchiveError::InvalidKeyLength
            } else if data@.len() + TAG_LENGTH_IN_BYTES <= u32::MAX {
                ArchiveError::RandomnessUnavailable
            } else {
                ArchiveError::LengthOverflow
            }),
        },
{
    if key.len() != KEY_LENGTH_IN_BYTES {
        return Err(ArchiveError::InvalidKeyLength);
    }
    if data.len() > 0xFFFF_FFFFusize - TAG_LENGTH_IN_BYTES {
        return Err(ArchiveError::LengthOverflow);
    }
    let nonce = match try_random_bytes(NONCE_LENGTH_IN_BYTES) {
        Some(n) => n,
        None => {
            return Err(ArchiveError::RandomnessUnavailable);
        },
    };
    let encrypted = match aead_seal(key, nonce.as_slice(), data) {
        Some(c) => c,
        None => {
            // Not reached: the cipher accepts every plaintext that passed the check above.
            return Err(ArchiveError::LengthOverflow);
        },
    };
    append_bytes(writer, nonce.as_slice());
    write_u32(writer, encrypted.len() as u32);
    append_bytes(writer, encrypted.as_slice());
    let ghost block = block_bytes(nonce@, encrypted@);
    assert(is_block_of(key@, block, data@));
    assert(old(writer)@ + block =~= writer@);
    Ok(())
}

/// Reads one encrypted block at the read position and decrypts it under `key`;
/// a key that is not `KEY_LENGTH_IN_BYTES` long fails with `InvalidKeyLength`.
pub fn read_encrypted(reader: &mut ByteReader, key: &[u8]) -> (res: Result<Vec<u8>, ArchiveError>)
    ensures
        final(reader).data@ == old(reader).data@,
        key@.len() != KEY_LENGTH_IN_BYTES ==> res == Err::<Vec<u8>, ArchiveError>(ArchiveError::InvalidKeyLength)
            && final(reader).pos == old(reader).pos,
        key@.len() == KEY_LENGTH_IN_BYTES ==> match res {
            Ok(p) => block_at(key@, old(reader).data@, old(reader).pos as int)
                == Ok::<(Seq<u8>, int), ArchiveError>((p@, final(reader).pos as int)),
            Err(e) => block_at(key@, old(reader).data@, old(reader).pos as int)
                == Err::<(Seq<u8>, int), ArchiveError>(e),
        },
{
    if key.len() != KEY_LENGTH_IN_BYTES {
        return Err(ArchiveError::InvalidKeyLength);
    }
    if reader.pos > reader.data.len() || reader.data.len() - reader.pos < NONCE_LENGTH_IN_BYTES + 4 {
        return Err(ArchiveError::TruncatedInput);
    }
    let nonce = reader.read_exact(NONCE_LENGTH_IN_BYTES)?;
    let encrypted_len = read_u32(reader)?;
    let data = reader.read_exact(encrypted_len as usize)?;
    match aead_open(key, nonce.as_slice(), data.as_slice()) {
        Some(plain) => Ok(plain),
        None => Err(ArchiveError::AuthenticationFailed),
    }
}

} // verus!
