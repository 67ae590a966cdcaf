use std::collections::HashSet;

use chacha20poly1305::aead::OsRng;
use chacha20poly1305::{ChaCha20Poly1305, KeyInit};
use sonors::error::ArchiveError;
use sonors::ioutils::ByteReader;
use sonors::secure::{create_key, generate_salt, read_encrypted, write_encrypted};

#[test]
fn encrypt_decrypt() {
    let contents = [0x00u8, 0x01, 0x02, 0x03, 0x04];
    let key = ChaCha20Poly1305::generate_key(&mut OsRng);
    let mut simulated_file: Vec<u8> = Vec::new();
    write_encrypted(&mut simulated_file, &key, &contents).unwrap();
    let mut reader = ByteReader::new(simulated_file);
    assert_eq!(&read_encrypted(&mut reader, &key).unwrap(), &contents);
}

#[test]
fn secure_encrypt_decrypt() {
    let contents = [0x00u8, 0x01, 0x02, 0x03, 0x04];
    let key = ChaCha20Poly1305::generate_key(&mut OsRng);
    let mut simulated_file: Vec<u8> = Vec::new();
    write_encrypted(&mut simulated_file, &key, &contents).unwrap();
    let mut reader = ByteReader::new(simulated_file);
    assert_eq!(&read_encrypted(&mut reader, &key).unwrap(), &contents);
}

#[test]
fn test_password_gen() {
    let tests = 3;
    let mut set = HashSet::new();
    for _ in 0..tests {
        let salt = generate_salt().unwrap();
        let password = generate_salt().unwrap();
        let key = create_key(&salt, &password).unwrap();
        if set.contains(&key) {
            panic!("Encountered a duplicate entry. Is the password generator truly random?");
        }
        set.insert(key);
    }
}

#[test]
fn block_layout_is_nonce_length_ciphertext() {
    let key = [7u8; 32];
    let data = b"hello".to_vec();
    let mut out: Vec<u8> = vec![0xAA];
    write_encrypted(&mut out, &key, &data).unwrap();
    // one prefix byte, 12 nonce bytes, 4 length bytes, 5 + 16 ciphertext bytes
    assert_eq!(out.len(), 1 + 12 + 4 + 21);
    assert_eq!(out[0], 0xAA);
    assert_eq!(&out[13..17], &[21u8, 0, 0, 0]);
    // the ciphertext is not the plaintext
    assert_ne!(&out[17..22], &data[..]);
}

#[test]
fn two_blocks_of_same_data_use_fresh_nonces() {
    let key = [9u8; 32];
    let mut a: Vec<u8> = Vec::new();
    let mut b: Vec<u8> = Vec::new();
    write_encrypted(&mut a, &key, b"same").unwrap();
    write_encrypted(&mut b, &key, b"same").unwrap();
    assert_ne!(&a[..12], &b[..12]);
    assert_ne!(a, b);
}

#[test]
fn wrong_key_fails_authentication() {
    let mut out: Vec<u8> = Vec::new();
    write_encrypted(&mut out, &[1u8; 32], b"secret").unwrap();
    let mut reader = ByteReader::new(out);
    assert_eq!(read_encrypted(&mut reader, &[2u8; 32]), Err(ArchiveError::AuthenticationFailed));
}

#[test]
fn flipped_bit_fails_authentication() {
    let key = [3u8; 32];
    let mut out: Vec<u8> = Vec::new();
    write_encrypted(&mut out, &key, b"some plaintext").unwrap();
    for byte in 16..out.len() {
        let mut tampered = out.clone();
        tampered[byte] ^= 0x10;
        let mut reader = ByteReader::new(tampered);
        assert_eq!(read_encrypted(&mut reader, &key), Err(ArchiveError::AuthenticationFailed));
    }
}

#[test]
fn declared_length_past_end_is_truncated() {
    let key = [3u8; 32];
    let mut out: Vec<u8> = Vec::new();
    write_encrypted(&mut out, &key, b"abc").unwrap();
    out.pop();
    let mut reader = ByteReader::new(out);
    assert_eq!(read_encrypted(&mut reader, &key), Err(ArchiveError::TruncatedInput));
    let mut short = ByteReader::new(vec![0u8; 10]);
    assert_eq!(read_encrypted(&mut short, &key), Err(ArchiveError::TruncatedInput));
}

#[test]
fn key_derivation_is_deterministic() {
    let salt = [5u8; 32];
    let k1 = create_key(&salt, b"password").unwrap();
    let k2 = create_key(&salt, b"password").unwrap();
    assert_eq!(k1, k2);
    assert_eq!(k1.len(), 32);
    assert_ne!(&k1[..8], &b"password"[..]);
}

#[test]
fn key_derivation_depends_on_salt_and_password() {
    let k1 = create_key(&[5u8; 32], b"password").unwrap();
    let k2 = create_key(&[6u8; 32], b"password").unwrap();
    let k3 = create_key(&[5u8; 32], b"passwore").unwrap();
    assert_ne!(k1, k2);
    assert_ne!(k1, k3);
}

#[test]
fn salt_has_fixed_length_and_varies() {
    let a = generate_salt().unwrap();
    let b = generate_salt().unwrap();
    assert_eq!(a.len(), 32);
    assert_ne!(a, b);
}

#[test]
fn short_salt_fails_key_derivation() {
    assert_eq!(create_key(&[1u8; 7], b"pw"), Err(ArchiveError::KeyDerivationFailed));
}

#[test]
fn erased_bytes_are_zero() {
    let mut key = create_key(&[5u8; 32], b"pw").unwrap();
    sonors::secure::erase_bytes(&mut key);
    assert_eq!(key, vec![0u8; 32]);
}

#[test]
fn wrong_key_length_is_refused() {
    let mut out: Vec<u8> = vec![1, 2];
    assert_eq!(write_encrypted(&mut out, &[0u8; 31], b"x"), Err(ArchiveError::InvalidKeyLength));
    assert_eq!(out, vec![1, 2]);
    write_encrypted(&mut out, &[0u8; 32], b"x").unwrap();
    let mut reader = ByteReader::new(out);
    reader.seek(2);
    assert_eq!(read_encrypted(&mut reader, &[0u8; 33]), Err(ArchiveError::InvalidKeyLength));
    assert_eq!(reader.position(), 2);
}
