use sonors::error::ArchiveError;
use sonors::ioutils::ByteReader;
use sonors::node::ArchivalNode;
use sonors::secure::{create_key, generate_salt};
use sonors::table::FileTable;

#[test]
fn test_file_table() {
    let mut export: Vec<u8> = Vec::new();
    let password = "default_password";
    let salt = generate_salt().unwrap();
    let key = create_key(&salt, password.as_bytes()).unwrap();

    let mut file_table = FileTable::new(key, &salt);
    file_table.add(0, 32, ArchivalNode { path: "hello".to_string(), is_leaf: true });
    file_table.write(&mut export).unwrap();

    let mut export = ByteReader::new(export);
    let file_table = FileTable::from_reader(&mut export, password).unwrap();

    let first_entry = file_table.map.first().unwrap();
    assert_eq!(first_entry.0, 0);
    assert_eq!(first_entry.1, 32);
    assert_eq!(first_entry.2.path.as_str(), "hello");
    assert_eq!(first_entry.2.is_leaf, true);
}

#[test]
fn table_region_is_salt_block_trailer() {
    let salt = [4u8; 32];
    let key = create_key(&salt, b"pw").unwrap();
    let mut table = FileTable::new(key, &salt);
    table.add(0, 0, ArchivalNode { path: "d".to_string(), is_leaf: false });
    let mut out: Vec<u8> = vec![0xEE; 5];
    table.write(&mut out).unwrap();
    // salt at the old end
    assert_eq!(&out[5..37], &salt[..]);
    // one row: 4 + 8 + 1 + 4 + 1 bytes, sealed with a 16-byte tag
    let row_len = 4 + 8 + 1 + 4 + 1;
    assert_eq!(out.len(), 5 + 32 + 12 + 4 + row_len + 16 + 8);
    // the trailer points at the salt
    assert_eq!(&out[out.len() - 8..], &5u64.to_le_bytes());
}

#[test]
fn empty_table_reads_back_empty() {
    let salt = [4u8; 32];
    let key = create_key(&salt, b"pw").unwrap();
    let table = FileTable::new(key, &salt);
    let mut out: Vec<u8> = Vec::new();
    table.write(&mut out).unwrap();
    let mut r = ByteReader::new(out);
    let back = FileTable::from_reader(&mut r, "pw").unwrap();
    assert_eq!(back.map.len(), 0);
    assert_eq!(back.salt(), &salt[..]);
}

#[test]
fn table_with_wrong_password_fails_authentication() {
    let salt = [4u8; 32];
    let key = create_key(&salt, b"pw1").unwrap();
    let mut table = FileTable::new(key, &salt);
    table.add(0, 0, ArchivalNode { path: "a".to_string(), is_leaf: true });
    let mut out: Vec<u8> = Vec::new();
    table.write(&mut out).unwrap();
    let mut r = ByteReader::new(out);
    assert_eq!(FileTable::from_reader(&mut r, "pw2").unwrap_err(), ArchiveError::AuthenticationFailed);
}

#[test]
fn trailer_outside_file_is_truncated() {
    let mut bytes = vec![0u8; 40];
    bytes.extend_from_slice(&1000u64.to_le_bytes());
    let mut r = ByteReader::new(bytes);
    assert_eq!(FileTable::from_reader(&mut r, "pw").unwrap_err(), ArchiveError::TruncatedInput);
    let mut tiny = ByteReader::new(vec![1, 2, 3]);
    assert_eq!(FileTable::from_reader(&mut tiny, "pw").unwrap_err(), ArchiveError::TruncatedInput);
}

#[test]
fn erased_key_is_zero() {
    let salt = [4u8; 32];
    let key = create_key(&salt, b"pw").unwrap();
    let mut table = FileTable::new(key, &salt);
    assert!(table.key().iter().any(|b| *b != 0));
    table.erase_key();
    assert_eq!(table.key(), &[0u8; 32][..]);
}

#[test]
fn write_at_records_the_given_start() {
    let salt = [4u8; 32];
    let key = create_key(&salt, b"pw").unwrap();
    let table = FileTable::new(key, &salt);
    let mut out: Vec<u8> = Vec::new();
    table.write_at(&mut out, 1234).unwrap();
    assert_eq!(&out[..32], &salt[..]);
    assert_eq!(&out[out.len() - 8..], &1234u64.to_le_bytes());
}

#[test]
fn free_table_writer_matches_method() {
    let salt = [4u8; 32];
    let key = create_key(&salt, b"pw").unwrap();
    let mut table = FileTable::new(key, &salt);
    table.add(0, 7, ArchivalNode { path: "p".to_string(), is_leaf: true });
    let mut out: Vec<u8> = vec![1, 2, 3];
    sonors::table::write_file_table(&mut out, &table).unwrap();
    assert_eq!(&out[out.len() - 8..], &3u64.to_le_bytes());
    let mut r = ByteReader::new(out);
    let back = FileTable::from_reader(&mut r, "pw").unwrap();
    assert_eq!(back.map.len(), 1);
    assert_eq!(back.map[0].1, 7);
    assert_eq!(back.map[0].2.path, "p");
}
