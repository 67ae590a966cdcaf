use sonors::error::ArchiveError;
use sonors::ioutils::{
    read_bool, read_byte, read_pathbuf, read_u32, read_u64, write_bool, write_pathbuf, write_u32,
    write_u64, ByteReader,
};

#[test]
fn u32_is_little_endian() {
    let mut out: Vec<u8> = Vec::new();
    write_u32(&mut out, 0x0102_0304);
    assert_eq!(out, vec![4, 3, 2, 1]);
    let mut r = ByteReader::new(out);
    assert_eq!(read_u32(&mut r), Ok(0x0102_0304));
    assert_eq!(r.position(), 4);
}

#[test]
fn u64_is_little_endian() {
    let mut out: Vec<u8> = Vec::new();
    write_u64(&mut out, 0x0102_0304_0506_0708);
    assert_eq!(out, vec![8, 7, 6, 5, 4, 3, 2, 1]);
    let mut r = ByteReader::new(out);
    assert_eq!(read_u64(&mut r), Ok(0x0102_0304_0506_0708));
}

#[test]
fn short_reads_are_truncated() {
    let mut r = ByteReader::new(vec![1, 2, 3]);
    assert_eq!(read_u32(&mut r), Err(ArchiveError::TruncatedInput));
    assert_eq!(r.position(), 0);
    assert_eq!(read_u64(&mut r), Err(ArchiveError::TruncatedInput));
    let mut empty = ByteReader::new(Vec::new());
    assert_eq!(read_byte(&mut empty), Err(ArchiveError::TruncatedInput));
}

#[test]
fn bools_are_one_byte() {
    let mut out: Vec<u8> = Vec::new();
    write_bool(&mut out, true);
    write_bool(&mut out, false);
    assert_eq!(out, vec![1, 0]);
    out.push(2);
    let mut r = ByteReader::new(out);
    assert_eq!(read_bool(&mut r), Ok(true));
    assert_eq!(read_bool(&mut r), Ok(false));
    assert_eq!(read_bool(&mut r), Err(ArchiveError::MalformedTable));
}

#[test]
fn paths_are_length_prefixed_utf8() {
    let mut out: Vec<u8> = Vec::new();
    write_pathbuf(&mut out, &"sub/é.txt".to_string()).unwrap();
    let mut expected = vec![10u8, 0, 0, 0];
    expected.extend_from_slice("sub/é.txt".as_bytes());
    assert_eq!(out, expected);
    let mut r = ByteReader::new(out);
    assert_eq!(read_pathbuf(&mut r), Ok("sub/é.txt".to_string()));
}

#[test]
fn invalid_utf8_path_is_refused() {
    let mut r = ByteReader::new(vec![2, 0, 0, 0, 0xff, 0xfe]);
    assert_eq!(read_pathbuf(&mut r), Err(ArchiveError::InvalidPath));
    let mut t = ByteReader::new(vec![9, 0, 0, 0, b'a']);
    assert_eq!(read_pathbuf(&mut t), Err(ArchiveError::TruncatedInput));
}
