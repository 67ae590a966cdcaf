use sonors::node::{block_length, chunk_follows, open_block};
use sonors::table::{trailer_position, FileTable};
use sonors::archive::{build_archive, create_sonorous_file, extract_archive, SonorousFileTable, TreeEntry};
use sonors::constants::CHUNK_SIZE;
use sonors::error::ArchiveError;
use sonors::ioutils::ByteReader;
use sonors::node::{transfer_archival_node, write_file_body, ArchivalNode};
use sonors::secure::{create_key, read_encrypted};

fn file(path: &str, contents: Vec<u8>) -> TreeEntry {
    TreeEntry { path: path.to_string(), is_leaf: true, contents }
}

fn dir(path: &str) -> TreeEntry {
    TreeEntry { path: path.to_string(), is_leaf: false, contents: Vec::new() }
}

fn pattern(len: usize) -> Vec<u8> {
    (0..len).map(|i| (i % 251) as u8).collect()
}

fn same_tree(a: &[TreeEntry], b: &[TreeEntry]) -> bool {
    a.len() == b.len()
        && a.iter().zip(b.iter()).all(|(x, y)| x.path == y.path && x.is_leaf == y.is_leaf && x.contents == y.contents)
}

#[test]
fn round_trip_of_a_mixed_tree() {
    let tree = vec![
        dir(""),
        file("empty.bin", Vec::new()),
        dir("a"),
        dir("a/b"),
        file("a/b/deep.txt", b"deep".to_vec()),
        file("big.bin", pattern(CHUNK_SIZE + 17)),
        file("exact.bin", pattern(2 * CHUNK_SIZE)),
        file("a/one.bin", pattern(CHUNK_SIZE)),
    ];
    let archive = create_sonorous_file(&tree, "correct horse").unwrap();
    let back = extract_archive(archive, "correct horse").unwrap();
    assert!(same_tree(&tree, &back));
}

#[test]
fn round_trip_of_an_empty_tree() {
    let tree: Vec<TreeEntry> = Vec::new();
    let archive = create_sonorous_file(&tree, "pw").unwrap();
    let back = extract_archive(archive, "pw").unwrap();
    assert!(back.is_empty());
}

#[test]
fn wrong_password_fails_at_table() {
    let tree = vec![file("a.txt", b"hello".to_vec())];
    let archive = create_sonorous_file(&tree, "right").unwrap();
    assert_eq!(extract_archive(archive.clone(), "wrong").unwrap_err(), ArchiveError::AuthenticationFailed);
    let mut reader = ByteReader::new(archive);
    assert_eq!(
        SonorousFileTable::from_reader(&mut reader, "wrong").unwrap_err(),
        ArchiveError::AuthenticationFailed
    );
}

#[test]
fn example_tree_scenario() {
    let tree = vec![file("a.txt", b"hello".to_vec()), dir("sub"), file("sub/b.txt", b"world".to_vec())];
    let archive = create_sonorous_file(&tree, "pw1").unwrap();
    let back = extract_archive(archive.clone(), "pw1").unwrap();
    let a = back.iter().find(|e| e.path == "a.txt").unwrap();
    let b = back.iter().find(|e| e.path == "sub/b.txt").unwrap();
    assert_eq!(a.contents, b"hello".to_vec());
    assert_eq!(b.contents, b"world".to_vec());
    assert_eq!(extract_archive(archive, "pw2").unwrap_err(), ArchiveError::AuthenticationFailed);
}

#[test]
fn tampered_chunk_fails_and_others_still_decrypt() {
    let salt = [8u8; 32];
    let tree = vec![file("two.bin", pattern(CHUNK_SIZE + 100))];
    let archive = build_archive(&tree, "pw", &salt).unwrap();
    let key = create_key(&salt, b"pw").unwrap();
    // first chunk: marker at 0, block at 1; its ciphertext starts at 1 + 16
    let second_block = 1 + 16 + CHUNK_SIZE + 16 + 1;
    let mut tampered = archive.clone();
    tampered[1 + 16 + 5] ^= 0x01;
    let mut reader = ByteReader::new(tampered.clone());
    assert_eq!(transfer_archival_node(&mut reader, &key), Err(ArchiveError::AuthenticationFailed));
    let mut reader = ByteReader::new(tampered.clone());
    reader.seek(second_block);
    assert_eq!(read_encrypted(&mut reader, &key).unwrap(), pattern(CHUNK_SIZE + 100)[CHUNK_SIZE..].to_vec());
    assert_eq!(extract_archive(tampered, "pw").unwrap_err(), ArchiveError::AuthenticationFailed);
}

#[test]
fn tampered_table_fails_authentication() {
    let tree = vec![file("a", b"x".to_vec())];
    let mut archive = create_sonorous_file(&tree, "pw").unwrap();
    let n = archive.len();
    archive[n - 8 - 3] ^= 0x80;
    assert_eq!(extract_archive(archive, "pw").unwrap_err(), ArchiveError::AuthenticationFailed);
}

#[test]
fn exact_multiple_of_chunk_has_no_empty_trailing_chunk() {
    let key = [1u8; 32];
    let mut body: Vec<u8> = Vec::new();
    write_file_body(&mut body, &key, &pattern(2 * CHUNK_SIZE)).unwrap();
    let block = 12 + 4 + CHUNK_SIZE + 16;
    assert_eq!(body.len(), 2 * (1 + block) + 1);
    assert_eq!(body[0], 0x00);
    assert_eq!(body[1 + block], 0x00);
    assert_eq!(body[body.len() - 1], 0x01);
}

#[test]
fn empty_file_body_is_only_the_end_marker() {
    let key = [1u8; 32];
    let node = ArchivalNode { path: "e".to_string(), is_leaf: true };
    let mut out: Vec<u8> = vec![7, 7];
    assert_eq!(node.write(&mut out, &key, &[]), Ok(2));
    assert_eq!(out, vec![7, 7, 0x01]);
    let folder = ArchivalNode { path: "d".to_string(), is_leaf: false };
    assert_eq!(folder.write(&mut out, &key, &[]), Ok(3));
    assert_eq!(out.len(), 3);
}

#[test]
fn body_with_unknown_marker_is_malformed() {
    let key = [1u8; 32];
    let mut reader = ByteReader::new(vec![0x02]);
    assert_eq!(transfer_archival_node(&mut reader, &key), Err(ArchiveError::MalformedEntryBody));
    let mut empty = ByteReader::new(Vec::new());
    assert_eq!(transfer_archival_node(&mut empty, &key), Err(ArchiveError::TruncatedInput));
}

#[test]
fn files_lists_paths_in_order() {
    let tree = vec![dir("d"), file("d/f", b"1".to_vec())];
    let archive = create_sonorous_file(&tree, "pw").unwrap();
    let mut reader = ByteReader::new(archive);
    let table = SonorousFileTable::from_reader(&mut reader, "pw").unwrap();
    assert_eq!(table.files(), vec!["d".to_string(), "d/f".to_string()]);
}

#[test]
fn build_records_body_positions() {
    let salt = [2u8; 32];
    let tree = vec![file("x", b"abc".to_vec()), dir("y"), file("z", Vec::new())];
    let archive = build_archive(&tree, "pw", &salt).unwrap();
    let mut reader = ByteReader::new(archive.clone());
    let table = FileTable::from_reader(&mut reader, "pw").unwrap();
    let x_len = 1 + 12 + 4 + 3 + 16 + 1;
    assert_eq!(table.map[0].1, 0);
    assert_eq!(table.map[1].1, x_len as u64);
    assert_eq!(table.map[2].1, x_len as u64);
    assert_eq!(archive[x_len], 0x01);
}

fn stream(tree: &[TreeEntry], password: &str) -> Vec<u8> {
    let mut writer = sonors::writer::ArchiveWriter::new(password, &[6u8; 32]).unwrap();
    let mut archive: Vec<u8> = Vec::new();
    for entry in tree {
        if entry.is_leaf {
            writer.begin_file(entry.path.clone()).unwrap();
            for chunk in entry.contents.chunks(CHUNK_SIZE) {
                let mut out: Vec<u8> = Vec::new();
                writer.write_chunk(&mut out, chunk).unwrap();
                archive.extend_from_slice(&out);
            }
            writer.end_file(&mut archive).unwrap();
        } else {
            writer.add_directory(entry.path.clone()).unwrap();
        }
    }
    writer.finish(&mut archive).unwrap();
    archive
}

#[test]
fn streamed_container_round_trips() {
    let tree = vec![
        dir(""),
        file("empty", Vec::new()),
        dir("n"),
        file("n/exact", pattern(CHUNK_SIZE)),
        file("n/long", pattern(2 * CHUNK_SIZE + 5)),
    ];
    let archive = stream(&tree, "stream pw");
    let back = extract_archive(archive.clone(), "stream pw").unwrap();
    assert!(same_tree(&tree, &back));
    assert_eq!(extract_archive(archive, "other").unwrap_err(), ArchiveError::AuthenticationFailed);
}

#[test]
fn streamed_and_whole_builds_agree_in_layout() {
    let tree = vec![file("a", pattern(CHUNK_SIZE + 1)), dir("b")];
    let streamed = stream(&tree, "pw");
    let whole = build_archive(&tree, "pw", &[6u8; 32]).unwrap();
    // Nonces differ, the layout does not: same length, same markers, same salt.
    assert_eq!(streamed.len(), whole.len());
    let salt_at = u64::from_le_bytes(whole[whole.len() - 8..].try_into().unwrap()) as usize;
    assert_eq!(&streamed[streamed.len() - 8..], &whole[whole.len() - 8..]);
    assert_eq!(&streamed[salt_at..salt_at + 32], &[6u8; 32][..]);
    assert_eq!(streamed[0], 0x00);
}

#[test]
fn node_writer_returns_start_and_round_trips() {
    let key = [5u8; 32];
    let node = ArchivalNode { path: "f".to_string(), is_leaf: true };
    let mut out: Vec<u8> = vec![9; 4];
    let data = pattern(CHUNK_SIZE + 3);
    assert_eq!(sonors::node::write_archival_node(&mut out, &node, &key, &data), Ok(4));
    let mut reader = ByteReader::new(out);
    reader.seek(4);
    assert_eq!(transfer_archival_node(&mut reader, &key).unwrap(), data);
}

#[test]
fn expand_restores_rows_in_order() {
    let tree = vec![dir("d"), file("d/x", b"xyz".to_vec()), file("e", Vec::new())];
    let archive = create_sonorous_file(&tree, "pw").unwrap();
    let mut reader = ByteReader::new(archive);
    let table = sonors::archive::read_sonorous_file_table(&mut reader, "pw").unwrap();
    let back = table.expand_into_files(&mut reader).unwrap();
    assert!(same_tree(&tree, &back));
}

#[test]
fn row_pointing_past_the_end_is_truncated() {
    let salt = [3u8; 32];
    let key = create_key(&salt, b"pw").unwrap();
    let mut table = FileTable::new(key, &salt);
    table.add(0, 500, ArchivalNode { path: "ghost".to_string(), is_leaf: true });
    let mut archive: Vec<u8> = Vec::new();
    table.write(&mut archive).unwrap();
    assert_eq!(extract_archive(archive, "pw").unwrap_err(), ArchiveError::TruncatedInput);
}

#[test]
fn empty_body_leaves_reader_after_end_marker() {
    let key = [1u8; 32];
    let mut reader = ByteReader::new(vec![0x01, 0xAB]);
    assert_eq!(transfer_archival_node(&mut reader, &key), Ok(Vec::new()));
    assert_eq!(reader.position(), 1);
}

#[test]
fn body_read_stops_right_after_its_end_marker() {
    let key = [2u8; 32];
    for len in [0usize, 10, CHUNK_SIZE, CHUNK_SIZE + 1, 2 * CHUNK_SIZE] {
        let mut out: Vec<u8> = vec![0xCC; 3];
        let node = ArchivalNode { path: "f".to_string(), is_leaf: true };
        let start = node.write(&mut out, &key, &pattern(len)).unwrap();
        out.extend_from_slice(&[0xDD; 5]);
        let chunks = (len + CHUNK_SIZE - 1) / CHUNK_SIZE;
        let mut reader = ByteReader::new(out);
        reader.seek(start as usize);
        assert_eq!(transfer_archival_node(&mut reader, &key).unwrap(), pattern(len));
        assert_eq!(reader.position(), 3 + 1 + 33 * chunks + len);
    }
}

/// Reads a body chunk by chunk, as a streaming caller does.
fn read_body_by_chunks(bytes: &[u8], mut pos: usize, key: &[u8]) -> Result<Vec<u8>, ArchiveError> {
    let mut data = Vec::new();
    loop {
        if pos >= bytes.len() {
            return Err(ArchiveError::TruncatedInput);
        }
        let more = chunk_follows(bytes[pos])?;
        pos += 1;
        if !more {
            return Ok(data);
        }
        let header_end = (pos + 16).min(bytes.len());
        let mut end = header_end;
        if header_end - pos == 16 {
            end = (header_end + block_length(&bytes[pos..header_end]) as usize).min(bytes.len());
        }
        data.extend_from_slice(&open_block(key, &bytes[pos..end])?);
        pos = end;
    }
}

#[test]
fn chunkwise_reading_matches_whole_reading() {
    let key = [4u8; 32];
    let mut body: Vec<u8> = Vec::new();
    write_file_body(&mut body, &key, &pattern(2 * CHUNK_SIZE + 9)).unwrap();
    assert_eq!(read_body_by_chunks(&body, 0, &key).unwrap(), pattern(2 * CHUNK_SIZE + 9));
    let mut cut = body.clone();
    cut.truncate(body.len() - 30);
    assert_eq!(read_body_by_chunks(&cut, 0, &key), Err(ArchiveError::TruncatedInput));
    let mut bad = body.clone();
    bad[20] ^= 1;
    assert_eq!(read_body_by_chunks(&bad, 0, &key), Err(ArchiveError::AuthenticationFailed));
    assert_eq!(read_body_by_chunks(&[7u8], 0, &key), Err(ArchiveError::MalformedEntryBody));
}

#[test]
fn block_header_declares_ciphertext_length() {
    let mut header = vec![0u8; 12];
    header.extend_from_slice(&[0x10, 0x02, 0, 0]);
    assert_eq!(block_length(&header), 0x0210);
}

#[test]
fn table_region_alone_reads_like_the_container() {
    let tree = vec![dir("d"), file("d/f", pattern(CHUNK_SIZE + 2))];
    let archive = create_sonorous_file(&tree, "pw").unwrap();
    let start = trailer_position(&archive[archive.len() - 8..]) as usize;
    let region = archive[start..].to_vec();
    let from_region = FileTable::from_region(region.clone(), "pw").unwrap();
    let mut reader = ByteReader::new(archive.clone());
    let whole = FileTable::from_reader(&mut reader, "pw").unwrap();
    assert_eq!(from_region.map.len(), whole.map.len());
    for (a, b) in from_region.map.iter().zip(whole.map.iter()) {
        assert_eq!((a.0, a.1, a.2.is_leaf, &a.2.path), (b.0, b.1, b.2.is_leaf, &b.2.path));
    }
    let f = &from_region.map[1];
    assert_eq!(read_body_by_chunks(&archive, f.1 as usize, from_region.key()).unwrap(), pattern(CHUNK_SIZE + 2));
    assert_eq!(FileTable::from_region(region, "wrong").unwrap_err(), ArchiveError::AuthenticationFailed);
    assert_eq!(FileTable::from_region(vec![0u8; 10], "pw").unwrap_err(), ArchiveError::TruncatedInput);
}

#[test]
fn abandoned_writer_produces_nothing_more() {
    let mut writer = sonors::writer::ArchiveWriter::new("pw", &[1u8; 32]).unwrap();
    writer.begin_file("x".to_string()).unwrap();
    writer.abandon();
}

#[test]
fn marker_step_reports_missing_marker() {
    assert_eq!(sonors::node::next_marker(&[]), Err(ArchiveError::TruncatedInput));
    assert_eq!(sonors::node::next_marker(&[0]), Ok(true));
    assert_eq!(sonors::node::next_marker(&[1]), Ok(false));
    assert_eq!(sonors::node::next_marker(&[5]), Err(ArchiveError::MalformedEntryBody));
}

#[test]
fn built_container_stores_the_given_salt() {
    let salt = [0x5Au8; 32];
    let archive = build_archive(&vec![file("a", b"1".to_vec())], "pw", &salt).unwrap();
    let start = trailer_position(&archive[archive.len() - 8..]) as usize;
    assert_eq!(&archive[start..start + 32], &salt[..]);
}

#[test]
fn single_full_chunk_layout() {
    let key = [3u8; 32];
    let node = ArchivalNode { path: "f".to_string(), is_leaf: true };
    let mut out: Vec<u8> = Vec::new();
    assert_eq!(node.write(&mut out, &key, &pattern(CHUNK_SIZE)), Ok(0));
    assert_eq!(out.len(), 131106);
    assert_eq!(out[0], 0x00);
    assert_eq!(&out[13..17], &131088u32.to_le_bytes());
    assert_eq!(out[131105], 0x01);
}
