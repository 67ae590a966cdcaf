use vstd::prelude::*;
use vstd::utf8::{decode_utf8, encode_utf8, encode_utf8_decode_utf8, valid_utf8};
use crate::error::ArchiveError;

verus! {

/// A seekable source of bytes: the whole input and a read position.
pub struct ByteReader {
    pub data: Vec<u8>,
    pub pos: usize,
}

/// Whether `n` more bytes are available after the read position.
pub open spec fn available(r: &ByteReader, n: int) -> bool {
    r.pos + n <= r.data@.len()
}

/// The `n` bytes that follow the read position.
pub open spec fn ahead(r: &ByteReader, n: int) -> Seq<u8> {
    r.data@.subrange(r.pos as int, r.pos + n)
}

/// Little-endian encoding of a `u32`.
pub open spec fn le_u32(n: u32) -> Seq<u8> {
    seq![n as u8, (n >> 8u32) as u8, (n >> 16u32) as u8, (n >> 24u32) as u8]
}

/// Little-endian encoding of a `u64`.
pub open spec fn le_u64(n: u64) -> Seq<u8> {
    seq![
        n as u8, (n >> 8u64) as u8, (n >> 16u64) as u8, (n >> 24u64) as u8,
        (n >> 32u64) as u8, (n >> 40u64) as u8, (n >> 48u64) as u8, (n >> 56u64) as u8,
    ]
}

/// The `u32` that four little-endian bytes denote.
pub open spec fn u32_of_le(b: Seq<u8>) -> u32 {
    (b[0] as u32) | ((b[1] as u32) << 8u32) | ((b[2] as u32) << 16u32) | ((b[3] as u32) << 24u32)
}

/// The `u64` that eight little-endian bytes denote.
pub open spec fn u64_of_le(b: Seq<u8>) -> u64 {
    (b[0] as u64) | ((b[1] as u64) << 8u64) | ((b[2] as u64) << 16u64) | ((b[3] as u64) << 24u64)
        | ((b[4] as u64) << 32u64) | ((b[5] as u64) << 40u64) | ((b[6] as u64) << 48u64)
        | ((b[7] as u64) << 56u64)
}

/// The one-byte encoding of a boolean.
pub open spec fn bool_byte(b: bool) -> u8 {
    if b { 1u8 } else { 0u8 }
}

/// A path stored as its UTF-8 byte length (`u32`, little-endian) and bytes.
pub open spec fn path_record(path: Seq<char>) -> Seq<u8> {
    le_u32(encode_utf8(path).len() as u32) + encode_utf8(path)
}

/// What a stored path at position `p` of `b` reads as, and where it ends.
pub open spec fn path_at(b: Seq<u8>, p: int) -> Result<(Seq<char>, int), ArchiveError> {
    if p + 4 > b.len() {
        Err(ArchiveError::TruncatedInput)
    } else {
        let n = u32_of_le(b.subrange(p, p + 4)) as int;
        if p + 4 + n > b.len() {
            Err(ArchiveError::TruncatedInput)
        } else if !valid_utf8(b.subrange(p + 4, p + 4 + n)) {
            Err(ArchiveError::InvalidPath)
        } else {
            Ok((decode_utf8(b.subrange(p + 4, p + 4 + n)), p + 4 + n))
        }
    }
}

/// Decoding four little-endian bytes gives back the encoded `u32`.
pub proof fn lemma_le_u32_round_trip(n: u32)
    ensures
        u32_of_le(le_u32(n)) == n,
{
    let (b0, b1, b2, b3) = (n as u8, (n >> 8u32) as u8, (n >> 16u32) as u8, (n >> 24u32) as u8);
    assert((b0 as u32) | ((b1 as u32) << 8u32) | ((b2 as u32) << 16u32) | ((b3 as u32) << 24u32) == n)
        by (bit_vector)
        requires
            b0 == n as u8,
            b1 == (n >> 8u32) as u8,
            b2 == (n >> 16u32) as u8,
            b3 == (n >> 24u32) as u8,
    ;
}

/// Decoding eight little-endian bytes gives back the encoded `u64`.
pub proof fn lemma_le_u64_round_trip(n: u64)
    ensures
        u64_of_le(le_u64(n)) == n,
{
    let b = le_u64(n);
    let (b0, b1, b2, b3) = (b[0], b[1], b[2], b[3]);
    let (b4, b5, b6, b7) = (b[4], b[5], b[6], b[7]);
    assert((b0 as u64) | ((b1 as u64) << 8u64) | ((b2 as u64) << 16u64) | ((b3 as u64) << 24u64)
        | ((b4 as u64) << 32u64) | ((b5 as u64) << 40u64) | ((b6 as u64) << 48u64)
        | ((b7 as u64) << 56u64) == n) by (bit_vector)
        requires
            b0 == n as u8,
            b1 == (n >> 8u64) as u8,
            b2 == (n >> 16u64) as u8,
            b3 == (n >> 24u64) as u8,
            b4 == (n >> 32u64) as u8,
            b5 == (n >> 40u64) as u8,
            b6 == (n >> 48u64) as u8,
            b7 == (n >> 56u64) as u8,
    ;
}

impl ByteReader {
    /// A reader positioned at the first byte of `data`.
    pub fn new(data: Vec<u8>) -> (r: ByteReader)
        ensures
            r.data@ == data@,
            r.pos == 0,
    {
        ByteReader { data, pos: 0 }
    }

    /// The current read position.
    pub fn position(&self) -> (r: usize)
        ensures
            r == self.pos,
    {
        self.pos
    }

    /// The number of bytes in the whole input.
    pub fn len(&self) -> (r: usize)
        ensures
            r == self.data@.len(),
    {
        self.data.len()
    }

    /// Moves the read position to `pos` (which may lie past the end).
    pub fn seek(&mut self, pos: usize)
        ensures
            final(self).data@ == old(self).data@,
            final(self).pos == pos,
    {
        self.pos = pos;
    }

    /// Reads `n` bytes, or fails with `TruncatedInput` and moves nothing.
    pub fn read_exact(&mut self, n: usize) -> (res: Result<Vec<u8>, ArchiveError>)
        ensures
            final(self).data@ == old(self).data@,
            match res {
                Ok(v) => available(old(self), n as int) && v@ == ahead(old(self), n as int)
                    && final(self).pos == old(self).pos + n,
                Err(e) => !available(old(self), n as int) && e == ArchiveError::TruncatedInput
                    && final(self).pos == old(self).pos,
            },
    {
        if self.pos > self.data.len() || self.data.len() - self.pos < n {
            return Err(ArchiveError::TruncatedInput);
        }
        let start: usize = self.pos;
        let mut out: Vec<u8> = Vec::with_capacity(n);
        let mut i: usize = 0;
        while i < n
            invariant
                i <= n,
                start == self.pos,
                start + n <= self.data.len(),
                out@ == self.data@.subrange(start as int, start + i),
            decreases n - i,
        {
            out.push(self.data[start + i]);
            i += 1;
            assert(out@ =~= self.data@.subrange(start as int, start + i));
        }
        self.pos = start + n;
        Ok(out)
    }
}

/// Reads one little-endian `u64`.
pub fn read_u64(reader: &mut ByteReader) -> (res: Result<u64, ArchiveError>)
    ensures
        final(reader).data@ == old(reader).data@,
        match res {
            Ok(v) => available(old(reader), 8) && v == u64_of_le(ahead(old(reader), 8))
                && final(reader).pos == old(reader).pos + 8,
            Err(e) => !available(old(reader), 8) && e == ArchiveError::TruncatedInput
                && final(reader).pos == old(reader).pos,
        },
{
    let b = reader.read_exact(8)?;
    Ok((b[0] as u64) | ((b[1] as u64) << 8u64) | ((b[2] as u64) << 16u64) | ((b[3] as u64) << 24u64)
        | ((b[4] as u64) << 32u64) | ((b[5] as u64) << 40u64) | ((b[6] as u64) << 48u64)
        | ((b[7] as u64) << 56u64))
}

/// Appends one little-endian `u64`.
pub fn write_u64(writer: &mut Vec<u8>, number: u64)
    ensures
        final(writer)@ == old(writer)@ + le_u64(number),
{
    writer.push(number as u8);
    writer.push((number >> 8u64) as u8);
    writer.push((number >> 16u64) as u8);
    writer.push((number >> 24u64) as u8);
    writer.push((number >> 32u64) as u8);
    writer.push((number >> 40u64) as u8);
    writer.push((number >> 48u64) as u8);
    writer.push((number >> 56u64) as u8);
    assert(writer@ =~= old(writer)@ + le_u64(number));
}

/// Appends one little-endian `u32`.
pub fn write_u32(writer: &mut Vec<u8>, number: u32)
    ensures
        final(writer)@ == old(writer)@ + le_u32(number),
{
    writer.push(number as u8);
    writer.push((number >> 8u32) as u8);
    writer.push((number >> 16u32) as u8);
    writer.push((number >> 24u32) as u8);
    assert(writer@ =~= old(writer)@ + le_u32(number));
}

/// Reads one little-endian `u32`.
pub fn read_u32(reader: &mut ByteReader) -> (res: Result<u32, ArchiveError>)
    ensures
        final(reader).data@ == old(reader).data@,
        match res {
            Ok(v) => available(old(reader), 4) && v == u32_of_le(ahead(old(reader), 4))
                && final(reader).pos == old(reader).pos + 4,
            Err(e) => !available(old(reader), 4) && e == ArchiveError::TruncatedInput
                && final(reader).pos == old(reader).pos,
        },
{
    let b = reader.read_exact(4)?;
    Ok((b[0] as u32) | ((b[1] as u32) << 8u32) | ((b[2] as u32) << 16u32) | ((b[3] as u32) << 24u32))
}

/// Reads one byte.
pub fn read_byte(reader: &mut ByteReader) -> (res: Result<u8, ArchiveError>)
    ensures
        final(reader).data@ == old(reader).data@,
        match res {
            Ok(v) => available(old(reader), 1) && v == old(reader).data@[old(reader).pos as int]
                && final(reader).pos == old(reader).pos + 1,
            Err(e) => !available(old(reader), 1) && e == ArchiveError::TruncatedInput
                && final(reader).pos == old(reader).pos,
        },
{
    if reader.pos >= reader.data.len() {
        return Err(ArchiveError::TruncatedInput);
    }
    let b = reader.data[reader.pos];
    reader.pos = reader.pos + 1;
    Ok(b)
}

/// Reads a boolean stored as 0x01 or 0x00; any other byte is `MalformedTable`.
pub fn read_bool(reader: &mut ByteReader) -> (res: Result<bool, ArchiveError>)
    ensures
        final(reader).data@ == old(reader).data@,
        match res {
            Ok(v) => available(old(reader), 1)
                && bool_byte(v) == old(reader).data@[old(reader).pos as int]
                && final(reader).pos == old(reader).pos + 1,
            Err(e) => if available(old(reader), 1) {
                e == ArchiveError::MalformedTable
                    && old(reader).data@[old(reader).pos as int] != 0
                    && old(reader).data@[old(reader).pos as int] != 1
            } else {
                e == ArchiveError::TruncatedInput && final(reader).pos == old(reader).pos
            },
        },
{
    let b = read_byte(reader)?;
    if b == 1 {
        Ok(true)
    } else if b == 0 {
        Ok(false)
    } else {
        Err(ArchiveError::MalformedTable)
    }
}

/// Appends a boolean as 0x01 or 0x00.
pub fn write_bool(writer: &mut Vec<u8>, value: bool)
    ensures
        final(writer)@ == old(writer)@.push(bool_byte(value)),
{
    if value {
        writer.push(1u8);
    } else {
        writer.push(0u8);
    }
}

/// Appends every byte of `bytes`.
pub fn append_bytes(writer: &mut Vec<u8>, bytes: &[u8])
    ensures
        final(writer)@ == old(writer)@ + bytes@,
{
    let mut i: usize = 0;
    while i < bytes.len()
        invariant
            i <= bytes@.len(),
            writer@ == old(writer)@ + bytes@.subrange(0, i as int),
        decreases bytes@.len() - i,
    {
        writer.push(bytes[i]);
        i += 1;
        assert(writer@ =~= old(writer)@ + bytes@.subrange(0, i as int));
    }
    assert(bytes@.subrange(0, bytes@.len() as int) =~= bytes@);
}

/// Relies on `String::from_utf8`: it refuses exactly the byte strings that are
/// not UTF-8, and otherwise yields the string whose UTF-8 bytes they are.
#[verifier::external_body]
fn string_from_utf8(bytes: Vec<u8>) -> (r: Option<String>)
    ensures
        r is Some <==> valid_utf8(bytes@),
        r matches Some(s) ==> encode_utf8(s@) == bytes@,
{
    String::from_utf8(bytes).ok()
}

/// Appends a path as its UTF-8 byte length (`u32`, little-endian) and bytes;
/// a path of more than `u32::MAX` bytes is refused and nothing is written.
pub fn write_pathbuf(writer: &mut Vec<u8>, buf: &String) -> (res: Result<(), ArchiveError>)
    ensures
        match res {
            Ok(()) => encode_utf8(buf@).len() <= u32::MAX
                && final(writer)@ == old(writer)@ + path_record(buf@),
            Err(e) => encode_utf8(buf@).len() > u32::MAX && e == ArchiveError::LengthOverflow
                && final(writer)@ == old(writer)@,
        },
{
    let path_bytes = buf.as_str().as_bytes();
    if path_bytes.len() > 0xFFFF_FFFFusize {
        return Err(ArchiveError::LengthOverflow);
    }
    write_u32(writer, path_bytes.len() as u32);
    append_bytes(writer, path_bytes);
    assert(writer@ =~= old(writer)@ + path_record(buf@));
    Ok(())
}

/// Reads a path written by `write_pathbuf`.
pub fn read_pathbuf(reader: &mut ByteReader) -> (res: Result<String, ArchiveError>)
    ensures
        final(reader).data@ == old(reader).data@,
        match res {
            Ok(s) => path_at(old(reader).data@, old(reader).pos as int)
                == Ok::<(Seq<char>, int), ArchiveError>((s@, final(reader).pos as int)),
            Err(e) => path_at(old(reader).data@, old(reader).pos as int)
                == Err::<(Seq<char>, int), ArchiveError>(e),
        },
{
    let ghost b = reader.data@;
    let ghost p = reader.pos as int;
    let path_length = read_u32(reader)?;
    let buf = reader.read_exact(path_length as usize)?;
    assert(b.subrange(p, p + 4) == ahead(old(reader), 4));
    match string_from_utf8(buf) {
        Some(s) => {
            proof {
                encode_utf8_decode_utf8(s@);
            }
            Ok(s)
        },
        None => Err(ArchiveError::InvalidPath),
    }
}

} // verus!
