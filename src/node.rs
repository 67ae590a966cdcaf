use vstd::prelude::*;
use vstd::slice::slice_subrange;
use crate::constants::{CHUNK_MARKER, CHUNK_SIZE, END_MARKER, KEY_LENGTH_IN_BYTES};
use crate::error::ArchiveError;
use crate::ioutils::{append_bytes, read_byte, u32_of_le, ByteReader};
use crate::secure::{block_at, is_block_of, lemma_block_round_trip, read_encrypted, write_encrypted};

verus! {

/// One object of the stored tree: a relative path, and whether it is a
/// regular file (a leaf) or a directory.
#[derive(Debug)]
pub struct ArchivalNode {
    pub path: String,
    pub is_leaf: bool,
}

/// `chunks` cuts `data` into pieces of `CHUNK_SIZE` bytes, in order; only the
/// last may be shorter, and none is empty.
pub open spec fn is_chunking(chunks: Seq<Seq<u8>>, data: Seq<u8>) -> bool {
    &&& chunks.flatten() == data
    &&& forall|i: int| 0 <= i < chunks.len() ==> 0 < #[trigger] chunks[i].len() <= CHUNK_SIZE
    &&& forall|i: int| 0 <= i < chunks.len() - 1 ==> #[trigger] chunks[i].len() == CHUNK_SIZE
}

/// A chunk as stored in a file body: the chunk marker, then its block.
pub open spec fn framed(block: Seq<u8>) -> Seq<u8> {
    seq![CHUNK_MARKER] + block
}

/// The chunks' frames, in order.
pub open spec fn frames(blocks: Seq<Seq<u8>>) -> Seq<u8> {
    blocks.map_values(|b: Seq<u8>| framed(b)).flatten()
}

/// A file body made of these blocks: each framed, then the end marker.
pub open spec fn file_body(blocks: Seq<Seq<u8>>) -> Seq<u8> {
    frames(blocks).push(END_MARKER)
}

/// `blocks` encrypts `chunks` one for one under `key`.
pub open spec fn blocks_seal(key: Seq<u8>, blocks: Seq<Seq<u8>>, chunks: Seq<Seq<u8>>) -> bool {
    blocks.len() == chunks.len()
        && forall|i: int| 0 <= i < blocks.len() ==> is_block_of(key, #[trigger] blocks[i], chunks[i])
}

/// `body` is a file body that stores `data` under `key`: `data` cut into
/// chunks, each chunk encrypted on its own, each block framed, then the end marker.
pub open spec fn is_file_body(key: Seq<u8>, body: Seq<u8>, data: Seq<u8>) -> bool {
    exists|chunks: Seq<Seq<u8>>, blocks: Seq<Seq<u8>>|
        #[trigger] is_chunking(chunks, data) && #[trigger] blocks_seal(key, blocks, chunks)
            && file_body(blocks) == body
}

/// What reading a file body at position `p` of `b` under `key` yields.
pub open spec fn body_at(key: Seq<u8>, b: Seq<u8>, p: int) -> Result<Seq<u8>, ArchiveError>
    decreases b.len() - p,
{
    if p < 0 || p >= b.len() {
        Err(ArchiveError::TruncatedInput)
    } else if b[p] == END_MARKER {
        Ok(Seq::empty())
    } else if b[p] != CHUNK_MARKER {
        Err(ArchiveError::MalformedEntryBody)
    } else {
        match block_at(key, b, p + 1) {
            Err(e) => Err(e),
            Ok((chunk, q)) => if q <= p || q > b.len() {
                // Never taken: a block ends after it starts and within `b`.
                Err(ArchiveError::TruncatedInput)
            } else {
                match body_at(key, b, q) {
                    Ok(rest) => Ok(chunk + rest),
                    Err(e) => Err(e),
                }
            },
        }
    }
}

/// Where reading a file body at position `p` of `b` under `key` stops: just
/// after its end marker (meaningful where `body_at` succeeds).
pub open spec fn body_end(key: Seq<u8>, b: Seq<u8>, p: int) -> int
    decreases b.len() - p,
{
    if p < 0 || p >= b.len() {
        p
    } else if b[p] == END_MARKER {
        p + 1
    } else if b[p] != CHUNK_MARKER {
        p
    } else {
        match block_at(key, b, p + 1) {
            Err(_) => p,
            Ok((_, q)) => if q <= p || q > b.len() {
                p
            } else {
                body_end(key, b, q)
            },
        }
    }
}

/// `acc` followed by what `r` read, or the failure of `r`.
pub open spec fn after(acc: Seq<u8>, r: Result<Seq<u8>, ArchiveError>) -> Result<Seq<u8>, ArchiveError> {
    match r {
        Ok(rest) => Ok(acc + rest),
        Err(e) => Err(e),
    }
}

/// One more block adds its frame at the end.
pub proof fn lemma_frames_push(blocks: Seq<Seq<u8>>, block: Seq<u8>)
    ensures
        frames(blocks.push(block)) == frames(blocks) + framed(block),
{
    let f = |b: Seq<u8>| framed(b);
    assert(blocks.push(block).map_values(f) =~= blocks.map_values(f).push(framed(block)));
    blocks.map_values(f).lemma_flatten_push(framed(block));
}

proof fn lemma_frames_first(blocks: Seq<Seq<u8>>)
    requires
        blocks.len() > 0,
    ensures
        frames(blocks) == framed(blocks[0]) + frames(blocks.drop_first()),
{
    let f = |b: Seq<u8>| framed(b);
    assert(blocks.map_values(f).drop_first() =~= blocks.drop_first().map_values(f));
}

/// A file body reads back as the data it stores, wherever it stands.
pub proof fn lemma_body_round_trip(
    key: Seq<u8>,
    pre: Seq<u8>,
    blocks: Seq<Seq<u8>>,
    chunks: Seq<Seq<u8>>,
    post: Seq<u8>,
)
    requires
        blocks_seal(key, blocks, chunks),
    ensures
        body_at(key, pre + file_body(blocks) + post, pre.len() as int) == Ok::<Seq<u8>, ArchiveError>(
            chunks.flatten(),
        ),
        body_end(key, pre + file_body(blocks) + post, pre.len() as int) == pre.len() + file_body(blocks).len(),
    decreases blocks.len(),
{
    let b = pre + file_body(blocks) + post;
    let p = pre.len() as int;
    if blocks.len() == 0 {
        assert(frames(blocks) =~= Seq::<u8>::empty());
        assert(b[p] == END_MARKER);
        assert(chunks.flatten() =~= Seq::<u8>::empty());
    } else {
        lemma_frames_first(blocks);
        let rest = blocks.drop_first();
        let pre2 = pre + framed(blocks[0]);
        assert(b =~= pre2 + file_body(rest) + post);
        assert(b[p] == CHUNK_MARKER);
        assert(is_block_of(key, blocks[0], chunks[0]));
        assert(b =~= (pre + seq![CHUNK_MARKER]) + blocks[0] + (file_body(rest) + post));
        lemma_block_round_trip(key, pre + seq![CHUNK_MARKER], blocks[0], file_body(rest) + post, chunks[0]);
        assert(blocks_seal(key, rest, chunks.drop_first())) by {
            assert forall|i: int| 0 <= i < rest.len() implies is_block_of(key, #[trigger] rest[i], chunks.drop_first()[i]) by {
                assert(is_block_of(key, blocks[i + 1], chunks[i + 1]));
            }
        }
        lemma_body_round_trip(key, pre2, rest, chunks.drop_first(), post);
        assert(pre2.len() + file_body(rest).len() == pre.len() + file_body(blocks).len());
    }
}

proof fn lemma_full_chunks_len(chunks: Seq<Seq<u8>>)
    requires
        forall|i: int| 0 <= i < chunks.len() ==> #[trigger] chunks[i].len() == CHUNK_SIZE,
    ensures
        chunks.flatten().len() == chunks.len() * CHUNK_SIZE,
    decreases chunks.len(),
{
    if chunks.len() > 0 {
        let rest = chunks.drop_first();
        assert forall|i: int| 0 <= i < rest.len() implies #[trigger] rest[i].len() == CHUNK_SIZE by {
            assert(chunks[i + 1].len() == CHUNK_SIZE);
        }
        lemma_full_chunks_len(rest);
        assert(chunks[0].len() == CHUNK_SIZE);
        assert(chunks.len() * CHUNK_SIZE == CHUNK_SIZE + rest.len() * CHUNK_SIZE) by (nonlinear_arith)
            requires
                rest.len() + 1 == chunks.len(),
        ;
    }
}

/// A file whose size is an exact multiple of `CHUNK_SIZE` is cut into exactly
/// that many chunks, all full: its body ends with the end marker right after
/// the last full chunk, with no empty chunk before it.
pub proof fn lemma_exact_multiple_chunks(chunks: Seq<Seq<u8>>, data: Seq<u8>, m: nat)
    requires
        is_chunking(chunks, data),
        data.len() == m * CHUNK_SIZE,
    ensures
        chunks.len() == m,
        forall|i: int| 0 <= i < chunks.len() ==> #[trigger] chunks[i].len() == CHUNK_SIZE,
{
    let n = chunks.len();
    if n == 0 {
        assert(chunks.flatten() =~= Seq::<u8>::empty());
        assert(m == 0) by (nonlinear_arith)
            requires
                m * CHUNK_SIZE == 0,
        ;
    } else {
        let init = chunks.drop_last();
        let last = chunks.last();
        assert forall|i: int| 0 <= i < init.len() implies #[trigger] init[i].len() == CHUNK_SIZE by {
            assert(chunks[i].len() == CHUNK_SIZE);
        }
        lemma_full_chunks_len(init);
        assert(init.push(last) =~= chunks);
        init.lemma_flatten_push(last);
        let l = last.len() as int;
        assert(0 < l <= CHUNK_SIZE);
        let k = init.len() as int;
        assert(m * CHUNK_SIZE == k * CHUNK_SIZE + l);
        assert(l == CHUNK_SIZE && m == k + 1) by (nonlinear_arith)
            requires
                m * CHUNK_SIZE == k * CHUNK_SIZE + l,
                0 < l <= CHUNK_SIZE,
                k >= 0,
                CHUNK_SIZE == 131072,
        ;
    }
}

impl ArchivalNode {
    /// Appends this entry's body and returns the position at which it starts.
    /// A directory's body is empty; a file's body stores `contents` in chunks of
    /// at most `CHUNK_SIZE` bytes, each behind the chunk marker and encrypted
    /// with its own nonce, then the end marker. Fails, writing nothing, only
    /// when no nonce can be drawn (never for a directory or an empty file).
    pub fn write(&self, writer: &mut Vec<u8>, key: &[u8], contents: &[u8]) -> (res: Result<u64, ArchiveError>)
        requires
            key@.len() == KEY_LENGTH_IN_BYTES,
        ensures
            !self.is_leaf ==> res is Ok,
            self.is_leaf && contents@.len() == 0 ==> res is Ok,
            match res {
                Ok(pos) => pos == old(writer)@.len() && (self.is_leaf ==> exists|body: Seq<u8>|
                    is_file_body(key@, body, contents@) && #[trigger] (old(writer)@ + body) == final(writer)@)
                    && (!self.is_leaf ==> final(writer)@ == old(writer)@),
                Err(e) => e == ArchiveError::RandomnessUnavailable && final(writer)@ == old(writer)@,
            },
    {
        let starting_position = writer.len() as u64;
        if self.is_leaf {
            write_file_body(writer, key, contents)?;
        }
        Ok(starting_position)
    }
}

/// Appends the body of `node` (see `ArchivalNode::write`) and returns the
/// position at which it starts.
pub fn write_archival_node(writer: &mut Vec<u8>, node: &ArchivalNode, key: &[u8], contents: &[u8]) -> (res: Result<u64, ArchiveError>)
    requires
        key@.len() == KEY_LENGTH_IN_BYTES,
    ensures
        !node.is_leaf ==> res is Ok,
        node.is_leaf && contents@.len() == 0 ==> res is Ok,
        match res {
            Ok(pos) => pos == old(writer)@.len() && (node.is_leaf ==> exists|body: Seq<u8>|
                is_file_body(key@, body, contents@) && #[trigger] (old(writer)@ + body) == final(writer)@)
                && (!node.is_leaf ==> final(writer)@ == old(writer)@),
            Err(e) => e == ArchiveError::RandomnessUnavailable && final(writer)@ == old(writer)@,
        },
{
    node.write(writer, key, contents)
}

/// Appends the file body that stores `contents` under `key`. Fails, writing
/// nothing, only when no nonce can be drawn; an empty file draws none and its
/// body is the end marker alone.
pub fn write_file_body(writer: &mut Vec<u8>, key: &[u8], contents: &[u8]) -> (res: Result<(), ArchiveError>)
    requires
        key@.len() == KEY_LENGTH_IN_BYTES,
    ensures
        contents@.len() == 0 ==> res is Ok,
        match res {
            Ok(()) => exists|body: Seq<u8>|
                is_file_body(key@, body, contents@) && #[trigger] (old(writer)@ + body) == final(writer)@,
            Err(e) => e == ArchiveError::RandomnessUnavailable && final(writer)@ == old(writer)@,
        },
{
    let mut staged: Vec<u8> = Vec::new();
    let ghost mut chunks: Seq<Seq<u8>> = Seq::empty();
    let ghost mut blocks: Seq<Seq<u8>> = Seq::empty();
    let mut offset: usize = 0;
    while offset < contents.len()
        invariant
            key@.len() == KEY_LENGTH_IN_BYTES,
            offset <= contents@.len(),
            chunks.flatten() == contents@.subrange(0, offset as int),
            forall|i: int| 0 <= i < chunks.len() ==> 0 < #[trigger] chunks[i].len() <= CHUNK_SIZE,
            forall|i: int| 0 <= i < chunks.len() - 1 ==> #[trigger] chunks[i].len() == CHUNK_SIZE,
            offset < contents@.len() ==> forall|i: int| 0 <= i < chunks.len() ==> #[trigger] chunks[i].len() == CHUNK_SIZE,
            blocks_seal(key@, blocks, chunks),
            writer@ == old(writer)@,
            staged@ == frames(blocks),
        decreases contents@.len() - offset,
    {
        let end: usize = if contents.len() - offset > CHUNK_SIZE {
            offset + CHUNK_SIZE
        } else {
            contents.len()
        };
        let chunk = slice_subrange(contents, offset, end);
        staged.push(CHUNK_MARKER);
        let ghost w1 = staged@;
        match write_encrypted(&mut staged, key, chunk) {
            Ok(()) => {},
            Err(e) => {
                return Err(e);
            },
        }
        let ghost block = choose|block: Seq<u8>| is_block_of(key@, block, chunk@) && #[trigger] (w1 + block) == staged@;
        proof {
            lemma_frames_push(blocks, block);
            assert(staged@ =~= frames(blocks.push(block)));
            assert(contents@.subrange(0, end as int) =~= contents@.subrange(0, offset as int) + chunk@);
            chunks.lemma_flatten_push(chunk@);
            blocks = blocks.push(block);
            chunks = chunks.push(chunk@);
        }
        offset = end;
    }
    staged.push(END_MARKER);
    append_bytes(writer, staged.as_slice());
    proof {
        assert(contents@.subrange(0, offset as int) =~= contents@);
        assert(writer@ =~= old(writer)@ + file_body(blocks));
        assert(is_chunking(chunks, contents@));
        assert(blocks_seal(key@, blocks, chunks));
        assert(is_file_body(key@, file_body(blocks), contents@));
    }
    Ok(())
}

/// Reads the file body at the read position under `key` and returns the data
/// it stores; the reader then stands just after the body's end marker.
pub fn transfer_archival_node(reader: &mut ByteReader, key: &[u8]) -> (res: Result<Vec<u8>, ArchiveError>)
    requires
        key@.len() == KEY_LENGTH_IN_BYTES,
    ensures
        final(reader).data@ == old(reader).data@,
        match res {
            Ok(data) => body_at(key@, old(reader).data@, old(reader).pos as int)
                == Ok::<Seq<u8>, ArchiveError>(data@)
                && final(reader).pos == body_end(key@, old(reader).data@, old(reader).pos as int),
            Err(e) => body_at(key@, old(reader).data@, old(reader).pos as int)
                == Err::<Seq<u8>, ArchiveError>(e),
        },
{
    let ghost b = reader.data@;
    let ghost p0 = reader.pos as int;
    let mut out: Vec<u8> = Vec::new();
    loop
        invariant
            key@.len() == KEY_LENGTH_IN_BYTES,
            reader.data@ == b,
            b == old(reader).data@,
            p0 == old(reader).pos,
            body_at(key@, b, p0) == after(out@, body_at(key@, b, reader.pos as int)),
            body_at(key@, b, reader.pos as int) is Ok ==> body_end(key@, b, p0) == body_end(key@, b, reader.pos as int),
        decreases b.len() - reader.pos,
    {
        let ghost p = reader.pos as int;
        let status = read_byte(reader)?;
        if status == END_MARKER {
            assert(out@ + Seq::<u8>::empty() =~= out@);
            return Ok(out);
        }
        if status != CHUNK_MARKER {
            return Err(ArchiveError::MalformedEntryBody);
        }
        let chunk = read_encrypted(reader, key)?;
        let ghost q = reader.pos as int;
        assert(q > p && q <= b.len());
        let ghost before = out@;
        let mut chunk_mut = chunk;
        out.append(&mut chunk_mut);
        proof {
            match body_at(key@, b, q) {
                Ok(rest) => assert(before + (chunk@ + rest) =~= out@ + rest),
                Err(_) => {},
            }
        }
    }
}

/// What a marker byte of a file body announces: a chunk (`Ok(true)`), the end
/// of the body (`Ok(false)`), or nothing valid.
pub open spec fn marker_meaning(marker: u8) -> Result<bool, ArchiveError> {
    if marker == CHUNK_MARKER {
        Ok(true)
    } else if marker == END_MARKER {
        Ok(false)
    } else {
        Err(ArchiveError::MalformedEntryBody)
    }
}

/// Reads the marker of a file body from what could be read for it (one byte,
/// or none at the end of the input): whether a chunk follows.
pub fn next_marker(read: &[u8]) -> (res: Result<bool, ArchiveError>)
    requires
        read@.len() <= 1,
    ensures
        read@.len() == 0 ==> res == Err::<bool, ArchiveError>(ArchiveError::TruncatedInput),
        read@.len() == 1 ==> res == marker_meaning(read@[0]),
{
    if read.len() == 0 {
        Err(ArchiveError::TruncatedInput)
    } else {
        chunk_follows(read[0])
    }
}

/// Reads a marker byte of a file body: whether a chunk follows. Together with
/// `block_length` and `open_block` this reads a body one chunk at a time.
pub fn chunk_follows(marker: u8) -> (res: Result<bool, ArchiveError>)
    ensures
        res == marker_meaning(marker),
{
    if marker == CHUNK_MARKER {
        Ok(true)
    } else if marker == END_MARKER {
        Ok(false)
    } else {
        Err(ArchiveError::MalformedEntryBody)
    }
}

/// The ciphertext length that the 16-byte header of an encrypted block (nonce,
/// then length) declares.
pub fn block_length(header: &[u8]) -> (n: u32)
    requires
        header@.len() == 16,
    ensures
        n == u32_of_le(header@.subrange(12, 16)),
{
    let ghost h = header@.subrange(12, 16);
    assert(h[0] == header@[12] && h[1] == header@[13] && h[2] == header@[14] && h[3] == header@[15]);
    (header[12] as u32) | ((header[13] as u32) << 8u32) | ((header[14] as u32) << 16u32) | ((header[15] as u32) << 24u32)
}

/// Decrypts one encrypted block given as the bytes read for it: its header and
/// as much of its ciphertext as was available (see `lemma_block_window`).
pub fn open_block(key: &[u8], frame: &[u8]) -> (res: Result<Vec<u8>, ArchiveError>)
    requires
        key@.len() == KEY_LENGTH_IN_BYTES,
    ensures
        match res {
            Ok(p) => block_at(key@, frame@, 0) matches Ok((c, _)) && c == p@,
            Err(e) => block_at(key@, frame@, 0) == Err::<(Seq<u8>, int), ArchiveError>(e),
        },
{
    let mut bytes: Vec<u8> = Vec::new();
    append_bytes(&mut bytes, frame);
    assert(bytes@ =~= frame@);
    let mut reader = ByteReader::new(bytes);
    read_encrypted(&mut reader, key)
}

} // verus!
