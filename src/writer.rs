use vstd::prelude::*;
use vstd::utf8::encode_utf8;
use crate::archive::{archive_layout, is_archive_of, stores_salt, is_body_of, row_shapes, rows_of, EntryView};
use crate::constants::{CHUNK_MARKER, CHUNK_SIZE, END_MARKER, SALT_LENGTH_IN_BYTES, TAG_LENGTH_IN_BYTES};
use crate::error::ArchiveError;
use crate::ioutils::le_u64;
use crate::node::{blocks_seal, file_body, framed, frames, is_chunking, is_file_body, lemma_frames_push, ArchivalNode};
use crate::secure::{create_key, derived_key, is_block_of, key_derivable, write_encrypted};
use crate::table::{paths_fit, table_bytes, table_fits, FileTable};

verus! {

/// `new_out` is `old_out` followed by what `new_emitted` adds to `old_emitted`.
pub open spec fn appended(old_emitted: Seq<u8>, new_emitted: Seq<u8>, old_out: Seq<u8>, new_out: Seq<u8>) -> bool {
    &&& old_emitted.len() <= new_emitted.len()
    &&& new_emitted.subrange(0, old_emitted.len() as int) == old_emitted
    &&& new_out == old_out + new_emitted.subrange(old_emitted.len() as int, new_emitted.len() as int)
}

proof fn lemma_rows_of_push(entries: Seq<EntryView>, bodies: Seq<Seq<u8>>, e: EntryView)
    requires
        bodies.len() == entries.len(),
    ensures
        rows_of(entries.push(e), bodies) == rows_of(entries, bodies).push(
            (entries.len() as u32, bodies.flatten().len() as u64, e.1, e.0),
        ),
{
    assert(bodies.take(entries.len() as int) =~= bodies);
    assert(rows_of(entries.push(e), bodies) =~= rows_of(entries, bodies).push(
        (entries.len() as u32, bodies.flatten().len() as u64, e.1, e.0),
    ));
}

proof fn lemma_rows_of_body(entries: Seq<EntryView>, bodies: Seq<Seq<u8>>, b: Seq<u8>)
    requires
        entries.len() <= bodies.len() + 1,
    ensures
        rows_of(entries, bodies.push(b)) == rows_of(entries, bodies),
{
    assert forall|i: int| 0 <= i < entries.len() implies #[trigger] bodies.push(b).take(i) == bodies.take(i) by {
        assert(bodies.push(b).take(i) =~= bodies.take(i));
    }
    assert(rows_of(entries, bodies.push(b)) =~= rows_of(entries, bodies));
}

/// Builds a container as a stream, one step at a time: each step appends the
/// bytes it produces to an output buffer that the caller flushes in order.
/// Directories and files are announced in order; a file's contents follow as
/// chunks of `CHUNK_SIZE` bytes (the last may be shorter); the table closes it.
pub struct ArchiveWriter {
    table: FileTable,
    position: u64,
    open_file: bool,
    last_full: bool,
    password: Ghost<Seq<u8>>,
    emitted: Ghost<Seq<u8>>,
    entries: Ghost<Seq<EntryView>>,
    bodies: Ghost<Seq<Seq<u8>>>,
    chunks: Ghost<Seq<Seq<u8>>>,
    blocks: Ghost<Seq<Seq<u8>>>,
}

impl ArchiveWriter {
    /// Every byte produced so far, in order.
    pub closed spec fn emitted(&self) -> Seq<u8> {
        self.emitted@
    }

    /// The entries announced so far, with the contents written so far.
    pub closed spec fn entries(&self) -> Seq<EntryView> {
        self.entries@
    }

    /// The password's bytes.
    pub closed spec fn password(&self) -> Seq<u8> {
        self.password@
    }

    /// The salt.
    pub closed spec fn salt(&self) -> Seq<u8> {
        self.table.salt_bytes()
    }

    /// Whether a file's body is being written.
    pub closed spec fn in_file(&self) -> bool {
        self.open_file
    }

    /// Whether the file being written can take another chunk: every chunk so
    /// far was full.
    pub closed spec fn accepts_chunk(&self) -> bool {
        self.open_file && self.last_full
    }

    /// The writer's invariant.
    pub closed spec fn wf(&self) -> bool {
        let key = derived_key(self.password@, self.table.salt_bytes());
        let entries = self.entries@;
        let bodies = self.bodies@;
        let chunks = self.chunks@;
        &&& self.table.wf()
        &&& self.table.key_bytes() == key
        &&& key_derivable(self.password@, self.table.salt_bytes())
        &&& self.position as int == self.emitted@.len()
        &&& entries.len() <= u32::MAX + 1
        &&& bodies.len() + (if self.open_file { 1int } else { 0int }) == entries.len()
        &&& self.table.rows() == rows_of(entries, bodies)
        &&& self.emitted@ == bodies.flatten() + (if self.open_file { frames(self.blocks@) } else { Seq::<u8>::empty() })
        &&& forall|i: int| 0 <= i < bodies.len() ==> is_body_of(key, #[trigger] bodies[i], entries[i])
        &&& forall|i: int| 0 <= i < bodies.len() && !(#[trigger] entries[i]).1 ==> entries[i].2 == Seq::<u8>::empty()
        &&& self.open_file ==> {
            &&& entries.last().1
            &&& entries.last().2 == chunks.flatten()
            &&& blocks_seal(key, self.blocks@, chunks)
            &&& forall|i: int| 0 <= i < chunks.len() ==> 0 < #[trigger] chunks[i].len() <= CHUNK_SIZE
            &&& forall|i: int| 0 <= i < chunks.len() - 1 ==> #[trigger] chunks[i].len() == CHUNK_SIZE
            &&& self.last_full ==> forall|i: int| 0 <= i < chunks.len() ==> #[trigger] chunks[i].len() == CHUNK_SIZE
        }
    }

    /// Starts a container under `password` and `salt`.
    pub fn new(password: &str, salt: &[u8]) -> (res: Result<ArchiveWriter, ArchiveError>)
        requires
            salt@.len() == SALT_LENGTH_IN_BYTES,
        ensures
            res is Ok <==> key_derivable(encode_utf8(password@), salt@),
            match res {
                Ok(w) => w.wf() && w.emitted() == Seq::<u8>::empty() && w.entries() == Seq::<EntryView>::empty()
                    && w.password() == encode_utf8(password@) && w.salt() == salt@ && !w.in_file(),
                Err(e) => e == ArchiveError::KeyDerivationFailed,
            },
    {
        let key = create_key(salt, password.as_bytes())?;
        let table = FileTable::new(key, salt);
        let w = ArchiveWriter {
            table,
            position: 0,
            open_file: false,
            last_full: true,
            password: Ghost(encode_utf8(password@)),
            emitted: Ghost(Seq::empty()),
            entries: Ghost(Seq::empty()),
            bodies: Ghost(Seq::empty()),
            chunks: Ghost(Seq::empty()),
            blocks: Ghost(Seq::empty()),
        };
        proof {
            let bodies = Seq::<Seq<u8>>::empty();
            assert(bodies.flatten() =~= Seq::<u8>::empty());
            assert(rows_of(Seq::<EntryView>::empty(), bodies) =~= w.table.rows());
            assert(w.emitted@ =~= bodies.flatten() + Seq::<u8>::empty());
        }
        Ok(w)
    }

    /// Announces a directory. Fails with `LengthOverflow`, changing nothing,
    /// when its index would not fit a `u32`.
    pub fn add_directory(&mut self, path: String) -> (res: Result<(), ArchiveError>)
        requires
            old(self).wf(),
            !old(self).in_file(),
        ensures
            final(self).wf(),
            !final(self).in_file(),
            final(self).emitted() == old(self).emitted(),
            final(self).password() == old(self).password(),
            final(self).salt() == old(self).salt(),
            res is Ok <==> old(self).entries().len() <= u32::MAX,
            match res {
                Ok(()) => final(self).entries() == old(self).entries().push((path@, false, Seq::<u8>::empty())),
                Err(e) => e == ArchiveError::LengthOverflow && final(self).entries() == old(self).entries(),
            },
    {
        proof {
            self.table.lemma_rows();
        }
        if self.table.len() as u64 > 0xFFFF_FFFFu64 {
            return Err(ArchiveError::LengthOverflow);
        }
        let ghost e: EntryView = (path@, false, Seq::<u8>::empty());
        let index = self.table.len() as u32;
        let node = ArchivalNode { path, is_leaf: false };
        self.table.add(index, self.position, node);
        proof {
            let old_bodies = self.bodies@;
            lemma_rows_of_push(self.entries@, old_bodies, e);
            lemma_rows_of_body(self.entries@.push(e), old_bodies, Seq::<u8>::empty());
            old_bodies.lemma_flatten_push(Seq::<u8>::empty());
            assert(old_bodies.flatten() + Seq::<u8>::empty() =~= old_bodies.flatten());
            self.entries@ = self.entries@.push(e);
            self.bodies@ = old_bodies.push(Seq::<u8>::empty());
            assert(self.emitted@ =~= self.bodies@.flatten() + Seq::<u8>::empty());
        }
        Ok(())
    }

    /// Announces a file; its contents follow as chunks, then `end_file`.
    /// Fails with `LengthOverflow`, changing nothing, when its index would not
    /// fit a `u32`.
    pub fn begin_file(&mut self, path: String) -> (res: Result<(), ArchiveError>)
        requires
            old(self).wf(),
            !old(self).in_file(),
        ensures
            final(self).wf(),
            final(self).emitted() == old(self).emitted(),
            final(self).password() == old(self).password(),
            final(self).salt() == old(self).salt(),
            res is Ok <==> old(self).entries().len() <= u32::MAX,
            match res {
                Ok(()) => final(self).entries() == old(self).entries().push((path@, true, Seq::<u8>::empty()))
                    && final(self).accepts_chunk() && final(self).in_file(),
                Err(e) => e == ArchiveError::LengthOverflow && final(self).entries() == old(self).entries()
                    && !final(self).in_file(),
            },
    {
        proof {
            self.table.lemma_rows();
        }
        if self.table.len() as u64 > 0xFFFF_FFFFu64 {
            return Err(ArchiveError::LengthOverflow);
        }
        let ghost e: EntryView = (path@, true, Seq::<u8>::empty());
        let index = self.table.len() as u32;
        let node = ArchivalNode { path, is_leaf: true };
        self.table.add(index, self.position, node);
        self.open_file = true;
        self.last_full = true;
        proof {
            lemma_rows_of_push(self.entries@, self.bodies@, e);
            self.entries@ = self.entries@.push(e);
            self.chunks@ = Seq::empty();
            self.blocks@ = Seq::empty();
            assert(frames(self.blocks@) =~= Seq::<u8>::empty());
            assert(self.chunks@.flatten() =~= Seq::<u8>::empty());
            assert(self.emitted@ =~= self.bodies@.flatten() + frames(self.blocks@));
        }
        Ok(())
    }

    /// Writes the next chunk of the file being written: the chunk marker and
    /// one encrypted block. Every chunk but a file's last must be full. Writes
    /// nothing and fails with `LengthOverflow` when the container's length
    /// would pass `u64::MAX`, and otherwise only with `RandomnessUnavailable`.
    pub fn write_chunk(&mut self, out: &mut Vec<u8>, chunk: &[u8]) -> (res: Result<(), ArchiveError>)
        requires
            old(self).wf(),
            old(self).accepts_chunk(),
            0 < chunk@.len() <= CHUNK_SIZE,
        ensures
            final(self).wf(),
            final(self).in_file(),
            final(self).password() == old(self).password(),
            final(self).salt() == old(self).salt(),
            appended(old(self).emitted(), final(self).emitted(), old(out)@, final(out)@),
            (old(self).emitted().len() + 1 + chunk@.len() + 32 > u64::MAX) == (res == Err::<(), ArchiveError>(ArchiveError::LengthOverflow)),
            match res {
                Ok(()) => final(self).entries() == old(self).entries().drop_last().push(
                    (old(self).entries().last().0, true, old(self).entries().last().2 + chunk@),
                ) && final(self).accepts_chunk() == (chunk@.len() == CHUNK_SIZE),
                Err(e) => (e == ArchiveError::LengthOverflow || e == ArchiveError::RandomnessUnavailable)
                    && final(self).entries() == old(self).entries()
                    && final(self).emitted() == old(self).emitted() && final(self).accepts_chunk(),
            },
    {
        let n = chunk.len() as u64;
        if self.position > 0xFFFF_FFFF_FFFF_FFFFu64 - 33 - n {
            proof {
                assert(old(self).emitted().subrange(0, old(self).emitted().len() as int) =~= old(self).emitted());
                assert(out@ =~= old(out)@ + old(self).emitted().subrange(old(self).emitted().len() as int, old(self).emitted().len() as int));
            }
            return Err(ArchiveError::LengthOverflow);
        }
        let mut framed_block: Vec<u8> = Vec::new();
        framed_block.push(CHUNK_MARKER);
        let ghost out1 = framed_block@;
        match write_encrypted(&mut framed_block, self.table.key(), chunk) {
            Ok(()) => {},
            Err(e) => {
                proof {
                    assert(old(self).emitted().subrange(0, old(self).emitted().len() as int) =~= old(self).emitted());
                    assert(out@ =~= old(out)@ + old(self).emitted().subrange(old(self).emitted().len() as int, old(self).emitted().len() as int));
                }
                return Err(e);
            },
        }
        let ghost key = derived_key(self.password@, self.table.salt_bytes());
        let ghost block = choose|block: Seq<u8>| is_block_of(key, block, chunk@) && #[trigger] (out1 + block) == framed_block@;
        let ghost out0 = out@;
        crate::ioutils::append_bytes(out, framed_block.as_slice());
        assert(framed_block@ =~= seq![CHUNK_MARKER] + block);
        proof {
            let nonce = choose|nonce: Seq<u8>|
                nonce.len() == 12 && crate::secure::sealed(key, nonce, chunk@).len() <= u32::MAX
                    && crate::secure::sealed(key, nonce, chunk@).len() == chunk@.len() + TAG_LENGTH_IN_BYTES
                    && #[trigger] crate::secure::block_bytes(nonce, crate::secure::sealed(key, nonce, chunk@)) == block
                    && crate::secure::opened(key, nonce, crate::secure::sealed(key, nonce, chunk@)) == Some(chunk@);
            assert(block.len() == chunk@.len() + 32);
        }
        self.position = self.position + 1 + 32 + n;
        self.last_full = chunk.len() == CHUNK_SIZE;
        proof {
            let old_entries = self.entries@;
            let last = old_entries.last();
            let e: EntryView = (last.0, true, last.2 + chunk@);
            let new_entries = old_entries.drop_last().push(e);
            let old_emitted = self.emitted@;
            lemma_frames_push(self.blocks@, block);
            self.chunks@.lemma_flatten_push(chunk@);
            assert(out@ =~= out0 + framed(block));
            self.emitted@ = old_emitted + framed(block);
            assert(self.emitted@ =~= self.bodies@.flatten() + frames(self.blocks@.push(block)));
            assert(self.emitted@.subrange(0, old_emitted.len() as int) =~= old_emitted);
            assert(self.emitted@.subrange(old_emitted.len() as int, self.emitted@.len() as int) =~= framed(block));
            assert(rows_of(new_entries, self.bodies@) =~= rows_of(old_entries, self.bodies@));
            let old_chunks = self.chunks@;
            let old_blocks = self.blocks@;
            self.chunks@ = old_chunks.push(chunk@);
            self.blocks@ = old_blocks.push(block);
            assert(blocks_seal(key, self.blocks@, self.chunks@)) by {
                assert forall|i: int| 0 <= i < self.blocks@.len() implies is_block_of(key, #[trigger] self.blocks@[i], self.chunks@[i]) by {
                    if i < old_blocks.len() {
                        assert(old_blocks[i] == self.blocks@[i]);
                    }
                }
            }
            assert forall|i: int| 0 <= i < self.bodies@.len() implies #[trigger] new_entries[i] == old_entries[i] by {}
            self.entries@ = new_entries;
        }
        Ok(())
    }

    /// Ends the file being written with the end marker. Fails with
    /// `LengthOverflow`, writing nothing, when the container's length would
    /// pass `u64::MAX`.
    pub fn end_file(&mut self, out: &mut Vec<u8>) -> (res: Result<(), ArchiveError>)
        requires
            old(self).wf(),
            old(self).in_file(),
        ensures
            final(self).wf(),
            final(self).password() == old(self).password(),
            final(self).salt() == old(self).salt(),
            final(self).entries() == old(self).entries(),
            appended(old(self).emitted(), final(self).emitted(), old(out)@, final(out)@),
            res is Ok <==> old(self).emitted().len() + 1 <= u64::MAX,
            match res {
                Ok(()) => !final(self).in_file() && final(self).emitted() == old(self).emitted().push(END_MARKER),
                Err(e) => e == ArchiveError::LengthOverflow && final(self).emitted() == old(self).emitted()
                    && final(self).in_file() && final(self).accepts_chunk() == old(self).accepts_chunk(),
            },
    {
        if self.position == 0xFFFF_FFFF_FFFF_FFFFu64 {
            proof {
                assert(old(self).emitted().subrange(0, old(self).emitted().len() as int) =~= old(self).emitted());
                assert(out@ =~= old(out)@ + old(self).emitted().subrange(old(self).emitted().len() as int, old(self).emitted().len() as int));
            }
            return Err(ArchiveError::LengthOverflow);
        }
        out.push(END_MARKER);
        self.position = self.position + 1;
        self.open_file = false;
        proof {
            let key = derived_key(self.password@, self.table.salt_bytes());
            let body = file_body(self.blocks@);
            let old_bodies = self.bodies@;
            let old_emitted = self.emitted@;
            let entries = self.entries@;
            assert(is_chunking(self.chunks@, entries.last().2));
            assert(blocks_seal(key, self.blocks@, self.chunks@));
            assert(is_file_body(key, body, entries.last().2));
            old_bodies.lemma_flatten_push(body);
            lemma_rows_of_body(entries, old_bodies, body);
            self.bodies@ = old_bodies.push(body);
            self.emitted@ = old_emitted.push(END_MARKER);
            assert(self.emitted@ =~= self.bodies@.flatten() + Seq::<u8>::empty());
            assert(self.emitted@.subrange(0, old_emitted.len() as int) =~= old_emitted);
            assert(self.emitted@.subrange(old_emitted.len() as int, self.emitted@.len() as int) =~= seq![END_MARKER]);
            assert(out@ =~= old(out)@ + seq![END_MARKER]);
            assert forall|i: int| 0 <= i < self.bodies@.len() implies is_body_of(key, #[trigger] self.bodies@[i], entries[i]) by {
                if i < old_bodies.len() {
                    assert(self.bodies@[i] == old_bodies[i]);
                }
            }
        }
        Ok(())
    }

    /// Closes the container: appends the table of every announced entry and
    /// the trailer, then erases the key. Everything produced, in order, is a
    /// container of the announced entries under the password. Writes nothing
    /// and fails with `LengthOverflow` when a path or the table is too long for
    /// its length field, and otherwise only with `RandomnessUnavailable`. The
    /// key is erased on every path.
    pub fn finish(self, out: &mut Vec<u8>) -> (res: Result<(), ArchiveError>)
        requires
            self.wf(),
            !self.in_file(),
        ensures
            res is Ok ==> table_fits(row_shapes(self.entries())),
            match res {
                Ok(()) => exists|tail: Seq<u8>|
                    #[trigger] (old(out)@ + tail) == final(out)@
                        && is_archive_of(self.emitted() + tail, self.entries(), self.password())
                        && stores_salt(self.emitted() + tail, self.salt()),
                Err(e) => final(out)@ == old(out)@ && e == (if table_fits(row_shapes(self.entries())) {
                    ArchiveError::RandomnessUnavailable
                } else {
                    ArchiveError::LengthOverflow
                }),
            },
    {
        let ghost entries = self.entries@;
        let ghost bodies = self.bodies@;
        let ghost key = derived_key(self.password@, self.table.salt_bytes());
        let ghost salt = self.table.salt_bytes();
        let position = self.position;
        let mut table = self.table;
        proof {
            crate::archive::lemma_table_len(table.rows(), row_shapes(entries));
        }
        let mut staged: Vec<u8> = Vec::new();
        let ghost s0 = staged@;
        let written = table.write_at(&mut staged, position);
        table.erase_key();
        match written {
            Ok(()) => {},
            Err(e) => {
                return Err(e);
            },
        }
        let ghost tail = staged@;
        crate::ioutils::append_bytes(out, staged.as_slice());
        proof {
            let block = choose|block: Seq<u8>|
                is_block_of(key, block, table_bytes(rows_of(entries, bodies)))
                    && #[trigger] (s0 + salt + block + le_u64(position)) == tail;
            assert(s0 + salt + block + le_u64(position) =~= salt + block + le_u64(position));
            assert(bodies.flatten() + tail =~= archive_layout(bodies, salt, block));
            assert(out@ == old(out)@ + tail);
            assert(self.emitted@ =~= bodies.flatten());
            assert(crate::archive::directories_empty(entries));
            assert(is_archive_of(self.emitted@ + tail, entries, self.password@));
            crate::archive::lemma_layout_stores_salt(bodies, salt, block);
        }
        Ok(())
    }

    /// Gives up the container: erases the key. For a caller that stops on a
    /// failure of its own (reading a file, writing the output).
    pub fn abandon(self) {
        let mut table = self.table;
        table.erase_key();
    }
}

} // verus!
