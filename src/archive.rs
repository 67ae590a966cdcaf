use vstd::prelude::*;
use vstd::seq_lib::lemma_flatten_concat;
use vstd::utf8::encode_utf8;
use crate::constants::{KEY_LENGTH_IN_BYTES, SALT_LENGTH_IN_BYTES, TAG_LENGTH_IN_BYTES};
use crate::error::ArchiveError;
use crate::ioutils::{le_u64, lemma_le_u64_round_trip, ByteReader};
use crate::node::{body_at, is_file_body, lemma_body_round_trip, transfer_archival_node, ArchivalNode};
use crate::secure::{create_key, derived_key, erase_bytes, generate_salt, is_block_of, key_derivable, lemma_block_round_trip};
use crate::table::{lemma_rows_round_trip, paths_fit, table_at, table_bytes, table_fits, trailer_of, FileTable, RowView};

verus! {

/// One object of a tree with what it holds: a relative path, whether it is a
/// regular file, and a file's contents (empty for a directory).
#[derive(Debug)]
pub struct TreeEntry {
    pub path: String,
    pub is_leaf: bool,
    pub contents: Vec<u8>,
}

/// A tree entry as the format sees it: path, leaf flag, contents.
pub type EntryView = (Seq<char>, bool, Seq<u8>);

impl TreeEntry {
    pub open spec fn view(&self) -> EntryView {
        (self.path@, self.is_leaf, self.contents@)
    }
}

/// The views of a list of tree entries.
pub open spec fn entries_view(entries: Seq<TreeEntry>) -> Seq<EntryView> {
    entries.map_values(|e: TreeEntry| e.view())
}

/// The table rows of `entries` whose bodies are `bodies`, written back to back
/// from position 0: index, start of the body, leaf flag, path.
pub open spec fn rows_of(entries: Seq<EntryView>, bodies: Seq<Seq<u8>>) -> Seq<RowView> {
    Seq::new(entries.len(), |i: int| (i as u32, bodies.take(i).flatten().len() as u64, entries[i].1, entries[i].0))
}

/// The bytes of a container: the bodies, the salt, the table's block, and the
/// trailer holding the position of the salt.
pub open spec fn archive_layout(bodies: Seq<Seq<u8>>, salt: Seq<u8>, block: Seq<u8>) -> Seq<u8> {
    bodies.flatten() + salt + block + le_u64(bodies.flatten().len() as u64)
}

/// `body` is the body of `entry` under `key`: empty for a directory, a file
/// body storing the contents for a file.
pub open spec fn is_body_of(key: Seq<u8>, body: Seq<u8>, entry: EntryView) -> bool {
    if entry.1 {
        is_file_body(key, body, entry.2)
    } else {
        body == Seq::<u8>::empty()
    }
}

/// `archive` is a container of `entries` (whose directories hold no contents)
/// under `password`: some 32-byte salt,
/// the key derived from it, each entry's body in order, and a table that
/// records, encrypted under that key, each entry with the position of its body.
pub open spec fn is_archive_of(archive: Seq<u8>, entries: Seq<EntryView>, password: Seq<u8>) -> bool {
    directories_empty(entries) && exists|bodies: Seq<Seq<u8>>, salt: Seq<u8>, block: Seq<u8>|
        #[trigger] archive_layout(bodies, salt, block) == archive && salt.len() == SALT_LENGTH_IN_BYTES
            && key_derivable(password, salt) && bodies.len() == entries.len()
            && bodies.flatten().len() <= u64::MAX && entries.len() <= u32::MAX + 1
            && (forall|i: int| 0 <= i < bodies.len() ==> is_body_of(derived_key(password, salt), #[trigger] bodies[i], entries[i]))
            && paths_fit(rows_of(entries, bodies))
            && is_block_of(derived_key(password, salt), block, table_bytes(rows_of(entries, bodies)))
}

/// What restoring the rows of a table from `archive` under `key` yields: each
/// row's path and flag, with a file's contents read from its body; or the
/// first failure in row order.
pub open spec fn restored(key: Seq<u8>, archive: Seq<u8>, rows: Seq<RowView>) -> Result<Seq<EntryView>, ArchiveError>
    decreases rows.len(),
{
    if rows.len() == 0 {
        Ok(Seq::empty())
    } else {
        match restored(key, archive, rows.drop_last()) {
            Err(e) => Err(e),
            Ok(done) => {
                let r = rows.last();
                if r.2 {
                    match body_at(key, archive, r.1 as int) {
                        Ok(data) => Ok(done.push((r.3, true, data))),
                        Err(e) => Err(e),
                    }
                } else {
                    Ok(done.push((r.3, false, Seq::empty())))
                }
            },
        }
    }
}

/// What extracting `archive` with `password` yields: the tree it stores, or
/// the first failure (a table that does not decrypt fails before any body is read).
pub open spec fn extracted(archive: Seq<u8>, password: Seq<u8>) -> Result<Seq<EntryView>, ArchiveError> {
    match table_at(archive, password) {
        Err(e) => Err(e),
        Ok((rows, salt)) => restored(derived_key(password, salt), archive, rows),
    }
}

/// The rows that `entries` would have, with every position 0; a table's length
/// does not depend on the positions.
pub open spec fn row_shapes(entries: Seq<EntryView>) -> Seq<RowView> {
    Seq::new(entries.len(), |i: int| (i as u32, 0u64, entries[i].1, entries[i].0))
}

/// Whether a container of `entries` can be built with this password and salt:
/// the key can be derived, each index fits a `u32`, each path fits its length
/// prefix, and the table fits one block.
pub open spec fn buildable(entries: Seq<EntryView>, password: Seq<u8>, salt: Seq<u8>) -> bool {
    &&& key_derivable(password, salt)
    &&& entries.len() <= u32::MAX + 1
    &&& paths_fit(row_shapes(entries))
    &&& table_bytes(row_shapes(entries)).len() + TAG_LENGTH_IN_BYTES <= u32::MAX
}

/// Two tables whose rows have the same paths have the same length, and their
/// paths fit alike.
pub proof fn lemma_table_len(a: Seq<RowView>, b: Seq<RowView>)
    requires
        a.len() == b.len(),
        forall|i: int| 0 <= i < a.len() ==> (#[trigger] a[i]).3 == b[i].3,
    ensures
        table_bytes(a).len() == table_bytes(b).len(),
        paths_fit(a) == paths_fit(b),
    decreases a.len(),
{
    if a.len() > 0 {
        let f = |r: RowView| crate::table::row_bytes(r);
        assert(a.map_values(f).drop_first() =~= a.drop_first().map_values(f));
        assert(b.map_values(f).drop_first() =~= b.drop_first().map_values(f));
        assert(a[0].3 == b[0].3);
        lemma_table_len(a.drop_first(), b.drop_first());
        assert(paths_fit(a) == paths_fit(b)) by {
            if paths_fit(a) {
                assert forall|i: int| 0 <= i < b.len() implies encode_utf8(#[trigger] b[i].3).len() <= u32::MAX by {
                    assert(a[i].3 == b[i].3);
                }
            }
            if paths_fit(b) {
                assert forall|i: int| 0 <= i < a.len() implies encode_utf8(#[trigger] a[i].3).len() <= u32::MAX by {
                    assert(a[i].3 == b[i].3);
                }
            }
        }
    } else {
        assert(paths_fit(a) && paths_fit(b));
    }
}

/// The table region of `archive`, found through its trailer, starts with `salt`.
pub open spec fn stores_salt(archive: Seq<u8>, salt: Seq<u8>) -> bool {
    &&& archive.len() >= 8
    &&& trailer_of(archive) + SALT_LENGTH_IN_BYTES <= archive.len()
    &&& archive.subrange(trailer_of(archive), trailer_of(archive) + SALT_LENGTH_IN_BYTES) == salt
}

/// A container laid out from these bodies, salt and table block stores that salt.
pub proof fn lemma_layout_stores_salt(bodies: Seq<Seq<u8>>, salt: Seq<u8>, block: Seq<u8>)
    requires
        salt.len() == SALT_LENGTH_IN_BYTES,
        bodies.flatten().len() <= u64::MAX,
    ensures
        stores_salt(archive_layout(bodies, salt, block), salt),
{
    let a = archive_layout(bodies, salt, block);
    let f = bodies.flatten();
    let n = a.len();
    assert(a.subrange(n - 8, n as int) =~= le_u64(f.len() as u64));
    lemma_le_u64_round_trip(f.len() as u64);
    assert(a.subrange(f.len() as int, f.len() + SALT_LENGTH_IN_BYTES) =~= salt);
}

/// How a build may fail, given whether the key can be derived and whether the
/// entries can be stored: key derivation fails only for a password or salt it
/// refuses, a length overflow only for entries that cannot be stored, and when
/// both hold, only the random generator can fail.
pub open spec fn build_failure(e: ArchiveError, derivable: bool, fits: bool) -> bool {
    &&& e == ArchiveError::KeyDerivationFailed || e == ArchiveError::LengthOverflow
        || e == ArchiveError::RandomnessUnavailable
    &&& e == ArchiveError::KeyDerivationFailed ==> !derivable
    &&& e == ArchiveError::LengthOverflow ==> !fits
    &&& derivable && fits ==> e == ArchiveError::RandomnessUnavailable
}

/// Builds the container of `entries` with `password` and `salt`: each
/// entry's body in order, then the table of contents and the trailer. The key
/// is erased before returning, on every path.
pub fn build_archive(entries: &Vec<TreeEntry>, password: &str, salt: &[u8]) -> (res: Result<Vec<u8>, ArchiveError>)
    requires
        salt@.len() == SALT_LENGTH_IN_BYTES,
        directories_empty(entries_view(entries@)),
    ensures
        res is Ok ==> buildable(entries_view(entries@), encode_utf8(password@), salt@),
        match res {
            Ok(archive) => is_archive_of(archive@, entries_view(entries@), encode_utf8(password@))
                && stores_salt(archive@, salt@),
            Err(e) => build_failure(
                e,
                key_derivable(encode_utf8(password@), salt@),
                buildable(entries_view(entries@), encode_utf8(password@), salt@),
            ) && (!key_derivable(encode_utf8(password@), salt@) ==> e == ArchiveError::KeyDerivationFailed),
        },
{
    let ghost ev = entries_view(entries@);
    let ghost pw = encode_utf8(password@);
    let mut key = create_key(salt, password.as_bytes())?;
    if entries.len() as u64 > 0x1_0000_0000u64 {
        erase_bytes(&mut key);
        return Err(ArchiveError::LengthOverflow);
    }
    let mut out: Vec<u8> = Vec::new();
    let mut table = FileTable::new(key, salt);
    let ghost mut bodies: Seq<Seq<u8>> = Seq::empty();
    let mut i: usize = 0;
    while i < entries.len()
        invariant
            ev == entries_view(entries@),
            pw == encode_utf8(password@),
            entries@.len() <= u32::MAX + 1,
            i <= entries@.len(),
            table.wf(),
            table.salt_bytes() == salt@,
            table.key_bytes() == derived_key(pw, salt@),
            key_derivable(pw, salt@),
            directories_empty(ev),
            bodies.len() == i,
            out@ == bodies.flatten(),
            forall|j: int| 0 <= j < i ==> is_body_of(derived_key(pw, salt@), #[trigger] bodies[j], ev[j]),
            table.rows() == rows_of(ev.take(i as int), bodies),
        decreases entries@.len() - i,
    {
        let entry = &entries[i];
        let node = ArchivalNode { path: entry.path.clone(), is_leaf: entry.is_leaf };
        let ghost before = out@;
        let written = node.write(&mut out, table.key(), entry.contents.as_slice());
        let position = match written {
            Ok(p) => p,
            Err(e) => {
                table.erase_key();
                return Err(e);
            },
        };
        let ghost body = if entry.is_leaf {
            choose|body: Seq<u8>| is_file_body(derived_key(pw, salt@), body, entry.contents@) && #[trigger] (before + body) == out@
        } else {
            Seq::<u8>::empty()
        };
        proof {
            assert(ev[i as int] == entry.view());
            assert(out@ =~= before + body);
            bodies.lemma_flatten_push(body);
            assert(bodies.push(body).take(i as int) =~= bodies);
        }
        table.add(i as u32, position, node);
        proof {
            let old_bodies = bodies;
            bodies = bodies.push(body);
            assert forall|j: int| 0 <= j <= i implies #[trigger] bodies.take(j) == old_bodies.take(j) by {
                assert(bodies.take(j) =~= old_bodies.take(j));
            }
            assert(bodies.take(i as int) == old_bodies);
            assert(table.rows() =~= rows_of(ev.take(i + 1), bodies));
        }
        i += 1;
    }
    proof {
        assert(ev.take(i as int) =~= ev);
        lemma_table_len(table.rows(), row_shapes(ev));
    }
    let ghost pre = out@;
    let pre_len = out.len();
    match table.write(&mut out) {
        Ok(()) => {},
        Err(e) => {
            table.erase_key();
            return Err(e);
        },
    }
    table.erase_key();
    proof {
        let block = choose|block: Seq<u8>|
            is_block_of(derived_key(pw, salt@), block, table_bytes(rows_of(ev, bodies)))
                && #[trigger] (pre + salt@ + block + le_u64(pre.len() as u64)) == out@;
        assert(pre.len() == pre_len);
        assert(archive_layout(bodies, salt@, block) == out@);
        assert(is_archive_of(out@, ev, pw));
        lemma_layout_stores_salt(bodies, salt@, block);
    }
    Ok(out)
}

/// Builds the container of `entries` with `password` under a fresh random salt.
pub fn create_sonorous_file(entries: &Vec<TreeEntry>, password: &str) -> (res: Result<Vec<u8>, ArchiveError>)
    requires
        directories_empty(entries_view(entries@)),
    ensures
        match res {
            Ok(archive) => is_archive_of(archive@, entries_view(entries@), encode_utf8(password@)),
            Err(e) => build_failure(
                e,
                encode_utf8(password@).len() <= u32::MAX,
                entries@.len() <= u32::MAX + 1 && table_fits(row_shapes(entries_view(entries@))),
            ),
        },
{
    let salt = match generate_salt() {
        Ok(s) => s,
        Err(e) => {
            return Err(e);
        },
    };
    build_archive(entries, password, salt.as_slice())
}

proof fn lemma_restored_err(key: Seq<u8>, b: Seq<u8>, rows: Seq<RowView>, k: int)
    requires
        0 <= k <= rows.len(),
        restored(key, b, rows.take(k)) is Err,
    ensures
        restored(key, b, rows) == restored(key, b, rows.take(k)),
    decreases rows.len(),
{
    if rows.len() == k {
        assert(rows.take(k) =~= rows);
    } else {
        assert(rows.drop_last().take(k) =~= rows.take(k));
        lemma_restored_err(key, b, rows.drop_last(), k);
    }
}

/// The table of an opened container, with the key to read its bodies.
#[derive(Debug)]
pub struct SonorousFileTable {
    table: FileTable,
}

impl SonorousFileTable {
    /// The rows of the table.
    pub closed spec fn rows(&self) -> Seq<RowView> {
        self.table.rows()
    }

    /// The key the bodies are read with.
    pub closed spec fn key_bytes(&self) -> Seq<u8> {
        self.table.key_bytes()
    }

    /// The salt of the container.
    pub closed spec fn salt_bytes(&self) -> Seq<u8> {
        self.table.salt_bytes()
    }

    /// Wraps a table read from a container.
    pub fn new(table: FileTable) -> (t: SonorousFileTable)
        ensures
            t.rows() == table.rows(),
            t.key_bytes() == table.key_bytes(),
            t.salt_bytes() == table.salt_bytes(),
    {
        SonorousFileTable { table }
    }

    /// Reads the table of the container in `reader` with `password`.
    pub fn from_reader(reader: &mut ByteReader, password: &str) -> (res: Result<SonorousFileTable, ArchiveError>)
        ensures
            final(reader).data@ == old(reader).data@,
            match res {
                Ok(t) => table_at(old(reader).data@, encode_utf8(password@)) == Ok::<(Seq<RowView>, Seq<u8>), ArchiveError>((t.rows(), t.salt_bytes()))
                    && t.key_bytes() == derived_key(encode_utf8(password@), t.salt_bytes())
                    && t.key_bytes().len() == KEY_LENGTH_IN_BYTES,
                Err(e) => table_at(old(reader).data@, encode_utf8(password@)) == Err::<(Seq<RowView>, Seq<u8>), ArchiveError>(e),
            },
    {
        read_sonorous_file_table(reader, password)
    }

    /// The stored paths, in row order.
    pub fn files(&self) -> (r: Vec<String>)
        ensures
            r@.len() == self.rows().len(),
            forall|i: int| 0 <= i < r@.len() ==> #[trigger] r@[i]@ == self.rows()[i].3,
    {
        let mut r: Vec<String> = Vec::new();
        let mut i: usize = 0;
        while i < self.table.len()
            invariant
                i <= self.table.rows().len(),
                r@.len() == i,
                forall|j: int| 0 <= j < i ==> #[trigger] r@[j]@ == self.table.rows()[j].3,
            decreases self.table.rows().len() - i,
        {
            r.push(self.table.entry(i).2.path.clone());
            i += 1;
        }
        r
    }

    /// Restores every row of the table from the container in `reader`, in row
    /// order: a directory as its path, a file with the contents read from its body.
    pub fn expand_into_files(&self, reader: &mut ByteReader) -> (res: Result<Vec<TreeEntry>, ArchiveError>)
        requires
            self.key_bytes().len() == KEY_LENGTH_IN_BYTES,
        ensures
            final(reader).data@ == old(reader).data@,
            match res {
                Ok(v) => restored(self.key_bytes(), old(reader).data@, self.rows()) == Ok::<Seq<EntryView>, ArchiveError>(entries_view(v@)),
                Err(e) => restored(self.key_bytes(), old(reader).data@, self.rows()) == Err::<Seq<EntryView>, ArchiveError>(e),
            },
    {
        let ghost b = reader.data@;
        let ghost rows = self.rows();
        let ghost key = self.key_bytes();
        let mut out: Vec<TreeEntry> = Vec::new();
        let mut i: usize = 0;
        proof {
            assert(rows.take(0) =~= Seq::<RowView>::empty());
            assert(entries_view(out@) =~= Seq::<EntryView>::empty());
        }
        while i < self.table.len()
            invariant
                reader.data@ == b,
                b == old(reader).data@,
                rows == self.rows(),
                key == self.key_bytes(),
                key.len() == KEY_LENGTH_IN_BYTES,
                i <= rows.len(),
                restored(key, b, rows.take(i as int)) == Ok::<Seq<EntryView>, ArchiveError>(entries_view(out@)),
            decreases rows.len() - i,
        {
            let row = self.table.entry(i);
            let ghost r = rows[i as int];
            proof {
                assert(rows.take(i + 1).drop_last() =~= rows.take(i as int));
                assert(rows.take(i + 1).last() == r);
            }
            let ghost done = entries_view(out@);
            if row.2.is_leaf {
                if row.1 >= reader.len() as u64 {
                    proof {
                        assert(restored(key, b, rows.take(i + 1)) == Err::<Seq<EntryView>, ArchiveError>(ArchiveError::TruncatedInput));
                        lemma_restored_err(key, b, rows, i + 1);
                    }
                    return Err(ArchiveError::TruncatedInput);
                }
                reader.seek(row.1 as usize);
                let contents = match transfer_archival_node(reader, self.table.key()) {
                    Ok(c) => c,
                    Err(e) => {
                        proof {
                            assert(restored(key, b, rows.take(i + 1)) == Err::<Seq<EntryView>, ArchiveError>(e));
                            lemma_restored_err(key, b, rows, i + 1);
                        }
                        return Err(e);
                    },
                };
                out.push(TreeEntry { path: row.2.path.clone(), is_leaf: true, contents });
            } else {
                out.push(TreeEntry { path: row.2.path.clone(), is_leaf: false, contents: Vec::new() });
            }
            proof {
                let f = |e: TreeEntry| e.view();
                assert(out@.map_values(f) =~= done.push(out@.last().view()));
            }
            i += 1;
        }
        proof {
            assert(rows.take(i as int) =~= rows);
        }
        Ok(out)
    }

    /// Overwrites the key with zeros.
    pub fn erase_key(&mut self)
        ensures
            final(self).rows() == old(self).rows(),
            final(self).salt_bytes() == old(self).salt_bytes(),
            final(self).key_bytes().len() == old(self).key_bytes().len(),
            forall|i: int| 0 <= i < final(self).key_bytes().len() ==> #[trigger] final(self).key_bytes()[i] == 0,
    {
        self.table.erase_key();
    }
}

/// Reads the table of the container in `reader` with `password`.
pub fn read_sonorous_file_table(reader: &mut ByteReader, password: &str) -> (res: Result<SonorousFileTable, ArchiveError>)
    ensures
        final(reader).data@ == old(reader).data@,
        match res {
            Ok(t) => table_at(old(reader).data@, encode_utf8(password@)) == Ok::<(Seq<RowView>, Seq<u8>), ArchiveError>((t.rows(), t.salt_bytes()))
                && t.key_bytes() == derived_key(encode_utf8(password@), t.salt_bytes())
                && t.key_bytes().len() == KEY_LENGTH_IN_BYTES,
            Err(e) => table_at(old(reader).data@, encode_utf8(password@)) == Err::<(Seq<RowView>, Seq<u8>), ArchiveError>(e),
        },
{
    let table = FileTable::from_reader(reader, password)?;
    Ok(SonorousFileTable::new(table))
}

/// Extracts the tree stored in `archive` with `password`: the table is read
/// and decrypted first, then every row is restored in order. The key is erased
/// before returning.
pub fn extract_archive(archive: Vec<u8>, password: &str) -> (res: Result<Vec<TreeEntry>, ArchiveError>)
    ensures
        match res {
            Ok(v) => extracted(archive@, encode_utf8(password@)) == Ok::<Seq<EntryView>, ArchiveError>(entries_view(v@)),
            Err(e) => extracted(archive@, encode_utf8(password@)) == Err::<Seq<EntryView>, ArchiveError>(e),
        },
{
    let mut reader = ByteReader::new(archive);
    let mut table = read_sonorous_file_table(&mut reader, password)?;
    let restored_entries = table.expand_into_files(&mut reader);
    table.erase_key();
    restored_entries
}

/// A directory holds no contents.
pub open spec fn directories_empty(entries: Seq<EntryView>) -> bool {
    forall|i: int| 0 <= i < entries.len() && !(#[trigger] entries[i]).1 ==> entries[i].2 == Seq::<u8>::empty()
}

#[verifier::rlimit(40)]
proof fn lemma_restore_prefix(
    key: Seq<u8>,
    archive: Seq<u8>,
    entries: Seq<EntryView>,
    bodies: Seq<Seq<u8>>,
    tail: Seq<u8>,
    k: int,
)
    requires
        0 <= k <= entries.len(),
        bodies.len() == entries.len(),
        archive == bodies.flatten() + tail,
        bodies.flatten().len() <= u64::MAX,
        directories_empty(entries),
        forall|i: int| 0 <= i < bodies.len() ==> is_body_of(key, #[trigger] bodies[i], entries[i]),
    ensures
        restored(key, archive, rows_of(entries, bodies).take(k)) == Ok::<Seq<EntryView>, ArchiveError>(entries.take(k)),
    decreases k,
{
    let rows = rows_of(entries, bodies);
    if k == 0 {
        assert(rows.take(0) =~= Seq::<RowView>::empty());
        assert(entries.take(0) =~= Seq::<EntryView>::empty());
    } else {
        let j = k - 1;
        lemma_restore_prefix(key, archive, entries, bodies, tail, j);
        assert(rows.take(k).drop_last() =~= rows.take(j));
        assert(entries.take(j).push(entries[j]) =~= entries.take(k));
        let r = rows[j];
        assert(rows.take(k).last() == r);
        let before = bodies.take(j);
        let after = bodies.skip(j + 1);
        assert(bodies =~= before + (seq![bodies[j]] + after));
        lemma_flatten_concat(before, seq![bodies[j]] + after);
        lemma_flatten_concat(seq![bodies[j]], after);
        seq![bodies[j]].lemma_flatten_one_element();
        assert(archive =~= before.flatten() + bodies[j] + (after.flatten() + tail));
        assert(r.1 as int == before.flatten().len());
        assert(is_body_of(key, bodies[j], entries[j]));
        if entries[j].1 {
            let (chunks, blocks) = choose|chunks: Seq<Seq<u8>>, blocks: Seq<Seq<u8>>|
                #[trigger] crate::node::is_chunking(chunks, entries[j].2) && #[trigger] crate::node::blocks_seal(key, blocks, chunks)
                    && crate::node::file_body(blocks) == bodies[j];
            lemma_body_round_trip(key, before.flatten(), blocks, chunks, after.flatten() + tail);
        } else {
            assert(entries[j].2 == Seq::<u8>::empty());
        }
    }
}

/// Building then extracting with the same password gives back the tree: every
/// entry, in order, with its path, its kind, and (for a file) its exact contents.
pub proof fn lemma_build_extract_round_trip(archive: Seq<u8>, entries: Seq<EntryView>, password: Seq<u8>)
    requires
        is_archive_of(archive, entries, password),
    ensures
        extracted(archive, password) == Ok::<Seq<EntryView>, ArchiveError>(entries),
{
    let (bodies, salt, block) = choose|bodies: Seq<Seq<u8>>, salt: Seq<u8>, block: Seq<u8>|
        #[trigger] archive_layout(bodies, salt, block) == archive && salt.len() == SALT_LENGTH_IN_BYTES
            && key_derivable(password, salt) && bodies.len() == entries.len()
            && bodies.flatten().len() <= u64::MAX && entries.len() <= u32::MAX + 1
            && (forall|i: int| 0 <= i < bodies.len() ==> is_body_of(derived_key(password, salt), #[trigger] bodies[i], entries[i]))
            && paths_fit(rows_of(entries, bodies))
            && is_block_of(derived_key(password, salt), block, table_bytes(rows_of(entries, bodies)));
    let key = derived_key(password, salt);
    let rows = rows_of(entries, bodies);
    lemma_table_of_layout(bodies, salt, block, password, rows);
    let f = bodies.flatten();
    let trailer = le_u64(f.len() as u64);
    assert(archive =~= f + (salt + block + trailer));
    lemma_restore_prefix(key, archive, entries, bodies, salt + block + trailer, entries.len() as int);
    assert(rows.take(entries.len() as int) =~= rows);
    assert(entries.take(entries.len() as int) =~= entries);
}

/// The table of a built container reads back with the indices 0, 1, 2, ... in
/// row order, one row per entry, each with the entry's path and kind.
pub proof fn lemma_built_indices_dense(archive: Seq<u8>, entries: Seq<EntryView>, password: Seq<u8>)
    requires
        is_archive_of(archive, entries, password),
    ensures
        table_at(archive, password) matches Ok((rows, _salt)) && rows.len() == entries.len()
            && forall|i: int| 0 <= i < rows.len() ==> (#[trigger] rows[i]).0 == i && rows[i].2 == entries[i].1
                && rows[i].3 == entries[i].0,
{
    let (bodies, salt, block) = choose|bodies: Seq<Seq<u8>>, salt: Seq<u8>, block: Seq<u8>|
        #[trigger] archive_layout(bodies, salt, block) == archive && salt.len() == SALT_LENGTH_IN_BYTES
            && key_derivable(password, salt) && bodies.len() == entries.len()
            && bodies.flatten().len() <= u64::MAX && entries.len() <= u32::MAX + 1
            && (forall|i: int| 0 <= i < bodies.len() ==> is_body_of(derived_key(password, salt), #[trigger] bodies[i], entries[i]))
            && paths_fit(rows_of(entries, bodies))
            && is_block_of(derived_key(password, salt), block, table_bytes(rows_of(entries, bodies)));
    lemma_table_of_layout(bodies, salt, block, password, rows_of(entries, bodies));
    let rows = rows_of(entries, bodies);
    assert forall|i: int| 0 <= i < rows.len() implies (#[trigger] rows[i]).0 == i by {
        assert(i <= u32::MAX);
    }
}

proof fn lemma_table_of_layout(bodies: Seq<Seq<u8>>, salt: Seq<u8>, block: Seq<u8>, password: Seq<u8>, rows: Seq<RowView>)
    requires
        salt.len() == SALT_LENGTH_IN_BYTES,
        key_derivable(password, salt),
        bodies.flatten().len() <= u64::MAX,
        paths_fit(rows),
        is_block_of(derived_key(password, salt), block, table_bytes(rows)),
    ensures
        table_at(archive_layout(bodies, salt, block), password) == Ok::<(Seq<RowView>, Seq<u8>), ArchiveError>((rows, salt)),
{
    let archive = archive_layout(bodies, salt, block);
    let key = derived_key(password, salt);
    let f = bodies.flatten();
    let trailer = le_u64(f.len() as u64);
    let n = archive.len();
    // The trailer points at the salt.
    assert(archive.subrange(n - 8, n as int) =~= trailer);
    lemma_le_u64_round_trip(f.len() as u64);
    assert(archive.subrange(f.len() as int, f.len() + SALT_LENGTH_IN_BYTES) =~= salt);
    // The table's block decrypts to the stored rows, which parse back.
    assert(archive =~= (f + salt) + block + trailer);
    lemma_block_round_trip(key, f + salt, block, trailer, table_bytes(rows));
    lemma_rows_round_trip(Seq::empty(), rows);
    assert(Seq::<u8>::empty() + table_bytes(rows) =~= table_bytes(rows));
}

} // verus!
