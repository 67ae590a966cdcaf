use vstd::prelude::*;
use vstd::utf8::{encode_utf8, encode_utf8_decode_utf8, encode_utf8_valid_utf8};
use crate::constants::{KEY_LENGTH_IN_BYTES, SALT_LENGTH_IN_BYTES, TAG_LENGTH_IN_BYTES};
use crate::error::ArchiveError;
use crate::ioutils::{
    ahead, append_bytes, bool_byte, le_u32, le_u64, lemma_le_u32_round_trip, lemma_le_u64_round_trip,
    path_at, path_record, read_bool, read_pathbuf, read_u32, read_u64, u32_of_le, u64_of_le,
    write_bool, write_pathbuf, write_u32, write_u64, ByteReader,
};
use crate::node::ArchivalNode;
use crate::secure::{block_at, lemma_block_window, create_key, derived_key, erase_bytes, is_block_of, key_derivable, read_encrypted, write_encrypted};

verus! {

/// A table row as the format sees it: index, start position, leaf flag, path.
pub type RowView = (u32, u64, bool, Seq<char>);

/// The view of one row of a table.
pub open spec fn row_view(e: (u32, u64, ArchivalNode)) -> RowView {
    (e.0, e.1, e.2.is_leaf, e.2.path@)
}

/// A row as stored before encryption: index (`u32`), start position (`u64`),
/// leaf flag (one byte), path (length-prefixed UTF-8).
pub open spec fn row_bytes(r: RowView) -> Seq<u8> {
    le_u32(r.0) + le_u64(r.1) + seq![bool_byte(r.2)] + path_record(r.3)
}

/// All rows stored back to back.
pub open spec fn table_bytes(rows: Seq<RowView>) -> Seq<u8> {
    rows.map_values(|r: RowView| row_bytes(r)).flatten()
}

/// Every path of these rows fits its 32-bit length prefix.
pub open spec fn paths_fit(rows: Seq<RowView>) -> bool {
    forall|i: int| 0 <= i < rows.len() ==> encode_utf8(#[trigger] rows[i].3).len() <= u32::MAX
}

/// The rows can be stored: every path fits its length prefix and the table
/// fits one encrypted block.
pub open spec fn table_fits(rows: Seq<RowView>) -> bool {
    paths_fit(rows) && table_bytes(rows).len() + TAG_LENGTH_IN_BYTES <= u32::MAX
}

/// What reading one row at position `p` of `b` yields, and where it ends.
pub open spec fn row_at(b: Seq<u8>, p: int) -> Result<(RowView, int), ArchiveError> {
    if p + 13 > b.len() {
        Err(ArchiveError::TruncatedInput)
    } else if b[p + 12] != 0 && b[p + 12] != 1 {
        Err(ArchiveError::MalformedTable)
    } else {
        match path_at(b, p + 13) {
            Err(e) => Err(e),
            Ok((path, q)) => Ok(
                ((u32_of_le(b.subrange(p, p + 4)), u64_of_le(b.subrange(p + 4, p + 12)), b[p + 12] == 1, path), q),
            ),
        }
    }
}

/// `acc` followed by what `r` read, or the failure of `r`.
pub open spec fn rows_after(acc: Seq<RowView>, r: Result<Seq<RowView>, ArchiveError>) -> Result<Seq<RowView>, ArchiveError> {
    match r {
        Ok(rest) => Ok(acc + rest),
        Err(e) => Err(e),
    }
}

/// What parsing the rows from position `p` to the end of `b` yields.
pub open spec fn rows_at(b: Seq<u8>, p: int) -> Result<Seq<RowView>, ArchiveError>
    decreases b.len() - p,
{
    if p < 0 || p >= b.len() {
        Ok(Seq::empty())
    } else {
        match row_at(b, p) {
            Err(e) => Err(e),
            Ok((r, q)) => if q <= p || q > b.len() {
                // Never taken: a row ends after it starts and within `b`.
                Err(ArchiveError::TruncatedInput)
            } else {
                rows_after(seq![r], rows_at(b, q))
            },
        }
    }
}

/// What reading the table of a container `b` with `password` yields: its rows
/// and its salt. The trailer (last eight bytes) gives the table's start; there
/// stand the salt and one encrypted block holding the rows.
pub open spec fn table_at(b: Seq<u8>, password: Seq<u8>) -> Result<(Seq<RowView>, Seq<u8>), ArchiveError> {
    if b.len() < 8 {
        Err(ArchiveError::TruncatedInput)
    } else {
        table_here(b, trailer_of(b), password)
    }
}

/// What reading a table region that starts at position `t` of `b` with
/// `password` yields: the salt, then one encrypted block holding the rows.
pub open spec fn table_here(b: Seq<u8>, t: int, password: Seq<u8>) -> Result<(Seq<RowView>, Seq<u8>), ArchiveError> {
    if t + SALT_LENGTH_IN_BYTES > b.len() {
        Err(ArchiveError::TruncatedInput)
    } else {
        let salt = b.subrange(t, t + SALT_LENGTH_IN_BYTES);
        if !key_derivable(password, salt) {
            Err(ArchiveError::KeyDerivationFailed)
        } else {
            match block_at(derived_key(password, salt), b, t + SALT_LENGTH_IN_BYTES) {
                Err(e) => Err(e),
                Ok((plain, _)) => match rows_at(plain, 0) {
                    Ok(rows) => Ok((rows, salt)),
                    Err(e) => Err(e),
                },
            }
        }
    }
}

/// The table position that the trailer of `b` (its last eight bytes) gives.
pub open spec fn trailer_of(b: Seq<u8>) -> int {
    u64_of_le(b.subrange(b.len() - 8, b.len() as int)) as int
}

/// Reading a container's table reads only its trailer and the region from
/// the table's start to the end: the region alone, read from its first byte,
/// gives the same rows and salt, or the same failure. No byte before the
/// table's start (no entry body) is read.
pub proof fn lemma_table_region(b: Seq<u8>, password: Seq<u8>)
    requires
        b.len() >= 8,
        trailer_of(b) <= b.len(),
    ensures
        table_at(b, password) == table_here(b.subrange(trailer_of(b), b.len() as int), 0, password),
{
    let t = trailer_of(b);
    let r = b.subrange(t, b.len() as int);
    if t + SALT_LENGTH_IN_BYTES <= b.len() {
        assert(r.subrange(0, SALT_LENGTH_IN_BYTES as int) =~= b.subrange(t, t + SALT_LENGTH_IN_BYTES));
        let salt = b.subrange(t, t + SALT_LENGTH_IN_BYTES);
        lemma_block_window(derived_key(password, salt), b, t, b.len() as int, t + SALT_LENGTH_IN_BYTES);
    }
}

/// Reading a container's table does not depend on any byte before the
/// table's start: two containers that agree from there to the end (trailer
/// included) read alike, whatever their entry bodies hold, whatever the
/// password, and whether or not it decrypts.
pub proof fn lemma_table_ignores_bodies(b1: Seq<u8>, b2: Seq<u8>, password: Seq<u8>)
    requires
        b1.len() == b2.len(),
        b1.len() >= 8,
        trailer_of(b1) <= b1.len(),
        b1.subrange(trailer_of(b1), b1.len() as int) == b2.subrange(trailer_of(b1), b2.len() as int),
        b1.subrange(b1.len() - 8, b1.len() as int) == b2.subrange(b2.len() - 8, b2.len() as int),
    ensures
        table_at(b1, password) == table_at(b2, password),
{
    lemma_table_region(b1, password);
    lemma_table_region(b2, password);
}

proof fn lemma_table_bytes_push(rows: Seq<RowView>, r: RowView)
    ensures
        table_bytes(rows.push(r)) == table_bytes(rows) + row_bytes(r),
{
    let f = |r: RowView| row_bytes(r);
    assert(rows.push(r).map_values(f) =~= rows.map_values(f).push(row_bytes(r)));
    rows.map_values(f).lemma_flatten_push(row_bytes(r));
}

proof fn lemma_row_round_trip(pre: Seq<u8>, r: RowView, post: Seq<u8>)
    requires
        encode_utf8(r.3).len() <= u32::MAX,
    ensures
        row_at(pre + row_bytes(r) + post, pre.len() as int)
            == Ok::<(RowView, int), ArchiveError>((r, (pre.len() + row_bytes(r).len()) as int)),
{
    let b = pre + row_bytes(r) + post;
    let p = pre.len() as int;
    let enc = encode_utf8(r.3);
    lemma_le_u32_round_trip(r.0);
    lemma_le_u64_round_trip(r.1);
    lemma_le_u32_round_trip(enc.len() as u32);
    encode_utf8_valid_utf8(r.3);
    encode_utf8_decode_utf8(r.3);
    assert(b.subrange(p, p + 4) =~= le_u32(r.0));
    assert(b.subrange(p + 4, p + 12) =~= le_u64(r.1));
    assert(b[p + 12] == bool_byte(r.2));
    assert(b.subrange(p + 13, p + 17) =~= le_u32(enc.len() as u32));
    assert(b.subrange(p + 17, p + 17 + enc.len()) =~= enc);
}

proof fn lemma_table_bytes_first(rows: Seq<RowView>)
    requires
        rows.len() > 0,
    ensures
        table_bytes(rows) == row_bytes(rows[0]) + table_bytes(rows.drop_first()),
{
    let f = |r: RowView| row_bytes(r);
    assert(rows.map_values(f).drop_first() =~= rows.drop_first().map_values(f));
}

/// Rows stored back to back parse back as the same rows.
pub proof fn lemma_rows_round_trip(pre: Seq<u8>, rows: Seq<RowView>)
    requires
        paths_fit(rows),
    ensures
        rows_at(pre + table_bytes(rows), pre.len() as int) == Ok::<Seq<RowView>, ArchiveError>(rows),
    decreases rows.len(),
{
    let b = pre + table_bytes(rows);
    let p = pre.len() as int;
    if rows.len() == 0 {
        assert(table_bytes(rows) =~= Seq::<u8>::empty());
        assert(b =~= pre);
        assert(rows =~= Seq::<RowView>::empty());
    } else {
        let tail = rows.drop_first();
        let r0 = rows[0];
        lemma_table_bytes_first(rows);
        assert(encode_utf8(r0.3).len() <= u32::MAX);
        let pre2 = pre + row_bytes(r0);
        lemma_assoc(pre, row_bytes(r0), table_bytes(tail));
        lemma_row_round_trip(pre, r0, table_bytes(tail));
        let q = pre2.len() as int;
        assert(paths_fit(tail)) by {
            assert forall|i: int| 0 <= i < tail.len() implies encode_utf8(#[trigger] tail[i].3).len() <= u32::MAX by {
                assert(encode_utf8(rows[i + 1].3).len() <= u32::MAX);
            }
        }
        lemma_rows_round_trip(pre2, tail);
        lemma_rows_step(b, p, r0, q, tail);
        assert(seq![r0] + tail =~= rows);
    }
}

proof fn lemma_assoc(a: Seq<u8>, b: Seq<u8>, c: Seq<u8>)
    ensures
        a + (b + c) == (a + b) + c,
{
    assert(a + (b + c) =~= (a + b) + c);
}

proof fn lemma_rows_step(b: Seq<u8>, p: int, r: RowView, q: int, tail: Seq<RowView>)
    requires
        0 <= p < q <= b.len(),
        row_at(b, p) == Ok::<(RowView, int), ArchiveError>((r, q)),
        rows_at(b, q) == Ok::<Seq<RowView>, ArchiveError>(tail),
    ensures
        rows_at(b, p) == Ok::<Seq<RowView>, ArchiveError>(seq![r] + tail),
{
}

/// Indexes the entries of a container: the rows (index, start position of the
/// entry's body, entry), with the key and the salt they are kept under.
#[derive(Debug)]
pub struct FileTable {
    /// The rows, in the order in which the entries were written.
    pub map: Vec<(u32, u64, ArchivalNode)>,
    /// The encryption key being used for the table.
    key: Vec<u8>,
    /// The salt the key was derived with.
    salt: Vec<u8>,
}

impl FileTable {
    /// The rows as the format sees them.
    pub closed spec fn rows(&self) -> Seq<RowView> {
        self.map@.map_values(|e: (u32, u64, ArchivalNode)| row_view(e))
    }

    /// The rows are the views of the entries of `map`, one for one.
    pub proof fn lemma_rows(&self)
        ensures
            self.rows().len() == self.entries().len(),
            forall|i: int| 0 <= i < self.entries().len() ==> #[trigger] self.rows()[i] == row_view(self.entries()[i]),
    {
    }

    /// The rows with their entries.
    pub closed spec fn entries(&self) -> Seq<(u32, u64, ArchivalNode)> {
        self.map@
    }

    /// The key's bytes.
    pub closed spec fn key_bytes(&self) -> Seq<u8> {
        self.key@
    }

    /// The salt's bytes.
    pub closed spec fn salt_bytes(&self) -> Seq<u8> {
        self.salt@
    }

    /// Key and salt have their fixed lengths.
    pub open spec fn wf(&self) -> bool {
        self.key_bytes().len() == KEY_LENGTH_IN_BYTES && self.salt_bytes().len() == SALT_LENGTH_IN_BYTES
    }

    /// Creates an empty table kept under `key` and `salt`.
    pub fn new(key: Vec<u8>, salt: &[u8]) -> (t: FileTable)
        ensures
            t.entries().len() == 0,
            t.rows() == Seq::<RowView>::empty(),
            t.key_bytes() == key@,
            t.salt_bytes() == salt@,
    {
        let mut s: Vec<u8> = Vec::new();
        append_bytes(&mut s, salt);
        let t = FileTable { map: Vec::new(), key, salt: s };
        assert(t.rows() =~= Seq::<RowView>::empty());
        t
    }

    /// Adds a row: the entry's index, the position of its body, and the entry.
    pub fn add(&mut self, index: u32, file_index: u64, node: ArchivalNode)
        ensures
            final(self).entries() == old(self).entries().push((index, file_index, node)),
            final(self).rows() == old(self).rows().push((index, file_index, node.is_leaf, node.path@)),
            final(self).key_bytes() == old(self).key_bytes(),
            final(self).salt_bytes() == old(self).salt_bytes(),
    {
        self.map.push((index, file_index, node));
        proof {
            let f = |e: (u32, u64, ArchivalNode)| row_view(e);
            assert(self.map@.map_values(f) =~= old(self).map@.map_values(f).push(row_view(self.map@.last())));
        }
    }

    /// The number of rows.
    pub fn len(&self) -> (r: usize)
        ensures
            r == self.rows().len(),
    {
        proof {
            self.lemma_rows();
        }
        self.map.len()
    }

    /// The row at `i`.
    pub fn entry(&self, i: usize) -> (r: &(u32, u64, ArchivalNode))
        requires
            i < self.rows().len(),
        ensures
            row_view(*r) == self.rows()[i as int],
    {
        proof {
            self.lemma_rows();
        }
        &self.map[i]
    }

    /// The key. It is lent, not copied, so that it can be erased in one place.
    pub fn key(&self) -> (r: &[u8])
        ensures
            r@ == self.key_bytes(),
    {
        self.key.as_slice()
    }

    /// The salt.
    pub fn salt(&self) -> (r: &[u8])
        ensures
            r@ == self.salt_bytes(),
    {
        self.salt.as_slice()
    }

    /// Overwrites the key with zeros.
    pub fn erase_key(&mut self)
        ensures
            final(self).entries() == old(self).entries(),
            final(self).rows() == old(self).rows(),
            final(self).salt_bytes() == old(self).salt_bytes(),
            final(self).key_bytes().len() == old(self).key_bytes().len(),
            forall|i: int| 0 <= i < final(self).key_bytes().len() ==> #[trigger] final(self).key_bytes()[i] == 0,
    {
        let mut i: usize = 0;
        while i < self.key.len()
            invariant
                i <= self.key@.len(),
                self.key@.len() == old(self).key@.len(),
                self.map@ == old(self).map@,
                self.salt@ == old(self).salt@,
                forall|j: int| 0 <= j < i ==> #[trigger] self.key@[j] == 0,
            decreases self.key@.len() - i,
        {
            self.key.set(i, 0);
            i += 1;
        }
    }

    /// Reads the table of the container in `reader` with `password`. On a
    /// failure after the key was derived, the key is erased before returning.
    pub fn from_reader(reader: &mut ByteReader, password: &str) -> (res: Result<FileTable, ArchiveError>)
        ensures
            final(reader).data@ == old(reader).data@,
            match res {
                Ok(t) => t.wf() && table_at(old(reader).data@, encode_utf8(password@)) == Ok::<(Seq<RowView>, Seq<u8>), ArchiveError>((t.rows(), t.salt_bytes()))
                    && t.key_bytes() == derived_key(encode_utf8(password@), t.salt_bytes()),
                Err(e) => table_at(old(reader).data@, encode_utf8(password@)) == Err::<(Seq<RowView>, Seq<u8>), ArchiveError>(e),
            },
    {
        read_file_table(reader, password)
    }

    /// Reads a table region alone (the bytes from the table's start to the end
    /// of the container) with `password`; see `lemma_table_region`.
    pub fn from_region(region: Vec<u8>, password: &str) -> (res: Result<FileTable, ArchiveError>)
        ensures
            match res {
                Ok(t) => t.wf() && table_here(region@, 0, encode_utf8(password@)) == Ok::<(Seq<RowView>, Seq<u8>), ArchiveError>((t.rows(), t.salt_bytes()))
                    && t.key_bytes() == derived_key(encode_utf8(password@), t.salt_bytes()),
                Err(e) => table_here(region@, 0, encode_utf8(password@)) == Err::<(Seq<RowView>, Seq<u8>), ArchiveError>(e),
            },
    {
        let mut reader = ByteReader::new(region);
        read_table_here(&mut reader, password)
    }

    /// Appends the table: the salt, one encrypted block holding every row, and
    /// the trailer that gives the position at which the salt starts.
    pub fn write(&self, writer: &mut Vec<u8>) -> (res: Result<(), ArchiveError>)
        requires
            self.wf(),
        ensures
            res is Ok ==> table_fits(self.rows()),
            match res {
                Ok(()) => exists|block: Seq<u8>|
                    is_block_of(self.key_bytes(), block, table_bytes(self.rows()))
                        && #[trigger] (old(writer)@ + self.salt_bytes() + block + le_u64(old(writer)@.len() as u64)) == final(writer)@,
                Err(e) => final(writer)@ == old(writer)@ && e == (if table_fits(self.rows()) {
                ArchiveError::RandomnessUnavailable
            } else {
                ArchiveError::LengthOverflow
            }),
            },
    {
        write_file_table(writer, self)
    }

    /// Appends the table region as `write` does, for a container in which the
    /// region starts at `position` (the bytes before it were handed out already).
    pub fn write_at(&self, writer: &mut Vec<u8>, position: u64) -> (res: Result<(), ArchiveError>)
        requires
            self.wf(),
        ensures
            res is Ok ==> table_fits(self.rows()),
            match res {
                Ok(()) => exists|block: Seq<u8>|
                    is_block_of(self.key_bytes(), block, table_bytes(self.rows()))
                        && #[trigger] (old(writer)@ + self.salt_bytes() + block + le_u64(position)) == final(writer)@,
                Err(e) => final(writer)@ == old(writer)@ && e == (if table_fits(self.rows()) {
                ArchiveError::RandomnessUnavailable
            } else {
                ArchiveError::LengthOverflow
            }),
            },
    {
        write_table_region(writer, self, position)
    }
}

/// Appends the table region of `table`, with a trailer that gives `position`
/// as the place where the region starts.
fn write_table_region(writer: &mut Vec<u8>, table: &FileTable, position: u64) -> (res: Result<(), ArchiveError>)
    requires
        table.wf(),
    ensures
        res is Ok ==> table_fits(table.rows()),
        match res {
            Ok(()) => exists|block: Seq<u8>|
                is_block_of(table.key_bytes(), block, table_bytes(table.rows()))
                    && #[trigger] (old(writer)@ + table.salt_bytes() + block + le_u64(position)) == final(writer)@,
            Err(e) => final(writer)@ == old(writer)@ && e == (if table_fits(table.rows()) {
                ArchiveError::RandomnessUnavailable
            } else {
                ArchiveError::LengthOverflow
            }),
        },
{
    let mut table_writer: Vec<u8> = Vec::new();
    let mut i: usize = 0;
    while i < table.map.len()
        invariant
            i <= table.map@.len(),
            table_writer@ == table_bytes(table.rows().subrange(0, i as int)),
            paths_fit(table.rows().subrange(0, i as int)),
        decreases table.map@.len() - i,
    {
        let entry = &table.map[i];
        let ghost before = table_writer@;
        write_u32(&mut table_writer, entry.0);
        write_u64(&mut table_writer, entry.1);
        write_bool(&mut table_writer, entry.2.is_leaf);
        let written = write_pathbuf(&mut table_writer, &entry.2.path);
        if written.is_err() {
            proof {
                assert(table.rows()[i as int] == row_view(table.map@[i as int]));
                assert(encode_utf8(table.rows()[i as int].3).len() > u32::MAX);
                assert(!paths_fit(table.rows()));
            }
            return Err(ArchiveError::LengthOverflow);
        }
        proof {
            let r = row_view(table.map@[i as int]);
            assert(table.rows().subrange(0, i + 1) =~= table.rows().subrange(0, i as int).push(r));
            lemma_table_bytes_push(table.rows().subrange(0, i as int), r);
            assert(table_writer@ =~= before + row_bytes(r));
            assert(paths_fit(table.rows().subrange(0, i + 1))) by {
                assert forall|j: int| 0 <= j < i + 1 implies encode_utf8(#[trigger] table.rows().subrange(0, i + 1)[j].3).len() <= u32::MAX by {
                    if j < i {
                        assert(table.rows().subrange(0, i as int)[j] == table.rows().subrange(0, i + 1)[j]);
                    }
                }
            }
        }
        i += 1;
    }
    proof {
        assert(table.rows().subrange(0, i as int) =~= table.rows());
    }
    if table_writer.len() > 0xFFFF_FFFFusize - TAG_LENGTH_IN_BYTES {
        return Err(ArchiveError::LengthOverflow);
    }
    let mut sealed: Vec<u8> = Vec::new();
    let ghost s0 = sealed@;
    match write_encrypted(&mut sealed, table.key(), table_writer.as_slice()) {
        Ok(()) => {},
        Err(e) => {
            return Err(e);
        },
    }
    let ghost block = choose|block: Seq<u8>| is_block_of(table.key_bytes(), block, table_writer@) && #[trigger] (s0 + block) == sealed@;
    assert(s0 + block =~= block);
    let ghost w0 = writer@;
    append_bytes(writer, table.salt());
    append_bytes(writer, sealed.as_slice());
    write_u64(writer, position);
    assert(w0 + table.salt_bytes() + block + le_u64(position) == writer@);
    Ok(())
}

/// Appends the table region of `table` (see `FileTable::write`).
pub fn write_file_table(writer: &mut Vec<u8>, table: &FileTable) -> (res: Result<(), ArchiveError>)
    requires
        table.wf(),
    ensures
        res is Ok ==> table_fits(table.rows()),
        match res {
            Ok(()) => exists|block: Seq<u8>|
                is_block_of(table.key_bytes(), block, table_bytes(table.rows()))
                    && #[trigger] (old(writer)@ + table.salt_bytes() + block + le_u64(old(writer)@.len() as u64)) == final(writer)@,
            Err(e) => final(writer)@ == old(writer)@ && e == (if table_fits(table.rows()) {
                ArchiveError::RandomnessUnavailable
            } else {
                ArchiveError::LengthOverflow
            }),
        },
{
    let position = writer.len() as u64;
    write_table_region(writer, table, position)
}

/// The table position that a container's eight-byte trailer gives.
pub fn trailer_position(trailer: &[u8]) -> (t: u64)
    requires
        trailer@.len() == 8,
    ensures
        t == u64_of_le(trailer@),
{
    let mut bytes: Vec<u8> = Vec::new();
    append_bytes(&mut bytes, trailer);
    assert(bytes@ =~= trailer@);
    let mut reader = ByteReader::new(bytes);
    assert(ahead(&reader, 8) =~= trailer@);
    let r = read_u64(&mut reader);
    match r {
        Ok(v) => v,
        Err(_) => 0,
    }
}

/// Reads one table row.
fn read_row(reader: &mut ByteReader) -> (res: Result<(u32, u64, ArchivalNode), ArchiveError>)
    ensures
        final(reader).data@ == old(reader).data@,
        match res {
            Ok(e) => row_at(old(reader).data@, old(reader).pos as int)
                == Ok::<(RowView, int), ArchiveError>((row_view(e), final(reader).pos as int)),
            Err(e) => row_at(old(reader).data@, old(reader).pos as int) == Err::<(RowView, int), ArchiveError>(e),
        },
{
    let index = read_u32(reader)?;
    let value = read_u64(reader)?;
    let is_leaf = read_bool(reader)?;
    let path = read_pathbuf(reader)?;
    Ok((index, value, ArchivalNode { path, is_leaf }))
}

fn parse_rows(decrypted: Vec<u8>, file_table: &mut FileTable) -> (res: Result<(), ArchiveError>)
    requires
        old(file_table).rows() == Seq::<RowView>::empty(),
    ensures
        final(file_table).key_bytes() == old(file_table).key_bytes(),
        final(file_table).salt_bytes() == old(file_table).salt_bytes(),
        match res {
            Ok(()) => rows_at(decrypted@, 0) == Ok::<Seq<RowView>, ArchiveError>(final(file_table).rows()),
            Err(e) => rows_at(decrypted@, 0) == Err::<Seq<RowView>, ArchiveError>(e),
        },
{
    let ghost plain = decrypted@;
    let mut rows_reader = ByteReader::new(decrypted);
    proof {
        assert(Seq::<RowView>::empty() + Seq::<RowView>::empty() =~= Seq::<RowView>::empty());
        match rows_at(plain, 0) {
            Ok(rest) => assert(Seq::<RowView>::empty() + rest =~= rest),
            Err(_) => {},
        }
    }
    while rows_reader.position() < rows_reader.len()
        invariant
            rows_reader.data@ == plain,
            plain == decrypted@,
            rows_reader.pos <= plain.len(),
            file_table.key_bytes() == old(file_table).key_bytes(),
            file_table.salt_bytes() == old(file_table).salt_bytes(),
            rows_at(plain, 0) == rows_after(file_table.rows(), rows_at(plain, rows_reader.pos as int)),
        decreases plain.len() - rows_reader.pos,
    {
        let ghost p = rows_reader.pos as int;
        let ghost before = file_table.rows();
        let (index, value, node) = match read_row(&mut rows_reader) {
            Ok(e) => e,
            Err(e) => {
                assert(rows_at(plain, p) == Err::<Seq<RowView>, ArchiveError>(e));
                return Err(e);
            },
        };
        let ghost r: RowView = (index, value, node.is_leaf, node.path@);
        file_table.add(index, value, node);
        proof {
            match rows_at(plain, rows_reader.pos as int) {
                Ok(rest) => assert(before + (seq![r] + rest) =~= before.push(r) + rest),
                Err(_) => {},
            }
        }
    }
    proof {
        assert(file_table.rows() + Seq::<RowView>::empty() =~= file_table.rows());
    }
    Ok(())
}

fn read_file_table(reader: &mut ByteReader, password: &str) -> (res: Result<FileTable, ArchiveError>)
    ensures
        final(reader).data@ == old(reader).data@,
        match res {
            Ok(t) => t.wf() && table_at(old(reader).data@, encode_utf8(password@)) == Ok::<(Seq<RowView>, Seq<u8>), ArchiveError>((t.rows(), t.salt_bytes()))
                && t.key_bytes() == derived_key(encode_utf8(password@), t.salt_bytes()),
            Err(e) => table_at(old(reader).data@, encode_utf8(password@)) == Err::<(Seq<RowView>, Seq<u8>), ArchiveError>(e),
        },
{
    let ghost b = reader.data@;
    if reader.len() < 8 {
        return Err(ArchiveError::TruncatedInput);
    }
    let end = reader.len() - 8;
    reader.seek(end);
    let table_position = read_u64(reader)?;
    assert(b.subrange(b.len() - 8, b.len() as int) == b.subrange(end as int, end + 8));
    if table_position > reader.len() as u64 {
        return Err(ArchiveError::TruncatedInput);
    }
    reader.seek(table_position as usize);
    read_table_here(reader, password)
}

/// Reads the table region at the read position with `password`. On a failure
/// after the key was derived, the key is erased before returning.
fn read_table_here(reader: &mut ByteReader, password: &str) -> (res: Result<FileTable, ArchiveError>)
    ensures
        final(reader).data@ == old(reader).data@,
        match res {
            Ok(t) => t.wf() && table_here(old(reader).data@, old(reader).pos as int, encode_utf8(password@)) == Ok::<(Seq<RowView>, Seq<u8>), ArchiveError>((t.rows(), t.salt_bytes()))
                && t.key_bytes() == derived_key(encode_utf8(password@), t.salt_bytes()),
            Err(e) => table_here(old(reader).data@, old(reader).pos as int, encode_utf8(password@)) == Err::<(Seq<RowView>, Seq<u8>), ArchiveError>(e),
        },
{
    let salt = reader.read_exact(SALT_LENGTH_IN_BYTES)?;
    let password_bytes = password.as_bytes();
    let mut key = create_key(salt.as_slice(), password_bytes)?;
    let decrypted = match read_encrypted(reader, key.as_slice()) {
        Ok(d) => d,
        Err(e) => {
            erase_bytes(&mut key);
            return Err(e);
        },
    };
    let mut file_table = FileTable::new(key, salt.as_slice());
    match parse_rows(decrypted, &mut file_table) {
        Ok(()) => Ok(file_table),
        Err(e) => {
            file_table.erase_key();
            Err(e)
        },
    }
}

} // verus!
