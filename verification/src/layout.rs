//! The layout of an archive in a file, written the other way round: the
//! bytes that an archive's fields spell.
//!
//! ```text
//! [copyright block: 40 or 60 bytes]
//! [version: 4 bytes] [type: 12 bytes] [table count: u32] [contents offset: u32]
//! [for each table: file type tag, table offset, file count: u32 each]
//! [for each table, for each entry: file id, file offset, file size: u32 each]
//! [for each table, for each entry: the contents of the file]
//! ```
//!
//! The library writes no archives. These bytes are what the decoder is held
//! to: see the laws of the module `round_trip`.

use vstd::prelude::*;
use crate::archive::ArchiveModel;
use crate::header::HeaderModel;
use crate::table::DrsTableEntry;
use crate::table::DrsTableHeader;
use crate::table::TableModel;
use crate::wire::bytes_at;
use crate::wire::u32_at;

verus! {

/// The four bytes that stand for `v`, the lowest first.
pub open spec fn u32_le_bytes(v: u32) -> Seq<u8> {
    seq![
        (v % 0x100) as u8,
        (v / 0x100 % 0x100) as u8,
        (v / 0x1_0000 % 0x100) as u8,
        (v / 0x100_0000) as u8,
    ]
}

/// The sequences of `parts` one after the other.
pub open spec fn concat(parts: Seq<Seq<u8>>) -> Seq<u8>
    decreases parts.len(),
{
    if parts.len() == 0 {
        Seq::empty()
    } else {
        concat(parts.drop_last()) + parts.last()
    }
}

/// The bytes of a header: its blocks and its two numbers.
pub open spec fn header_bytes(header: HeaderModel) -> Seq<u8> {
    header.copyright + header.file_version + header.file_type + u32_le_bytes(header.table_count)
        + u32_le_bytes(header.file_offset)
}

/// The bytes of a table header: the tag of its file type and its two numbers.
pub open spec fn table_header_bytes(header: DrsTableHeader) -> Seq<u8> {
    u32_le_bytes(header.file_type.tag()) + u32_le_bytes(header.table_offset) + u32_le_bytes(
        header.file_count,
    )
}

/// The bytes of a directory entry: its three numbers.
pub open spec fn entry_bytes(entry: DrsTableEntry) -> Seq<u8> {
    u32_le_bytes(entry.file_id) + u32_le_bytes(entry.file_offset) + u32_le_bytes(entry.file_size)
}

/// The bytes of the headers of all tables.
pub open spec fn table_headers_bytes(headers: Seq<DrsTableHeader>) -> Seq<u8> {
    concat(Seq::new(headers.len(), |t: int| table_header_bytes(headers[t])))
}

/// The bytes of the directory entries of one table.
pub open spec fn entries_bytes(entries: Seq<DrsTableEntry>) -> Seq<u8> {
    concat(Seq::new(entries.len(), |j: int| entry_bytes(entries[j])))
}

/// The bytes of the directory entries of all tables.
pub open spec fn entry_tables_bytes(tables: Seq<Seq<DrsTableEntry>>) -> Seq<u8> {
    concat(Seq::new(tables.len(), |t: int| entries_bytes(tables[t])))
}

/// The bytes of the contents of the files of all tables.
pub open spec fn content_tables_bytes(tables: Seq<Seq<Seq<u8>>>) -> Seq<u8> {
    concat(Seq::new(tables.len(), |t: int| concat(tables[t])))
}

/// The header of each table.
pub open spec fn headers_of(tables: Seq<TableModel>) -> Seq<DrsTableHeader> {
    Seq::new(tables.len(), |t: int| tables[t].header)
}

/// The directory entries of each table.
pub open spec fn entries_of(tables: Seq<TableModel>) -> Seq<Seq<DrsTableEntry>> {
    Seq::new(tables.len(), |t: int| tables[t].entries)
}

/// The contents of the files of each table.
pub open spec fn contents_of(tables: Seq<TableModel>) -> Seq<Seq<Seq<u8>>> {
    Seq::new(tables.len(), |t: int| tables[t].contents)
}

/// The bytes of an archive: the header, the headers of all tables, the
/// entries of all tables, the contents of all files.
pub open spec fn archive_bytes(archive: ArchiveModel) -> Seq<u8> {
    header_bytes(archive.header) + table_headers_bytes(headers_of(archive.tables))
        + entry_tables_bytes(entries_of(archive.tables)) + content_tables_bytes(
        contents_of(archive.tables),
    )
}

/// A number read from a file spells the four bytes it was read from.
pub proof fn lemma_u32_round_trip(file: Seq<u8>, pos: int)
    requires
        0 <= pos,
        pos + 4 <= file.len(),
    ensures
        u32_le_bytes(u32_at(file, pos)) == bytes_at(file, pos, 4),
{
    let b0 = file[pos];
    let b1 = file[pos + 1];
    let b2 = file[pos + 2];
    let b3 = file[pos + 3];
    let v: int = b0 + 0x100 * b1 + 0x1_0000 * b2 + 0x100_0000 * b3;
    assert(u32_at(file, pos) == v);
    assert(v % 0x100 == b0);
    assert(v / 0x100 % 0x100 == b1);
    assert(v / 0x1_0000 % 0x100 == b2);
    assert(v / 0x100_0000 == b3);
    assert(u32_le_bytes(u32_at(file, pos)) =~= bytes_at(file, pos, 4));
}

/// The four bytes that stand for a number are read back as that number.
pub proof fn lemma_u32_bytes_read_back(file: Seq<u8>, pos: int, v: u32)
    requires
        bytes_at(file, pos, 4) == u32_le_bytes(v),
    ensures
        u32_at(file, pos) == v,
{
    let bytes = bytes_at(file, pos, 4);
    assert(bytes[0] == file[pos] && bytes[1] == file[pos + 1] && bytes[2] == file[pos + 2]
        && bytes[3] == file[pos + 3]);
    assert(v % 0x100 + 0x100 * (v / 0x100 % 0x100) + 0x1_0000 * (v / 0x1_0000 % 0x100) + 0x100_0000
        * (v / 0x100_0000) == v);
}

/// Three numbers read one after the other spell the twelve bytes they were
/// read from.
pub proof fn lemma_record_round_trip(file: Seq<u8>, pos: int)
    requires
        0 <= pos,
        pos + 12 <= file.len(),
    ensures
        u32_le_bytes(u32_at(file, pos)) + u32_le_bytes(u32_at(file, pos + 4)) + u32_le_bytes(
            u32_at(file, pos + 8),
        ) == bytes_at(file, pos, 12),
{
    lemma_u32_round_trip(file, pos);
    lemma_u32_round_trip(file, pos + 4);
    lemma_u32_round_trip(file, pos + 8);
    assert(bytes_at(file, pos, 4) + bytes_at(file, pos + 4, 4) + bytes_at(file, pos + 8, 4)
        =~= bytes_at(file, pos, 12));
}

/// The twelve bytes that stand for three numbers are read back as those
/// numbers.
pub proof fn lemma_record_read_back(file: Seq<u8>, pos: int, a: u32, b: u32, c: u32)
    requires
        bytes_at(file, pos, 12) == u32_le_bytes(a) + u32_le_bytes(b) + u32_le_bytes(c),
    ensures
        u32_at(file, pos) == a,
        u32_at(file, pos + 4) == b,
        u32_at(file, pos + 8) == c,
{
    let record = bytes_at(file, pos, 12);
    assert(bytes_at(file, pos, 4) =~= record.subrange(0, 4));
    assert(bytes_at(file, pos + 4, 4) =~= record.subrange(4, 8));
    assert(bytes_at(file, pos + 8, 4) =~= record.subrange(8, 12));
    assert(record.subrange(0, 4) =~= u32_le_bytes(a));
    assert(record.subrange(4, 8) =~= u32_le_bytes(b));
    assert(record.subrange(8, 12) =~= u32_le_bytes(c));
    lemma_u32_bytes_read_back(file, pos, a);
    lemma_u32_bytes_read_back(file, pos + 4, b);
    lemma_u32_bytes_read_back(file, pos + 8, c);
}

/// Pieces that are as long as the steps of `bound` are together as long as
/// the way from its first step to its last.
pub proof fn lemma_concat_len(parts: Seq<Seq<u8>>, bound: spec_fn(int) -> int)
    requires
        forall|k: int|
            #![trigger parts[k]]
            0 <= k < parts.len() ==> bound(k) + parts[k].len() == bound(k + 1),
    ensures
        bound(0) + concat(parts).len() == bound(parts.len() as int),
    decreases parts.len(),
{
    if parts.len() > 0 {
        let front = parts.drop_last();
        let n = parts.len() as int;
        assert(bound(n - 1) + parts[n - 1].len() == bound(n));
        assert forall|k: int| #![trigger front[k]] 0 <= k < front.len() implies bound(k)
            + front[k].len() == bound(k + 1) by {
            assert(front[k] == parts[k]);
        }
        lemma_concat_len(front, bound);
    }
}

/// Pieces of a file that lie one after the other make, one after the other,
/// the piece of the file from the start of the first to the end of the last.
/// Piece `k` lies from `bound(k)` to `bound(k + 1)`.
pub proof fn lemma_concat_pieces(file: Seq<u8>, parts: Seq<Seq<u8>>, bound: spec_fn(int) -> int)
    requires
        0 <= bound(0),
        bound(parts.len() as int) <= file.len(),
        forall|k: int|
            #![trigger parts[k]]
            0 <= k < parts.len() ==> bound(k) + parts[k].len() == bound(k + 1) && parts[k]
                == bytes_at(file, bound(k), parts[k].len() as int),
    ensures
        bound(0) <= bound(parts.len() as int),
        concat(parts) == bytes_at(file, bound(0), bound(parts.len() as int) - bound(0)),
    decreases parts.len(),
{
    if parts.len() == 0 {
        assert(concat(parts) =~= bytes_at(file, bound(0), 0));
    } else {
        let front = parts.drop_last();
        let n = parts.len() as int;
        assert(parts[n - 1] == bytes_at(file, bound(n - 1), bound(n) - bound(n - 1)));
        assert(bound(n - 1) <= bound(n));
        assert forall|k: int| #![trigger front[k]] 0 <= k < front.len() implies bound(k)
            + front[k].len() == bound(k + 1) && front[k] == bytes_at(
            file,
            bound(k),
            front[k].len() as int,
        ) by {
            assert(front[k] == parts[k]);
        }
        lemma_concat_pieces(file, front, bound);
        assert(bytes_at(file, bound(0), bound(n - 1) - bound(0)) + bytes_at(
            file,
            bound(n - 1),
            bound(n) - bound(n - 1),
        ) =~= bytes_at(file, bound(0), bound(n) - bound(0)));
    }
}

/// Where pieces, one after the other, are a piece of a file, each of them is
/// the piece of the file at its place. Piece `k` lies from `bound(k)` to
/// `bound(k + 1)`.
pub proof fn lemma_split_pieces(file: Seq<u8>, parts: Seq<Seq<u8>>, bound: spec_fn(int) -> int)
    requires
        0 <= bound(0),
        bound(0) + concat(parts).len() <= file.len(),
        concat(parts) == bytes_at(file, bound(0), concat(parts).len() as int),
        forall|k: int|
            #![trigger parts[k]]
            0 <= k < parts.len() ==> bound(k) + parts[k].len() == bound(k + 1),
    ensures
        forall|k: int|
            #![trigger parts[k]]
            0 <= k < parts.len() ==> parts[k] == bytes_at(file, bound(k), parts[k].len() as int),
    decreases parts.len(),
{
    if parts.len() > 0 {
        let front = parts.drop_last();
        let last = parts.last();
        let n = parts.len() as int;
        let whole = bytes_at(file, bound(0), concat(parts).len() as int);
        assert(bound(n - 1) + parts[n - 1].len() == bound(n));
        assert forall|k: int| #![trigger front[k]] 0 <= k < front.len() implies bound(k)
            + front[k].len() == bound(k + 1) by {
            assert(front[k] == parts[k]);
        }
        lemma_concat_len(front, bound);
        assert(concat(front) =~= bytes_at(file, bound(0), concat(front).len() as int)) by {
            assert(concat(front) =~= whole.subrange(0, concat(front).len() as int));
        }
        assert(last =~= bytes_at(file, bound(n - 1), last.len() as int)) by {
            assert(last =~= whole.subrange(concat(front).len() as int, whole.len() as int));
        }
        lemma_split_pieces(file, front, bound);
        assert forall|k: int| #![trigger parts[k]] 0 <= k < parts.len() implies parts[k]
            == bytes_at(file, bound(k), parts[k].len() as int) by {
            if k < n - 1 {
                assert(front[k] == parts[k]);
            }
        }
    }
}

} // verus!
