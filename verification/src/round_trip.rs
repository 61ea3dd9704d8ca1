//! The decoder and the layout agree, both ways round.
//!
//! The archive that a load gives spells the bytes at the start of the file it
//! was loaded from. And the bytes that an archive spells load as that
//! archive.

use vstd::prelude::*;
use vstd::string::StringSliceAdditionalSpecFns;
use crate::archive::content_size;
use crate::archive::content_tables_at;
use crate::archive::contents_at;
use crate::archive::entries_at;
use crate::archive::entry_count;
use crate::archive::entry_tables_at;
use crate::archive::file_counts;
use crate::archive::file_sizes;
use crate::archive::lemma_table_headers_len;
use crate::archive::spec_archive;
use crate::archive::spec_file_contents;
use crate::archive::spec_file_entry_headers;
use crate::archive::spec_table_headers;
use crate::archive::table_sizes;
use crate::archive::tables_of;
use crate::archive::ArchiveModel;
use crate::error::DrsErrorView;
use crate::header::header_at;
use crate::header::spec_game_type;
use crate::header::spec_header;
use crate::header::DrsGameType;
use crate::header::HeaderModel;
use crate::header::EXPECTED_SWBG_TYPE;
use crate::header::GAME_TYPE_OFFSET;
use crate::layout::archive_bytes;
use crate::layout::concat;
use crate::layout::content_tables_bytes;
use crate::layout::contents_of;
use crate::layout::entries_bytes;
use crate::layout::entries_of;
use crate::layout::entry_bytes;
use crate::layout::entry_tables_bytes;
use crate::layout::header_bytes;
use crate::layout::headers_of;
use crate::layout::lemma_concat_len;
use crate::layout::lemma_concat_pieces;
use crate::layout::lemma_record_read_back;
use crate::layout::lemma_record_round_trip;
use crate::layout::lemma_split_pieces;
use crate::layout::lemma_u32_bytes_read_back;
use crate::layout::lemma_u32_round_trip;
use crate::layout::table_header_bytes;
use crate::layout::table_headers_bytes;
use crate::layout::u32_le_bytes;
use crate::sums::lemma_total_prefix;
use crate::sums::lemma_total_step;
use crate::sums::total;
use crate::table::entry_at;
use crate::table::spec_table_header;
use crate::table::DrsTableEntry;
use crate::table::DrsTableHeader;
use crate::table::TABLE_ENTRY_LEN;
use crate::table::TABLE_HEADER_LEN;
use crate::wire::bytes_at;
use crate::wire::can_read;

verus! {

/// The header that a load reads spells the bytes at the start of the file.
proof fn lemma_header_bytes(file: Seq<u8>, file_name: Seq<char>)
    ensures
        spec_header(file, file_name) matches Ok(header) ==> header.len() <= file.len()
            && header_bytes(header) == bytes_at(file, 0, header.len()),
{
    if let Ok(header) = spec_header(file, file_name) {
        let c = header.game_type.copyright_len();
        lemma_u32_round_trip(file, c + 16);
        lemma_u32_round_trip(file, c + 20);
        assert(header_bytes(header) =~= bytes_at(file, 0, header.len()));
    }
}

/// The table headers that a load reads spell the bytes they were read from.
proof fn lemma_table_headers_bytes(file: Seq<u8>, pos: int, count: nat)
    requires
        0 <= pos <= file.len(),
    ensures
        spec_table_headers(file, pos, count) matches Ok(headers) ==> {
            &&& pos + TABLE_HEADER_LEN * count <= file.len()
            &&& table_headers_bytes(headers) == bytes_at(file, pos, TABLE_HEADER_LEN * count)
        },
{
    if let Ok(headers) = spec_table_headers(file, pos, count) {
        lemma_table_headers_len(file, pos, count);
        let parts = Seq::new(headers.len(), |t: int| table_header_bytes(headers[t]));
        let bound = |t: int| pos + TABLE_HEADER_LEN * t;
        assert forall|t: int| #![trigger parts[t]] 0 <= t < parts.len() implies bound(t)
            + parts[t].len() == bound(t + 1) && parts[t] == bytes_at(
            file,
            bound(t),
            parts[t].len() as int,
        ) by {
            assert(spec_table_header(file, pos + TABLE_HEADER_LEN * t) == Ok::<
                DrsTableHeader,
                DrsErrorView,
            >(headers[t]));
            lemma_record_round_trip(file, pos + TABLE_HEADER_LEN * t);
        }
        lemma_concat_pieces(file, parts, bound);
    }
}

/// Directory entries that lie one after the other spell the bytes they lie
/// in.
proof fn lemma_entries_bytes(file: Seq<u8>, pos: int, count: nat)
    requires
        0 <= pos,
        pos + TABLE_ENTRY_LEN * count <= file.len(),
    ensures
        entries_bytes(entries_at(file, pos, count)) == bytes_at(
            file,
            pos,
            TABLE_ENTRY_LEN * count,
        ),
{
    let entries = entries_at(file, pos, count);
    let parts = Seq::new(entries.len(), |j: int| entry_bytes(entries[j]));
    let bound = |j: int| pos + TABLE_ENTRY_LEN * j;
    assert forall|j: int| #![trigger parts[j]] 0 <= j < parts.len() implies bound(j)
        + parts[j].len() == bound(j + 1) && parts[j] == bytes_at(
        file,
        bound(j),
        parts[j].len() as int,
    ) by {
        assert(entries[j] == entry_at(file, pos + TABLE_ENTRY_LEN * j));
        lemma_record_round_trip(file, pos + TABLE_ENTRY_LEN * j);
    }
    lemma_concat_pieces(file, parts, bound);
}

/// The directory entries of all tables spell the bytes they lie in.
proof fn lemma_entry_tables_bytes(file: Seq<u8>, pos: int, headers: Seq<DrsTableHeader>)
    requires
        0 <= pos,
        pos + TABLE_ENTRY_LEN * entry_count(headers) <= file.len(),
    ensures
        entry_tables_bytes(entry_tables_at(file, pos, headers)) == bytes_at(
            file,
            pos,
            TABLE_ENTRY_LEN * entry_count(headers),
        ),
{
    let counts = file_counts(headers);
    let tables = entry_tables_at(file, pos, headers);
    let parts = Seq::new(tables.len(), |t: int| entries_bytes(tables[t]));
    let bound = |t: int| pos + TABLE_ENTRY_LEN * total(counts.take(t));
    assert(counts.take(headers.len() as int) =~= counts);
    assert(counts.take(0) =~= Seq::<nat>::empty());
    assert forall|t: int| #![trigger parts[t]] 0 <= t < parts.len() implies bound(t)
        + parts[t].len() == bound(t + 1) && parts[t] == bytes_at(
        file,
        bound(t),
        parts[t].len() as int,
    ) by {
        lemma_total_step(counts, t);
        lemma_total_prefix(counts, t + 1);
        lemma_entries_bytes(file, bound(t), headers[t].file_count as nat);
    }
    lemma_concat_pieces(file, parts, bound);
}

/// The contents of the files of one table are the bytes they lie in.
proof fn lemma_contents_bytes(file: Seq<u8>, pos: int, entries: Seq<DrsTableEntry>)
    requires
        0 <= pos,
        pos + total(file_sizes(entries)) <= file.len(),
    ensures
        concat(contents_at(file, pos, entries)) == bytes_at(
            file,
            pos,
            total(file_sizes(entries)) as int,
        ),
{
    let sizes = file_sizes(entries);
    let parts = contents_at(file, pos, entries);
    let bound = |j: int| pos + total(sizes.take(j));
    assert(sizes.take(entries.len() as int) =~= sizes);
    assert(sizes.take(0) =~= Seq::<nat>::empty());
    assert forall|j: int| #![trigger parts[j]] 0 <= j < parts.len() implies bound(j)
        + parts[j].len() == bound(j + 1) && parts[j] == bytes_at(
        file,
        bound(j),
        parts[j].len() as int,
    ) by {
        lemma_total_step(sizes, j);
    }
    lemma_concat_pieces(file, parts, bound);
}

/// The contents of the files of all tables are the bytes they lie in.
proof fn lemma_content_tables_bytes(file: Seq<u8>, pos: int, tables: Seq<Seq<DrsTableEntry>>)
    requires
        0 <= pos,
        pos + content_size(tables) <= file.len(),
    ensures
        content_tables_bytes(content_tables_at(file, pos, tables)) == bytes_at(
            file,
            pos,
            content_size(tables) as int,
        ),
{
    let sizes = table_sizes(tables);
    let contents = content_tables_at(file, pos, tables);
    let parts = Seq::new(contents.len(), |t: int| concat(contents[t]));
    let bound = |t: int| pos + total(sizes.take(t));
    assert(sizes.take(tables.len() as int) =~= sizes);
    assert(sizes.take(0) =~= Seq::<nat>::empty());
    assert forall|t: int| #![trigger parts[t]] 0 <= t < parts.len() implies bound(t)
        + parts[t].len() == bound(t + 1) && parts[t] == bytes_at(
        file,
        bound(t),
        parts[t].len() as int,
    ) by {
        lemma_total_step(sizes, t);
        lemma_total_prefix(sizes, t + 1);
        lemma_contents_bytes(file, bound(t), tables[t]);
    }
    lemma_concat_pieces(file, parts, bound);
}

/// Four pieces of a file that lie one after the other from its start make
/// the start of the file.
proof fn lemma_join_parts(file: Seq<u8>, a: int, b: int, c: int, d: int)
    requires
        0 <= a <= b <= c <= d <= file.len(),
    ensures
        bytes_at(file, 0, a) + bytes_at(file, a, b - a) + bytes_at(file, b, c - b) + bytes_at(
            file,
            c,
            d - c,
        ) == file.subrange(0, d),
{
    assert(bytes_at(file, 0, a) + bytes_at(file, a, b - a) + bytes_at(file, b, c - b) + bytes_at(
        file,
        c,
        d - c,
    ) =~= file.subrange(0, d));
}

/// A load gives an archive only as the chain of its four parts, each read
/// where the one before it ended.
proof fn lemma_archive_parts(file: Seq<u8>, file_name: Seq<char>)
    ensures
        spec_archive(file, file_name) matches Ok(archive) ==> {
            let h = archive.header.len();
            let headers = headers_of(archive.tables);
            let entries = entries_of(archive.tables);
            let e0 = h + TABLE_HEADER_LEN * headers.len();
            let c0 = e0 + TABLE_ENTRY_LEN * entry_count(headers);
            &&& spec_header(file, file_name) == Ok::<HeaderModel, DrsErrorView>(archive.header)
            &&& spec_table_headers(file, h, archive.header.table_count as nat) == Ok::<
                Seq<DrsTableHeader>,
                DrsErrorView,
            >(headers)
            &&& headers.len() == archive.header.table_count
            &&& can_read(file, e0, TABLE_ENTRY_LEN * entry_count(headers))
            &&& entries == entry_tables_at(file, e0, headers)
            &&& can_read(file, c0, content_size(entries) as int)
            &&& contents_of(archive.tables) == content_tables_at(file, c0, entries)
        },
{
    if let Ok(archive) = spec_archive(file, file_name) {
        let header = spec_header(file, file_name)->Ok_0;
        let h = header.len();
        let count = header.table_count as nat;
        let headers = spec_table_headers(file, h, count)->Ok_0;
        lemma_table_headers_len(file, h, count);
        let e0 = h + TABLE_HEADER_LEN * headers.len();
        let entries = entry_tables_at(file, e0, headers);
        let c0 = e0 + TABLE_ENTRY_LEN * entry_count(headers);
        let contents = content_tables_at(file, c0, entries);
        assert(archive.tables == tables_of(headers, entries, contents));
        assert(headers_of(archive.tables) =~= headers);
        assert(entries_of(archive.tables) =~= entries);
        assert(contents_of(archive.tables) =~= contents);
    }
}

/// The archive that a load gives spells the bytes at the start of the file
/// that was loaded: field order, field widths and byte order are those of the
/// file. Bytes after the last contents belong to no field; where there are
/// none, the archive spells the whole file.
pub proof fn lemma_load_round_trip(file: Seq<u8>, file_name: Seq<char>)
    ensures
        spec_archive(file, file_name) matches Ok(archive) ==> {
            &&& archive_bytes(archive).is_prefix_of(file)
            &&& archive_bytes(archive).len() == file.len() ==> archive_bytes(archive) == file
        },
{
    if let Ok(archive) = spec_archive(file, file_name) {
        lemma_archive_parts(file, file_name);
        let header = archive.header;
        let h = header.len();
        let count = header.table_count as nat;
        let headers = headers_of(archive.tables);
        let entries = entries_of(archive.tables);
        let contents = contents_of(archive.tables);
        let e0 = h + TABLE_HEADER_LEN * headers.len();
        let c0 = e0 + TABLE_ENTRY_LEN * entry_count(headers);
        let end = c0 + content_size(entries);
        assert(h <= file.len() && header_bytes(header) == bytes_at(file, 0, h)) by {
            lemma_header_bytes(file, file_name);
        }
        assert(e0 <= file.len() && table_headers_bytes(headers) == bytes_at(file, h, e0 - h)) by {
            lemma_table_headers_bytes(file, h, count);
        }
        assert(c0 <= file.len() && entry_tables_bytes(entries) == bytes_at(file, e0, c0 - e0)) by {
            lemma_entry_tables_bytes(file, e0, headers);
        }
        assert(end <= file.len() && content_tables_bytes(contents) == bytes_at(
            file,
            c0,
            end - c0,
        )) by {
            lemma_content_tables_bytes(file, c0, entries);
        }
        lemma_join_parts(file, h, e0, c0, end);
        if archive_bytes(archive).len() == file.len() {
            assert(file.subrange(0, end) =~= file);
        }
    }
}

/// A header whose bytes lie at the start of a file is read back from it,
/// where the four bytes at offset 64 are there and tell its variant.
proof fn lemma_header_read_back(file: Seq<u8>, header: HeaderModel, file_name: Seq<char>)
    requires
        header.wf(),
        header.valid(),
        header.len() <= file.len(),
        bytes_at(file, 0, header.len()) == header_bytes(header),
        can_read(file, GAME_TYPE_OFFSET as int, 4),
        spec_game_type(file) == header.game_type,
    ensures
        spec_header(file, file_name) == Ok::<HeaderModel, DrsErrorView>(header),
{
    let c = header.game_type.copyright_len();
    let image = bytes_at(file, 0, header.len());
    let read = header_at(file, header.game_type);
    assert(read.copyright =~= header.copyright) by {
        assert(read.copyright =~= image.subrange(0, c));
    }
    assert(read.file_version =~= header.file_version) by {
        assert(read.file_version =~= image.subrange(c, c + 4));
    }
    assert(read.file_type =~= header.file_type) by {
        assert(read.file_type =~= image.subrange(c + 4, c + 16));
    }
    assert(read.table_count == header.table_count) by {
        assert(bytes_at(file, c + 16, 4) =~= image.subrange(c + 16, c + 20));
        assert(image.subrange(c + 16, c + 20) =~= u32_le_bytes(header.table_count));
        lemma_u32_bytes_read_back(file, c + 16, header.table_count);
    }
    assert(read.file_offset == header.file_offset) by {
        assert(bytes_at(file, c + 20, 4) =~= image.subrange(c + 20, c + 24));
        assert(image.subrange(c + 20, c + 24) =~= u32_le_bytes(header.file_offset));
        lemma_u32_bytes_read_back(file, c + 20, header.file_offset);
    }
}

/// Table headers whose bytes lie one after the other in a file are read back
/// from it.
proof fn lemma_table_headers_read_back(
    file: Seq<u8>,
    pos: int,
    headers: Seq<DrsTableHeader>,
    count: nat,
)
    requires
        0 <= pos,
        count <= headers.len(),
        pos + TABLE_HEADER_LEN * headers.len() <= file.len(),
        forall|t: int|
            0 <= t < headers.len() ==> bytes_at(file, pos + TABLE_HEADER_LEN * t, 12)
                == table_header_bytes(#[trigger] headers[t]),
    ensures
        spec_table_headers(file, pos, count) == Ok::<Seq<DrsTableHeader>, DrsErrorView>(
            headers.take(count as int),
        ),
    decreases count,
{
    if count == 0 {
        assert(headers.take(0) =~= Seq::empty());
    } else {
        let t = count - 1;
        lemma_table_headers_read_back(file, pos, headers, t as nat);
        let header = headers[t];
        lemma_record_read_back(
            file,
            pos + TABLE_HEADER_LEN * t,
            header.file_type.tag(),
            header.table_offset,
            header.file_count,
        );
        assert(spec_table_header(file, pos + TABLE_HEADER_LEN * t) == Ok::<
            DrsTableHeader,
            DrsErrorView,
        >(header));
        assert(headers.take(t).push(header) =~= headers.take(count as int));
    }
}

/// The headers of all tables, whose bytes lie one after the other in a file,
/// are read back from it.
proof fn lemma_all_table_headers_read_back(file: Seq<u8>, pos: int, headers: Seq<DrsTableHeader>)
    requires
        0 <= pos,
        pos + table_headers_bytes(headers).len() <= file.len(),
        bytes_at(file, pos, table_headers_bytes(headers).len() as int) == table_headers_bytes(
            headers,
        ),
    ensures
        table_headers_bytes(headers).len() == TABLE_HEADER_LEN * headers.len(),
        spec_table_headers(file, pos, headers.len()) == Ok::<Seq<DrsTableHeader>, DrsErrorView>(
            headers,
        ),
{
    let parts = Seq::new(headers.len(), |t: int| table_header_bytes(headers[t]));
    let bound = |t: int| pos + TABLE_HEADER_LEN * t;
    assert forall|t: int| #![trigger parts[t]] 0 <= t < parts.len() implies bound(t)
        + parts[t].len() == bound(t + 1) by {}
    lemma_concat_len(parts, bound);
    lemma_split_pieces(file, parts, bound);
    assert forall|t: int| 0 <= t < headers.len() implies bytes_at(
        file,
        pos + TABLE_HEADER_LEN * t,
        12,
    ) == table_header_bytes(#[trigger] headers[t]) by {
        assert(parts[t] == bytes_at(file, bound(t), parts[t].len() as int));
    }
    lemma_table_headers_read_back(file, pos, headers, headers.len());
    assert(headers.take(headers.len() as int) =~= headers);
}

/// The bytes of the entries of a table are twelve for each entry.
proof fn lemma_entries_bytes_len(entries: Seq<DrsTableEntry>)
    ensures
        entries_bytes(entries).len() == TABLE_ENTRY_LEN * entries.len(),
{
    let parts = Seq::new(entries.len(), |j: int| entry_bytes(entries[j]));
    let bound = |j: int| TABLE_ENTRY_LEN * j;
    assert forall|j: int| #![trigger parts[j]] 0 <= j < parts.len() implies bound(j)
        + parts[j].len() == bound(j + 1) by {}
    lemma_concat_len(parts, bound);
}

/// Entries whose bytes lie one after the other in a file are read back from
/// it.
proof fn lemma_entries_read_back(file: Seq<u8>, pos: int, entries: Seq<DrsTableEntry>)
    requires
        0 <= pos,
        pos + TABLE_ENTRY_LEN * entries.len() <= file.len(),
        bytes_at(file, pos, TABLE_ENTRY_LEN * entries.len()) == entries_bytes(entries),
    ensures
        entries_at(file, pos, entries.len()) == entries,
{
    let parts = Seq::new(entries.len(), |j: int| entry_bytes(entries[j]));
    let bound = |j: int| pos + TABLE_ENTRY_LEN * j;
    lemma_entries_bytes_len(entries);
    assert forall|j: int| #![trigger parts[j]] 0 <= j < parts.len() implies bound(j)
        + parts[j].len() == bound(j + 1) by {}
    lemma_split_pieces(file, parts, bound);
    assert forall|j: int| 0 <= j < entries.len() implies entry_at(file, pos + TABLE_ENTRY_LEN * j)
        == entries[j] by {
        assert(parts[j] == bytes_at(file, bound(j), parts[j].len() as int));
        lemma_record_read_back(
            file,
            pos + TABLE_ENTRY_LEN * j,
            entries[j].file_id,
            entries[j].file_offset,
            entries[j].file_size,
        );
    }
    assert(entries_at(file, pos, entries.len()) =~= entries);
}

/// The entries of all tables, whose bytes lie one after the other in a file,
/// are read back from it.
proof fn lemma_entry_tables_read_back(
    file: Seq<u8>,
    pos: int,
    headers: Seq<DrsTableHeader>,
    entries: Seq<Seq<DrsTableEntry>>,
)
    requires
        0 <= pos,
        entries.len() == headers.len(),
        forall|t: int|
            0 <= t < headers.len() ==> (#[trigger] entries[t]).len() == headers[t].file_count,
        pos + entry_tables_bytes(entries).len() <= file.len(),
        bytes_at(file, pos, entry_tables_bytes(entries).len() as int) == entry_tables_bytes(
            entries,
        ),
    ensures
        entry_tables_bytes(entries).len() == TABLE_ENTRY_LEN * entry_count(headers),
        entry_tables_at(file, pos, headers) == entries,
{
    let counts = file_counts(headers);
    let parts = Seq::new(entries.len(), |t: int| entries_bytes(entries[t]));
    let bound = |t: int| pos + TABLE_ENTRY_LEN * total(counts.take(t));
    assert(counts.take(headers.len() as int) =~= counts);
    assert(counts.take(0) =~= Seq::<nat>::empty());
    assert forall|t: int| #![trigger parts[t]] 0 <= t < parts.len() implies bound(t)
        + parts[t].len() == bound(t + 1) by {
        lemma_total_step(counts, t);
        lemma_entries_bytes_len(entries[t]);
    }
    lemma_concat_len(parts, bound);
    lemma_split_pieces(file, parts, bound);
    assert forall|t: int| 0 <= t < headers.len() implies entry_tables_at(file, pos, headers)[t]
        == entries[t] by {
        lemma_total_step(counts, t);
        lemma_total_prefix(counts, t + 1);
        lemma_entries_bytes_len(entries[t]);
        assert(parts[t] == bytes_at(file, bound(t), parts[t].len() as int));
        lemma_entries_read_back(file, bound(t), entries[t]);
    }
    assert(entry_tables_at(file, pos, headers) =~= entries);
}

/// The contents of the files of one table, lying one after the other in a
/// file, are read back from it.
proof fn lemma_contents_read_back(
    file: Seq<u8>,
    pos: int,
    entries: Seq<DrsTableEntry>,
    contents: Seq<Seq<u8>>,
)
    requires
        0 <= pos,
        contents.len() == entries.len(),
        forall|j: int|
            0 <= j < entries.len() ==> (#[trigger] contents[j]).len() == entries[j].file_size,
        pos + concat(contents).len() <= file.len(),
        bytes_at(file, pos, concat(contents).len() as int) == concat(contents),
    ensures
        concat(contents).len() == total(file_sizes(entries)),
        contents_at(file, pos, entries) == contents,
{
    let sizes = file_sizes(entries);
    let bound = |j: int| pos + total(sizes.take(j));
    assert(sizes.take(entries.len() as int) =~= sizes);
    assert(sizes.take(0) =~= Seq::<nat>::empty());
    assert forall|j: int| #![trigger contents[j]] 0 <= j < contents.len() implies bound(j)
        + contents[j].len() == bound(j + 1) by {
        lemma_total_step(sizes, j);
    }
    lemma_concat_len(contents, bound);
    lemma_split_pieces(file, contents, bound);
    assert(contents_at(file, pos, entries) =~= contents);
}

/// The contents of the files of one table are together as long as its
/// entries say.
proof fn lemma_contents_len(entries: Seq<DrsTableEntry>, contents: Seq<Seq<u8>>)
    requires
        contents.len() == entries.len(),
        forall|j: int|
            0 <= j < entries.len() ==> (#[trigger] contents[j]).len() == entries[j].file_size,
    ensures
        concat(contents).len() == total(file_sizes(entries)),
{
    let sizes = file_sizes(entries);
    let bound = |j: int| total(sizes.take(j)) as int;
    assert(sizes.take(entries.len() as int) =~= sizes);
    assert(sizes.take(0) =~= Seq::<nat>::empty());
    assert forall|j: int| #![trigger contents[j]] 0 <= j < contents.len() implies bound(j)
        + contents[j].len() == bound(j + 1) by {
        lemma_total_step(sizes, j);
    }
    lemma_concat_len(contents, bound);
}

/// The contents of the files of all tables, lying one after the other in a
/// file, are read back from it.
proof fn lemma_content_tables_read_back(
    file: Seq<u8>,
    pos: int,
    entries: Seq<Seq<DrsTableEntry>>,
    contents: Seq<Seq<Seq<u8>>>,
)
    requires
        0 <= pos,
        contents.len() == entries.len(),
        forall|t: int|
            #![trigger contents[t]]
            0 <= t < entries.len() ==> contents[t].len() == entries[t].len() && forall|j: int|
                0 <= j < entries[t].len() ==> (#[trigger] contents[t][j]).len()
                    == entries[t][j].file_size,
        pos + content_tables_bytes(contents).len() <= file.len(),
        bytes_at(file, pos, content_tables_bytes(contents).len() as int) == content_tables_bytes(
            contents,
        ),
    ensures
        content_tables_bytes(contents).len() == content_size(entries),
        content_tables_at(file, pos, entries) == contents,
{
    let sizes = table_sizes(entries);
    let parts = Seq::new(contents.len(), |t: int| concat(contents[t]));
    let bound = |t: int| pos + total(sizes.take(t));
    assert(sizes.take(entries.len() as int) =~= sizes);
    assert(sizes.take(0) =~= Seq::<nat>::empty());
    assert forall|t: int| #![trigger parts[t]] 0 <= t < parts.len() implies bound(t)
        + parts[t].len() == bound(t + 1) by {
        lemma_total_step(sizes, t);
        assert(contents[t].len() == entries[t].len());
        lemma_contents_len(entries[t], contents[t]);
    }
    lemma_concat_len(parts, bound);
    lemma_split_pieces(file, parts, bound);
    assert forall|t: int| 0 <= t < entries.len() implies content_tables_at(file, pos, entries)[t]
        == contents[t] by {
        lemma_total_step(sizes, t);
        lemma_total_prefix(sizes, t + 1);
        assert(contents[t].len() == entries[t].len());
        lemma_contents_len(entries[t], contents[t]);
        assert(parts[t] == bytes_at(file, bound(t), parts[t].len() as int));
        lemma_contents_read_back(file, bound(t), entries[t], contents[t]);
    }
    assert(content_tables_at(file, pos, entries) =~= contents);
}

/// Where the four parts of an archive are read from a file one after the
/// other, a load of the file gives the archive.
proof fn lemma_archive_of_parts(file: Seq<u8>, file_name: Seq<char>, archive: ArchiveModel)
    requires
        spec_header(file, file_name) == Ok::<HeaderModel, DrsErrorView>(archive.header),
        archive.tables.len() == archive.header.table_count,
        ({
            let h = archive.header.len();
            let headers = headers_of(archive.tables);
            let entries = entries_of(archive.tables);
            let e0 = h + TABLE_HEADER_LEN * headers.len();
            let c0 = e0 + TABLE_ENTRY_LEN * entry_count(headers);
            &&& spec_table_headers(file, h, headers.len()) == Ok::<
                Seq<DrsTableHeader>,
                DrsErrorView,
            >(headers)
            &&& spec_file_entry_headers(file, e0, headers) == Ok::<
                Seq<Seq<DrsTableEntry>>,
                DrsErrorView,
            >(entries)
            &&& spec_file_contents(file, c0, entries) == Ok::<Seq<Seq<Seq<u8>>>, DrsErrorView>(
                contents_of(archive.tables),
            )
        }),
    ensures
        spec_archive(file, file_name) == Ok::<ArchiveModel, DrsErrorView>(archive),
{
    let headers = headers_of(archive.tables);
    let entries = entries_of(archive.tables);
    let contents = contents_of(archive.tables);
    assert(tables_of(headers, entries, contents) =~= archive.tables);
}

/// Loading the bytes of an archive gives the archive back, whatever follows
/// them in the file, provided that the file has four bytes at offset 64 and
/// that they tell the variant of the archive's header. The archive is well
/// formed and its header bears the texts of its variant.
pub proof fn lemma_archive_loads(archive: ArchiveModel, rest: Seq<u8>, file_name: Seq<char>)
    requires
        archive.wf(),
        archive.header.valid(),
        can_read(archive_bytes(archive) + rest, GAME_TYPE_OFFSET as int, 4),
        spec_game_type(archive_bytes(archive) + rest) == archive.header.game_type,
    ensures
        spec_archive(archive_bytes(archive) + rest, file_name) == Ok::<
            ArchiveModel,
            DrsErrorView,
        >(archive),
{
    let file = archive_bytes(archive) + rest;
    let header = archive.header;
    let tables = archive.tables;
    let headers = headers_of(tables);
    let entries = entries_of(tables);
    let contents = contents_of(tables);
    let part_a = header_bytes(header);
    let part_b = table_headers_bytes(headers);
    let part_c = entry_tables_bytes(entries);
    let part_d = content_tables_bytes(contents);
    let h = header.len();
    let e0 = h + part_b.len();
    let c0 = e0 + part_c.len();
    assert(part_a.len() == h);
    assert(bytes_at(file, 0, h) =~= part_a);
    assert(bytes_at(file, h, part_b.len() as int) =~= part_b);
    assert(bytes_at(file, e0, part_c.len() as int) =~= part_c);
    assert(bytes_at(file, c0, part_d.len() as int) =~= part_d);

    lemma_header_read_back(file, header, file_name);
    lemma_all_table_headers_read_back(file, h, headers);
    assert forall|t: int| 0 <= t < headers.len() implies (#[trigger] entries[t]).len()
        == headers[t].file_count by {
        assert(tables[t].wf());
    }
    lemma_entry_tables_read_back(file, e0, headers, entries);
    assert forall|t: int| #![trigger contents[t]] 0 <= t < entries.len() implies contents[t].len()
        == entries[t].len() && forall|j: int|
        0 <= j < entries[t].len() ==> (#[trigger] contents[t][j]).len()
            == entries[t][j].file_size by {
        assert(tables[t].wf());
    }
    lemma_content_tables_read_back(file, c0, entries, contents);
    lemma_archive_of_parts(file, file_name, archive);
}

/// In the bytes of an archive the four bytes at offset 64 are there and tell
/// its variant, if the archive is of the expansion variant or has a table.
/// In the expansion variant they are the start of the type text; in the base
/// variant they are the tag of the first table, which never spells `swbg`.
/// A base-variant archive without tables ends at offset 64: what follows it
/// in the file decides.
pub proof fn lemma_variant_told(archive: ArchiveModel, rest: Seq<u8>)
    requires
        archive.wf(),
        archive.header.valid(),
        archive.header.game_type == DrsGameType::SWBG || archive.tables.len() > 0,
    ensures
        can_read(archive_bytes(archive) + rest, GAME_TYPE_OFFSET as int, 4),
        spec_game_type(archive_bytes(archive) + rest) == archive.header.game_type,
{
    reveal_strlit("swbg");
    let text = EXPECTED_SWBG_TYPE.spec_bytes();
    assert(EXPECTED_SWBG_TYPE.is_ascii());
    assert(text.len() == 4 && text[0] == 0x73);
    let file = archive_bytes(archive) + rest;
    let header = archive.header;
    let headers = headers_of(archive.tables);
    let part_a = header_bytes(header);
    let part_b = table_headers_bytes(headers);
    match header.game_type {
        DrsGameType::SWBG => {
            assert(bytes_at(file, GAME_TYPE_OFFSET as int, 4) =~= header.file_type.subrange(0, 4));
        },
        DrsGameType::AOE => {
            let parts = Seq::new(headers.len(), |t: int| table_header_bytes(headers[t]));
            let bound = |t: int| 64 + TABLE_HEADER_LEN * t;
            assert forall|t: int| #![trigger parts[t]] 0 <= t < parts.len() implies bound(t)
                + parts[t].len() == bound(t + 1) by {}
            lemma_concat_len(parts, bound);
            assert(bytes_at(file, 64, part_b.len() as int) =~= part_b);
            lemma_split_pieces(file, parts, bound);
            assert(parts[0] == bytes_at(file, 64, 12));
            assert(bytes_at(file, 64, 4)[0] == parts[0][0]);
            assert(parts[0][0] == u32_le_bytes(headers[0].file_type.tag())[0]);
            assert(parts[0][0] != 0x73);
        },
    }
}

} // verus!
