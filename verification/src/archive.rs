//! The archive and its load.
//!
//! A file is laid out as the header, one table header for each table, the
//! directory entries of all tables, table after table, and the contents of
//! all files in the same order. A load reads these four parts one after the
//! other, each where the one before it ended, and fails as a whole at the
//! first read that fails.

use vstd::prelude::*;
use crate::error::DrsError;
use crate::error::DrsErrorView;
use crate::header::DrsHeader;
use crate::header::HeaderModel;
use crate::header::spec_header;
use crate::sums::lemma_total_prefix;
use crate::sums::lemma_total_step;
use crate::sums::total;
use crate::table::entry_at;
use crate::table::spec_table_header;
use crate::table::views;
use crate::table::DrsFileContents;
use crate::table::DrsFileType;
use crate::table::DrsLogicalTable;
use crate::table::DrsTableEntry;
use crate::table::DrsTableHeader;
use crate::table::TableModel;
use crate::table::TABLE_ENTRY_LEN;
use crate::table::TABLE_HEADER_LEN;
use crate::wire::bytes_at;
use crate::wire::can_read;
use crate::wire::read_bytes;

verus! {

/// What reading `count` table headers one after the other gives, the first of
/// them at offset `pos` of `file`: the headers, or the failure of the first
/// one that cannot be read.
pub open spec fn spec_table_headers(file: Seq<u8>, pos: int, count: nat) -> Result<
    Seq<DrsTableHeader>,
    DrsErrorView,
>
    decreases count,
{
    if count == 0 {
        Ok(Seq::empty())
    } else {
        match spec_table_headers(file, pos, (count - 1) as nat) {
            Err(e) => Err(e),
            Ok(headers) => match spec_table_header(file, pos + TABLE_HEADER_LEN * (count - 1)) {
                Err(e) => Err(e),
                Ok(header) => Ok(headers.push(header)),
            },
        }
    }
}

/// Where reading fewer table headers fails, reading more fails in the same
/// way.
pub proof fn lemma_table_headers_fail(file: Seq<u8>, pos: int, fewer: nat, more: nat)
    requires
        fewer <= more,
        spec_table_headers(file, pos, fewer) is Err,
    ensures
        spec_table_headers(file, pos, more) == spec_table_headers(file, pos, fewer),
    decreases more,
{
    if fewer < more {
        lemma_table_headers_fail(file, pos, fewer, (more - 1) as nat);
    }
}

/// Where reading `count` table headers succeeds, it gives `count` headers, and
/// the file reaches as far as the last of them.
pub proof fn lemma_table_headers_len(file: Seq<u8>, pos: int, count: nat)
    ensures
        spec_table_headers(file, pos, count) matches Ok(headers) ==> {
            &&& headers.len() == count
            &&& can_read(file, pos, TABLE_HEADER_LEN * count)
            &&& forall|t: int|
                0 <= t < count ==> spec_table_header(file, pos + TABLE_HEADER_LEN * t) == Ok::<
                    DrsTableHeader,
                    DrsErrorView,
                >(#[trigger] headers[t])
        },
    decreases count,
{
    if count > 0 {
        lemma_table_headers_len(file, pos, (count - 1) as nat);
    }
}

/// The number of files of each table.
pub open spec fn file_counts(headers: Seq<DrsTableHeader>) -> Seq<nat> {
    Seq::new(headers.len(), |t: int| headers[t].file_count as nat)
}

/// The number of files of all tables together.
pub open spec fn entry_count(headers: Seq<DrsTableHeader>) -> nat {
    total(file_counts(headers))
}

/// The `count` directory entries that lie one after the other from offset
/// `pos` of `file`.
pub open spec fn entries_at(file: Seq<u8>, pos: int, count: nat) -> Seq<DrsTableEntry> {
    Seq::new(count, |j: int| entry_at(file, pos + TABLE_ENTRY_LEN * j))
}

/// The directory entries of each table, where the entries of the first table
/// start at offset `pos` of `file` and those of each other table follow those
/// of the table before it.
pub open spec fn entry_tables_at(file: Seq<u8>, pos: int, headers: Seq<DrsTableHeader>) -> Seq<
    Seq<DrsTableEntry>,
> {
    Seq::new(
        headers.len(),
        |t: int|
            entries_at(
                file,
                pos + TABLE_ENTRY_LEN * total(file_counts(headers).take(t)),
                headers[t].file_count as nat,
            ),
    )
}

/// What reading the directory entries of all tables gives: for each table as
/// many entries as its header counts, or a failure if the file ends before
/// the last of them.
pub open spec fn spec_file_entry_headers(
    file: Seq<u8>,
    pos: int,
    headers: Seq<DrsTableHeader>,
) -> Result<Seq<Seq<DrsTableEntry>>, DrsErrorView> {
    if can_read(file, pos, TABLE_ENTRY_LEN * entry_count(headers)) {
        Ok(entry_tables_at(file, pos, headers))
    } else {
        Err(DrsErrorView::Io)
    }
}

/// The size of each file of a table.
pub open spec fn file_sizes(entries: Seq<DrsTableEntry>) -> Seq<nat> {
    Seq::new(entries.len(), |j: int| entries[j].file_size as nat)
}

/// The size of all files of each table together.
pub open spec fn table_sizes(tables: Seq<Seq<DrsTableEntry>>) -> Seq<nat> {
    Seq::new(tables.len(), |t: int| total(file_sizes(tables[t])))
}

/// The size of all files of all tables together.
pub open spec fn content_size(tables: Seq<Seq<DrsTableEntry>>) -> nat {
    total(table_sizes(tables))
}

/// The contents of the files of one table, where those of the first file
/// start at offset `pos` of `file` and those of each other file follow those
/// of the file before it.
pub open spec fn contents_at(file: Seq<u8>, pos: int, entries: Seq<DrsTableEntry>) -> Seq<
    Seq<u8>,
> {
    Seq::new(
        entries.len(),
        |j: int|
            bytes_at(file, pos + total(file_sizes(entries).take(j)), entries[j].file_size as int),
    )
}

/// The contents of the files of each table, where those of the first table
/// start at offset `pos` of `file` and those of each other table follow those
/// of the table before it.
pub open spec fn content_tables_at(
    file: Seq<u8>,
    pos: int,
    tables: Seq<Seq<DrsTableEntry>>,
) -> Seq<Seq<Seq<u8>>> {
    Seq::new(
        tables.len(),
        |t: int| contents_at(file, pos + total(table_sizes(tables).take(t)), tables[t]),
    )
}

/// What reading the contents of all files gives: for each entry as many
/// bytes as it declares, or a failure if the file ends before the last of
/// them.
pub open spec fn spec_file_contents(
    file: Seq<u8>,
    pos: int,
    tables: Seq<Seq<DrsTableEntry>>,
) -> Result<Seq<Seq<Seq<u8>>>, DrsErrorView> {
    if can_read(file, pos, content_size(tables) as int) {
        Ok(content_tables_at(file, pos, tables))
    } else {
        Err(DrsErrorView::Io)
    }
}

/// The byte sequences that vectors of vectors of buffers hold.
pub open spec fn nested_views(vectors: Seq<Vec<Vec<u8>>>) -> Seq<Seq<Seq<u8>>> {
    Seq::new(vectors.len(), |t: int| views(vectors[t]@))
}

/// The mathematical value of an archive: its header and its tables in the
/// order of their headers.
pub struct ArchiveModel {
    pub header: HeaderModel,
    pub tables: Seq<TableModel>,
}

impl ArchiveModel {
    /// The header is well formed, there are as many tables as it counts, and
    /// each of them is well formed.
    pub open spec fn wf(self) -> bool {
        &&& self.header.wf()
        &&& self.tables.len() == self.header.table_count
        &&& forall|t: int| 0 <= t < self.tables.len() ==> (#[trigger] self.tables[t]).wf()
    }
}

/// The tables that are made of the headers, the entries and the contents at
/// each index.
pub open spec fn tables_of(
    headers: Seq<DrsTableHeader>,
    entries: Seq<Seq<DrsTableEntry>>,
    contents: Seq<Seq<Seq<u8>>>,
) -> Seq<TableModel> {
    Seq::new(
        headers.len(),
        |t: int| TableModel { header: headers[t], entries: entries[t], contents: contents[t] },
    )
}

/// What loading `file` gives: the header, then the table headers from where
/// the header ends, then the entries from where the table headers end, then
/// the contents from where the entries end. The first part that fails makes
/// the load fail in the same way.
pub open spec fn spec_archive(file: Seq<u8>, file_name: Seq<char>) -> Result<
    ArchiveModel,
    DrsErrorView,
> {
    match spec_header(file, file_name) {
        Err(e) => Err(e),
        Ok(header) => {
            let tables_pos = header.len();
            match spec_table_headers(file, tables_pos, header.table_count as nat) {
                Err(e) => Err(e),
                Ok(headers) => {
                    let entries_pos = tables_pos + TABLE_HEADER_LEN * headers.len();
                    match spec_file_entry_headers(file, entries_pos, headers) {
                        Err(e) => Err(e),
                        Ok(entries) => {
                            let contents_pos = entries_pos + TABLE_ENTRY_LEN * entry_count(
                                headers,
                            );
                            match spec_file_contents(file, contents_pos, entries) {
                                Err(e) => Err(e),
                                Ok(contents) => Ok(
                                    ArchiveModel {
                                        header,
                                        tables: tables_of(headers, entries, contents),
                                    },
                                ),
                            }
                        },
                    }
                },
            }
        },
    }
}

/// Every archive that a load gives is well formed, and its header bears the
/// texts that its variant prescribes.
pub proof fn lemma_archive_wf(file: Seq<u8>, file_name: Seq<char>)
    ensures
        spec_archive(file, file_name) matches Ok(archive) ==> archive.wf()
            && archive.header.valid(),
{
    if let Ok(header) = spec_header(file, file_name) {
        lemma_table_headers_len(file, header.len(), header.table_count as nat);
    }
}

/// An archive: its header and its tables, in the order of their headers.
pub struct DrsFile {
    pub header: DrsHeader,
    pub tables: Vec<DrsLogicalTable>,
}

impl View for DrsFile {
    type V = ArchiveModel;

    open spec fn view(&self) -> ArchiveModel {
        ArchiveModel {
            header: self.header@,
            tables: Seq::new(self.tables@.len(), |t: int| self.tables@[t]@),
        }
    }
}

impl DrsFile {
    /// An archive with an empty header and no table.
    pub fn empty() -> (drs_file: DrsFile)
        ensures
            drs_file.header@ == DrsHeader::spec_empty(),
            drs_file.tables@.len() == 0,
    {
        DrsFile { header: DrsHeader::empty(), tables: Vec::new() }
    }

    /// DRS archives are partitioned into tables by file type. This method
    /// will attempt to find a table of the requested type, and return None if
    /// it doesn't exist. Where several tables have the type, it finds the
    /// first of them.
    pub fn find_table(&self, file_type: DrsFileType) -> (r: Option<&DrsLogicalTable>)
        ensures
            match r {
                Some(table) => exists|t: int|
                    {
                        &&& 0 <= t < self.tables@.len()
                        &&& *table == self.tables@[t]
                        &&& (#[trigger] self.tables@[t])@.header.file_type == file_type
                        &&& forall|k: int|
                            0 <= k < t ==> (#[trigger] self.tables@[k])@.header.file_type
                                != file_type
                    },
                None => forall|t: int|
                    0 <= t < self.tables@.len() ==> (#[trigger] self.tables@[t])@.header.file_type
                        != file_type,
            },
    {
        let mut t: usize = 0;
        while t < self.tables.len()
            invariant
                t <= self.tables@.len(),
                forall|k: int|
                    0 <= k < t ==> (#[trigger] self.tables@[k])@.header.file_type != file_type,
            decreases self.tables@.len() - t,
        {
            let table = &self.tables[t];
            if table.header().file_type == file_type {
                return Some(table);
            }
            t += 1;
        }
        return None;
    }

    /// Loads a DRS archive from `file`, the contents of the file named
    /// `file_name`. The load yields the whole archive or an error, never a
    /// part of an archive.
    pub fn read_from_file(file: &[u8], file_name: &str) -> (r: Result<DrsFile, DrsError>)
        ensures
            match r {
                Ok(drs_file) => {
                    &&& spec_archive(file@, file_name@) == Ok::<ArchiveModel, DrsErrorView>(
                        drs_file@,
                    )
                    &&& drs_file@.wf()
                    &&& drs_file@.header.valid()
                },
                Err(e) => spec_archive(file@, file_name@) == Err::<ArchiveModel, DrsErrorView>(e@),
            },
    {
        let header = DrsHeader::read_from_file(file, file_name)?;
        let (headers, pos) = DrsFile::read_table_headers(file, header.len(), header.table_count)?;
        let (entries, pos) = DrsFile::read_file_entry_headers(file, pos, &headers)?;
        let (contents, _) = DrsFile::read_file_contents(file, pos, &entries)?;
        let ghost model = ArchiveModel {
            header: header@,
            tables: tables_of(headers@, views(entries@), nested_views(contents@)),
        };
        let tables = DrsFile::build_tables(headers, entries, contents);
        let drs_file = DrsFile { header, tables };
        assert(drs_file@.tables =~= model.tables);
        Ok(drs_file)
    }

    /// Reads `table_count` table headers, the first of them at offset `pos`
    /// of `file`. Returns them with the offset at which the last one ends.
    pub fn read_table_headers(file: &[u8], pos: usize, table_count: u32) -> (r: Result<
        (Vec<DrsTableHeader>, usize),
        DrsError,
    >)
        ensures
            match r {
                Ok((headers, end)) => {
                    &&& spec_table_headers(file@, pos as int, table_count as nat) == Ok::<
                        Seq<DrsTableHeader>,
                        DrsErrorView,
                    >(headers@)
                    &&& headers@.len() == table_count
                    &&& end == pos + TABLE_HEADER_LEN * table_count
                },
                Err(e) => spec_table_headers(file@, pos as int, table_count as nat) == Err::<
                    Seq<DrsTableHeader>,
                    DrsErrorView,
                >(e@),
            },
    {
        let mut headers: Vec<DrsTableHeader> = Vec::new();
        let mut cur: usize = pos;
        let mut table_index: u32 = 0;
        while table_index < table_count
            invariant
                table_index <= table_count,
                cur == pos + TABLE_HEADER_LEN * table_index,
                headers@.len() == table_index,
                spec_table_headers(file@, pos as int, table_index as nat) == Ok::<
                    Seq<DrsTableHeader>,
                    DrsErrorView,
                >(headers@),
            decreases table_count - table_index,
        {
            match DrsTableHeader::read_from_file(file, cur) {
                Ok(header) => {
                    headers.push(header);
                },
                Err(e) => {
                    proof {
                        lemma_table_headers_fail(
                            file@,
                            pos as int,
                            (table_index + 1) as nat,
                            table_count as nat,
                        );
                    }
                    return Err(e);
                },
            }
            assert(file@.len() == file.len());
            cur = cur + TABLE_HEADER_LEN;
            table_index = table_index + 1;
        }
        Ok((headers, cur))
    }

    /// Reads the directory entries of all tables, table after table, the
    /// first of them at offset `pos` of `file`. Returns the entries of each
    /// table with the offset at which the last entry ends.
    pub fn read_file_entry_headers(file: &[u8], pos: usize, headers: &Vec<DrsTableHeader>) -> (r:
        Result<(Vec<Vec<DrsTableEntry>>, usize), DrsError>)
        ensures
            match r {
                Ok((entries, end)) => {
                    &&& spec_file_entry_headers(file@, pos as int, headers@) == Ok::<
                        Seq<Seq<DrsTableEntry>>,
                        DrsErrorView,
                    >(views(entries@))
                    &&& entries@.len() == headers@.len()
                    &&& end == pos + TABLE_ENTRY_LEN * entry_count(headers@)
                },
                Err(e) => spec_file_entry_headers(file@, pos as int, headers@) == Err::<
                    Seq<Seq<DrsTableEntry>>,
                    DrsErrorView,
                >(e@),
            },
    {
        let ghost counts = file_counts(headers@);
        let mut tables: Vec<Vec<DrsTableEntry>> = Vec::new();
        let mut cur: usize = pos;
        let mut table_index: usize = 0;
        while table_index < headers.len()
            invariant
                table_index <= headers@.len(),
                counts == file_counts(headers@),
                cur == pos + TABLE_ENTRY_LEN * total(counts.take(table_index as int)),
                can_read(file@, pos as int, TABLE_ENTRY_LEN * total(counts.take(table_index as int))),
                tables@.len() == table_index,
                forall|t: int|
                    0 <= t < table_index ==> (#[trigger] tables@[t])@ == entries_at(
                        file@,
                        pos + TABLE_ENTRY_LEN * total(counts.take(t)),
                        headers@[t].file_count as nat,
                    ),
            decreases headers@.len() - table_index,
        {
            let file_count = headers[table_index].file_count;
            let ghost start = cur as int;
            let mut entries: Vec<DrsTableEntry> = Vec::new();
            let mut file_index: u32 = 0;
            proof {
                lemma_total_step(counts, table_index as int);
                lemma_total_prefix(counts, table_index + 1);
            }
            while file_index < file_count
                invariant
                    file_index <= file_count,
                    counts == file_counts(headers@),
                    start == pos + TABLE_ENTRY_LEN * total(counts.take(table_index as int)),
                    total(counts.take(table_index as int)) + file_count <= total(counts),
                    cur == start + TABLE_ENTRY_LEN * file_index,
                    can_read(file@, pos as int, cur - pos),
                    entries@ == entries_at(file@, start, file_index as nat),
                decreases file_count - file_index,
            {
                match DrsTableEntry::read_from_file(file, cur) {
                    Ok(table_entry) => {
                        entries.push(table_entry);
                    },
                    Err(e) => {
                        return Err(e);
                    },
                }
                assert(file@.len() == file.len());
                cur = cur + TABLE_ENTRY_LEN;
                file_index = file_index + 1;
                assert(entries@ =~= entries_at(file@, start, file_index as nat));
            }
            tables.push(entries);
            table_index = table_index + 1;
        }
        proof {
            assert(counts.take(table_index as int) =~= counts);
            assert(views(tables@) =~= entry_tables_at(file@, pos as int, headers@));
        }
        Ok((tables, cur))
    }

    /// Reads the contents of the files of all tables, table after table and
    /// entry after entry, the first of them at offset `pos` of `file`.
    /// Returns the contents of each table's files with the offset at which
    /// the last one ends.
    pub fn read_file_contents(file: &[u8], pos: usize, tables: &Vec<Vec<DrsTableEntry>>) -> (r:
        Result<(Vec<Vec<DrsFileContents>>, usize), DrsError>)
        ensures
            match r {
                Ok((contents, end)) => {
                    &&& spec_file_contents(file@, pos as int, views(tables@)) == Ok::<
                        Seq<Seq<Seq<u8>>>,
                        DrsErrorView,
                    >(nested_views(contents@))
                    &&& contents@.len() == tables@.len()
                    &&& end == pos + content_size(views(tables@))
                },
                Err(e) => spec_file_contents(file@, pos as int, views(tables@)) == Err::<
                    Seq<Seq<Seq<u8>>>,
                    DrsErrorView,
                >(e@),
            },
    {
        let ghost sizes = table_sizes(views(tables@));
        let mut contents: Vec<Vec<DrsFileContents>> = Vec::new();
        let mut cur: usize = pos;
        let mut table_index: usize = 0;
        while table_index < tables.len()
            invariant
                table_index <= tables@.len(),
                sizes == table_sizes(views(tables@)),
                cur == pos + total(sizes.take(table_index as int)),
                can_read(file@, pos as int, total(sizes.take(table_index as int)) as int),
                contents@.len() == table_index,
                forall|t: int|
                    0 <= t < table_index ==> views((#[trigger] contents@[t])@) == contents_at(
                        file@,
                        pos + total(sizes.take(t)),
                        tables@[t]@,
                    ),
            decreases tables@.len() - table_index,
        {
            let entries = &tables[table_index];
            let ghost start = cur as int;
            let ghost table_files = file_sizes(entries@);
            let mut buffers: Vec<DrsFileContents> = Vec::new();
            let mut file_index: usize = 0;
            proof {
                lemma_total_step(sizes, table_index as int);
                lemma_total_prefix(sizes, table_index + 1);
                assert(table_files.take(0) =~= Seq::<nat>::empty());
            }
            while file_index < entries.len()
                invariant
                    file_index <= entries@.len(),
                    table_files == file_sizes(entries@),
                    sizes == table_sizes(views(tables@)),
                    start == pos + total(sizes.take(table_index as int)),
                    total(sizes.take(table_index as int)) + total(table_files) <= total(sizes),
                    cur == start + total(table_files.take(file_index as int)),
                    can_read(file@, pos as int, cur - pos),
                    buffers@.len() == file_index,
                    forall|j: int|
                        0 <= j < file_index ==> (#[trigger] buffers@[j])@ == bytes_at(
                            file@,
                            start + total(table_files.take(j)),
                            entries@[j].file_size as int,
                        ),
                decreases entries@.len() - file_index,
            {
                let file_size = entries[file_index].file_size as usize;
                proof {
                    lemma_total_step(table_files, file_index as int);
                    lemma_total_prefix(table_files, file_index + 1);
                }
                match read_bytes(file, cur, file_size) {
                    Ok(buffer) => {
                        buffers.push(buffer);
                    },
                    Err(e) => {
                        return Err(e);
                    },
                }
                assert(file@.len() == file.len());
                cur = cur + file_size;
                file_index = file_index + 1;
            }
            proof {
                assert(table_files.take(file_index as int) =~= table_files);
                assert(views(buffers@) =~= contents_at(file@, start, entries@));
            }
            contents.push(buffers);
            table_index = table_index + 1;
        }
        proof {
            assert(sizes.take(table_index as int) =~= sizes);
            assert(nested_views(contents@) =~= content_tables_at(
                file@,
                pos as int,
                views(tables@),
            ));
        }
        Ok((contents, cur))
    }

    /// Puts the tables together from the headers, the entries and the
    /// contents at each index.
    fn build_tables(
        headers: Vec<DrsTableHeader>,
        entries: Vec<Vec<DrsTableEntry>>,
        contents: Vec<Vec<DrsFileContents>>,
    ) -> (tables: Vec<DrsLogicalTable>)
        requires
            entries@.len() == headers@.len(),
            contents@.len() == headers@.len(),
            forall|t: int|
                0 <= t < headers@.len() ==> (#[trigger] tables_of(
                    headers@,
                    views(entries@),
                    nested_views(contents@),
                )[t]).wf(),
        ensures
            tables@.len() == headers@.len(),
            forall|t: int|
                0 <= t < headers@.len() ==> (#[trigger] tables@[t])@ == tables_of(
                    headers@,
                    views(entries@),
                    nested_views(contents@),
                )[t],
    {
        let ghost models = tables_of(headers@, views(entries@), nested_views(contents@));
        let mut entries = entries;
        let mut contents = contents;
        let mut reversed: Vec<DrsLogicalTable> = Vec::new();
        while entries.len() > 0
            invariant
                entries@.len() == contents@.len(),
                entries@.len() + reversed@.len() == headers@.len(),
                models.len() == headers@.len(),
                forall|t: int|
                    0 <= t < entries@.len() ==> (#[trigger] models[t]) == (TableModel {
                        header: headers@[t],
                        entries: entries@[t]@,
                        contents: views(contents@[t]@),
                    }),
                forall|t: int| 0 <= t < models.len() ==> (#[trigger] models[t]).wf(),
                forall|k: int|
                    0 <= k < reversed@.len() ==> (#[trigger] reversed@[k])@ == models[headers@.len()
                        - 1 - k],
            decreases entries@.len(),
        {
            let table_index = entries.len() - 1;
            let header = headers[table_index];
            let table_entries = entries.pop().unwrap();
            let table_contents = contents.pop().unwrap();
            assert(models[table_index as int].wf());
            reversed.push(DrsLogicalTable::from_parts(header, table_entries, table_contents));
        }
        let mut tables: Vec<DrsLogicalTable> = Vec::new();
        while reversed.len() > 0
            invariant
                reversed@.len() + tables@.len() == headers@.len(),
                models.len() == headers@.len(),
                forall|k: int|
                    0 <= k < reversed@.len() ==> (#[trigger] reversed@[k])@ == models[headers@.len()
                        - 1 - k],
                forall|t: int| 0 <= t < tables@.len() ==> (#[trigger] tables@[t])@ == models[t],
            decreases reversed@.len(),
        {
            let table = reversed.pop().unwrap();
            tables.push(table);
        }
        tables
    }
}

} // verus!
