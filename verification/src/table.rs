//! Tables: the file types, the table header, the directory entry, and the
//! table as it is used after a load, with its lookup by file id.

use std::collections::HashMap;
use vstd::prelude::*;
use crate::error::DrsError;
use crate::error::DrsErrorView;
use crate::wire::can_read;
use crate::wire::read_u32;
use crate::wire::u32_at;

verus! {

broadcast use vstd::std_specs::hash::group_hash_axioms;

/// Number of bytes of a table header in a file.
pub const TABLE_HEADER_LEN: usize = 12;

/// Number of bytes of a directory entry in a file.
pub const TABLE_ENTRY_LEN: usize = 12;

/// DRS supported file types.
#[derive(Debug, Clone, Copy, PartialEq, Eq, Structural)]
pub enum DrsFileType {
    /// "Binary" denotes several different kinds of files that are not
    /// graphics or sound (even if they're text files). For example, palettes
    /// are typically in this group.
    Binary,
    /// SLP graphics files.
    Slp,
    /// SHP graphics files (hardly used).
    Shp,
    /// Typical WAV audio files.
    Wav,
}

impl DrsFileType {
    /// The tag that stands for the file type in a table header: four
    /// characters packed into a little-endian number, `bina` for binary
    /// files and the extension followed by a space for the others.
    pub open spec fn tag(self) -> u32 {
        match self {
            DrsFileType::Binary => 0x62696E61,
            DrsFileType::Slp => 0x736C7020,
            DrsFileType::Shp => 0x73687020,
            DrsFileType::Wav => 0x77617620,
        }
    }

    /// The file type that a tag stands for, if it stands for one.
    pub open spec fn spec_from_tag(binary_val: u32) -> Option<DrsFileType> {
        if binary_val == 0x62696E61 {
            Some(DrsFileType::Binary)
        } else if binary_val == 0x736C7020 {
            Some(DrsFileType::Slp)
        } else if binary_val == 0x73687020 {
            Some(DrsFileType::Shp)
        } else if binary_val == 0x77617620 {
            Some(DrsFileType::Wav)
        } else {
            None
        }
    }

    /// The canonical extension of files of this type.
    pub open spec fn spec_extension(self) -> Seq<char> {
        match self {
            DrsFileType::Binary => "bin"@,
            DrsFileType::Slp => "slp"@,
            DrsFileType::Shp => "shp"@,
            DrsFileType::Wav => "wav"@,
        }
    }

    /// Converts the tag of a table header. A tag that is none of the four
    /// known ones is an error that carries the tag.
    pub fn from_tag(binary_val: u32) -> (r: Result<DrsFileType, DrsError>)
        ensures
            match r {
                Ok(file_type) => DrsFileType::spec_from_tag(binary_val) == Some(file_type),
                Err(e) => DrsFileType::spec_from_tag(binary_val) is None && e@
                    == DrsErrorView::UnknownFileType(binary_val),
            },
    {
        match binary_val {
            0x62696E61 => Ok(DrsFileType::Binary),
            0x736C7020 => Ok(DrsFileType::Slp),
            0x73687020 => Ok(DrsFileType::Shp),
            0x77617620 => Ok(DrsFileType::Wav),
            _ => Err(DrsError::UnknownFileType(binary_val)),
        }
    }
}

/// The header of a table: the type of its files and how many there are.
#[derive(Debug, Clone, Copy, PartialEq, Eq, Structural)]
pub struct DrsTableHeader {
    pub file_type: DrsFileType,
    /// Offset that the file declares for the table's entries. It is read and
    /// kept, and never used to find anything.
    pub table_offset: u32,
    pub file_count: u32,
}

/// What reading a table header at offset `pos` of `file` gives. The tag is
/// read and converted before the two numbers after it are read.
pub open spec fn spec_table_header(file: Seq<u8>, pos: int) -> Result<
    DrsTableHeader,
    DrsErrorView,
> {
    if !can_read(file, pos, 4) {
        Err(DrsErrorView::Io)
    } else {
        match DrsFileType::spec_from_tag(u32_at(file, pos)) {
            None => Err(DrsErrorView::UnknownFileType(u32_at(file, pos))),
            Some(file_type) => if !can_read(file, pos, TABLE_HEADER_LEN as int) {
                Err(DrsErrorView::Io)
            } else {
                Ok(
                    DrsTableHeader {
                        file_type,
                        table_offset: u32_at(file, pos + 4),
                        file_count: u32_at(file, pos + 8),
                    },
                )
            },
        }
    }
}

impl DrsTableHeader {
    /// The header of a table of binary files that holds no file.
    pub fn new() -> (header: DrsTableHeader)
        ensures
            header == (DrsTableHeader {
                file_type: DrsFileType::Binary,
                table_offset: 0,
                file_count: 0,
            }),
    {
        DrsTableHeader { file_type: DrsFileType::Binary, table_offset: 0u32, file_count: 0u32 }
    }

    /// Reads the table header at offset `pos` of `file`.
    pub fn read_from_file(file: &[u8], pos: usize) -> (r: Result<DrsTableHeader, DrsError>)
        ensures
            match r {
                Ok(header) => spec_table_header(file@, pos as int) == Ok::<
                    DrsTableHeader,
                    DrsErrorView,
                >(header),
                Err(e) => spec_table_header(file@, pos as int) == Err::<
                    DrsTableHeader,
                    DrsErrorView,
                >(e@),
            },
    {
        let mut header = DrsTableHeader::new();

        header.file_type = DrsFileType::from_tag(read_u32(file, pos)?)?;
        assert(file@.len() == file.len());
        header.table_offset = read_u32(file, pos + 4)?;
        header.file_count = read_u32(file, pos + 8)?;
        Ok(header)
    }

    /// The canonical extension for files of the table's type, for those who
    /// store the files of an archive one by one.
    pub fn file_extension(&self) -> (extension: &'static str)
        ensures
            extension@ == self.file_type.spec_extension(),
    {
        match self.file_type {
            DrsFileType::Binary => "bin",
            DrsFileType::Slp => "slp",
            DrsFileType::Shp => "shp",
            DrsFileType::Wav => "wav",
        }
    }
}

/// A directory entry: the id of a file and the length of its contents.
#[derive(Debug, Clone, Copy, PartialEq, Eq, Structural)]
pub struct DrsTableEntry {
    /// Unique within the table, not within the archive.
    pub file_id: u32,
    /// Offset that the file declares for the contents. It is read and kept,
    /// and never used to find anything.
    pub file_offset: u32,
    /// Exact length of the contents in bytes.
    pub file_size: u32,
}

/// The directory entry that lies at offset `pos` of `file`.
pub open spec fn entry_at(file: Seq<u8>, pos: int) -> DrsTableEntry {
    DrsTableEntry {
        file_id: u32_at(file, pos),
        file_offset: u32_at(file, pos + 4),
        file_size: u32_at(file, pos + 8),
    }
}

/// What reading a directory entry at offset `pos` of `file` gives.
pub open spec fn spec_table_entry(file: Seq<u8>, pos: int) -> Result<DrsTableEntry, DrsErrorView> {
    if can_read(file, pos, TABLE_ENTRY_LEN as int) {
        Ok(entry_at(file, pos))
    } else {
        Err(DrsErrorView::Io)
    }
}

impl DrsTableEntry {
    /// An entry with every number zero.
    pub fn new() -> (entry: DrsTableEntry)
        ensures
            entry == (DrsTableEntry { file_id: 0, file_offset: 0, file_size: 0 }),
    {
        DrsTableEntry { file_id: 0u32, file_offset: 0u32, file_size: 0u32 }
    }

    /// Reads the directory entry at offset `pos` of `file`.
    pub fn read_from_file(file: &[u8], pos: usize) -> (r: Result<DrsTableEntry, DrsError>)
        ensures
            match r {
                Ok(entry) => spec_table_entry(file@, pos as int) == Ok::<
                    DrsTableEntry,
                    DrsErrorView,
                >(entry),
                Err(e) => spec_table_entry(file@, pos as int) == Err::<
                    DrsTableEntry,
                    DrsErrorView,
                >(e@),
            },
    {
        let mut entry = DrsTableEntry::new();
        entry.file_id = read_u32(file, pos)?;
        assert(file@.len() == file.len());
        entry.file_offset = read_u32(file, pos + 4)?;
        entry.file_size = read_u32(file, pos + 8)?;
        Ok(entry)
    }
}

/// The contents of one file of an archive, as they lie in it.
pub type DrsFileContents = Vec<u8>;

/// The sequences that a sequence of vectors holds.
pub open spec fn views<T>(vectors: Seq<Vec<T>>) -> Seq<Seq<T>> {
    Seq::new(vectors.len(), |i: int| vectors[i]@)
}

/// The index of the last entry of `entries` that bears `file_id`, if any
/// entry does.
pub open spec fn last_slot(entries: Seq<DrsTableEntry>, file_id: u32) -> Option<int>
    decreases entries.len(),
{
    if entries.len() == 0 {
        None
    } else if entries.last().file_id == file_id {
        Some(entries.len() - 1)
    } else {
        last_slot(entries.drop_last(), file_id)
    }
}

/// The lookup mapping of a table: the entries are inserted in their order,
/// each file id with the index of its entry, and an id that occurs again
/// takes the place of the earlier one.
pub open spec fn index_of(entries: Seq<DrsTableEntry>) -> Map<u32, usize>
    decreases entries.len(),
{
    if entries.len() == 0 {
        Map::empty()
    } else {
        index_of(entries.drop_last()).insert(
            entries.last().file_id,
            (entries.len() - 1) as usize,
        )
    }
}

/// `last_slot` finds an entry that bears the id and is followed by no other
/// that does; it finds nothing only where no entry bears the id.
pub proof fn lemma_last_slot(entries: Seq<DrsTableEntry>, file_id: u32)
    ensures
        match last_slot(entries, file_id) {
            Some(i) => {
                &&& 0 <= i < entries.len()
                &&& entries[i].file_id == file_id
                &&& forall|j: int| i < j < entries.len() ==> entries[j].file_id != file_id
            },
            None => forall|j: int| 0 <= j < entries.len() ==> entries[j].file_id != file_id,
        },
    decreases entries.len(),
{
    if entries.len() > 0 && entries.last().file_id != file_id {
        let front = entries.drop_last();
        lemma_last_slot(front, file_id);
        assert forall|j: int| 0 <= j < front.len() implies front[j] == entries[j] by {}
        match last_slot(front, file_id) {
            Some(i) => {
                assert forall|j: int| i < j < entries.len() implies entries[j].file_id
                    != file_id by {
                    if j < front.len() {
                        assert(front[j].file_id != file_id);
                    }
                }
            },
            None => {
                assert forall|j: int| 0 <= j < entries.len() implies entries[j].file_id
                    != file_id by {
                    if j < front.len() {
                        assert(front[j].file_id != file_id);
                    }
                }
            },
        }
    }
}

/// The lookup mapping holds an id exactly where `last_slot` finds an entry,
/// and maps it to that entry's index.
pub proof fn lemma_index_of(entries: Seq<DrsTableEntry>, file_id: u32)
    requires
        entries.len() <= usize::MAX,
    ensures
        match last_slot(entries, file_id) {
            Some(i) => index_of(entries).contains_key(file_id) && index_of(entries)[file_id] == i,
            None => !index_of(entries).contains_key(file_id),
        },
    decreases entries.len(),
{
    if entries.len() > 0 {
        lemma_index_of(entries.drop_last(), file_id);
    }
}

/// The mathematical value of a table: its header, its entries in the order
/// of the directory, and the contents of each entry's file at the same index.
pub struct TableModel {
    pub header: DrsTableHeader,
    pub entries: Seq<DrsTableEntry>,
    pub contents: Seq<Seq<u8>>,
}

impl TableModel {
    /// There are as many entries as the header counts and as many contents as
    /// entries, and each file's contents have the length that its entry
    /// gives.
    pub open spec fn wf(self) -> bool {
        &&& self.entries.len() == self.header.file_count
        &&& self.contents.len() == self.entries.len()
        &&& forall|i: int|
            0 <= i < self.entries.len() ==> #[trigger] self.contents[i].len()
                == self.entries[i].file_size
    }

    /// The contents that a lookup of `file_id` finds: those of the last entry
    /// that bears the id.
    pub open spec fn lookup(self, file_id: u32) -> Option<Seq<u8>> {
        match last_slot(self.entries, file_id) {
            Some(i) => Some(self.contents[i]),
            None => None,
        }
    }
}

/// In a well-formed table, a lookup of the id of an entry finds the contents
/// at that entry's index, provided that no later entry bears the same id, and
/// these contents have exactly the size that the entry gives.
pub proof fn lemma_lookup_last_entry(table: TableModel, i: int)
    requires
        table.wf(),
        0 <= i < table.entries.len(),
        forall|j: int|
            i < j < table.entries.len() ==> table.entries[j].file_id != table.entries[i].file_id,
    ensures
        table.lookup(table.entries[i].file_id) == Some(table.contents[i]),
        table.contents[i].len() == table.entries[i].file_size,
{
    lemma_last_slot(table.entries, table.entries[i].file_id);
}

/// Tables aren't stored in a file in this layout: a file holds all table
/// headers, then all entries, then all contents. A table gathers what belongs
/// to one file type, so that files can be found by their id.
pub struct DrsLogicalTable {
    header: DrsTableHeader,
    entries: Vec<DrsTableEntry>,
    contents: Vec<DrsFileContents>,
    index_map: HashMap<u32, usize>,
}

impl View for DrsLogicalTable {
    type V = TableModel;

    closed spec fn view(&self) -> TableModel {
        TableModel {
            header: self.header,
            entries: self.entries@,
            contents: views(self.contents@),
        }
    }
}

impl DrsLogicalTable {
    #[verifier::type_invariant]
    spec fn inv(&self) -> bool {
        &&& self@.wf()
        &&& self.index_map@ == index_of(self.entries@)
    }

    /// A table of binary files that holds no file.
    pub fn new() -> (table: DrsLogicalTable)
        ensures
            table@ == (TableModel {
                header: DrsTableHeader {
                    file_type: DrsFileType::Binary,
                    table_offset: 0,
                    file_count: 0,
                },
                entries: Seq::empty(),
                contents: Seq::empty(),
            }),
    {
        let table = DrsLogicalTable {
            header: DrsTableHeader::new(),
            entries: Vec::new(),
            contents: Vec::new(),
            index_map: HashMap::new(),
        };
        assert(table@.contents =~= Seq::empty());
        table
    }

    /// Puts a table together from its header, its entries and the contents of
    /// their files, and builds its lookup mapping.
    pub(crate) fn from_parts(
        header: DrsTableHeader,
        entries: Vec<DrsTableEntry>,
        contents: Vec<DrsFileContents>,
    ) -> (table: DrsLogicalTable)
        requires
            (TableModel { header, entries: entries@, contents: views(contents@) }).wf(),
        ensures
            table@ == (TableModel { header, entries: entries@, contents: views(contents@) }),
    {
        let index_map = DrsLogicalTable::populate_index_map(&entries);
        DrsLogicalTable { header, entries, contents, index_map }
    }

    /// The table's header.
    pub fn header(&self) -> (header: &DrsTableHeader)
        ensures
            *header == self@.header,
            self@.wf(),
    {
        proof {
            use_type_invariant(self);
        }
        &self.header
    }

    /// The entries, in the order of the directory.
    pub fn entries(&self) -> (entries: &Vec<DrsTableEntry>)
        ensures
            entries@ == self@.entries,
            self@.wf(),
    {
        proof {
            use_type_invariant(self);
        }
        &self.entries
    }

    /// The contents of the files, each at the index of its entry.
    pub fn contents(&self) -> (contents: &Vec<DrsFileContents>)
        ensures
            views(contents@) == self@.contents,
            self@.wf(),
    {
        proof {
            use_type_invariant(self);
        }
        &self.contents
    }

    /// All files present inside of a DRS archive are labeled with a 32-bit
    /// integer file ID. This method attempts to find a file by ID in the
    /// given table. Where several entries bear the ID, it finds the file of
    /// the last of them.
    pub fn find_file_contents(&self, file_id: u32) -> (r: Option<&DrsFileContents>)
        ensures
            match r {
                Some(contents) => self@.lookup(file_id) == Some(contents@),
                None => self@.lookup(file_id) is None,
            },
    {
        proof {
            use_type_invariant(self);
            lemma_index_of(self.entries@, file_id);
            lemma_last_slot(self.entries@, file_id);
        }
        match self.index_map.get(&file_id) {
            Some(index) => Some(&self.contents[*index]),
            None => None,
        }
    }

    /// Builds the lookup mapping of a table from its entries.
    pub fn populate_index_map(entries: &Vec<DrsTableEntry>) -> (index_map: HashMap<u32, usize>)
        ensures
            index_map@ == index_of(entries@),
    {
        let mut index_map: HashMap<u32, usize> = HashMap::new();
        let mut i: usize = 0;
        while i < entries.len()
            invariant
                i <= entries.len(),
                index_map@ == index_of(entries@.take(i as int)),
            decreases entries.len() - i,
        {
            assert(entries@.take(i + 1).drop_last() =~= entries@.take(i as int));
            index_map.insert(entries[i].file_id, i);
            i += 1;
        }
        assert(entries@.take(i as int) =~= entries@);
        index_map
    }
}

} // verus!
