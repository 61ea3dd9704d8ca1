use drs_archive::archive::DrsFile as ArchiveFile;
use drs_archive::{
    DrsError, DrsFile, DrsFileType, DrsGameType, DrsLogicalTable, DrsTableEntry, DrsTableHeader,
};
use either::Either;

const BINA: u32 = 0x62696E61;
const SLP: u32 = 0x736C7020;
const SHP: u32 = 0x73687020;
const WAV: u32 = 0x77617620;

const AOE_COPYRIGHT: &str = "Copyright (c) 1997 Ensemble Studios.\u{1A}";
const SWBG_COPYRIGHT: &str = "Copyright (c) 2001 LucasArts Entertainment Company LLC\u{1A}";

fn padded(text: &str, len: usize) -> Vec<u8> {
    let mut block = text.as_bytes().to_vec();
    block.resize(len, 0);
    block
}

fn aoe_header(table_count: u32) -> Vec<u8> {
    let mut file = padded(AOE_COPYRIGHT, 40);
    file.extend_from_slice(b"1.00");
    file.extend_from_slice(&padded("tribe", 12));
    file.extend_from_slice(&table_count.to_le_bytes());
    file.extend_from_slice(&0u32.to_le_bytes());
    file
}

fn swbg_header(table_count: u32) -> Vec<u8> {
    let mut file = padded(SWBG_COPYRIGHT, 60);
    file.extend_from_slice(b"1.00");
    file.extend_from_slice(&padded("swbg", 12));
    file.extend_from_slice(&table_count.to_le_bytes());
    file.extend_from_slice(&0u32.to_le_bytes());
    file
}

fn record(a: u32, b: u32, c: u32) -> Vec<u8> {
    let mut bytes = a.to_le_bytes().to_vec();
    bytes.extend_from_slice(&b.to_le_bytes());
    bytes.extend_from_slice(&c.to_le_bytes());
    bytes
}

/// A base-variant archive with a table of three binary files and an empty
/// table of sounds.
fn two_table_archive() -> Vec<u8> {
    let mut file = aoe_header(2);
    file.extend(record(BINA, 88, 3));
    file.extend(record(WAV, 124, 0));
    file.extend(record(10, 124, 2));
    file.extend(record(20, 126, 0));
    file.extend(record(30, 126, 3));
    file.extend_from_slice(&[0xA1, 0xA2]);
    file.extend_from_slice(&[0xC1, 0xC2, 0xC3]);
    file
}

fn io_error(r: Result<DrsFile, DrsError>) -> bool {
    matches!(r, Err(DrsError::Io))
}

#[test]
fn empty_archive_has_empty_header_and_no_tables() {
    let drs_file = DrsFile::empty();
    assert_eq!(drs_file.header.copyright_info, Either::Left([0u8; 40]));
    assert_eq!(drs_file.header.file_version, [0u8; 4]);
    assert_eq!(drs_file.header.file_type, [0u8; 12]);
    assert_eq!(drs_file.header.table_count, 0);
    assert_eq!(drs_file.header.file_offset, 0);
    assert!(drs_file.tables.is_empty());
    assert!(drs_file.find_table(DrsFileType::Binary).is_none());
}

#[test]
fn base_variant_archive_loads() {
    let mut file = aoe_header(1);
    file.extend(record(BINA, 76, 0));
    let drs_file = DrsFile::read_from_file(&file, "base.drs").unwrap();
    assert_eq!(drs_file.header.game_type(), DrsGameType::AOE);
    assert_eq!(&drs_file.header.file_type[..5], b"tribe");
    assert_eq!(drs_file.header.table_count, 1);
    assert_eq!(drs_file.tables.len(), 1);
    assert_eq!(drs_file.tables[0].header().file_type, DrsFileType::Binary);
}

#[test]
fn expansion_variant_archive_loads() {
    let mut file = swbg_header(1);
    file.extend(record(SLP, 96, 1));
    file.extend(record(42, 108, 4));
    file.extend_from_slice(&[1, 2, 3, 4]);
    let drs_file = DrsFile::read_from_file(&file, "expansion.drs").unwrap();
    assert_eq!(drs_file.header.game_type(), DrsGameType::SWBG);
    assert_eq!(drs_file.tables.len(), 1);
    let table = &drs_file.tables[0];
    assert_eq!(
        *table.header(),
        DrsTableHeader { file_type: DrsFileType::Slp, table_offset: 96, file_count: 1 }
    );
    assert_eq!(
        *table.entries(),
        vec![DrsTableEntry { file_id: 42, file_offset: 108, file_size: 4 }]
    );
    assert_eq!(*table.contents(), vec![vec![1u8, 2, 3, 4]]);
    assert_eq!(table.find_file_contents(42), Some(&vec![1u8, 2, 3, 4]));
}

#[test]
fn expansion_discriminator_with_wrong_copyright_fails_as_invalid() {
    let mut file = swbg_header(0);
    file[14] = b'1';
    assert_eq!(
        DrsFile::read_from_file(&file, "wrong.drs").err(),
        Some(DrsError::InvalidDrs(String::from("wrong.drs")))
    );
    let mut base = aoe_header(1);
    base.extend_from_slice(b"swbg");
    base.resize(200, 0);
    assert_eq!(
        DrsFile::read_from_file(&base, "wrong.drs").err(),
        Some(DrsError::InvalidDrs(String::from("wrong.drs")))
    );
}

#[test]
fn unknown_file_type_fails_the_load() {
    let mut file = aoe_header(1);
    file.extend(record(0x6D696469, 76, 0));
    assert_eq!(
        DrsFile::read_from_file(&file, "a.drs").err(),
        Some(DrsError::UnknownFileType(0x6D696469))
    );
}

#[test]
fn unknown_file_type_in_a_later_table_fails_the_load() {
    let mut file = aoe_header(3);
    file.extend(record(BINA, 0, 0));
    file.extend(record(WAV, 0, 0));
    file.extend(record(0x12345678, 0, 0));
    assert_eq!(
        DrsFile::read_from_file(&file, "a.drs").err(),
        Some(DrsError::UnknownFileType(0x12345678))
    );
}

#[test]
fn first_failing_table_header_decides_the_error() {
    let mut file = aoe_header(3);
    file.extend(record(BINA, 0, 0));
    file.extend(record(0xAAAAAAAA, 0, 0));
    file.extend(record(0xBBBBBBBB, 0, 0));
    assert_eq!(
        DrsFile::read_from_file(&file, "a.drs").err(),
        Some(DrsError::UnknownFileType(0xAAAAAAAA))
    );
    let mut cut = aoe_header(3);
    cut.extend(record(BINA, 0, 0));
    cut.extend_from_slice(&SLP.to_le_bytes());
    assert_eq!(DrsFile::read_from_file(&cut, "a.drs").err(), Some(DrsError::Io));
}

#[test]
fn entries_and_contents_are_read_table_after_table() {
    let file = two_table_archive();
    let drs_file = DrsFile::read_from_file(&file, "two.drs").unwrap();
    assert_eq!(drs_file.tables.len(), 2);

    let first = &drs_file.tables[0];
    assert_eq!(
        *first.header(),
        DrsTableHeader { file_type: DrsFileType::Binary, table_offset: 88, file_count: 3 }
    );
    assert_eq!(
        *first.entries(),
        vec![
            DrsTableEntry { file_id: 10, file_offset: 124, file_size: 2 },
            DrsTableEntry { file_id: 20, file_offset: 126, file_size: 0 },
            DrsTableEntry { file_id: 30, file_offset: 126, file_size: 3 },
        ]
    );
    assert_eq!(*first.contents(), vec![vec![0xA1u8, 0xA2], vec![], vec![0xC1, 0xC2, 0xC3]]);

    let second = &drs_file.tables[1];
    assert_eq!(
        *second.header(),
        DrsTableHeader { file_type: DrsFileType::Wav, table_offset: 124, file_count: 0 }
    );
    assert!(second.entries().is_empty());
    assert!(second.contents().is_empty());
}

#[test]
fn entries_of_all_tables_come_before_all_contents() {
    let mut file = aoe_header(2);
    file.extend(record(SLP, 0, 1));
    file.extend(record(SHP, 0, 2));
    file.extend(record(1, 0, 1));
    file.extend(record(2, 0, 2));
    file.extend(record(3, 0, 3));
    file.extend_from_slice(&[0x11]);
    file.extend_from_slice(&[0x21, 0x22]);
    file.extend_from_slice(&[0x31, 0x32, 0x33]);
    let drs_file = DrsFile::read_from_file(&file, "two.drs").unwrap();
    assert_eq!(*drs_file.tables[0].contents(), vec![vec![0x11u8]]);
    assert_eq!(*drs_file.tables[1].contents(), vec![vec![0x21u8, 0x22], vec![0x31, 0x32, 0x33]]);
    assert_eq!(drs_file.tables[0].entries()[0].file_id, 1);
    assert_eq!(drs_file.tables[1].entries()[0].file_id, 2);
    assert_eq!(drs_file.tables[1].entries()[1].file_id, 3);
}

#[test]
fn every_table_has_as_many_entries_and_contents_as_its_header_counts() {
    let file = two_table_archive();
    let drs_file = DrsFile::read_from_file(&file, "two.drs").unwrap();
    assert_eq!(drs_file.tables.len() as u32, drs_file.header.table_count);
    for table in &drs_file.tables {
        assert_eq!(table.entries().len() as u32, table.header().file_count);
        assert_eq!(table.contents().len(), table.entries().len());
        for (entry, contents) in table.entries().iter().zip(table.contents().iter()) {
            assert_eq!(contents.len() as u32, entry.file_size);
        }
    }
}

#[test]
fn found_contents_have_the_size_of_their_entry() {
    let file = two_table_archive();
    let drs_file = DrsFile::read_from_file(&file, "two.drs").unwrap();
    let table = &drs_file.tables[0];
    for entry in table.entries() {
        let contents = table.find_file_contents(entry.file_id).unwrap();
        assert_eq!(contents.len() as u32, entry.file_size);
    }
    assert_eq!(table.find_file_contents(10), Some(&vec![0xA1u8, 0xA2]));
    assert_eq!(table.find_file_contents(20), Some(&vec![]));
    assert_eq!(table.find_file_contents(30), Some(&vec![0xC1u8, 0xC2, 0xC3]));
    assert_eq!(table.find_file_contents(40), None);
}

#[test]
fn later_entry_with_the_same_id_wins() {
    let mut file = aoe_header(1);
    file.extend(record(BINA, 0, 3));
    file.extend(record(7, 0, 1));
    file.extend(record(8, 0, 1));
    file.extend(record(7, 0, 4));
    file.extend_from_slice(&[0x01]);
    file.extend_from_slice(&[0x02]);
    file.extend_from_slice(&[0x0A, 0x0B, 0x0C, 0x0D]);
    let drs_file = DrsFile::read_from_file(&file, "dup.drs").unwrap();
    let table = &drs_file.tables[0];
    assert_eq!(table.entries().len(), 3);
    assert_eq!(table.contents().len(), 3);
    assert_eq!(table.find_file_contents(7), Some(&vec![0x0Au8, 0x0B, 0x0C, 0x0D]));
    assert_eq!(table.find_file_contents(8), Some(&vec![0x02u8]));
}

#[test]
fn same_id_in_two_tables_is_found_in_each() {
    let mut file = aoe_header(2);
    file.extend(record(SLP, 0, 1));
    file.extend(record(WAV, 0, 1));
    file.extend(record(7, 0, 1));
    file.extend(record(7, 0, 2));
    file.extend_from_slice(&[0x51]);
    file.extend_from_slice(&[0x61, 0x62]);
    let drs_file = DrsFile::read_from_file(&file, "two.drs").unwrap();
    let graphics = drs_file.find_table(DrsFileType::Slp).unwrap();
    let sounds = drs_file.find_table(DrsFileType::Wav).unwrap();
    assert_eq!(graphics.find_file_contents(7), Some(&vec![0x51u8]));
    assert_eq!(sounds.find_file_contents(7), Some(&vec![0x61u8, 0x62]));
}

#[test]
fn find_table_by_file_type() {
    let file = two_table_archive();
    let drs_file = DrsFile::read_from_file(&file, "two.drs").unwrap();
    let binary = drs_file.find_table(DrsFileType::Binary).unwrap();
    assert_eq!(binary.header().file_count, 3);
    let sounds = drs_file.find_table(DrsFileType::Wav).unwrap();
    assert_eq!(sounds.header().file_count, 0);
    assert!(drs_file.find_table(DrsFileType::Slp).is_none());
    assert!(drs_file.find_table(DrsFileType::Shp).is_none());
}

#[test]
fn find_table_takes_the_first_of_a_type() {
    let mut file = aoe_header(2);
    file.extend(record(SLP, 1, 0));
    file.extend(record(SLP, 2, 0));
    let drs_file = DrsFile::read_from_file(&file, "two.drs").unwrap();
    assert_eq!(drs_file.find_table(DrsFileType::Slp).unwrap().header().table_offset, 1);
}

#[test]
fn find_table_on_tables_put_together_by_hand() {
    let mut drs_file = DrsFile::empty();
    drs_file.tables.push(DrsLogicalTable::new());
    assert!(drs_file.find_table(DrsFileType::Binary).is_some());
    assert!(drs_file.find_table(DrsFileType::Wav).is_none());
}

#[test]
fn truncated_contents_fail_the_load() {
    let file = two_table_archive();
    assert!(DrsFile::read_from_file(&file, "two.drs").is_ok());
    for len in 0..file.len() {
        assert!(io_error(DrsFile::read_from_file(&file[..len], "two.drs")));
    }
}

#[test]
fn bytes_after_the_last_contents_are_ignored() {
    let mut file = two_table_archive();
    file.extend_from_slice(&[0xEE; 16]);
    let drs_file = DrsFile::read_from_file(&file, "two.drs").unwrap();
    assert_eq!(drs_file.tables[0].contents()[2], vec![0xC1u8, 0xC2, 0xC3]);
}

#[test]
fn declared_offsets_are_kept_and_not_followed() {
    let mut file = aoe_header(1);
    file[60..64].copy_from_slice(&0xDEADBEEFu32.to_le_bytes());
    file.extend(record(BINA, 0xFFFFFFFF, 1));
    file.extend(record(1, 0xFFFFFFF0, 2));
    file.extend_from_slice(&[0x0A, 0x0B]);
    let drs_file = DrsFile::read_from_file(&file, "a.drs").unwrap();
    assert_eq!(drs_file.header.file_offset, 0xDEADBEEF);
    assert_eq!(drs_file.tables[0].header().table_offset, 0xFFFFFFFF);
    assert_eq!(drs_file.tables[0].entries()[0].file_offset, 0xFFFFFFF0);
    assert_eq!(drs_file.tables[0].contents()[0], vec![0x0Au8, 0x0B]);
}

#[test]
fn base_archive_without_tables_needs_bytes_at_the_discriminator() {
    let file = aoe_header(0);
    assert!(io_error(DrsFile::read_from_file(&file, "none.drs")));
    let mut longer = file.clone();
    longer.extend_from_slice(&[0, 0, 0, 0]);
    let drs_file = DrsFile::read_from_file(&longer, "none.drs").unwrap();
    assert!(drs_file.tables.is_empty());
}

#[test]
fn expansion_archive_without_tables_loads() {
    let file = swbg_header(0);
    let drs_file = DrsFile::read_from_file(&file, "none.drs").unwrap();
    assert_eq!(drs_file.header.game_type(), DrsGameType::SWBG);
    assert!(drs_file.tables.is_empty());
}

#[test]
fn huge_counts_in_a_short_file_are_io_errors() {
    let file = {
        let mut file = aoe_header(u32::MAX);
        file.extend(record(BINA, 0, 0));
        file
    };
    assert!(io_error(DrsFile::read_from_file(&file, "a.drs")));
    let mut file = aoe_header(1);
    file.extend(record(BINA, 0, u32::MAX));
    file.extend(record(1, 0, 1));
    assert!(io_error(DrsFile::read_from_file(&file, "a.drs")));
    let mut file = aoe_header(1);
    file.extend(record(BINA, 0, 1));
    file.extend(record(1, 0, u32::MAX));
    file.extend_from_slice(&[0; 64]);
    assert!(io_error(DrsFile::read_from_file(&file, "a.drs")));
}

#[test]
fn read_table_headers_returns_where_they_end() {
    let mut file = vec![0xEEu8; 5];
    file.extend(record(SHP, 1, 2));
    file.extend(record(WAV, 3, 4));
    file.extend_from_slice(&[0xEE; 3]);
    let (headers, end) = DrsFile::read_table_headers(&file, 5, 2).unwrap();
    assert_eq!(
        headers,
        vec![
            DrsTableHeader { file_type: DrsFileType::Shp, table_offset: 1, file_count: 2 },
            DrsTableHeader { file_type: DrsFileType::Wav, table_offset: 3, file_count: 4 },
        ]
    );
    assert_eq!(end, 29);
    assert_eq!(DrsFile::read_table_headers(&file, 5, 0), Ok((vec![], 5)));
    assert_eq!(DrsFile::read_table_headers(&file, 1000, 0), Ok((vec![], 1000)));
    assert_eq!(DrsFile::read_table_headers(&file, 17, 2), Err(DrsError::Io));
    assert_eq!(
        DrsFile::read_table_headers(&file, 9, 1),
        Err(DrsError::UnknownFileType(1))
    );
}

#[test]
fn read_file_entry_headers_returns_where_they_end() {
    let headers = vec![
        DrsTableHeader { file_type: DrsFileType::Binary, table_offset: 0, file_count: 2 },
        DrsTableHeader { file_type: DrsFileType::Slp, table_offset: 0, file_count: 0 },
        DrsTableHeader { file_type: DrsFileType::Wav, table_offset: 0, file_count: 1 },
    ];
    let mut file = vec![0xEEu8; 2];
    file.extend(record(1, 2, 3));
    file.extend(record(4, 5, 6));
    file.extend(record(7, 8, 9));
    let (entries, end) = DrsFile::read_file_entry_headers(&file, 2, &headers).unwrap();
    assert_eq!(
        entries,
        vec![
            vec![
                DrsTableEntry { file_id: 1, file_offset: 2, file_size: 3 },
                DrsTableEntry { file_id: 4, file_offset: 5, file_size: 6 },
            ],
            vec![],
            vec![DrsTableEntry { file_id: 7, file_offset: 8, file_size: 9 }],
        ]
    );
    assert_eq!(end, 38);
    assert_eq!(DrsFile::read_file_entry_headers(&file, 3, &headers), Err(DrsError::Io));
    assert_eq!(DrsFile::read_file_entry_headers(&file[..37], 2, &headers), Err(DrsError::Io));
    assert_eq!(DrsFile::read_file_entry_headers(&file, 500, &headers[1..2].to_vec()), Ok((vec![vec![]], 500)));
    assert_eq!(DrsFile::read_file_entry_headers(&file, 500, &Vec::new()), Ok((vec![], 500)));
}

#[test]
fn read_file_contents_returns_where_they_end() {
    let entry = |file_size: u32| DrsTableEntry { file_id: 0, file_offset: 0, file_size };
    let tables = vec![vec![entry(2), entry(0)], vec![], vec![entry(1), entry(3)]];
    let file = [0xEEu8, 1, 2, 3, 4, 5, 6, 0xEE];
    let (contents, end) = DrsFile::read_file_contents(&file, 1, &tables).unwrap();
    assert_eq!(
        contents,
        vec![vec![vec![1u8, 2], vec![]], vec![], vec![vec![3u8], vec![4, 5, 6]]]
    );
    assert_eq!(end, 7);
    assert_eq!(DrsFile::read_file_contents(&file, 3, &tables), Err(DrsError::Io));
    assert_eq!(DrsFile::read_file_contents(&file[..6], 1, &tables), Err(DrsError::Io));
    let nothing = vec![vec![entry(0)], vec![]];
    assert_eq!(DrsFile::read_file_contents(&file, 900, &nothing), Ok((vec![vec![vec![]], vec![]], 900)));
}

#[test]
fn decoded_fields_spell_the_bytes_of_the_file() {
    let file = two_table_archive();
    let drs_file = ArchiveFile::read_from_file(&file, "two.drs").unwrap();
    let mut bytes = Vec::new();
    bytes.extend_from_slice(&drs_file.header.copyright_info.left().unwrap());
    bytes.extend_from_slice(&drs_file.header.file_version);
    bytes.extend_from_slice(&drs_file.header.file_type);
    bytes.extend_from_slice(&drs_file.header.table_count.to_le_bytes());
    bytes.extend_from_slice(&drs_file.header.file_offset.to_le_bytes());
    for table in &drs_file.tables {
        let tag = match table.header().file_type {
            DrsFileType::Binary => BINA,
            DrsFileType::Slp => SLP,
            DrsFileType::Shp => SHP,
            DrsFileType::Wav => WAV,
        };
        bytes.extend(record(tag, table.header().table_offset, table.header().file_count));
    }
    for table in &drs_file.tables {
        for entry in table.entries() {
            bytes.extend(record(entry.file_id, entry.file_offset, entry.file_size));
        }
    }
    for table in &drs_file.tables {
        for contents in table.contents() {
            bytes.extend_from_slice(contents);
        }
    }
    assert_eq!(bytes, file);
}
