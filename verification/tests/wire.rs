use drs_archive::validate::validate_str;
use drs_archive::wire::{read_block, read_bytes, read_u32};
use drs_archive::DrsError;

#[test]
fn read_u32_is_little_endian() {
    let file = [0x78u8, 0x56, 0x34, 0x12];
    assert_eq!(read_u32(&file, 0), Ok(0x12345678));
}

#[test]
fn read_u32_reads_at_the_offset() {
    let file = [0xAAu8, 0x01, 0x00, 0x00, 0x00, 0xFF, 0xFF, 0xFF, 0xFF];
    assert_eq!(read_u32(&file, 1), Ok(1));
    assert_eq!(read_u32(&file, 5), Ok(u32::MAX));
}

#[test]
fn read_u32_weighs_each_byte() {
    assert_eq!(read_u32(&[1, 0, 0, 0], 0), Ok(1));
    assert_eq!(read_u32(&[0, 1, 0, 0], 0), Ok(256));
    assert_eq!(read_u32(&[0, 0, 1, 0], 0), Ok(65536));
    assert_eq!(read_u32(&[0, 0, 0, 1], 0), Ok(16777216));
}

#[test]
fn read_u32_short_read_is_io_error() {
    let file = [1u8, 2, 3, 4, 5];
    assert_eq!(read_u32(&file, 2), Err(DrsError::Io));
    assert_eq!(read_u32(&file, 5), Err(DrsError::Io));
    assert_eq!(read_u32(&file, 6), Err(DrsError::Io));
    assert_eq!(read_u32(&file, usize::MAX), Err(DrsError::Io));
    assert_eq!(read_u32(&[], 0), Err(DrsError::Io));
}

#[test]
fn read_block_copies_the_bytes() {
    let file = [10u8, 11, 12, 13, 14, 15];
    assert_eq!(read_block::<4>(&file, 1), Ok([11, 12, 13, 14]));
    assert_eq!(read_block::<6>(&file, 0), Ok([10, 11, 12, 13, 14, 15]));
}

#[test]
fn read_block_short_read_is_io_error() {
    let file = [10u8, 11, 12, 13, 14, 15];
    assert_eq!(read_block::<4>(&file, 3), Err(DrsError::Io));
    assert_eq!(read_block::<7>(&file, 0), Err(DrsError::Io));
    assert_eq!(read_block::<1>(&file, usize::MAX), Err(DrsError::Io));
}

#[test]
fn read_block_of_nothing_succeeds_anywhere() {
    let file = [10u8, 11];
    assert_eq!(read_block::<0>(&file, 0), Ok([]));
    assert_eq!(read_block::<0>(&file, 2), Ok([]));
    assert_eq!(read_block::<0>(&file, 100), Ok([]));
}

#[test]
fn read_bytes_copies_the_bytes() {
    let file = [10u8, 11, 12, 13, 14, 15];
    assert_eq!(read_bytes(&file, 2, 3), Ok(vec![12, 13, 14]));
    assert_eq!(read_bytes(&file, 0, 6), Ok(vec![10, 11, 12, 13, 14, 15]));
    assert_eq!(read_bytes(&file, 5, 1), Ok(vec![15]));
}

#[test]
fn read_bytes_never_yields_a_shortened_buffer() {
    let file = [10u8, 11, 12, 13, 14, 15];
    assert_eq!(read_bytes(&file, 2, 5), Err(DrsError::Io));
    assert_eq!(read_bytes(&file, 6, 1), Err(DrsError::Io));
    assert_eq!(read_bytes(&file, 7, 1), Err(DrsError::Io));
    assert_eq!(read_bytes(&file, 1, usize::MAX), Err(DrsError::Io));
}

#[test]
fn read_bytes_of_nothing_succeeds_anywhere() {
    let file = [10u8, 11];
    assert_eq!(read_bytes(&file, 0, 0), Ok(vec![]));
    assert_eq!(read_bytes(&file, 2, 0), Ok(vec![]));
    assert_eq!(read_bytes(&file, 100, 0), Ok(vec![]));
}

#[test]
fn validate_str_accepts_the_exact_text() {
    assert_eq!(validate_str("a.drs", b"1.00", "1.00"), Ok(()));
}

#[test]
fn validate_str_accepts_a_longer_block() {
    assert_eq!(validate_str("a.drs", b"tribe\0\0\0\0\0\0\0", "tribe"), Ok(()));
    assert_eq!(validate_str("a.drs", b"tribes", "tribe"), Ok(()));
}

#[test]
fn validate_str_rejects_a_shorter_block() {
    assert_eq!(
        validate_str("a.drs", b"trib", "tribe"),
        Err(DrsError::InvalidDrs(String::from("a.drs")))
    );
    assert_eq!(
        validate_str("a.drs", b"", "tribe"),
        Err(DrsError::InvalidDrs(String::from("a.drs")))
    );
}

#[test]
fn validate_str_rejects_a_different_block() {
    assert_eq!(
        validate_str("data/b.drs", b"1.01", "1.00"),
        Err(DrsError::InvalidDrs(String::from("data/b.drs")))
    );
    assert_eq!(
        validate_str("data/b.drs", b"Tribe\0\0\0", "tribe"),
        Err(DrsError::InvalidDrs(String::from("data/b.drs")))
    );
}

#[test]
fn validate_str_accepts_any_block_for_an_empty_text() {
    assert_eq!(validate_str("a.drs", b"", ""), Ok(()));
    assert_eq!(validate_str("a.drs", b"xyz", ""), Ok(()));
}

#[test]
fn validate_str_compares_bytes_beyond_ascii() {
    assert_eq!(validate_str("a.drs", &[0xC3, 0xA9, 0x21], "\u{E9}"), Ok(()));
    assert_eq!(
        validate_str("a.drs", &[0xE9, 0x21], "\u{E9}"),
        Err(DrsError::InvalidDrs(String::from("a.drs")))
    );
}
