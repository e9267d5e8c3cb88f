//! Tests of the conversion from ELF to Intel HEX.

use tricore_probe::elf_file::{
    build_records, check_addresses, elf_to_hex, read_segments, try_elf_to_hex, ElfToHexError,
    ProgramHeader, Segment, PT_LOAD,
};
use tricore_probe::hex::{append_segment, Record};

fn half(big: bool, value: u16) -> Vec<u8> {
    if big {
        value.to_be_bytes().to_vec()
    } else {
        value.to_le_bytes().to_vec()
    }
}

fn word(big: bool, value: u32) -> Vec<u8> {
    if big {
        value.to_be_bytes().to_vec()
    } else {
        value.to_le_bytes().to_vec()
    }
}

/// A 32-bit ELF file with the given program headers (type, offset from the end of the
/// headers, physical address, size in the file) and the given bytes behind them.
fn elf(big: bool, headers: &[(u32, u32, u32, u32)], bytes: &[u8]) -> Vec<u8> {
    let mut file = vec![0x7F, 0x45, 0x4C, 0x46, 1, if big { 2 } else { 1 }, 1];
    file.resize(16, 0);
    file.extend(half(big, 2));
    file.extend(half(big, 44));
    file.extend(word(big, 1));
    file.extend(word(big, 0));
    file.extend(word(big, if headers.is_empty() { 0 } else { 52 }));
    file.extend(word(big, 0));
    file.extend(word(big, 0));
    file.extend(half(big, 52));
    file.extend(half(big, 32));
    file.extend(half(big, headers.len() as u16));
    file.extend(half(big, 40));
    file.extend(half(big, 0));
    file.extend(half(big, 0));
    assert_eq!(file.len(), 52);
    let end = 52 + 32 * headers.len() as u32;
    for (p_type, offset, paddr, size) in headers {
        for value in [*p_type, end + *offset, 0, *paddr, *size, *size, 5, 4] {
            file.extend(word(big, value));
        }
    }
    file.extend(bytes);
    file
}

fn header(p_type: u32, p_paddr: u64, p_filesz: u64) -> ProgramHeader {
    ProgramHeader {
        p_type,
        p_offset: 0,
        p_vaddr: 0,
        p_paddr,
        p_filesz,
        p_memsz: p_filesz,
        p_flags: 0,
        p_align: 0,
    }
}

fn data(offset: u16, value: &[u8]) -> Record {
    Record::Data { offset, value: value.to_vec() }
}

#[test]
fn small_segment_has_the_expected_text() {
    let file = elf(false, &[(1, 0, 0x8000_0000, 3)], &[1, 2, 3]);
    let expected = ":0200000480007A\n:03000000010203F7\n:00000001FF\n";
    assert_eq!(elf_to_hex(&file).unwrap(), expected);
    assert_eq!(try_elf_to_hex(&file).unwrap().unwrap(), expected);
}

#[test]
fn full_data_record_has_the_expected_text() {
    let bytes: Vec<u8> = (0..16).collect();
    let file = elf(false, &[(1, 0, 0xABCD_0010, 16)], &bytes);
    assert_eq!(
        elf_to_hex(&file).unwrap(),
        ":02000004ABCD82\n:10001000000102030405060708090A0B0C0D0E0F68\n:00000001FF\n"
    );
}

#[test]
fn big_endian_file_gives_the_same_text() {
    let little = elf(false, &[(1, 0, 0x8000_0000, 3)], &[1, 2, 3]);
    let big = elf(true, &[(1, 0, 0x8000_0000, 3)], &[1, 2, 3]);
    assert_ne!(little, big);
    assert_eq!(elf_to_hex(&little).unwrap(), elf_to_hex(&big).unwrap());
}

#[test]
fn file_without_segments_is_only_an_end() {
    assert_eq!(elf_to_hex(&elf(false, &[], &[])).unwrap(), ":00000001FF\n");
}

#[test]
fn other_and_empty_segments_are_skipped() {
    let file = elf(
        false,
        &[(4, 0, 0x100, 2), (1, 0, 0x200, 0), (1, 1, 0x300, 1), (0x6474_E551, 0, 0, 0)],
        &[0xAA, 0xBB],
    );
    assert_eq!(
        elf_to_hex(&file).unwrap(),
        ":020000040000FA\n:01030000BB41\n:00000001FF\n"
    );
}

#[test]
fn text_that_is_no_elf_file_is_refused() {
    let error = elf_to_hex(b"not an ELF file").unwrap_err();
    assert!(matches!(error, ElfToHexError::Parse(_)));
    assert_eq!(error.context(), "Cannot parse ELF file");
    assert!(matches!(elf_to_hex(&[]), Err(ElfToHexError::Parse(_))));
    let mut file = elf(false, &[(1, 0, 0, 1)], &[1]);
    file[0] = 0;
    assert!(matches!(elf_to_hex(&file), Err(ElfToHexError::Parse(_))));
    assert!(matches!(try_elf_to_hex(&file), Some(Err(ElfToHexError::Parse(_)))));
}

#[test]
fn failed_representation_is_described() {
    let error = ElfToHexError::Representation(ihex::WriterError::MissingEndOfFileRecord);
    assert_eq!(error.context(), "Cannot create Intel HEX representation");
}

#[test]
fn segment_outside_the_file_is_refused() {
    let file = elf(false, &[(1, 0, 0, 1), (1, 0, 0x10, 3)], &[1, 2]);
    let error = elf_to_hex(&file).unwrap_err();
    assert!(matches!(error, ElfToHexError::SegmentData(_)));
    assert_eq!(error.context(), "Cannot read ELF segment data");
}

#[test]
fn unreadable_segment_that_is_not_loaded_does_not_matter() {
    let file = elf(false, &[(4, 0, 0, 9), (1, 0, 0x10, 1)], &[0x7F]);
    assert_eq!(
        elf_to_hex(&file).unwrap(),
        ":020000040000FA\n:010010007F70\n:00000001FF\n"
    );
}

#[test]
fn address_past_the_end_is_not_converted() {
    let fits = elf(false, &[(1, 0, 0xFFFF_FFFE, 2)], &[1, 2]);
    assert_eq!(
        try_elf_to_hex(&fits).unwrap().unwrap(),
        ":02000004FFFFFC\n:02FFFE000102FE\n:00000001FF\n"
    );
    let overflows = elf(false, &[(1, 0, 0xFFFF_FFFE, 3)], &[1, 2, 3]);
    assert!(try_elf_to_hex(&overflows).is_none());
    assert!(!check_addresses(&read_segments(&overflows).unwrap()));
}

#[test]
fn unreadable_segment_comes_before_a_later_overflow() {
    let file = elf(false, &[(1, 0, 0, 9), (1, 0, 0xFFFF_FFFE, 3)], &[1, 2, 3]);
    assert!(matches!(try_elf_to_hex(&file), Some(Err(ElfToHexError::SegmentData(_)))));
}

#[test]
fn segments_are_read_with_their_headers() {
    let file = elf(false, &[(1, 1, 0x8000_0000, 2), (4, 0, 0x20, 99)], &[1, 2, 3]);
    let segments = read_segments(&file).unwrap();
    assert_eq!(segments.len(), 2);
    assert_eq!(
        segments[0].header,
        ProgramHeader {
            p_type: 1,
            p_offset: 52 + 64 + 1,
            p_vaddr: 0,
            p_paddr: 0x8000_0000,
            p_filesz: 2,
            p_memsz: 2,
            p_flags: 5,
            p_align: 4,
        }
    );
    assert_eq!(*segments[0].data.as_ref().unwrap(), [2, 3]);
    assert_eq!(segments[1].header.p_type, 4);
    assert!(segments[1].data.is_err());
}

#[test]
fn segment_type_is_that_of_the_elf_crate() {
    assert_eq!(PT_LOAD, elf::abi::PT_LOAD);
}

#[test]
fn segment_is_cut_at_sixteen_bytes_and_at_the_page() {
    let bytes: Vec<u8> = (0..40).collect();
    let mut records = Vec::new();
    let mut upper = None;
    append_segment(&mut records, &mut upper, 0x1234_FFEC, &bytes);
    let expected = vec![
        Record::ExtendedLinearAddress(0x1234),
        data(0xFFEC, &bytes[0..16]),
        data(0xFFFC, &bytes[16..20]),
        Record::ExtendedLinearAddress(0x1235),
        data(0x0000, &bytes[20..36]),
        data(0x0010, &bytes[36..40]),
    ];
    assert_eq!(records, expected);
    assert_eq!(upper, Some(0x1235));
}

#[test]
fn upper_half_is_named_only_where_it_changes() {
    let mut records = Vec::new();
    let mut upper = None;
    append_segment(&mut records, &mut upper, 0x8000_0000, &[1]);
    append_segment(&mut records, &mut upper, 0x8000_0100, &[2]);
    append_segment(&mut records, &mut upper, 0xA000_0000, &[]);
    assert_eq!(upper, Some(0x8000));
    append_segment(&mut records, &mut upper, 0x9000_0000, &[3]);
    append_segment(&mut records, &mut upper, 0x8000_0200, &[4]);
    let expected = vec![
        Record::ExtendedLinearAddress(0x8000),
        data(0x0000, &[1]),
        data(0x0100, &[2]),
        Record::ExtendedLinearAddress(0x9000),
        data(0x0000, &[3]),
        Record::ExtendedLinearAddress(0x8000),
        data(0x0200, &[4]),
    ];
    assert_eq!(records, expected);
}

#[test]
fn address_above_32_bits_is_cut() {
    let mut records = Vec::new();
    let mut upper = None;
    append_segment(&mut records, &mut upper, 0x7_8000_0004, &[9]);
    assert_eq!(records, vec![Record::ExtendedLinearAddress(0x8000), data(0x0004, &[9])]);
}

#[test]
fn records_end_with_the_end_of_file() {
    let bytes = [1, 2, 3];
    let segments = vec![
        Segment { header: header(PT_LOAD, 0x10, 3), data: Ok(&bytes[..]) },
        Segment { header: header(2, 0x20, 3), data: Ok(&bytes[..]) },
        Segment { header: header(PT_LOAD, 0x30, 0), data: Ok(&bytes[..0]) },
        Segment { header: header(2, 0x40, 3), data: Err(elf::ParseError::IntegerOverflow) },
    ];
    assert!(check_addresses(&segments));
    assert_eq!(
        build_records(segments).unwrap(),
        vec![Record::ExtendedLinearAddress(0), data(0x10, &[1, 2, 3]), Record::EndOfFile]
    );
}

#[test]
fn first_unreadable_segment_gives_the_error() {
    let bytes = [1];
    let segments = vec![
        Segment { header: header(PT_LOAD, 0x10, 1), data: Ok(&bytes[..]) },
        Segment { header: header(PT_LOAD, 0x20, 1), data: Err(elf::ParseError::BadOffset(7)) },
        Segment { header: header(PT_LOAD, 0x30, 1), data: Err(elf::ParseError::BadOffset(8)) },
    ];
    assert!(matches!(
        build_records(segments),
        Err(ElfToHexError::SegmentData(elf::ParseError::BadOffset(7)))
    ));
}

#[test]
fn reader_of_the_text_finds_the_program() {
    let bytes: Vec<u8> = (0..100).map(|i| (i * 3 + 1) as u8).collect();
    let file = elf(
        false,
        &[(1, 0, 0x7FFF_FFF0, 60), (1, 60, 0x8000_0100, 30), (1, 90, 0x1000, 10)],
        &bytes,
    );
    let text = elf_to_hex(&file).unwrap();
    let mut memory: Vec<(u32, u8)> = Vec::new();
    let mut upper: u32 = 0;
    let mut ended = false;
    for record in ihex::Reader::new(&text) {
        assert!(!ended);
        match record.unwrap() {
            ihex::Record::Data { offset, value } => {
                assert!(value.len() <= 16);
                for (i, byte) in value.iter().enumerate() {
                    memory.push(((upper << 16) + offset as u32 + i as u32, *byte));
                }
            }
            ihex::Record::ExtendedLinearAddress(next) => upper = next as u32,
            ihex::Record::EndOfFile => ended = true,
            _ => panic!("unexpected record"),
        }
    }
    assert!(ended);
    let mut expected: Vec<(u32, u8)> = Vec::new();
    for i in 0..60 {
        expected.push((0x7FFF_FFF0 + i as u32, bytes[i]));
    }
    for i in 0..30 {
        expected.push((0x8000_0100 + i as u32, bytes[60 + i]));
    }
    for i in 0..10 {
        expected.push((0x1000 + i as u32, bytes[90 + i]));
    }
    assert_eq!(memory, expected);
}
