use binwrite::BinWrite;
use sarc::envelope::{sniff, yaz0_is_safe, Envelope};
use sarc::layout::SfatEntry;
use sarc::order::sort_by_hash;
use sarc::parser::{get_string, parse_sfat, Error, SarcHeader as ReadHeader};
use sarc::writer::{SarcHeader as WriteHeader, SarcString, Sfat};
use sarc::{sfat_hash, Endian, SarcEntry, SarcFile};

#[test]
fn take_reads_both_byte_orders() {
    let data = [0x12, 0x34, 0x56, 0x78, 0x9A];
    assert_eq!(Endian::Big.take_u16(&data, 0), Some(0x1234));
    assert_eq!(Endian::Little.take_u16(&data, 0), Some(0x3412));
    assert_eq!(Endian::Big.take_u32(&data, 1), Some(0x3456_789A));
    assert_eq!(Endian::Little.take_u32(&data, 1), Some(0x9A78_5634));
}

#[test]
fn take_stops_at_the_end_of_the_buffer() {
    let data = [1, 2, 3, 4, 5];
    assert_eq!(Endian::Big.take_u16(&data, 3), Some(0x0405));
    assert_eq!(Endian::Big.take_u16(&data, 4), None);
    assert_eq!(Endian::Big.take_u16(&data, usize::MAX), None);
    assert_eq!(Endian::Little.take_u32(&data, 1), Some(0x0504_0302));
    assert_eq!(Endian::Little.take_u32(&data, 2), None);
    assert_eq!(Endian::Little.take_u32(&data, usize::MAX), None);
    assert_eq!(Endian::Big.take_u32(&[], 0), None);
}

#[test]
fn write_appends_in_both_byte_orders() {
    let mut out = vec![0xAA];
    Endian::Big.write_u16(&mut out, 0xFEFF);
    Endian::Little.write_u16(&mut out, 0xFEFF);
    Endian::Big.write_u32(&mut out, 0x0102_0304);
    Endian::Little.write_u32(&mut out, 0x0102_0304);
    assert_eq!(out, vec![0xAA, 0xFE, 0xFF, 0xFF, 0xFE, 1, 2, 3, 4, 4, 3, 2, 1]);
}

#[test]
fn fields_agree_with_nom() {
    type E<'a> = (&'a [u8], nom::error::ErrorKind);
    let data = [0xDE, 0xAD, 0xBE, 0xEF, 0x01];
    let (_, big) = nom::number::complete::be_u32::<E>(&data[..]).unwrap();
    let (_, little) = nom::number::complete::le_u32::<E>(&data[..]).unwrap();
    assert_eq!(Endian::Big.take_u32(&data, 0), Some(big));
    assert_eq!(Endian::Little.take_u32(&data, 0), Some(little));
    let (_, big) = nom::number::complete::be_u16::<E>(&data[3..]).unwrap();
    let (_, little) = nom::number::complete::le_u16::<E>(&data[3..]).unwrap();
    assert_eq!(Endian::Big.take_u16(&data, 3), Some(big));
    assert_eq!(Endian::Little.take_u16(&data, 3), Some(little));
    assert!(nom::number::complete::be_u32::<E>(&data[2..]).is_err());
    assert_eq!(Endian::Big.take_u32(&data, 2), None);
}

#[test]
fn fields_agree_with_binwrite() {
    for (ours, theirs) in
        [(Endian::Big, binwrite::Endian::Big), (Endian::Little, binwrite::Endian::Little)]
    {
        let mut options = binwrite::WriterOption::default();
        options.endian = theirs;
        let mut expected = Vec::new();
        0xFEFFu16.write_options(&mut expected, &options).unwrap();
        0x1234_5678u32.write_options(&mut expected, &options).unwrap();
        let mut out = Vec::new();
        ours.write_u16(&mut out, 0xFEFF);
        ours.write_u32(&mut out, 0x1234_5678);
        assert_eq!(out, expected);
    }
}

#[test]
fn mark_names_the_byte_order() {
    assert_eq!(Endian::from_mark(0xFEFF), Some(Endian::Big));
    assert_eq!(Endian::from_mark(0xFFFE), Some(Endian::Little));
    assert_eq!(Endian::from_mark(0), None);
    assert_eq!(Endian::from_mark(0xFEFE), None);
    assert_eq!(Endian::MARK, 0xFEFF);
}

#[test]
fn sort_is_by_hash_and_keeps_equal_hashes_in_order() {
    assert_eq!(sort_by_hash(&vec![]), Vec::<usize>::new());
    assert_eq!(sort_by_hash(&vec![7]), vec![0]);
    assert_eq!(sort_by_hash(&vec![3, 1, 2]), vec![1, 2, 0]);
    assert_eq!(sort_by_hash(&vec![5, 0, 5, 0, 5]), vec![1, 3, 0, 2, 4]);
    assert_eq!(sort_by_hash(&vec![u32::MAX, 0, u32::MAX]), vec![1, 0, 2]);
    let keys: Vec<u32> = (0..200u32).map(|i| (i * 7919) % 31).collect();
    let mut expected: Vec<usize> = (0..keys.len()).collect();
    expected.sort_by_key(|i| keys[*i]);
    assert_eq!(sort_by_hash(&keys), expected);
}

#[test]
fn table_order_of_an_archive() {
    let names = [Some("zz"), None, Some("a"), None];
    let files = names
        .iter()
        .map(|n| SarcEntry { name: n.map(String::from), data: vec![] })
        .collect();
    let archive = SarcFile { byte_order: Endian::Big, files };
    assert!(sfat_hash("a") < sfat_hash("zz"));
    assert_eq!(archive.table_order(), vec![1, 3, 2, 0]);
    assert_eq!(archive.files[0].hash(), sfat_hash("zz"));
    assert_eq!(archive.files[1].hash(), 0);
}

#[test]
fn name_record_is_terminated_and_padded() {
    for (name, expected) in [
        ("", &b"\0\0\0\0"[..]),
        ("a", &b"a\0\0\0"[..]),
        ("ab", &b"ab\0\0"[..]),
        ("abc", &b"abc\0"[..]),
        ("abcd", &b"abcd\0\0\0\0"[..]),
        ("é", &b"\xC3\xA9\0\0"[..]),
    ] {
        let mut out = vec![9u8];
        SarcString::from(name).write(&mut out);
        assert_eq!(&out[1..], expected, "name {:?}", name);
    }
}

#[test]
fn sections_and_their_offsets() {
    let files = vec![
        SarcEntry { name: Some("b".into()), data: vec![1; 3] },
        SarcEntry { name: None, data: vec![2; 0x2000] },
        SarcEntry { name: Some("abcde".into()), data: vec![3; 1] },
    ];
    let archive = SarcFile { byte_order: Endian::Little, files };
    let order = archive.table_order();
    assert_eq!(order, vec![1, 0, 2]);
    let (name_offsets, names) = archive.generate_string_section(&order);
    assert_eq!(names, b"b\0\0\0abcde\0\0\0".to_vec());
    assert_eq!(name_offsets, vec![0, 0, 4]);
    let (starts, data) = archive.generate_data_section(&order);
    assert_eq!(starts, vec![0, 0x2000, 0x4000]);
    assert_eq!(data.len(), 0x4001);
    assert!(data[..0x2000].iter().all(|b| *b == 2));
    assert_eq!(&data[0x2000..0x2003], &[1, 1, 1]);
    assert!(data[0x2003..0x4000].iter().all(|b| *b == 0));
    assert_eq!(data[0x4000], 3);
    let records = archive.get_sfat_entries(&order, &name_offsets, &starts, 0x2000);
    assert_eq!(records.len(), 3);
    assert_eq!(records[0].name_hash, 0);
    assert_eq!(records[0].name_table_offset, None);
    assert_eq!(records[0].file_range, (0x2000, 0x4000));
    assert_eq!(records[1].name_hash, sfat_hash("b"));
    assert_eq!(records[1].name_table_offset, Some(0));
    assert_eq!(records[1].file_range, (0x4000, 0x4003));
    assert_eq!(records[2].name_table_offset, Some(4));
    assert_eq!(records[2].file_range, (0x6000, 0x6001));
}

#[test]
fn record_packs_the_name_field() {
    let named = SfatEntry { name_hash: 1, name_table_offset: Some(0x44), file_range: (2, 3) };
    assert_eq!(named.packed_name(), 0x0100_0011);
    let plain = SfatEntry { name_hash: 0, name_table_offset: None, file_range: (0, 0) };
    assert_eq!(plain.packed_name(), 0);
    let mut out = Vec::new();
    named.write(Endian::Big, &mut out);
    assert_eq!(out, vec![0, 0, 0, 1, 1, 0, 0, 0x11, 0, 0, 0, 2, 0, 0, 0, 3]);
    let mut out = Vec::new();
    named.write(Endian::Little, &mut out);
    assert_eq!(out, vec![1, 0, 0, 0, 0x11, 0, 0, 1, 2, 0, 0, 0, 3, 0, 0, 0]);
}

#[test]
fn headers_are_written_field_by_field() {
    let mut out = Vec::new();
    WriteHeader { file_size: 0x0102_0304, data_offset: 0x2000 }.write(Endian::Big, &mut out);
    assert_eq!(
        out,
        vec![b'S', b'A', b'R', b'C', 0, 0x14, 0xFE, 0xFF, 1, 2, 3, 4, 0, 0, 0x20, 0, 0, 0, 0, 0]
    );
    let mut out = Vec::new();
    Sfat { entries: vec![] }.write(Endian::Little, &mut out);
    assert_eq!(out, vec![b'S', b'F', b'A', b'T', 0x0C, 0, 0, 0, 0x65, 0, 0, 0]);
}

#[test]
fn header_is_read_field_by_field() {
    let mut bytes = b"SARC".to_vec();
    bytes.extend_from_slice(&[0x14, 0x00, 0xFF, 0xFE]);
    bytes.extend_from_slice(&0x1111u32.to_le_bytes());
    bytes.extend_from_slice(&0x2222u32.to_le_bytes());
    bytes.extend_from_slice(&[0; 4]);
    let header = ReadHeader::parse(&bytes).unwrap();
    assert_eq!(header.byte_order, Endian::Little);
    assert_eq!(header.file_size, 0x1111);
    assert_eq!(header.data_offset, 0x2222);
    let as_big = ReadHeader::parse_endian(&bytes, Endian::Big).unwrap();
    assert_eq!(as_big.file_size, 0x1111_0000);
    assert!(matches!(ReadHeader::parse_endian(&bytes[..19], Endian::Big), Err(Error::ParseError)));
    assert!(matches!(ReadHeader::parse(&bytes[..19]), Err(Error::ParseError)));
    assert!(matches!(ReadHeader::parse(&bytes[..7]), Err(Error::ParseError)));
    bytes[7] = 0xFF;
    assert!(matches!(ReadHeader::parse(&bytes), Err(Error::InvalidByteOrderMark)));
    bytes[0] = b'X';
    assert!(matches!(ReadHeader::parse(&bytes), Err(Error::BadMagic)));
}

#[test]
fn file_table_is_read_record_by_record() {
    let mut bytes = vec![0xEE; 3];
    bytes.extend_from_slice(b"SFAT");
    bytes.extend_from_slice(&[0x00, 0x0C, 0x00, 0x02]);
    bytes.extend_from_slice(&0x65u32.to_be_bytes());
    for (hash, attrs, start, end) in
        [(5u32, 0u32, 0x10u32, 0x20u32), (9, 0x0100_0003, 0x20, 0x21)]
    {
        for field in [hash, attrs, start, end] {
            bytes.extend_from_slice(&field.to_be_bytes());
        }
    }
    let nodes = parse_sfat(Endian::Big, &bytes, 3).unwrap();
    assert_eq!(nodes.len(), 2);
    assert_eq!(nodes[0].name_hash, 5);
    assert_eq!(nodes[0].name_offset, None);
    assert_eq!(nodes[0].file_range, (0x10, 0x20));
    assert_eq!(nodes[1].name_hash, 9);
    assert_eq!(nodes[1].name_offset, Some(3));
    assert_eq!(nodes[1].file_range, (0x20, 0x21));
    let short = bytes.len() - 1;
    assert!(matches!(parse_sfat(Endian::Big, &bytes[..short], 3), Err(Error::ParseError)));
    assert!(matches!(parse_sfat(Endian::Big, &bytes, 4), Err(Error::BadMagic)));
    assert!(matches!(parse_sfat(Endian::Big, &bytes, bytes.len()), Err(Error::ParseError)));
    assert!(matches!(parse_sfat(Endian::Big, &bytes, usize::MAX), Err(Error::ParseError)));
    // In the other byte order the count is 0x0200, for which the buffer is too short.
    assert!(matches!(parse_sfat(Endian::Little, &bytes, 3), Err(Error::ParseError)));
}

#[test]
fn name_field_keeps_only_sixteen_bits_of_offset() {
    let mut bytes = b"SFAT".to_vec();
    bytes.extend_from_slice(&[0x0C, 0x00, 0x01, 0x00]);
    bytes.extend_from_slice(&0x65u32.to_le_bytes());
    for field in [1u32, 0x01FE_1234, 0, 0] {
        bytes.extend_from_slice(&field.to_le_bytes());
    }
    let nodes = parse_sfat(Endian::Little, &bytes, 0).unwrap();
    assert_eq!(nodes[0].name_offset, Some(0x1234));
}

#[test]
fn names_end_at_the_first_zero() {
    let table = b"abc\0de\0\0\xFFx\0tail";
    assert_eq!(get_string(table, 0).as_deref(), Some("abc"));
    assert_eq!(get_string(table, 1).as_deref(), Some("bc"));
    assert_eq!(get_string(table, 3).as_deref(), Some(""));
    assert_eq!(get_string(table, 4).as_deref(), Some("de"));
    assert_eq!(get_string(table, 8), None);
    assert_eq!(get_string(table, 11), None);
    assert_eq!(get_string(table, table.len()), None);
    assert_eq!(get_string(table, table.len() + 5), None);
    assert_eq!(get_string("héllo\0".as_bytes(), 0).as_deref(), Some("héllo"));
}

#[test]
fn envelopes_are_told_by_four_bytes() {
    assert_eq!(sniff(b"Yaz0rest"), Envelope::Yaz0);
    assert_eq!(sniff(&[0x28, 0xB5, 0x2F, 0xFD]), Envelope::Zstd);
    assert_eq!(sniff(b"SARC"), Envelope::Plain);
    assert_eq!(sniff(b"Yaz1"), Envelope::Plain);
    assert_eq!(sniff(b"Yaz"), Envelope::Plain);
    assert_eq!(sniff(b""), Envelope::Plain);
    assert_eq!(sniff(&[0x28, 0xB5, 0x2F, 0xFE, 0]), Envelope::Plain);
}

fn yaz0(size: u32, operations: &[u8]) -> Vec<u8> {
    let mut stream = b"Yaz0".to_vec();
    stream.extend_from_slice(&size.to_be_bytes());
    stream.extend_from_slice(&[0; 8]);
    stream.extend_from_slice(operations);
    stream
}

#[test]
fn yaz0_walk_accepts_well_formed_streams() {
    assert!(yaz0_is_safe(b"Yaz0"));
    assert!(yaz0_is_safe(&yaz0(0, &[])));
    assert!(yaz0_is_safe(&yaz0(3, &[0xE0, 1, 2, 3])));
    // one literal, then a copy of 0x12 + 0x0B bytes from one byte back
    assert!(yaz0_is_safe(&yaz0(30, &[0x80, 0, 0, 0, 11])));
    // a stream that ends early is left to the decompressor
    assert!(yaz0_is_safe(&yaz0(30, &[0x80, 0, 0, 0])));
    assert!(yaz0_is_safe(&yaz0(30, &[])));
    // two literals, then a short copy of 3 bytes from two bytes back
    assert!(yaz0_is_safe(&yaz0(5, &[0xC0, 7, 8, 0x10, 0x01])));
}

#[test]
fn yaz0_walk_refuses_copies_out_of_bounds() {
    // a copy before anything was written
    assert!(!yaz0_is_safe(&yaz0(30, &[0x00, 0x10, 0x00])));
    // one literal, then a copy from two bytes back
    assert!(!yaz0_is_safe(&yaz0(30, &[0x80, 0, 0x10, 0x01])));
    // one literal, then a copy of 29 bytes into what is left of 29
    assert!(yaz0_is_safe(&yaz0(30, &[0x80, 0, 0, 0, 11])));
    assert!(!yaz0_is_safe(&yaz0(29, &[0x80, 0, 0, 0, 11])));
    // two literals, then a short copy of 3 bytes into what is left of 2
    assert!(!yaz0_is_safe(&yaz0(4, &[0xC0, 7, 8, 0x10, 0x01])));
}

#[test]
fn yaz0_streams_accepted_by_the_walk_decompress_without_panic() {
    for stream in [
        yaz0(3, &[0xE0, 1, 2, 3]),
        yaz0(30, &[0x80, 0, 0, 0, 11]),
        yaz0(5, &[0xC0, 7, 8, 0x10, 0x01]),
        yaz0(30, &[0x80, 0, 0, 0]),
    ] {
        assert!(yaz0_is_safe(&stream));
        // not an archive, so an error, but none from a panic
        assert!(SarcFile::read(&stream).is_err());
    }
}
