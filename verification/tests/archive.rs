use sarc::envelope::{Collaborators, Compression};
use sarc::parser::Error;
use sarc::{sfat_hash, Endian, SarcEntry, SarcFile};

fn entry(name: Option<&str>, data: &[u8]) -> SarcEntry {
    SarcEntry { name: name.map(String::from), data: data.to_vec() }
}

fn sample(byte_order: Endian) -> SarcFile {
    SarcFile {
        byte_order,
        files: vec![entry(Some("a.txt"), &[1, 2, 3]), entry(None, &[])],
    }
}

fn u32_le(bytes: &[u8], at: usize) -> u32 {
    u32::from_le_bytes([bytes[at], bytes[at + 1], bytes[at + 2], bytes[at + 3]])
}

fn u32_be(bytes: &[u8], at: usize) -> u32 {
    u32::from_be_bytes([bytes[at], bytes[at + 1], bytes[at + 2], bytes[at + 3]])
}

#[test]
fn hash_of_empty_string_is_zero() {
    assert_eq!(sfat_hash(""), 0);
}

#[test]
fn hash_of_short_strings() {
    assert_eq!(sfat_hash("a"), 97);
    assert_eq!(sfat_hash("ab"), 97 * 101 + 98);
    assert_eq!(sfat_hash("a.txt"), 0x5C89_7AA7);
}

#[test]
fn hash_wraps_around() {
    let name = "Model/Animal_Fish_A.bfres";
    let mut expected: u64 = 0;
    for c in name.chars() {
        expected = (expected * 101 + c as u64) % (1 << 32);
    }
    assert!(name.len() > 5);
    assert_eq!(sfat_hash(name) as u64, expected);
}

#[test]
fn hash_uses_code_points_not_bytes() {
    assert_eq!(sfat_hash("é"), 0xE9);
    assert_eq!(sfat_hash("aé"), 97 * 101 + 0xE9);
}

#[test]
fn equal_strings_hash_equal() {
    let one = String::from("readme.md");
    let other = ["readme", ".md"].concat();
    assert_eq!(sfat_hash(&one), sfat_hash(&other));
}

#[test]
fn written_scenario_reads_back() {
    let archive = sample(Endian::Little);
    let bytes = archive.write();
    let back = SarcFile::read(&bytes).unwrap();
    assert_eq!(back.byte_order, Endian::Little);
    assert_eq!(back.files.len(), 2);
    // The entry without a name has hash zero and comes first in the table.
    assert_eq!(back.files[0], entry(None, &[]));
    assert_eq!(back.files[1], entry(Some("a.txt"), &[1, 2, 3]));
    assert_eq!(u32_le(&bytes, 0x20), 0);
    assert_eq!(u32_le(&bytes, 0x30), sfat_hash("a.txt"));
    assert!(u32_le(&bytes, 0x20) <= u32_le(&bytes, 0x30));
}

#[test]
fn written_scenario_has_the_exact_bytes() {
    let bytes = sample(Endian::Little).write();
    let mut expected: Vec<u8> = Vec::new();
    // header
    expected.extend_from_slice(b"SARC");
    expected.extend_from_slice(&[0x14, 0x00, 0xFF, 0xFE]);
    expected.extend_from_slice(&0x2003u32.to_le_bytes());
    expected.extend_from_slice(&0x2000u32.to_le_bytes());
    expected.extend_from_slice(&[0, 0, 0, 0]);
    // file table
    expected.extend_from_slice(b"SFAT");
    expected.extend_from_slice(&[0x0C, 0x00, 0x02, 0x00]);
    expected.extend_from_slice(&0x65u32.to_le_bytes());
    expected.extend_from_slice(&0u32.to_le_bytes());
    expected.extend_from_slice(&0u32.to_le_bytes());
    expected.extend_from_slice(&0x2000u32.to_le_bytes());
    expected.extend_from_slice(&0x2000u32.to_le_bytes());
    expected.extend_from_slice(&sfat_hash("a.txt").to_le_bytes());
    expected.extend_from_slice(&0x0100_0000u32.to_le_bytes());
    expected.extend_from_slice(&0x2000u32.to_le_bytes());
    expected.extend_from_slice(&0x2003u32.to_le_bytes());
    // name table
    expected.extend_from_slice(b"SFNT");
    expected.extend_from_slice(&[0x08, 0x00, 0x00, 0x00]);
    expected.extend_from_slice(b"a.txt\0\0\0");
    // padding up to the data section, an empty payload, a payload
    expected.resize(0x2000, 0);
    expected.extend_from_slice(&[1, 2, 3]);
    assert_eq!(bytes, expected);
}

#[test]
fn big_endian_header_and_table() {
    let bytes = sample(Endian::Big).write();
    assert_eq!(&bytes[0..4], b"SARC");
    assert_eq!(&bytes[4..8], &[0x00, 0x14, 0xFE, 0xFF]);
    assert_eq!(u32_be(&bytes, 8), 0x2003);
    assert_eq!(u32_be(&bytes, 12), 0x2000);
    assert_eq!(&bytes[0x14..0x18], b"SFAT");
    assert_eq!(&bytes[0x18..0x1C], &[0x00, 0x0C, 0x00, 0x02]);
    assert_eq!(u32_be(&bytes, 0x1C), 0x65);
    assert_eq!(u32_be(&bytes, 0x34), 0x0100_0000);
    let back = SarcFile::read(&bytes).unwrap();
    assert_eq!(back.byte_order, Endian::Big);
    assert_eq!(back.files, vec![entry(None, &[]), entry(Some("a.txt"), &[1, 2, 3])]);
}

#[test]
fn byte_orders_differ_only_in_their_fields() {
    let big = sample(Endian::Big).write();
    let little = sample(Endian::Little).write();
    assert_eq!(big.len(), little.len());
    let tables_end = 0x14 + 0xC + 2 * 0x10 + 8;
    assert_eq!(&big[tables_end..], &little[tables_end..]);
    assert_eq!(&big[0..4], &little[0..4]);
    for at in [4usize, 6, 0x18, 0x1A, tables_end - 4, tables_end - 2] {
        assert_eq!(big[at], little[at + 1]);
        assert_eq!(big[at + 1], little[at]);
    }
    let mut words = vec![8usize, 12, 16, 0x1C];
    for record in 0..2 {
        for field in 0..4 {
            words.push(0x20 + 0x10 * record + 4 * field);
        }
    }
    for at in words {
        assert_eq!(u32_be(&big, at), u32_le(&little, at));
    }
    let from_big = SarcFile::read(&big).unwrap();
    let from_little = SarcFile::read(&little).unwrap();
    assert_eq!(from_big.files, from_little.files);
}

#[test]
fn empty_archive_round_trips() {
    let archive = SarcFile { byte_order: Endian::Big, files: vec![] };
    let bytes = archive.write();
    assert_eq!(bytes.len(), 0x2000);
    assert_eq!(u32_be(&bytes, 8), 0x2000);
    assert_eq!(u32_be(&bytes, 12), 0x2000);
    assert_eq!(&bytes[0x18..0x1C], &[0x00, 0x0C, 0x00, 0x00]);
    assert!(bytes[0x28..].iter().all(|b| *b == 0));
    let back = SarcFile::read(&bytes).unwrap();
    assert_eq!(back, archive);
}

#[test]
fn empty_payload_has_equal_start_and_end() {
    let archive = SarcFile { byte_order: Endian::Little, files: vec![entry(Some("empty"), &[])] };
    let bytes = archive.write();
    assert_eq!(u32_le(&bytes, 0x28), u32_le(&bytes, 0x2C));
    assert_eq!(SarcFile::read(&bytes).unwrap(), archive);
}

#[test]
fn table_is_sorted_by_hash_and_stable() {
    let names = ["zeta", "alpha", "mid/file.bin", "alpha", "b"];
    let files: Vec<SarcEntry> =
        names.iter().enumerate().map(|(i, n)| entry(Some(n), &[i as u8; 5])).collect();
    let archive = SarcFile { byte_order: Endian::Little, files: files.clone() };
    let bytes = archive.write();
    let mut hashes = Vec::new();
    for k in 0..names.len() {
        hashes.push(u32_le(&bytes, 0x20 + 0x10 * k));
    }
    let mut sorted = hashes.clone();
    sorted.sort();
    assert_eq!(hashes, sorted);
    let back = SarcFile::read(&bytes).unwrap();
    let mut expected = files;
    expected.sort_by_key(|f| sfat_hash(f.name.as_deref().unwrap()));
    assert_eq!(back.files, expected);
    // The two entries named alpha keep their order: payloads 1 then 3.
    let alphas: Vec<u8> =
        back.files.iter().filter(|f| f.name.as_deref() == Some("alpha")).map(|f| f.data[0]).collect();
    assert_eq!(alphas, vec![1, 3]);
}

#[test]
fn every_payload_starts_aligned() {
    let files = vec![
        entry(Some("one"), &[7; 10]),
        entry(Some("two"), &[8; 0x2001]),
        entry(None, &[9; 1]),
        entry(Some("three"), &[]),
    ];
    let archive = SarcFile { byte_order: Endian::Big, files };
    let bytes = archive.write();
    for k in 0..4 {
        let start = u32_be(&bytes, 0x20 + 0x10 * k + 8);
        let end = u32_be(&bytes, 0x20 + 0x10 * k + 12);
        assert_eq!(start % 0x2000, 0);
        assert!(start <= end);
        assert!(end as usize <= bytes.len());
    }
    assert_eq!(u32_be(&bytes, 12) % 0x2000, 0);
    assert_eq!(u32_be(&bytes, 8) as usize, bytes.len());
    let back = SarcFile::read(&bytes).unwrap();
    assert_eq!(back.files.len(), 4);
    assert_eq!(back.files[0], entry(None, &[9; 1]));
}

#[test]
fn entries_of_equal_hash_keep_their_own_payloads() {
    let files = vec![entry(None, &[1, 1]), entry(None, &[2, 2, 2]), entry(Some(""), &[3])];
    let archive = SarcFile { byte_order: Endian::Little, files: files.clone() };
    let back = SarcFile::read(&archive.write()).unwrap();
    assert_eq!(back.files, files);
}

#[test]
fn names_are_padded_to_words() {
    let files = vec![entry(Some("abc"), &[]), entry(Some("abcd"), &[])];
    let archive = SarcFile { byte_order: Endian::Little, files };
    let bytes = archive.write();
    let names = 0x14 + 0xC + 2 * 0x10 + 8;
    assert_eq!(&bytes[names..names + 12], b"abc\0abcd\0\0\0\0");
    assert_eq!(u32_le(&bytes, 0x24), 0x0100_0000);
    assert_eq!(u32_le(&bytes, 0x34), 0x0100_0001);
}

#[test]
fn three_bytes_are_too_short() {
    assert!(matches!(SarcFile::read(&[0x53, 0x41, 0x52]), Err(Error::ParseError)));
    assert!(matches!(SarcFile::read(&[]), Err(Error::ParseError)));
    assert!(matches!(SarcFile::parse(&[0x53, 0x41, 0x52]), Err(Error::ParseError)));
}

#[test]
fn wrong_magic_is_reported() {
    let mut bytes = sample(Endian::Little).write();
    bytes[3] = b'X';
    assert!(matches!(SarcFile::read(&bytes), Err(Error::BadMagic)));
    let mut bytes = sample(Endian::Little).write();
    bytes[0x14] = b'X';
    assert!(matches!(SarcFile::read(&bytes), Err(Error::BadMagic)));
}

#[test]
fn wrong_byte_order_mark_is_reported() {
    let mut bytes = sample(Endian::Little).write();
    bytes[6] = 0x12;
    assert!(matches!(SarcFile::read(&bytes), Err(Error::InvalidByteOrderMark)));
}

#[test]
fn truncated_archives_are_reported() {
    let bytes = sample(Endian::Big).write();
    for len in [4usize, 7, 8, 19, 20, 23, 31, 32, 63, 64, 71] {
        assert!(matches!(SarcFile::read(&bytes[..len]), Err(Error::ParseError)), "length {}", len);
    }
    // With the tables whole, the payload that lies behind the end is missed.
    assert!(matches!(SarcFile::read(&bytes[..0x2002]), Err(Error::ParseError)));
    assert!(SarcFile::read(&bytes[..0x2003]).is_ok());
}

#[test]
fn payload_range_that_runs_backwards_is_reported() {
    let mut bytes = sample(Endian::Little).write();
    // start of the second record beyond its end
    bytes[0x38..0x3C].copy_from_slice(&0x2004u32.to_le_bytes());
    assert!(matches!(SarcFile::read(&bytes), Err(Error::ParseError)));
}

#[test]
fn unreadable_name_degrades_to_no_name() {
    let mut bytes = sample(Endian::Little).write();
    let names = 0x14 + 0xC + 2 * 0x10 + 8;
    bytes[names] = 0xFF;
    let back = SarcFile::read(&bytes).unwrap();
    assert_eq!(back.files[1], entry(None, &[1, 2, 3]));
}

#[test]
fn name_without_terminator_degrades_to_no_name() {
    let archive = SarcFile { byte_order: Endian::Little, files: vec![entry(Some("abc"), &[])] };
    let mut bytes = archive.write();
    for b in bytes[0x30..].iter_mut() {
        *b = b'x';
    }
    let back = SarcFile::read(&bytes).unwrap();
    assert_eq!(back.files[0].name, None);
}

#[test]
fn name_offset_is_counted_in_words() {
    let files = vec![entry(Some("abc"), &[1]), entry(Some("abcd"), &[2])];
    let archive = SarcFile { byte_order: Endian::Big, files };
    let mut bytes = archive.write();
    // point the first record at the second name
    bytes[0x24..0x28].copy_from_slice(&0x0100_0001u32.to_be_bytes());
    let back = SarcFile::read(&bytes).unwrap();
    assert_eq!(back.files[0].name.as_deref(), Some("abcd"));
    assert_eq!(back.files[1].name.as_deref(), Some("abcd"));
}

#[test]
fn entry_order_does_not_show_in_the_bytes() {
    let one = entry(Some("one"), &[1; 10]);
    let two = entry(Some("two"), &[2; 20]);
    let none = entry(None, &[3; 30]);
    let written: Vec<Vec<u8>> = [
        vec![one.clone(), two.clone(), none.clone()],
        vec![none.clone(), two.clone(), one.clone()],
        vec![two, none, one],
    ]
    .into_iter()
    .map(|files| SarcFile { byte_order: Endian::Big, files }.write())
    .collect();
    assert_eq!(written[0], written[1]);
    assert_eq!(written[0], written[2]);
}

#[test]
fn unsorted_table_is_read_in_its_own_order() {
    let files = vec![entry(Some("one"), &[1]), entry(Some("two"), &[2, 2])];
    let archive = SarcFile { byte_order: Endian::Little, files };
    let mut bytes = archive.write();
    let first: Vec<u8> = bytes[0x20..0x30].to_vec();
    let second: Vec<u8> = bytes[0x30..0x40].to_vec();
    bytes[0x20..0x30].copy_from_slice(&second);
    bytes[0x30..0x40].copy_from_slice(&first);
    assert!(u32_le(&bytes, 0x20) > u32_le(&bytes, 0x30));
    let back = SarcFile::read(&bytes).unwrap();
    let straight = SarcFile::read(&archive.write()).unwrap();
    assert_eq!(back.files[0], straight.files[1]);
    assert_eq!(back.files[1], straight.files[0]);
}

#[test]
fn payloads_need_not_lie_behind_the_data_offset() {
    // A record may point anywhere within the buffer: here at the magic.
    let archive = SarcFile { byte_order: Endian::Big, files: vec![entry(None, &[9; 4])] };
    let mut bytes = archive.write();
    bytes[0x28..0x2C].copy_from_slice(&0u32.to_be_bytes());
    bytes[0x2C..0x30].copy_from_slice(&4u32.to_be_bytes());
    let back = SarcFile::read(&bytes).unwrap();
    assert_eq!(back.files[0].data, b"SARC".to_vec());
}

#[test]
fn yaz0_round_trip() {
    let archive = sample(Endian::Big);
    let plain = archive.write();
    let compressed = archive.write_yaz0().unwrap();
    assert_eq!(&compressed[0..4], b"Yaz0");
    assert_eq!(u32_be(&compressed, 4) as usize, plain.len());
    assert_eq!(&compressed[8..16], &[0u8; 8]);
    assert!(compressed.len() < plain.len());
    let back = SarcFile::read(&compressed).unwrap();
    assert_eq!(back.files, vec![entry(None, &[]), entry(Some("a.txt"), &[1, 2, 3])]);
    assert_eq!(back.byte_order, Endian::Big);
}

#[test]
fn zstd_round_trip() {
    let archive = sample(Endian::Little);
    let compressed = archive.write_zstd().unwrap();
    assert_eq!(&compressed[0..4], &[0x28, 0xB5, 0x2F, 0xFD]);
    assert!(compressed.len() < archive.write().len());
    let back = SarcFile::read(&compressed).unwrap();
    assert_eq!(back.files, vec![entry(None, &[]), entry(Some("a.txt"), &[1, 2, 3])]);
}

#[test]
fn write_compressed_follows_the_scheme() {
    let archive = sample(Endian::Little);
    let yaz0 = archive.write_compressed(Compression::Yaz0).unwrap();
    assert_eq!(&yaz0[0..4], b"Yaz0");
    assert_eq!(SarcFile::read(&yaz0).unwrap().files.len(), 2);
    assert_eq!(archive.write_compressed(Compression::Zstd).unwrap(), archive.write_zstd().unwrap());
}

#[test]
fn compressed_stream_without_its_collaborator_is_refused() {
    let archive = sample(Endian::Little);
    let yaz0 = archive.write_yaz0().unwrap();
    let zstd = archive.write_zstd().unwrap();
    let none = Collaborators { yaz0: false, zstd: false };
    assert!(matches!(SarcFile::read_with(&yaz0, none), Err(Error::MissingCapability)));
    assert!(matches!(SarcFile::read_with(&zstd, none), Err(Error::MissingCapability)));
    let only_zstd = Collaborators { yaz0: false, zstd: true };
    assert!(matches!(SarcFile::read_with(&yaz0, only_zstd), Err(Error::MissingCapability)));
    assert!(SarcFile::read_with(&zstd, only_zstd).is_ok());
    assert!(SarcFile::read_with(&archive.write(), none).is_ok());
}

#[test]
fn truncated_yaz0_stream_is_a_compression_error() {
    let compressed = sample(Endian::Little).write_yaz0().unwrap();
    let cut = &compressed[..compressed.len() - 1];
    assert!(matches!(SarcFile::read(cut), Err(Error::CompressionError(_))));
    assert!(matches!(SarcFile::read(b"Yaz0\0\0"), Err(Error::CompressionError(_))));
}

#[test]
fn yaz0_stream_that_reaches_back_too_far_is_refused() {
    // One group whose first operation copies from before the start.
    let mut stream = b"Yaz0".to_vec();
    stream.extend_from_slice(&16u32.to_be_bytes());
    stream.extend_from_slice(&[0u8; 8]);
    stream.extend_from_slice(&[0x00, 0x10, 0x00]);
    assert!(matches!(SarcFile::read(&stream), Err(Error::ParseError)));
}

#[test]
fn yaz0_stream_that_overruns_its_size_is_refused() {
    // A literal, then a copy of 0x12 + 0xFF bytes into a two-byte output.
    let mut stream = b"Yaz0".to_vec();
    stream.extend_from_slice(&2u32.to_be_bytes());
    stream.extend_from_slice(&[0u8; 8]);
    stream.extend_from_slice(&[0x80, 0x41, 0x00, 0x00, 0xFF]);
    assert!(matches!(SarcFile::read(&stream), Err(Error::ParseError)));
}

#[test]
fn yaz0_stream_of_another_file_is_parsed_after_decompression() {
    // Three literals: not an archive, so the error comes from the parser.
    let mut stream = b"Yaz0".to_vec();
    stream.extend_from_slice(&3u32.to_be_bytes());
    stream.extend_from_slice(&[0u8; 8]);
    stream.extend_from_slice(&[0xE0, 1, 2, 3]);
    assert!(matches!(SarcFile::read(&stream), Err(Error::ParseError)));
    // Four literals that spell another magic.
    let mut stream = b"Yaz0".to_vec();
    stream.extend_from_slice(&4u32.to_be_bytes());
    stream.extend_from_slice(&[0u8; 8]);
    stream.extend_from_slice(&[0xF0, b'N', b'A', b'R', b'C']);
    assert!(matches!(SarcFile::read(&stream), Err(Error::BadMagic)));
}

#[test]
fn broken_zstd_frame_is_a_compression_error() {
    let bytes = [0x28, 0xB5, 0x2F, 0xFD, 0xFF, 0xFF, 0xFF, 0xFF, 0x00];
    assert!(matches!(SarcFile::read(&bytes), Err(Error::CompressionError(_))));
}
