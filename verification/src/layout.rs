//! The byte layout of an archive: header, file table, name table and data
//! section, as functions of the entries in table order.
use crate::bytes::{u16_bytes, u32_bytes};
use crate::order::table_order;
use crate::{name_hash, Archive, Endian, Entry};
use vstd::prelude::*;
use vstd::utf8::encode_utf8;

verus! {

/// Size of the archive header.
pub const HEADER_SIZE: usize = 0x14;

/// Size of the sub-header of the file table.
pub const SFAT_HEADER_SIZE: usize = 0xC;

/// Size of one record of the file table.
pub const SFAT_ENTRY_SIZE: usize = 0x10;

/// Size of the sub-header of the name table.
pub const SFNT_HEADER_SIZE: usize = 8;

/// Every payload, and the data section itself, starts at a multiple of this.
pub const ALIGNMENT: usize = 0x2000;

/// Names start at multiples of this within the name table.
pub const NAME_ALIGNMENT: usize = 4;

/// The bit of a record's name field that says that the entry has a name.
pub const HAS_NAME: u32 = 0x0100_0000;

/// The magic of the archive header, `SARC`.
pub open spec fn sarc_magic() -> Seq<u8> {
    seq![0x53u8, 0x41u8, 0x52u8, 0x43u8]
}

/// The magic of the file table, `SFAT`.
pub open spec fn sfat_magic() -> Seq<u8> {
    seq![0x53u8, 0x46u8, 0x41u8, 0x54u8]
}

/// The magic of the name table, `SFNT`.
pub open spec fn sfnt_magic() -> Seq<u8> {
    seq![0x53u8, 0x46u8, 0x4Eu8, 0x54u8]
}

/// `count` zero bytes.
pub open spec fn zeros(count: int) -> Seq<u8> {
    Seq::new(count as nat, |i: int| 0u8)
}

/// The number of bytes that bring a length up to the next multiple of `unit`.
pub open spec fn padding_to(len: int, unit: int) -> int {
    (unit - len % unit) % unit
}

/// The low 32 bits of a size or offset, which is what a 32-bit field holds.
pub open spec fn low32(value: int) -> u32 {
    (value % 0x1_0000_0000) as u32
}

/// The low 16 bits of a count, which is what a 16-bit field holds.
pub open spec fn low16(value: int) -> u16 {
    (value % 0x1_0000) as u16
}

/// The hash under which an entry is filed: that of its name, or zero.
pub open spec fn entry_hash(entry: Entry) -> u32 {
    match entry.name {
        Some(name) => name_hash(name),
        None => 0,
    }
}

/// The hashes of the entries, in the caller's order.
pub open spec fn entry_hashes(files: Seq<Entry>) -> Seq<u32> {
    files.map_values(|e: Entry| entry_hash(e))
}

/// The entries in the order of the file table.
pub open spec fn in_table_order(files: Seq<Entry>) -> Seq<Entry> {
    table_order(entry_hashes(files)).map_values(|i: int| files[i])
}

/// One name as the name table holds it: its UTF-8 bytes, a zero byte, and
/// zeros up to the next multiple of four.
pub open spec fn name_record(name: Seq<char>) -> Seq<u8> {
    let text = encode_utf8(name).push(0u8);
    text + zeros(padding_to(text.len() as int, 4))
}

/// What an entry adds to the name table.
pub open spec fn entry_name_record(entry: Entry) -> Seq<u8> {
    match entry.name {
        Some(name) => name_record(name),
        None => Seq::empty(),
    }
}

/// The name table of the given entries: the records of the named ones, in
/// order.
pub open spec fn name_table(entries: Seq<Entry>) -> Seq<u8>
    decreases entries.len(),
{
    if entries.len() == 0 {
        Seq::empty()
    } else {
        name_table(entries.drop_last()) + entry_name_record(entries.last())
    }
}

/// Where the name record of entry `k` starts within the name table.
pub open spec fn name_offset(entries: Seq<Entry>, k: int) -> int {
    name_table(entries.take(k)).len() as int
}

/// The data section of the given entries: each payload behind zeros that
/// bring its start to a multiple of the alignment.
pub open spec fn data_section(entries: Seq<Entry>) -> Seq<u8>
    decreases entries.len(),
{
    if entries.len() == 0 {
        Seq::empty()
    } else {
        let before = data_section(entries.drop_last());
        before + zeros(padding_to(before.len() as int, 0x2000)) + entries.last().data
    }
}

/// Where the payload of entry `k` starts within the data section.
pub open spec fn data_start(entries: Seq<Entry>, k: int) -> int {
    let before = data_section(entries.take(k)).len() as int;
    before + padding_to(before, 0x2000)
}

/// One record of the file table, before its fields are packed.
pub struct SfatEntry {
    /// Hash of the entry's name, zero without a name.
    pub name_hash: u32,
    /// Byte offset of the name within the name table, for a named entry.
    pub name_table_offset: Option<u32>,
    /// Start and end of the payload, counted from the start of the archive.
    pub file_range: (u32, u32),
}

/// The record of entry `k`, where the data section starts at `data_offset`.
pub open spec fn sfat_entry(entries: Seq<Entry>, data_offset: int, k: int) -> SfatEntry {
    let start = data_offset + data_start(entries, k);
    SfatEntry {
        name_hash: entry_hash(entries[k]),
        name_table_offset: match entries[k].name {
            Some(_) => Some(low32(name_offset(entries, k))),
            None => None,
        },
        file_range: (low32(start), low32(start + entries[k].data.len())),
    }
}

/// The name field of a record: the word offset of the name with the
/// has-name bit set, or zero for an entry without a name.
pub open spec fn name_field(name_table_offset: Option<u32>) -> u32 {
    match name_table_offset {
        Some(offset) => (offset / 4) | HAS_NAME,
        None => 0,
    }
}

/// The sixteen bytes of a record.
pub open spec fn sfat_entry_bytes(order: Endian, entry: SfatEntry) -> Seq<u8> {
    u32_bytes(order, entry.name_hash) + u32_bytes(order, name_field(entry.name_table_offset))
        + u32_bytes(order, entry.file_range.0) + u32_bytes(order, entry.file_range.1)
}

/// The bytes of the first `count` of the given records.
pub open spec fn sfat_entries_bytes(order: Endian, records: Seq<SfatEntry>, count: int) -> Seq<u8>
    decreases count,
{
    if count <= 0 {
        Seq::empty()
    } else {
        sfat_entries_bytes(order, records, count - 1) + sfat_entry_bytes(order, records[count - 1])
    }
}

/// The records of all the entries.
pub open spec fn sfat_entries(entries: Seq<Entry>, data_offset: int) -> Seq<SfatEntry> {
    Seq::new(entries.len(), |k: int| sfat_entry(entries, data_offset, k))
}

/// The archive header.
pub open spec fn header_bytes(order: Endian, file_size: int, data_offset: int) -> Seq<u8> {
    sarc_magic() + u16_bytes(order, 0x14) + u16_bytes(order, 0xFEFF) + u32_bytes(
        order,
        low32(file_size),
    ) + u32_bytes(order, low32(data_offset)) + u32_bytes(order, 0)
}

/// The sub-header of the file table.
pub open spec fn sfat_header_bytes(order: Endian, count: int) -> Seq<u8> {
    sfat_magic() + u16_bytes(order, 0xC) + u16_bytes(order, low16(count)) + u32_bytes(order, 0x65)
}

/// The sub-header of the name table.
pub open spec fn sfnt_header_bytes(order: Endian) -> Seq<u8> {
    sfnt_magic() + u16_bytes(order, 8) + u16_bytes(order, 0)
}

/// Where the name table ends, which is where the padding before the data
/// section begins.
pub open spec fn tables_end(entries: Seq<Entry>) -> int {
    0x14 + 0xC + 0x10 * (entries.len() as int) + 8 + (name_table(entries).len() as int)
}

/// Where the data section begins: the end of the name table, brought up to a
/// multiple of the alignment.
pub open spec fn data_offset(entries: Seq<Entry>) -> int {
    tables_end(entries) + padding_to(tables_end(entries), 0x2000)
}

/// The serialised archive.
#[verifier::opaque]
pub open spec fn archive_bytes(archive: Archive) -> Seq<u8> {
    let order = archive.byte_order;
    let entries = in_table_order(archive.files);
    let base = data_offset(entries);
    let data = data_section(entries);
    header_bytes(order, base + data.len(), base) + sfat_header_bytes(order, entries.len() as int)
        + sfat_entries_bytes(order, sfat_entries(entries, base), entries.len() as int)
        + sfnt_header_bytes(order) + name_table(entries) + zeros(
        padding_to(tables_end(entries), 0x2000),
    ) + data
}

/// Whether a name is free of the character with code zero, which would end
/// it early in the name table.
pub open spec fn has_no_nul(name: Seq<char>) -> bool {
    forall|i: int| 0 <= i < name.len() ==> #[trigger] name[i] as u32 != 0
}

/// Whether an archive fits the format: its count and its offsets fit their
/// fields, and no name holds the character that ends a name.
pub open spec fn representable(archive: Archive) -> bool {
    let entries = in_table_order(archive.files);
    &&& archive.files.len() <= 0xFFFF
    &&& forall|k: int|
        0 <= k < archive.files.len() ==> ((#[trigger] archive.files[k]).name matches Some(name)
            ==> has_no_nul(name))
    &&& forall|k: int|
        0 <= k < entries.len() ==> ((#[trigger] entries[k]).name is Some ==> name_offset(
            entries,
            k,
        ) < 0x4_0000)
    &&& data_offset(entries) + data_section(entries).len() <= 0xFFFF_FFFF
}

} // verus!
