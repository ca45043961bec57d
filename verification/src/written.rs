//! Where the parts of a written archive lie, and what a reader finds there.
use crate::bytes::{
    lemma_u16_at, lemma_u16_bytes_len, lemma_u32_at, lemma_u32_bytes_len, u16_at, u16_bytes,
    u32_at, u32_bytes,
};
use crate::layout::{
    archive_bytes, data_offset, data_section, data_start, entry_hashes, entry_name_record,
    has_no_nul, header_bytes, in_table_order, low16, low32, name_field, name_offset, name_record,
    name_table, padding_to, representable, sarc_magic, sfat_entries, sfat_entries_bytes,
    sfat_entry, sfat_entry_bytes, sfat_header_bytes, sfat_magic, sfnt_header_bytes, tables_end,
    zeros, SfatEntry,
};
use crate::order::{is_table_order, lemma_table_order, table_order};
use crate::parser::{
    byte_order_of, first_zero, header_of, name_at, name_offset_of, node_at, nodes_of, Error,
    SarcHeader, SfatNode,
};
use crate::{Archive, Endian, Entry};
use vstd::prelude::*;
use vstd::utf8::{
    encode_scalar, encode_utf8, has_width_1_encoding, is_scalar, last_continuation_byte,
    leading_byte_width_1, leading_byte_width_2, leading_byte_width_3, leading_byte_width_4,
    second_last_continuation_byte, third_last_continuation_byte,
};

verus! {

/// The sub-headers and records have their fixed sizes.
pub proof fn lemma_fixed_sizes(order: Endian)
    ensures
        forall|file_size: int, base: int| #[trigger]
            header_bytes(order, file_size, base).len() == 0x14,
        forall|count: int| #[trigger] sfat_header_bytes(order, count).len() == 0xC,
        forall|record: SfatEntry| #[trigger] sfat_entry_bytes(order, record).len() == 0x10,
        sfnt_header_bytes(order).len() == 8,
{
}

/// `count` records take sixteen bytes each.
pub proof fn lemma_records_len(order: Endian, records: Seq<SfatEntry>, count: int)
    requires
        0 <= count,
    ensures
        sfat_entries_bytes(order, records, count).len() == 0x10 * count,
    decreases count,
{
    if count > 0 {
        lemma_records_len(order, records, count - 1);
        lemma_fixed_sizes(order);
    }
}

/// Record `k` stands at sixteen times `k` within the records.
pub proof fn lemma_record_at(order: Endian, records: Seq<SfatEntry>, count: int, k: int)
    requires
        0 <= k < count,
    ensures
        sfat_entries_bytes(order, records, count).len() == 0x10 * count,
        sfat_entries_bytes(order, records, count).subrange(0x10 * k, 0x10 * k + 0x10)
            == sfat_entry_bytes(order, records[k]),
    decreases count,
{
    lemma_records_len(order, records, count);
    lemma_records_len(order, records, count - 1);
    lemma_fixed_sizes(order);
    let all = sfat_entries_bytes(order, records, count);
    let before = sfat_entries_bytes(order, records, count - 1);
    let last = sfat_entry_bytes(order, records[count - 1]);
    assert(all == before + last);
    if k == count - 1 {
        assert(all.subrange(0x10 * k, 0x10 * k + 0x10) == last);
    } else {
        lemma_record_at(order, records, count - 1, k);
        assert(all.subrange(0x10 * k, 0x10 * k + 0x10) == before.subrange(
            0x10 * k,
            0x10 * k + 0x10,
        ));
    }
}

/// Padding brings a length up to the next multiple of the unit and no
/// further.
pub proof fn lemma_padding(len: int, unit: int)
    requires
        0 <= len,
        0 < unit,
    ensures
        0 <= padding_to(len, unit) < unit,
        (len + padding_to(len, unit)) % unit == 0,
        len % unit == 0 ==> padding_to(len, unit) == 0,
{
    let rest = len % unit;
    if rest == 0 {
        assert((unit - rest) % unit == 0) by (nonlinear_arith)
            requires
                rest == 0,
                0 < unit,
        ;
    } else {
        assert((unit - rest) % unit == unit - rest) by (nonlinear_arith)
            requires
                0 < rest < unit,
        ;
        assert((len + (unit - rest)) % unit == 0) by (nonlinear_arith)
            requires
                rest == len % unit,
                0 < unit,
                0 <= len,
        ;
    }
}

/// Where the parts of a sequence of seven parts lie.
proof fn lemma_seven_parts(
    a: Seq<u8>,
    b: Seq<u8>,
    c: Seq<u8>,
    d: Seq<u8>,
    e: Seq<u8>,
    f: Seq<u8>,
    g: Seq<u8>,
)
    ensures
        ({
            let all = a + b + c + d + e + f + g;
            let b_at = a.len() as int;
            let c_at = b_at + b.len();
            let d_at = c_at + c.len();
            let e_at = d_at + d.len();
            let f_at = e_at + e.len();
            let g_at = f_at + f.len();
            &&& all.len() == g_at + g.len()
            &&& all.subrange(0, b_at) == a
            &&& all.subrange(b_at, c_at) == b
            &&& all.subrange(c_at, d_at) == c
            &&& all.subrange(d_at, e_at) == d
            &&& all.subrange(e_at, f_at) == e
            &&& all.subrange(f_at, g_at) == f
            &&& all.subrange(g_at, all.len() as int) == g
        }),
{
}

/// Where the parts of a written archive lie.
#[verifier::rlimit(40)]
pub proof fn lemma_archive_sections(archive: Archive)
    ensures
        ({
            let order = archive.byte_order;
            let entries = in_table_order(archive.files);
            let count = entries.len() as int;
            let base = data_offset(entries);
            let data = data_section(entries);
            let bytes = archive_bytes(archive);
            &&& bytes.len() == base + data.len()
            &&& 0x28 + 0x10 * count + name_table(entries).len() == tables_end(entries)
            &&& tables_end(entries) <= base
            &&& base % 0x2000 == 0
            &&& bytes.subrange(0, 0x14) == header_bytes(order, base + data.len(), base)
            &&& bytes.subrange(0x14, 0x20) == sfat_header_bytes(order, count)
            &&& bytes.subrange(0x20, 0x20 + 0x10 * count) == sfat_entries_bytes(
                order,
                sfat_entries(entries, base),
                count,
            )
            &&& bytes.subrange(0x20 + 0x10 * count, 0x28 + 0x10 * count) == sfnt_header_bytes(
                order,
            )
            &&& bytes.subrange(0x28 + 0x10 * count, tables_end(entries)) == name_table(entries)
            &&& bytes.subrange(tables_end(entries), base) == zeros(base - tables_end(entries))
            &&& bytes.subrange(base, bytes.len() as int) == data
        }),
{
    let order = archive.byte_order;
    let entries = in_table_order(archive.files);
    let count = entries.len() as int;
    let base = data_offset(entries);
    let data = data_section(entries);
    let head = header_bytes(order, base + data.len(), base);
    let table_head = sfat_header_bytes(order, count);
    let records = sfat_entries_bytes(order, sfat_entries(entries, base), count);
    let names_head = sfnt_header_bytes(order);
    let names = name_table(entries);
    let padding = zeros(padding_to(tables_end(entries), 0x2000));
    reveal(archive_bytes);
    assert(head.len() == 0x14 && table_head.len() == 0xC && names_head.len() == 8) by {
        lemma_fixed_sizes(order);
    }
    assert(records.len() == 0x10 * count) by {
        lemma_records_len(order, sfat_entries(entries, base), count);
    }
    lemma_padding(tables_end(entries), 0x2000);
    assert(padding.len() == base - tables_end(entries));
    lemma_seven_parts(head, table_head, records, names_head, names, padding, data);
}

/// The table order keeps every entry: it has as many as the archive.
pub proof fn lemma_in_table_order_len(files: Seq<Entry>)
    ensures
        in_table_order(files).len() == files.len(),
        is_table_order(table_order(entry_hashes(files)), entry_hashes(files)),
{
    lemma_table_order(entry_hashes(files));
}

/// The four fields of a record, read where its bytes stand.
pub proof fn lemma_record_fields(order: Endian, data: Seq<u8>, at: int, record: SfatEntry)
    requires
        0 <= at,
        at + 0x10 <= data.len(),
        data.subrange(at, at + 0x10) == sfat_entry_bytes(order, record),
    ensures
        u32_at(order, data, at) == record.name_hash,
        u32_at(order, data, at + 4) == name_field(record.name_table_offset),
        u32_at(order, data, at + 8) == record.file_range.0,
        u32_at(order, data, at + 12) == record.file_range.1,
{
    let bytes = sfat_entry_bytes(order, record);
    let name = name_field(record.name_table_offset);
    lemma_u32_bytes_len(order, record.name_hash);
    lemma_u32_bytes_len(order, name);
    lemma_u32_bytes_len(order, record.file_range.0);
    lemma_u32_bytes_len(order, record.file_range.1);
    assert(bytes.subrange(0, 4) == u32_bytes(order, record.name_hash));
    assert(bytes.subrange(4, 8) == u32_bytes(order, name));
    assert(bytes.subrange(8, 12) == u32_bytes(order, record.file_range.0));
    assert(bytes.subrange(12, 16) == u32_bytes(order, record.file_range.1));
    assert(data.subrange(at, at + 4) == bytes.subrange(0, 4));
    assert(data.subrange(at + 4, at + 8) == bytes.subrange(4, 8));
    assert(data.subrange(at + 8, at + 12) == bytes.subrange(8, 12));
    assert(data.subrange(at + 12, at + 16) == bytes.subrange(12, 16));
    lemma_u32_at(order, data, at, record.name_hash);
    lemma_u32_at(order, data, at + 4, name);
    lemma_u32_at(order, data, at + 8, record.file_range.0);
    lemma_u32_at(order, data, at + 12, record.file_range.1);
}

/// The bytes of record `k` in a written archive.
#[verifier::rlimit(40)]
pub proof fn lemma_written_record(archive: Archive, k: int)
    requires
        0 <= k < archive.files.len(),
    ensures
        ({
            let entries = in_table_order(archive.files);
            let bytes = archive_bytes(archive);
            &&& 0x20 + 0x10 * archive.files.len() <= bytes.len()
            &&& bytes.subrange(0x20 + 0x10 * k, 0x30 + 0x10 * k) == sfat_entry_bytes(
                archive.byte_order,
                sfat_entry(entries, data_offset(entries), k),
            )
        }),
{
    let order = archive.byte_order;
    let entries = in_table_order(archive.files);
    let count = entries.len() as int;
    let records = sfat_entries(entries, data_offset(entries));
    let bytes = archive_bytes(archive);
    let table = sfat_entries_bytes(order, records, count);
    lemma_in_table_order_len(archive.files);
    assert(0x20 + 0x10 * count <= bytes.len() && bytes.subrange(0x20, 0x20 + 0x10 * count)
        == table) by {
        lemma_archive_sections(archive);
    }
    lemma_record_at(order, records, count, k);
    assert(bytes.subrange(0x20 + 0x10 * k, 0x30 + 0x10 * k) == table.subrange(
        0x10 * k,
        0x10 * k + 0x10,
    ));
    assert(records[k] == sfat_entry(entries, data_offset(entries), k));
}

/// What a reader finds in record `k` of a written archive: the fields of
/// the `k`-th entry in table order.
pub proof fn lemma_written_node(archive: Archive, k: int)
    requires
        0 <= k < archive.files.len(),
    ensures
        ({
            let entries = in_table_order(archive.files);
            let record = sfat_entry(entries, data_offset(entries), k);
            node_at(archive.byte_order, archive_bytes(archive), 0x20 + 0x10 * k) == SfatNode {
                name_hash: record.name_hash,
                name_offset: name_offset_of(name_field(record.name_table_offset)),
                file_range: record.file_range,
            }
        }),
{
    let entries = in_table_order(archive.files);
    let record = sfat_entry(entries, data_offset(entries), k);
    lemma_written_record(archive, k);
    lemma_record_fields(archive.byte_order, archive_bytes(archive), 0x20 + 0x10 * k, record);
}

/// The file table of a buffer that holds the table's magic, a count and
/// room for that many records.
proof fn lemma_nodes_of(order: Endian, bytes: Seq<u8>, count: u16)
    requires
        bytes.len() >= 0x20 + 0x10 * count,
        bytes.subrange(0x14, 0x18) == sfat_magic(),
        u16_at(order, bytes, 0x1A) == count,
    ensures
        nodes_of(order, bytes, 0x14) == Ok::<Seq<SfatNode>, Error>(
            Seq::new(count as nat, |k: int| node_at(order, bytes, 0x14 + 0xC + 0x10 * k)),
        ),
{
}

/// The sub-header of the file table holds the magic and the count.
proof fn lemma_table_header(order: Endian, bytes: Seq<u8>, count: int)
    requires
        bytes.len() >= 0x20,
        bytes.subrange(0x14, 0x20) == sfat_header_bytes(order, count),
    ensures
        bytes.subrange(0x14, 0x18) == sfat_magic(),
        u16_at(order, bytes, 0x1A) == low16(count),
{
    let head = sfat_header_bytes(order, count);
    lemma_u16_bytes_len(order, 0xC);
    lemma_u16_bytes_len(order, low16(count));
    lemma_u32_bytes_len(order, 0x65);
    assert(head.subrange(0, 4) == sfat_magic());
    assert(head.subrange(6, 8) == u16_bytes(order, low16(count)));
    assert(bytes.subrange(0x14, 0x18) == head.subrange(0, 4));
    assert(bytes.subrange(0x1A, 0x1C) == head.subrange(6, 8));
    lemma_u16_at(order, bytes, 0x1A, low16(count));
}

/// The file table that a reader finds in a written archive: as many records
/// as the count field holds, each with the fields of its entry.
#[verifier::rlimit(40)]
pub proof fn lemma_written_table(archive: Archive)
    ensures
        ({
            let found = nodes_of(archive.byte_order, archive_bytes(archive), 0x14);
            &&& found is Ok
            &&& found->Ok_0.len() == low16(archive.files.len() as int)
            &&& found->Ok_0.len() <= archive.files.len()
            &&& forall|k: int|
                0 <= k < found->Ok_0.len() ==> #[trigger] found->Ok_0[k] == node_at(
                    archive.byte_order,
                    archive_bytes(archive),
                    0x20 + 0x10 * k,
                )
        }),
{
    let order = archive.byte_order;
    let count = archive.files.len() as int;
    let bytes = archive_bytes(archive);
    assert(bytes.len() >= 0x20 + 0x10 * count && bytes.subrange(0x14, 0x20) == sfat_header_bytes(
        order,
        count,
    )) by {
        lemma_in_table_order_len(archive.files);
        lemma_archive_sections(archive);
    }
    lemma_table_header(order, bytes, count);
    lemma_nodes_of(order, bytes, low16(count));
}

/// A payload starts at a multiple of the alignment within the data section.
pub proof fn lemma_data_start_aligned(entries: Seq<Entry>, k: int)
    ensures
        0 <= data_start(entries, k),
        data_start(entries, k) % 0x2000 == 0,
{
    lemma_padding(data_section(entries.take(k)).len() as int, 0x2000);
}

/// The low 32 bits of a sum of multiples of the alignment are one too.
pub proof fn lemma_low32_aligned_sum(base: int, start: int)
    requires
        0 <= base,
        0 <= start,
        base % 0x2000 == 0,
        start % 0x2000 == 0,
    ensures
        low32(base + start) % 0x2000 == 0,
{
}

/// The data section starts at a multiple of the alignment, behind the
/// tables.
pub proof fn lemma_data_offset_aligned(entries: Seq<Entry>)
    ensures
        0 <= tables_end(entries) <= data_offset(entries),
        data_offset(entries) % 0x2000 == 0,
{
    lemma_padding(tables_end(entries), 0x2000);
}

/// The header of a buffer that starts with the bytes of a header.
proof fn lemma_header_of(order: Endian, bytes: Seq<u8>, file_size: int, base: int)
    requires
        bytes.len() >= 0x14,
        bytes.subrange(0, 0x14) == header_bytes(order, file_size, base),
    ensures
        header_of(bytes) == Ok::<SarcHeader, Error>(
            SarcHeader {
                byte_order: order,
                file_size: low32(file_size),
                data_offset: low32(base),
            },
        ),
{
    let head = header_bytes(order, file_size, base);
    lemma_u16_bytes_len(order, 0x14);
    lemma_u16_bytes_len(order, 0xFEFF);
    lemma_u32_bytes_len(order, low32(file_size));
    lemma_u32_bytes_len(order, low32(base));
    lemma_u32_bytes_len(order, 0);
    assert(head.subrange(0, 4) == sarc_magic());
    assert(head.subrange(6, 8) == u16_bytes(order, 0xFEFF));
    assert(head.subrange(8, 12) == u32_bytes(order, low32(file_size)));
    assert(head.subrange(12, 16) == u32_bytes(order, low32(base)));
    assert(bytes.subrange(0, 4) == head.subrange(0, 4));
    assert(bytes.subrange(6, 8) == head.subrange(6, 8));
    assert(bytes.subrange(8, 12) == head.subrange(8, 12));
    assert(bytes.subrange(12, 16) == head.subrange(12, 16));
    lemma_u32_at(order, bytes, 8, low32(file_size));
    lemma_u32_at(order, bytes, 12, low32(base));
    let mark = bytes.subrange(6, 8);
    assert(bytes[6] == mark[0] && bytes[7] == mark[1]);
    assert(byte_order_of(u16_at(Endian::Big, bytes, 6)) == Some(order));
}

/// The header that a reader finds in a written archive: its byte order, its
/// size and the start of its data section.
pub proof fn lemma_written_header(archive: Archive)
    ensures
        ({
            let entries = in_table_order(archive.files);
            let base = data_offset(entries);
            header_of(archive_bytes(archive)) == Ok::<SarcHeader, Error>(
                SarcHeader {
                    byte_order: archive.byte_order,
                    file_size: low32(base + data_section(entries).len()),
                    data_offset: low32(base),
                },
            )
        }),
{
    let entries = in_table_order(archive.files);
    let base = data_offset(entries);
    lemma_archive_sections(archive);
    lemma_data_offset_aligned(entries);
    lemma_header_of(
        archive.byte_order,
        archive_bytes(archive),
        base + data_section(entries).len(),
        base,
    );
}

/// The payload of entry `k` lies in the data section where its start says.
pub proof fn lemma_payload_in_section(entries: Seq<Entry>, k: int)
    requires
        0 <= k < entries.len(),
    ensures
        0 <= data_start(entries, k),
        data_start(entries, k) + entries[k].data.len() <= data_section(entries).len(),
        data_section(entries).subrange(
            data_start(entries, k),
            data_start(entries, k) + entries[k].data.len(),
        ) == entries[k].data,
    decreases entries.len(),
{
    let shorter = entries.drop_last();
    let before = data_section(shorter);
    lemma_padding(before.len() as int, 0x2000);
    let gap = zeros(padding_to(before.len() as int, 0x2000));
    assert(data_section(entries) == before + gap + entries.last().data);
    if k == entries.len() - 1 {
        assert(entries.take(k) == shorter);
        assert(data_section(entries).subrange(
            data_start(entries, k),
            data_start(entries, k) + entries[k].data.len(),
        ) == entries[k].data);
    } else {
        lemma_payload_in_section(shorter, k);
        assert(shorter.take(k) == entries.take(k));
        assert(shorter[k] == entries[k]);
        let start = data_start(entries, k);
        let end = start + entries[k].data.len();
        assert(data_section(entries).subrange(start, end) == before.subrange(start, end));
    }
}

/// A name record takes a multiple of four bytes, more than the name itself.
pub proof fn lemma_name_record_len(name: Seq<char>)
    ensures
        name_record(name).len() % 4 == 0,
        name_record(name).len() > encode_utf8(name).len(),
        name_record(name).subrange(0, encode_utf8(name).len() as int) == encode_utf8(name),
        name_record(name)[encode_utf8(name).len() as int] == 0,
{
    let text = encode_utf8(name).push(0u8);
    lemma_padding(text.len() as int, 4);
}

/// The name table takes a multiple of four bytes.
pub proof fn lemma_name_table_aligned(entries: Seq<Entry>)
    ensures
        name_table(entries).len() % 4 == 0,
    decreases entries.len(),
{
    if entries.len() > 0 {
        lemma_name_table_aligned(entries.drop_last());
        if let Some(name) = entries.last().name {
            lemma_name_record_len(name);
        }
    }
}

/// The name record of entry `k` lies in the name table where its offset
/// says.
pub proof fn lemma_name_in_table(entries: Seq<Entry>, k: int)
    requires
        0 <= k < entries.len(),
    ensures
        0 <= name_offset(entries, k),
        name_offset(entries, k) % 4 == 0,
        name_offset(entries, k) + entry_name_record(entries[k]).len() <= name_table(
            entries,
        ).len(),
        name_table(entries).subrange(
            name_offset(entries, k),
            name_offset(entries, k) + entry_name_record(entries[k]).len(),
        ) == entry_name_record(entries[k]),
    decreases entries.len(),
{
    let shorter = entries.drop_last();
    let before = name_table(shorter);
    assert(name_table(entries) == before + entry_name_record(entries.last()));
    lemma_name_table_aligned(entries.take(k));
    if k == entries.len() - 1 {
        assert(entries.take(k) == shorter);
        assert(name_table(entries).subrange(
            name_offset(entries, k),
            name_offset(entries, k) + entry_name_record(entries[k]).len(),
        ) == entry_name_record(entries[k]));
    } else {
        lemma_name_in_table(shorter, k);
        assert(shorter.take(k) == entries.take(k));
        assert(shorter[k] == entries[k]);
        let start = name_offset(entries, k);
        let end = start + entry_name_record(entries[k]).len();
        assert(name_table(entries).subrange(start, end) == before.subrange(start, end));
    }
}

/// The UTF-8 bytes of a scalar other than zero are all other than zero.
proof fn lemma_scalar_bytes_not_zero(scalar: u32)
    requires
        is_scalar(scalar),
        scalar != 0,
    ensures
        forall|i: int| 0 <= i < encode_scalar(scalar).len() ==> encode_scalar(scalar)[i] != 0,
{
    assert(has_width_1_encoding(scalar) && scalar != 0 ==> leading_byte_width_1(scalar) != 0)
        by (bit_vector);
    assert(leading_byte_width_2(scalar) != 0) by (bit_vector);
    assert(leading_byte_width_3(scalar) != 0) by (bit_vector);
    assert(leading_byte_width_4(scalar) != 0) by (bit_vector);
    assert(last_continuation_byte(scalar) != 0) by (bit_vector);
    assert(second_last_continuation_byte(scalar) != 0) by (bit_vector);
    assert(third_last_continuation_byte(scalar) != 0) by (bit_vector);
}

/// The UTF-8 bytes of a name without the character zero hold no zero byte.
pub proof fn lemma_encoded_name_has_no_zero(name: Seq<char>)
    requires
        has_no_nul(name),
    ensures
        forall|i: int| 0 <= i < encode_utf8(name).len() ==> #[trigger] encode_utf8(name)[i] != 0,
    decreases name.len(),
{
    if name.len() > 0 {
        let first = encode_scalar(name[0] as u32);
        let rest = name.drop_first();
        assert(has_no_nul(rest)) by {
            assert forall|i: int| 0 <= i < rest.len() implies #[trigger] rest[i] as u32 != 0 by {
                assert(rest[i] == name[i + 1]);
            }
        }
        lemma_encoded_name_has_no_zero(rest);
        vstd::utf8::char_is_scalar(name[0]);
        lemma_scalar_bytes_not_zero(name[0] as u32);
        assert(encode_utf8(name) == first + encode_utf8(rest));
    }
}

/// The first zero byte behind `from` is at `end` where none comes before.
pub proof fn lemma_first_zero(data: Seq<u8>, from: int, end: int)
    requires
        0 <= from <= end < data.len(),
        forall|i: int| from <= i < end ==> #[trigger] data[i] != 0,
        data[end] == 0,
    ensures
        first_zero(data, from) == end,
    decreases end - from,
{
    if from < end {
        lemma_first_zero(data, from + 1, end);
    }
}

/// A reader finds a name where its record stands.
pub proof fn lemma_name_at_record(names: Seq<u8>, offset: int, name: Seq<char>)
    requires
        has_no_nul(name),
        0 <= offset,
        offset + name_record(name).len() <= names.len(),
        names.subrange(offset, offset + name_record(name).len()) == name_record(name),
    ensures
        name_at(names, offset) == Some(name),
{
    let text = encode_utf8(name);
    let record = name_record(name);
    let end = offset + text.len();
    lemma_name_record_len(name);
    lemma_encoded_name_has_no_zero(name);
    assert forall|i: int| offset <= i < end implies #[trigger] names[i] != 0 by {
        assert(names[i] == record[i - offset]);
        assert(record[i - offset] == text[i - offset]);
    }
    assert(names[end] == record[end - offset]);
    lemma_first_zero(names, offset, end);
    assert(names.subrange(offset, end) == text) by {
        assert(names.subrange(offset, end) == record.subrange(0, text.len() as int));
    }
    vstd::utf8::encode_utf8_valid_utf8(name);
    vstd::utf8::encode_utf8_decode_utf8(name);
}

/// The name field of a named entry gives back the word offset of its name.
pub proof fn lemma_name_field_of_offset(offset: int)
    requires
        0 <= offset < 0x4_0000,
        offset % 4 == 0,
    ensures
        name_offset_of(name_field(Some(low32(offset)))) == Some((offset / 4) as u16),
        ((offset / 4) as u16) * 4 == offset,
{
    let word: u32 = (low32(offset) / 4) as u32;
    assert(word < 0x1_0000);
    assert((word | 0x0100_0000) & 0x0100_0000 != 0 && (word | 0x0100_0000) % 0x1_0000 == word)
        by (bit_vector)
        requires
            word < 0x1_0000,
    ;
}

/// The name field of an entry without a name says so.
pub proof fn lemma_name_field_of_none()
    ensures
        name_offset_of(name_field(None)) == None::<u16>,
{
    assert(0u32 & 0x0100_0000 == 0) by (bit_vector);
}

/// The entries in table order are entries of the archive.
pub proof fn lemma_in_table_order_entry(files: Seq<Entry>, k: int)
    requires
        0 <= k < files.len(),
    ensures
        exists|i: int| 0 <= i < files.len() && in_table_order(files)[k] == #[trigger] files[i],
{
    lemma_in_table_order_len(files);
    let i = table_order(entry_hashes(files))[k];
    assert(in_table_order(files)[k] == files[i]);
}

/// Offsets within a file of at most 2^32 - 1 bytes fit their fields.
proof fn lemma_range_fits(base: int, start: int, len: int, total: int)
    requires
        0 <= base,
        0 <= start,
        0 <= len,
        base + start + len <= total <= 0xFFFF_FFFF,
    ensures
        low32(base + start) == base + start,
        low32(base + start + len) == base + start + len,
{
}

/// A part of the tail of a buffer is a part of the buffer.
proof fn lemma_part_of_tail(bytes: Seq<u8>, base: int, tail: Seq<u8>, start: int, end: int)
    requires
        0 <= base <= bytes.len(),
        bytes.subrange(base, bytes.len() as int) == tail,
        0 <= start <= end <= tail.len(),
    ensures
        bytes.subrange(base + start, base + end) == tail.subrange(start, end),
{
    assert forall|i: int| 0 <= i < end - start implies bytes.subrange(base + start, base + end)[i]
        == tail.subrange(start, end)[i] by {
        assert(tail[start + i] == bytes[base + start + i]);
    }
}

/// A reader finds the payload of the `k`-th entry in table order where
/// record `k` of a written archive says.
#[verifier::rlimit(40)]
pub proof fn lemma_written_payload(archive: Archive, k: int)
    requires
        data_offset(in_table_order(archive.files)) + data_section(
            in_table_order(archive.files),
        ).len() <= 0xFFFF_FFFF,
        0 <= k < archive.files.len(),
    ensures
        ({
            let entries = in_table_order(archive.files);
            let bytes = archive_bytes(archive);
            let range = sfat_entry(entries, data_offset(entries), k).file_range;
            &&& range.0 <= range.1 <= bytes.len()
            &&& range.1 - range.0 == entries[k].data.len()
            &&& bytes.subrange(range.0 as int, range.1 as int) == entries[k].data
        }),
{
    let entries = in_table_order(archive.files);
    let bytes = archive_bytes(archive);
    let base = data_offset(entries);
    let data = data_section(entries);
    let start = data_start(entries, k);
    let len = entries[k].data.len() as int;
    lemma_in_table_order_len(archive.files);
    lemma_data_offset_aligned(entries);
    lemma_payload_in_section(entries, k);
    assert(bytes.len() == base + data.len() && bytes.subrange(base, bytes.len() as int) == data)
        by {
        lemma_archive_sections(archive);
    }
    lemma_range_fits(base, start, len, bytes.len() as int);
    lemma_part_of_tail(bytes, base, data, start, start + len);
}

/// A reader finds the name of the `k`-th entry in table order where record
/// `k` of a written archive says.
#[verifier::rlimit(40)]
pub proof fn lemma_written_name(archive: Archive, k: int)
    requires
        representable(archive),
        0 <= k < archive.files.len(),
    ensures
        ({
            let entries = in_table_order(archive.files);
            let bytes = archive_bytes(archive);
            let names_at = 0x28 + 0x10 * (archive.files.len() as int);
            let record = sfat_entry(entries, data_offset(entries), k);
            &&& names_at <= bytes.len()
            &&& match name_offset_of(name_field(record.name_table_offset)) {
                Some(offset) => name_at(bytes.subrange(names_at, bytes.len() as int), offset * 4),
                None => None,
            } == entries[k].name
        }),
{
    let entries = in_table_order(archive.files);
    let bytes = archive_bytes(archive);
    let names_at = 0x28 + 0x10 * (archive.files.len() as int);
    let names = name_table(entries);
    let region = bytes.subrange(names_at, bytes.len() as int);
    lemma_in_table_order_len(archive.files);
    assert(names_at + names.len() <= bytes.len() && bytes.subrange(
        names_at,
        names_at + names.len(),
    ) == names) by {
        lemma_archive_sections(archive);
    }
    match entries[k].name {
        Some(name) => {
            let offset = name_offset(entries, k);
            let end = offset + name_record(name).len();
            lemma_name_in_table(entries, k);
            lemma_name_field_of_offset(offset);
            lemma_in_table_order_entry(archive.files, k);
            assert(has_no_nul(name));
            assert(region.subrange(offset, end) == names.subrange(offset, end)) by {
                assert(region.subrange(0, names.len() as int) == names);
            }
            lemma_name_at_record(region, offset, name);
        },
        None => {
            lemma_name_field_of_none();
        },
    }
}

} // verus!
