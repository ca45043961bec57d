//! What holds of every archive: the order and the alignment of what is
//! written, how the two byte orders differ, and that reading gives back what
//! was written.
use crate::bytes::{lemma_u16_bytes_mirror, lemma_u32_bytes_mirror, u16_bytes, u32_bytes};
use crate::envelope::{envelope_of, Collaborators, Envelope};
use crate::layout::{
    archive_bytes, data_offset, data_section, data_start, entry_hash, entry_hashes, header_bytes,
    in_table_order, low16, low32, name_field, name_table, representable, sarc_magic, sfat_entry,
    sfat_entry_bytes, sfat_header_bytes, sfat_magic, sfnt_header_bytes, sfnt_magic, tables_end,
    SfatEntry,
};
use crate::order::{
    insertion_point, is_table_order, lemma_insertion_point_in_range, lemma_table_order,
    lemma_table_order_is_unique, precedes, table_order,
};
use crate::parser::{
    archive_of, entry_of, node_at, nodes_of, ranges_fit, read_result, Error, SfatNode,
};
use crate::written::{
    lemma_archive_sections, lemma_data_offset_aligned, lemma_data_start_aligned,
    lemma_in_table_order_len, lemma_low32_aligned_sum, lemma_written_header, lemma_written_name,
    lemma_written_node, lemma_written_payload, lemma_written_record, lemma_written_table,
};
use crate::{Archive, Endian, Entry};
use vstd::prelude::*;

verus! {

/// The records of a written archive come by ascending hash.
pub proof fn lemma_table_is_sorted(archive: Archive)
    ensures
        ({
            let found = nodes_of(archive.byte_order, archive_bytes(archive), 0x14);
            &&& found is Ok
            &&& forall|i: int, j: int|
                0 <= i <= j < found->Ok_0.len() ==> (#[trigger] found->Ok_0[i]).name_hash <= (
                #[trigger] found->Ok_0[j]).name_hash
        }),
{
    let entries = in_table_order(archive.files);
    let keys = entry_hashes(archive.files);
    let order = table_order(keys);
    let nodes = nodes_of(archive.byte_order, archive_bytes(archive), 0x14)->Ok_0;
    lemma_written_table(archive);
    lemma_in_table_order_len(archive.files);
    assert forall|i: int, j: int| 0 <= i <= j < nodes.len() implies (#[trigger] nodes[i]).name_hash
        <= (#[trigger] nodes[j]).name_hash by {
        lemma_written_node(archive, i);
        lemma_written_node(archive, j);
        assert(nodes[i].name_hash == keys[order[i]]);
        assert(nodes[j].name_hash == keys[order[j]]);
        if i < j {
            assert(precedes(keys, order[i], order[j]));
        }
    }
}

/// The start that record `k` of a written archive holds is a multiple of
/// the alignment.
proof fn lemma_written_start_aligned(archive: Archive, k: int)
    requires
        0 <= k < archive.files.len(),
    ensures
        node_at(archive.byte_order, archive_bytes(archive), 0x20 + 0x10 * k).file_range.0 % 0x2000
            == 0,
{
    let entries = in_table_order(archive.files);
    let base = data_offset(entries);
    lemma_written_node(archive, k);
    lemma_data_start_aligned(entries, k);
    lemma_data_offset_aligned(entries);
    lemma_low32_aligned_sum(base, data_start(entries, k));
}

/// Every payload of a written archive starts at a multiple of 8192, and so
/// does the data section.
pub proof fn lemma_payloads_are_aligned(archive: Archive)
    ensures
        data_offset(in_table_order(archive.files)) % 0x2000 == 0,
        ({
            let found = nodes_of(archive.byte_order, archive_bytes(archive), 0x14);
            &&& found is Ok
            &&& forall|k: int|
                0 <= k < found->Ok_0.len() ==> (#[trigger] found->Ok_0[k]).file_range.0 % 0x2000
                    == 0
        }),
{
    let nodes = nodes_of(archive.byte_order, archive_bytes(archive), 0x14)->Ok_0;
    lemma_written_table(archive);
    lemma_data_offset_aligned(in_table_order(archive.files));
    assert forall|k: int| 0 <= k < nodes.len() implies (#[trigger] nodes[k]).file_range.0 % 0x2000
        == 0 by {
        lemma_written_start_aligned(archive, k);
    }
}

/// The table order holds each entry of the archive as often as the archive
/// does.
pub proof fn lemma_table_order_keeps_entries(files: Seq<Entry>)
    ensures
        in_table_order(files).to_multiset() == files.to_multiset(),
    decreases files.len(),
{
    if files.len() == 0 {
        assert(in_table_order(files) == files);
    } else {
        let shorter = files.drop_last();
        let keys = entry_hashes(files);
        let rest = table_order(entry_hashes(shorter));
        let at = insertion_point(rest, keys, keys.last());
        let last = files.len() - 1;
        assert(keys.drop_last() == entry_hashes(shorter));
        lemma_in_table_order_len(shorter);
        lemma_in_table_order_len(files);
        lemma_table_order_keeps_entries(shorter);
        assert(table_order(keys) == rest.insert(at, last));
        crate::order::lemma_insertion_point_in_range(rest, keys, keys.last());
        assert(in_table_order(files) == in_table_order(shorter).insert(at, files.last())) by {
            assert forall|i: int| 0 <= i < files.len() implies in_table_order(files)[i]
                == in_table_order(shorter).insert(at, files.last())[i] by {
                if i < at {
                    assert(files[rest[i]] == shorter[rest[i]]);
                } else if i > at {
                    assert(files[rest[i - 1]] == shorter[rest[i - 1]]);
                }
            }
        }
        vstd::seq_lib::to_multiset_insert(in_table_order(shorter), at, files.last());
        assert(files == shorter.push(files.last()));
        vstd::seq_lib::to_multiset_build(shorter, files.last());
    }
}

/// A written archive that fits the format reads back as the same entries in
/// table order, with the same byte order.
#[verifier::rlimit(40)]
pub proof fn lemma_round_trip(archive: Archive)
    requires
        representable(archive),
    ensures
        archive_of(archive_bytes(archive)) == Ok::<Archive, Error>(
            Archive {
                byte_order: archive.byte_order,
                files: in_table_order(archive.files),
            },
        ),
        in_table_order(archive.files).to_multiset() == archive.files.to_multiset(),
{
    lemma_table_order_keeps_entries(archive.files);
    let order = archive.byte_order;
    let entries = in_table_order(archive.files);
    let bytes = archive_bytes(archive);
    let count = archive.files.len() as int;
    let names_at = 0x28 + 0x10 * count;
    lemma_in_table_order_len(archive.files);
    lemma_written_header(archive);
    lemma_written_table(archive);
    let nodes = nodes_of(order, bytes, 0x14)->Ok_0;
    assert(nodes.len() == count);
    assert forall|k: int| 0 <= k < nodes.len() implies (#[trigger] nodes[k]).file_range.0
        <= nodes[k].file_range.1 <= bytes.len() && entry_of(bytes, names_at, nodes[k])
        == entries[k] by {
        lemma_written_node(archive, k);
        lemma_written_payload(archive, k);
        lemma_written_name(archive, k);
    }
    assert(names_at <= bytes.len()) by {
        if count > 0 {
            lemma_written_name(archive, 0);
        } else {
            lemma_archive_sections(archive);
        }
    }
    assert(ranges_fit(nodes, bytes.len() as int));
    assert(Seq::new(nodes.len(), |k: int| entry_of(bytes, names_at, nodes[k])) == entries);
}

/// Archives of one byte order whose entries come to the same table order are
/// written as the same bytes.
pub proof fn lemma_bytes_follow_table_order(one: Archive, other: Archive)
    requires
        one.byte_order == other.byte_order,
        in_table_order(one.files) == in_table_order(other.files),
    ensures
        archive_bytes(one) == archive_bytes(other),
{
    reveal(archive_bytes);
}

/// The order in which an archive holds its entries does not show in what is
/// written, as long as no two entries share a hash: `other` holds the entries
/// of `one`, entry `i` being entry `places[i]` of `one`.
#[verifier::rlimit(40)]
pub proof fn lemma_entry_order_does_not_show(one: Archive, other: Archive, places: Seq<int>)
    requires
        one.byte_order == other.byte_order,
        one.files.len() == other.files.len() == places.len(),
        forall|i: int| 0 <= i < places.len() ==> 0 <= #[trigger] places[i] < one.files.len(),
        forall|i: int, j: int|
            0 <= i < j < places.len() ==> #[trigger] places[i] != #[trigger] places[j],
        forall|i: int| 0 <= i < places.len() ==> #[trigger] other.files[i] == one.files[places[i]],
        forall|i: int, j: int|
            0 <= i < j < one.files.len() ==> entry_hash(#[trigger] one.files[i]) != entry_hash(
                #[trigger] one.files[j],
            ),
    ensures
        archive_bytes(one) == archive_bytes(other),
{
    let keys = entry_hashes(one.files);
    let other_keys = entry_hashes(other.files);
    let other_order = table_order(other_keys);
    let through = other_order.map_values(|i: int| places[i]);
    lemma_table_order(keys);
    lemma_table_order(other_keys);
    assert forall|i: int, j: int| 0 <= i < j < through.len() implies precedes(
        keys,
        #[trigger] through[i],
        #[trigger] through[j],
    ) by {
        let a = other_order[i];
        let b = other_order[j];
        assert(precedes(other_keys, a, b));
        assert(other_keys[a] == keys[places[a]] && other_keys[b] == keys[places[b]]);
        if a < b {
            assert(places[a] != places[b]);
        } else {
            assert(places[b] != places[a]);
        }
        if places[a] < places[b] {
            assert(entry_hash(one.files[places[a]]) != entry_hash(one.files[places[b]]));
        } else {
            assert(entry_hash(one.files[places[b]]) != entry_hash(one.files[places[a]]));
        }
    }
    assert(is_table_order(through, keys));
    lemma_table_order_is_unique(through, table_order(keys), keys);
    assert(in_table_order(one.files) == in_table_order(other.files)) by {
        assert forall|k: int| 0 <= k < one.files.len() implies in_table_order(one.files)[k]
            == in_table_order(other.files)[k] by {
            assert(table_order(keys)[k] == through[k]);
        }
    }
    lemma_bytes_follow_table_order(one, other);
}

/// Reading what `write` made of an archive that fits the format gives the
/// same byte order and the same entries, in table order, whatever compressed
/// streams the caller allows.
pub proof fn lemma_read_of_written(
    archive: Archive,
    allowed: Collaborators,
    file: Result<crate::SarcFile, Error>,
)
    requires
        representable(archive),
        read_result(archive_bytes(archive), allowed, file),
    ensures
        file matches Ok(read) && read@ == (Archive {
            byte_order: archive.byte_order,
            files: in_table_order(archive.files),
        }),
        in_table_order(archive.files).to_multiset() == archive.files.to_multiset(),
{
    let bytes = archive_bytes(archive);
    lemma_round_trip(archive);
    lemma_written_header(archive);
    let magic = bytes.subrange(0, 4);
    assert(magic == sarc_magic());
    assert(magic[0] == 0x53);
    assert(envelope_of(bytes) == Envelope::Plain) by {
        assert(crate::envelope::yaz0_magic()[0] == 0x59);
        assert(crate::envelope::zstd_magic()[0] == 0x28);
    }
}

/// The same archive with another byte order.
pub open spec fn with_byte_order(archive: Archive, order: Endian) -> Archive {
    Archive { byte_order: order, files: archive.files }
}

/// Where the byte at `at` of a big-endian archive of `count` entries stands
/// in the little-endian one: within a 16-bit or 32-bit field at the mirrored
/// place, elsewhere at the same place.
pub open spec fn mirrored(count: int, at: int) -> int {
    let names_head = 0x20 + 0x10 * count;
    if 4 <= at < 8 || 0x18 <= at < 0x1C || names_head + 4 <= at < names_head + 8 {
        (at - at % 2) + 1 - at % 2
    } else if 8 <= at < 0x14 || 0x1C <= at < names_head {
        (at - at % 4) + 3 - at % 4
    } else {
        at
    }
}

/// The header in the two byte orders.
proof fn lemma_header_mirror(file_size: int, base: int, at: int)
    requires
        0 <= at < 0x14,
    ensures
        header_bytes(Endian::Big, file_size, base)[at] == header_bytes(
            Endian::Little,
            file_size,
            base,
        )[mirrored(0, at)],
{
    lemma_u16_bytes_mirror(0x14);
    lemma_u16_bytes_mirror(0xFEFF);
    lemma_u32_bytes_mirror(low32(file_size));
    lemma_u32_bytes_mirror(low32(base));
    lemma_u32_bytes_mirror(0);
    let big = header_bytes(Endian::Big, file_size, base);
    let little = header_bytes(Endian::Little, file_size, base);
    if at < 4 {
        assert(big[at] == sarc_magic()[at] && little[at] == sarc_magic()[at]);
    } else if at < 6 {
        assert(big[at] == u16_bytes(Endian::Big, 0x14)[at - 4]);
        assert(little[9 - at] == u16_bytes(Endian::Little, 0x14)[5 - at]);
    } else if at < 8 {
        assert(big[at] == u16_bytes(Endian::Big, 0xFEFF)[at - 6]);
        assert(little[13 - at] == u16_bytes(Endian::Little, 0xFEFF)[7 - at]);
    } else if at < 12 {
        assert(big[at] == u32_bytes(Endian::Big, low32(file_size))[at - 8]);
        assert(little[19 - at] == u32_bytes(Endian::Little, low32(file_size))[11 - at]);
    } else if at < 16 {
        assert(big[at] == u32_bytes(Endian::Big, low32(base))[at - 12]);
        assert(little[27 - at] == u32_bytes(Endian::Little, low32(base))[15 - at]);
    } else {
        assert(big[at] == u32_bytes(Endian::Big, 0)[at - 16]);
        assert(little[35 - at] == u32_bytes(Endian::Little, 0)[19 - at]);
    }
}

/// The sub-header of the file table in the two byte orders.
proof fn lemma_table_header_mirror(count: int, at: int)
    requires
        0 <= at < 0xC,
    ensures
        sfat_header_bytes(Endian::Big, count)[at] == sfat_header_bytes(Endian::Little, count)[if at
            < 4 {
            at
        } else if at < 8 {
            (at - at % 2) + 1 - at % 2
        } else {
            19 - at
        }],
{
    lemma_u16_bytes_mirror(0xC);
    lemma_u16_bytes_mirror(low16(count));
    lemma_u32_bytes_mirror(0x65);
    let big = sfat_header_bytes(Endian::Big, count);
    let little = sfat_header_bytes(Endian::Little, count);
    if at < 4 {
        assert(big[at] == sfat_magic()[at] && little[at] == sfat_magic()[at]);
    } else if at < 6 {
        assert(big[at] == u16_bytes(Endian::Big, 0xC)[at - 4]);
        assert(little[9 - at] == u16_bytes(Endian::Little, 0xC)[5 - at]);
    } else if at < 8 {
        assert(big[at] == u16_bytes(Endian::Big, low16(count))[at - 6]);
        assert(little[13 - at] == u16_bytes(Endian::Little, low16(count))[7 - at]);
    } else {
        assert(big[at] == u32_bytes(Endian::Big, 0x65)[at - 8]);
        assert(little[19 - at] == u32_bytes(Endian::Little, 0x65)[11 - at]);
    }
}

/// The sub-header of the name table in the two byte orders.
proof fn lemma_names_header_mirror(at: int)
    requires
        0 <= at < 8,
    ensures
        sfnt_header_bytes(Endian::Big)[at] == sfnt_header_bytes(Endian::Little)[if at < 4 {
            at
        } else {
            (at - at % 2) + 1 - at % 2
        }],
{
    lemma_u16_bytes_mirror(8);
    lemma_u16_bytes_mirror(0);
    let big = sfnt_header_bytes(Endian::Big);
    let little = sfnt_header_bytes(Endian::Little);
    if at < 4 {
        assert(big[at] == sfnt_magic()[at] && little[at] == sfnt_magic()[at]);
    } else if at < 6 {
        assert(big[at] == u16_bytes(Endian::Big, 8)[at - 4]);
        assert(little[9 - at] == u16_bytes(Endian::Little, 8)[5 - at]);
    } else {
        assert(big[at] == u16_bytes(Endian::Big, 0)[at - 6]);
        assert(little[13 - at] == u16_bytes(Endian::Little, 0)[7 - at]);
    }
}

/// A record in the two byte orders.
#[verifier::rlimit(40)]
proof fn lemma_record_mirror(record: SfatEntry, at: int)
    requires
        0 <= at < 0x10,
    ensures
        sfat_entry_bytes(Endian::Big, record)[at] == sfat_entry_bytes(Endian::Little, record)[(at
            - at % 4) + 3 - at % 4],
{
    let name = name_field(record.name_table_offset);
    lemma_u32_bytes_mirror(record.name_hash);
    lemma_u32_bytes_mirror(name);
    lemma_u32_bytes_mirror(record.file_range.0);
    lemma_u32_bytes_mirror(record.file_range.1);
    let big = sfat_entry_bytes(Endian::Big, record);
    let little = sfat_entry_bytes(Endian::Little, record);
    if at < 4 {
        assert(big[at] == u32_bytes(Endian::Big, record.name_hash)[at]);
        assert(little[3 - at] == u32_bytes(Endian::Little, record.name_hash)[3 - at]);
    } else if at < 8 {
        assert(big[at] == u32_bytes(Endian::Big, name)[at - 4]);
        assert(little[11 - at] == u32_bytes(Endian::Little, name)[7 - at]);
    } else if at < 12 {
        assert(big[at] == u32_bytes(Endian::Big, record.file_range.0)[at - 8]);
        assert(little[19 - at] == u32_bytes(Endian::Little, record.file_range.0)[11 - at]);
    } else {
        assert(big[at] == u32_bytes(Endian::Big, record.file_range.1)[at - 12]);
        assert(little[27 - at] == u32_bytes(Endian::Little, record.file_range.1)[15 - at]);
    }
}

/// The two byte orders give archives of one length.
pub proof fn lemma_byte_orders_same_length(archive: Archive)
    ensures
        archive_bytes(with_byte_order(archive, Endian::Big)).len() == archive_bytes(
            with_byte_order(archive, Endian::Little),
        ).len(),
        archive_bytes(with_byte_order(archive, Endian::Big)).len() >= 0x28 + 0x10
            * archive.files.len(),
{
    lemma_in_table_order_len(archive.files);
    lemma_archive_sections(with_byte_order(archive, Endian::Big));
    lemma_archive_sections(with_byte_order(archive, Endian::Little));
}

/// The header of a written archive in the two byte orders.
#[verifier::rlimit(40)]
proof fn lemma_mirror_in_header(archive: Archive, at: int)
    requires
        0 <= at < 0x14,
    ensures
        archive_bytes(with_byte_order(archive, Endian::Big))[at] == archive_bytes(
            with_byte_order(archive, Endian::Little),
        )[mirrored(archive.files.len() as int, at)],
{
    let entries = in_table_order(archive.files);
    let base = data_offset(entries);
    let size = base + data_section(entries).len();
    let big = archive_bytes(with_byte_order(archive, Endian::Big));
    let little = archive_bytes(with_byte_order(archive, Endian::Little));
    assert(big.len() >= 0x14 && big.subrange(0, 0x14) == header_bytes(Endian::Big, size, base))
        by {
        lemma_archive_sections(with_byte_order(archive, Endian::Big));
        lemma_data_offset_aligned(entries);
    }
    assert(little.len() >= 0x14 && little.subrange(0, 0x14) == header_bytes(
        Endian::Little,
        size,
        base,
    )) by {
        lemma_archive_sections(with_byte_order(archive, Endian::Little));
        lemma_data_offset_aligned(entries);
    }
    lemma_header_mirror(size, base, at);
    let to = mirrored(0, at);
    assert(to == mirrored(archive.files.len() as int, at));
    assert(0 <= to < 0x14);
    assert(big[at] == big.subrange(0, 0x14)[at]);
    assert(little[to] == little.subrange(0, 0x14)[to]);
}

/// The sub-header of the file table of a written archive in the two byte
/// orders.
#[verifier::rlimit(40)]
proof fn lemma_mirror_in_table_header(archive: Archive, at: int)
    requires
        0x14 <= at < 0x20,
    ensures
        archive_bytes(with_byte_order(archive, Endian::Big))[at] == archive_bytes(
            with_byte_order(archive, Endian::Little),
        )[mirrored(archive.files.len() as int, at)],
{
    let count = archive.files.len() as int;
    let big = archive_bytes(with_byte_order(archive, Endian::Big));
    let little = archive_bytes(with_byte_order(archive, Endian::Little));
    lemma_in_table_order_len(archive.files);
    assert(big.len() >= 0x20 && big.subrange(0x14, 0x20) == sfat_header_bytes(Endian::Big, count))
        by {
        lemma_archive_sections(with_byte_order(archive, Endian::Big));
    }
    assert(little.len() >= 0x20 && little.subrange(0x14, 0x20) == sfat_header_bytes(
        Endian::Little,
        count,
    )) by {
        lemma_archive_sections(with_byte_order(archive, Endian::Little));
    }
    lemma_table_header_mirror(count, at - 0x14);
    let to = mirrored(count, at);
    assert(0x14 <= to < 0x20);
    assert(big[at] == big.subrange(0x14, 0x20)[at - 0x14]);
    assert(little[to] == little.subrange(0x14, 0x20)[to - 0x14]);
}

/// The records of a written archive in the two byte orders.
#[verifier::rlimit(40)]
proof fn lemma_mirror_in_records(archive: Archive, at: int)
    requires
        0x20 <= at < 0x20 + 0x10 * archive.files.len(),
    ensures
        archive_bytes(with_byte_order(archive, Endian::Big))[at] == archive_bytes(
            with_byte_order(archive, Endian::Little),
        )[mirrored(archive.files.len() as int, at)],
{
    let count = archive.files.len() as int;
    let entries = in_table_order(archive.files);
    let big = archive_bytes(with_byte_order(archive, Endian::Big));
    let little = archive_bytes(with_byte_order(archive, Endian::Little));
    let k = (at - 0x20) / 0x10;
    let within = (at - 0x20) % 0x10;
    let record = sfat_entry(entries, data_offset(entries), k);
    lemma_written_record(with_byte_order(archive, Endian::Big), k);
    lemma_written_record(with_byte_order(archive, Endian::Little), k);
    lemma_record_mirror(record, within);
    let start = 0x20 + 0x10 * k;
    let to = mirrored(count, at);
    assert(to == start + (within - within % 4) + 3 - within % 4);
    assert(big[at] == big.subrange(start, start + 0x10)[within]);
    assert(little[to] == little.subrange(start, start + 0x10)[to - start]);
}

/// The sub-header of the name table of a written archive in the two byte
/// orders.
#[verifier::rlimit(40)]
proof fn lemma_mirror_in_names_header(archive: Archive, at: int)
    requires
        0x20 + 0x10 * archive.files.len() <= at < 0x28 + 0x10 * archive.files.len(),
    ensures
        archive_bytes(with_byte_order(archive, Endian::Big))[at] == archive_bytes(
            with_byte_order(archive, Endian::Little),
        )[mirrored(archive.files.len() as int, at)],
{
    let count = archive.files.len() as int;
    let head = 0x20 + 0x10 * count;
    let big = archive_bytes(with_byte_order(archive, Endian::Big));
    let little = archive_bytes(with_byte_order(archive, Endian::Little));
    lemma_in_table_order_len(archive.files);
    assert(big.len() >= head + 8 && big.subrange(head, head + 8) == sfnt_header_bytes(Endian::Big))
        by {
        lemma_archive_sections(with_byte_order(archive, Endian::Big));
    }
    assert(little.len() >= head + 8 && little.subrange(head, head + 8) == sfnt_header_bytes(
        Endian::Little,
    )) by {
        lemma_archive_sections(with_byte_order(archive, Endian::Little));
    }
    lemma_names_header_mirror(at - head);
    let to = mirrored(count, at);
    assert(head <= to < head + 8);
    assert(big[at] == big.subrange(head, head + 8)[at - head]);
    assert(little[to] == little.subrange(head, head + 8)[to - head]);
}

/// The names, the padding and the payloads of a written archive are the
/// same in the two byte orders.
#[verifier::rlimit(40)]
proof fn lemma_mirror_behind_tables(archive: Archive, at: int)
    requires
        0x28 + 0x10 * archive.files.len() <= at < archive_bytes(
            with_byte_order(archive, Endian::Big),
        ).len(),
    ensures
        archive_bytes(with_byte_order(archive, Endian::Big))[at] == archive_bytes(
            with_byte_order(archive, Endian::Little),
        )[at],
{
    let entries = in_table_order(archive.files);
    let names_at = 0x28 + 0x10 * (archive.files.len() as int);
    let end = tables_end(entries);
    let base = data_offset(entries);
    let big = archive_bytes(with_byte_order(archive, Endian::Big));
    let little = archive_bytes(with_byte_order(archive, Endian::Little));
    lemma_in_table_order_len(archive.files);
    lemma_archive_sections(with_byte_order(archive, Endian::Big));
    lemma_archive_sections(with_byte_order(archive, Endian::Little));
    if at < end {
        assert(big[at] == big.subrange(names_at, end)[at - names_at]);
        assert(little[at] == little.subrange(names_at, end)[at - names_at]);
    } else if at < base {
        assert(big[at] == big.subrange(end, base)[at - end]);
        assert(little[at] == little.subrange(end, base)[at - end]);
    } else {
        assert(big[at] == big.subrange(base, big.len() as int)[at - base]);
        assert(little[at] == little.subrange(base, little.len() as int)[at - base]);
    }
}

/// Writing one archive in the two byte orders gives the same bytes, but for
/// the bytes of each 16-bit and 32-bit field of the header and the tables,
/// which come in the opposite order: the byte-order mark among them.
pub proof fn lemma_byte_orders_mirror(archive: Archive, at: int)
    requires
        0 <= at < archive_bytes(with_byte_order(archive, Endian::Big)).len(),
    ensures
        archive_bytes(with_byte_order(archive, Endian::Big)).len() == archive_bytes(
            with_byte_order(archive, Endian::Little),
        ).len(),
        0 <= mirrored(archive.files.len() as int, at) < archive_bytes(
            with_byte_order(archive, Endian::Little),
        ).len(),
        archive_bytes(with_byte_order(archive, Endian::Big))[at] == archive_bytes(
            with_byte_order(archive, Endian::Little),
        )[mirrored(archive.files.len() as int, at)],
{
    let count = archive.files.len() as int;
    lemma_byte_orders_same_length(archive);
    if at < 0x14 {
        lemma_mirror_in_header(archive, at);
    } else if at < 0x20 {
        lemma_mirror_in_table_header(archive, at);
    } else if at < 0x20 + 0x10 * count {
        lemma_mirror_in_records(archive, at);
    } else if at < 0x28 + 0x10 * count {
        lemma_mirror_in_names_header(archive, at);
    } else {
        lemma_mirror_behind_tables(archive, at);
    }
}

/// An archive that fits the format reads back as the same entries from
/// either byte order.
pub proof fn lemma_byte_orders_read_alike(archive: Archive)
    requires
        representable(archive),
    ensures
        archive_of(archive_bytes(with_byte_order(archive, Endian::Big))) == Ok::<Archive, Error>(
            Archive { byte_order: Endian::Big, files: in_table_order(archive.files) },
        ),
        archive_of(archive_bytes(with_byte_order(archive, Endian::Little))) == Ok::<
            Archive,
            Error,
        >(Archive { byte_order: Endian::Little, files: in_table_order(archive.files) }),
{
    assert(representable(with_byte_order(archive, Endian::Big)));
    assert(representable(with_byte_order(archive, Endian::Little)));
    lemma_round_trip(with_byte_order(archive, Endian::Big));
    lemma_round_trip(with_byte_order(archive, Endian::Little));
}

/// An archive without entries is written as header, empty file table, empty
/// name table and padding up to an empty data section, and reads back as
/// itself.
pub proof fn lemma_empty_archive(order: Endian)
    ensures
        ({
            let archive = Archive { byte_order: order, files: Seq::empty() };
            let bytes = archive_bytes(archive);
            &&& representable(archive)
            &&& bytes.len() == 0x2000
            &&& name_table(in_table_order(archive.files)).len() == 0
            &&& data_section(in_table_order(archive.files)).len() == 0
            &&& nodes_of(order, bytes, 0x14) == Ok::<Seq<SfatNode>, Error>(Seq::empty())
            &&& archive_of(bytes) == Ok::<Archive, Error>(archive)
        }),
{
    let archive = Archive { byte_order: order, files: Seq::<Entry>::empty() };
    let entries = in_table_order(archive.files);
    lemma_in_table_order_len(archive.files);
    assert(entries == archive.files);
    assert(tables_end(entries) == 0x28);
    assert(data_offset(entries) == 0x2000);
    lemma_archive_sections(archive);
    lemma_written_table(archive);
    assert(nodes_of(order, archive_bytes(archive), 0x14)->Ok_0 == Seq::<SfatNode>::empty());
    lemma_round_trip(archive);
}

/// The record of an entry of a written archive that fits the format spans
/// as many bytes as the entry holds: an empty payload has its end at its
/// start.
pub proof fn lemma_written_range(archive: Archive, k: int)
    requires
        representable(archive),
        0 <= k < archive.files.len(),
    ensures
        ({
            let entries = in_table_order(archive.files);
            let bytes = archive_bytes(archive);
            let node = node_at(archive.byte_order, bytes, 0x20 + 0x10 * k);
            &&& node.file_range.0 <= node.file_range.1 <= bytes.len()
            &&& node.file_range.1 - node.file_range.0 == entries[k].data.len()
            &&& bytes.subrange(node.file_range.0 as int, node.file_range.1 as int)
                == entries[k].data
            &&& entries[k].data.len() == 0 ==> node.file_range.0 == node.file_range.1
        }),
{
    lemma_written_node(archive, k);
    lemma_written_payload(archive, k);
}

} // verus!
