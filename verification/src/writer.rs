//! Writing an archive to bytes.
use crate::envelope::{
    yaz0_compress, yaz0_stream, zstd_compress, zstd_compressed, Compression, CompressionError,
};
use crate::layout::{
    archive_bytes, data_offset, data_section, data_start, entry_hash, entry_hashes, header_bytes,
    in_table_order, low32, name_field, name_offset, name_record, name_table, padding_to,
    sfat_entries, sfat_entries_bytes, sfat_entry, sfat_entry_bytes, sfat_header_bytes,
    sfnt_header_bytes, tables_end, zeros, SfatEntry, HAS_NAME,
};
use crate::order::{sort_by_hash, table_order};
use crate::{sfat_hash, Endian, SarcEntry, SarcFile, HASH_KEY};
use vstd::prelude::*;

verus! {

/// An error while writing an archive.
#[derive(Debug)]
pub enum Error {
    /// The sink could not be written.
    IoError(std::io::Error),
    /// A compressor reported a failure.
    CompressionError(CompressionError),
}

/// Appends `count` zero bytes.
pub(crate) fn push_zeros(out: &mut Vec<u8>, count: usize)
    ensures
        final(out)@ == old(out)@ + zeros(count as int),
{
    let mut done: usize = 0;
    while done < count
        invariant
            done <= count,
            out@ == old(out)@ + zeros(done as int),
        decreases count - done,
    {
        out.push(0u8);
        done = done + 1;
    }
}

/// Appends a copy of `bytes`.
pub(crate) fn push_bytes(out: &mut Vec<u8>, bytes: &[u8])
    ensures
        final(out)@ == old(out)@ + bytes@,
{
    out.extend_from_slice(bytes);
}

/// The low 32 bits of a size or offset.
pub(crate) fn low32_of(value: u128) -> (low: u32)
    ensures
        low == low32(value as int),
{
    (value % 0x1_0000_0000) as u32
}

/// The low 32 bits of the low 32 bits are the low 32 bits.
proof fn lemma_low32_twice(value: int)
    ensures
        low32(low32(value) as int) == low32(value),
{
}

/// Where the name table ends, and how many zero bytes bring that up to the
/// start of the data section.
pub(crate) fn padding_before_data(count: usize, names_len: usize) -> (sizes: (u128, usize))
    ensures
        sizes.0 == 0x14 + 0xC + 0x10 * (count as int) + 8 + (names_len as int),
        sizes.1 == padding_to(sizes.0 as int, 0x2000),
{
    let end: u128 = 0x14 + 0xC + 0x10 * (count as u128) + 8 + (names_len as u128);
    let padding: usize = ((0x2000 - end % 0x2000) % 0x2000) as usize;
    (end, padding)
}

/// The sizes that the archive header records.
pub struct SarcHeader {
    pub file_size: u32,
    pub data_offset: u32,
}

impl SarcHeader {
    /// Appends the archive header in the given byte order.
    pub fn write(&self, order: Endian, out: &mut Vec<u8>)
        ensures
            final(out)@ == old(out)@ + header_bytes(
                order,
                self.file_size as int,
                self.data_offset as int,
            ),
    {
        out.push(0x53u8);
        out.push(0x41u8);
        out.push(0x52u8);
        out.push(0x43u8);
        order.write_u16(out, 0x14);
        order.write_u16(out, Endian::MARK);
        order.write_u32(out, self.file_size);
        order.write_u32(out, self.data_offset);
        order.write_u32(out, 0);
        proof {
            assert(out@ == old(out)@ + header_bytes(
                order,
                self.file_size as int,
                self.data_offset as int,
            ));
        }
    }
}

impl SfatEntry {
    /// The name field: the word offset of the name with the has-name bit set,
    /// or zero without a name.
    pub fn packed_name(&self) -> (field: u32)
        ensures
            field == name_field(self.name_table_offset),
    {
        match self.name_table_offset {
            Some(offset) => (offset / 4) | HAS_NAME,
            None => 0,
        }
    }

    /// Appends the record in the given byte order.
    pub fn write(&self, order: Endian, out: &mut Vec<u8>)
        ensures
            final(out)@ == old(out)@ + sfat_entry_bytes(order, *self),
    {
        order.write_u32(out, self.name_hash);
        order.write_u32(out, self.packed_name());
        order.write_u32(out, self.file_range.0);
        order.write_u32(out, self.file_range.1);
        proof {
            assert(out@ == old(out)@ + sfat_entry_bytes(order, *self));
        }
    }
}

/// The file table on its way out.
pub struct Sfat {
    pub entries: Vec<SfatEntry>,
}

impl Sfat {
    /// Appends the sub-header of the file table and its records.
    pub fn write(&self, order: Endian, out: &mut Vec<u8>)
        ensures
            final(out)@ == old(out)@ + sfat_header_bytes(order, self.entries@.len() as int)
                + sfat_entries_bytes(order, self.entries@, self.entries@.len() as int),
    {
        out.push(0x53u8);
        out.push(0x46u8);
        out.push(0x41u8);
        out.push(0x54u8);
        order.write_u16(out, 0xC);
        order.write_u16(out, (self.entries.len() % 0x1_0000) as u16);
        order.write_u32(out, HASH_KEY);
        let ghost start = old(out)@ + sfat_header_bytes(order, self.entries@.len() as int);
        proof {
            assert(out@ == start);
        }
        let mut k: usize = 0;
        while k < self.entries.len()
            invariant
                k <= self.entries.len(),
                out@ == start + sfat_entries_bytes(order, self.entries@, k as int),
            decreases self.entries.len() - k,
        {
            self.entries[k].write(order, out);
            k = k + 1;
            proof {
                assert(out@ == start + sfat_entries_bytes(order, self.entries@, k as int));
            }
        }
    }
}

/// Appends the sub-header of the name table.
pub(crate) fn write_sfnt_header(order: Endian, out: &mut Vec<u8>)
    ensures
        final(out)@ == old(out)@ + sfnt_header_bytes(order),
{
    out.push(0x53u8);
    out.push(0x46u8);
    out.push(0x4Eu8);
    out.push(0x54u8);
    order.write_u16(out, 8);
    order.write_u16(out, 0);
    proof {
        assert(out@ == old(out)@ + sfnt_header_bytes(order));
    }
}

/// A name on its way into the name table.
pub struct SarcString<'a> {
    pub inner: &'a str,
}

impl<'a> SarcString<'a> {
    /// Takes the name as it is.
    pub fn from(inner: &'a str) -> (string: Self)
        ensures
            string.inner@ == inner@,
    {
        Self { inner }
    }

    /// Appends the name's record: its UTF-8 bytes, a zero byte, and zeros up
    /// to the next multiple of four.
    pub fn write(&self, out: &mut Vec<u8>)
        ensures
            final(out)@ == old(out)@ + name_record(self.inner@),
    {
        let text = self.inner.as_bytes();
        let padding: usize = (4 - (text.len() % 4 + 1) % 4) % 4;
        push_bytes(out, text);
        out.push(0u8);
        push_zeros(out, padding);
        proof {
            let terminated = text@.push(0u8);
            assert(padding == padding_to(terminated.len() as int, 4));
            assert(out@ == old(out)@ + (terminated + zeros(padding as int)));
        }
    }
}

impl SarcEntry {
    /// The hash under which the entry is filed.
    pub fn hash(&self) -> (hash: u32)
        ensures
            hash == entry_hash(self@),
    {
        match &self.name {
            Some(name) => sfat_hash(name.as_str()),
            None => 0,
        }
    }
}

/// Whether `order` is the table order of the given entries.
pub open spec fn orders(order: Seq<usize>, files: Seq<crate::Entry>) -> bool {
    order.map_values(|i: usize| i as int) == table_order(entry_hashes(files))
}

/// With the table order at hand, the entries in table order are the entries
/// picked by it.
pub proof fn lemma_orders(order: Seq<usize>, files: Seq<crate::Entry>)
    requires
        orders(order, files),
    ensures
        order.len() == files.len(),
        in_table_order(files).len() == files.len(),
        forall|k: int|
            0 <= k < order.len() ==> 0 <= #[trigger] order[k] < files.len() && in_table_order(
                files,
            )[k] == files[order[k] as int],
{
    let keys = entry_hashes(files);
    crate::order::lemma_table_order(keys);
    let ints = order.map_values(|i: usize| i as int);
    assert forall|k: int| 0 <= k < order.len() implies 0 <= #[trigger] order[k] < files.len()
        && in_table_order(files)[k] == files[order[k] as int] by {
        assert(ints[k] == order[k] as int);
        assert(0 <= table_order(keys)[k] < keys.len());
    }
}

impl SarcFile {
    /// The positions of the entries in the order of the file table.
    pub fn table_order(&self) -> (order: Vec<usize>)
        ensures
            orders(order@, self@.files),
    {
        let mut hashes: Vec<u32> = Vec::new();
        let mut next: usize = 0;
        while next < self.files.len()
            invariant
                next <= self.files.len(),
                hashes@ == entry_hashes(self@.files).take(next as int),
            decreases self.files.len() - next,
        {
            let hash: u32 = self.files[next].hash();
            hashes.push(hash);
            next = next + 1;
        }
        proof {
            assert(hashes@ == entry_hashes(self@.files));
        }
        sort_by_hash(&hashes)
    }

    /// Writes the archive, uncompressed.
    ///
    /// A size, an offset or a count that is too large for its field is
    /// recorded by its low bits.
    #[verifier::rlimit(40)]
    pub fn write(&self) -> (out: Vec<u8>)
        ensures
            out@ == archive_bytes(self@),
    {
        let order = self.table_order();
        let (string_offsets, string_section) = self.generate_string_section(&order);
        let (data_starts, data_section) = self.generate_data_section(&order);
        let ghost entries = in_table_order(self@.files);
        proof {
            lemma_orders(order@, self@.files);
        }

        let (tables_end, data_padding) = padding_before_data(
            self.files.len(),
            string_section.len(),
        );
        let data_offset: u128 = tables_end + (data_padding as u128);
        let file_size: u128 = data_offset + (data_section.len() as u128);
        let byte_order = self.byte_order;
        let header = SarcHeader {
            file_size: low32_of(file_size),
            data_offset: low32_of(data_offset),
        };
        let table = Sfat {
            entries: self.get_sfat_entries(&order, &string_offsets, &data_starts, data_offset),
        };
        let ghost head = header_bytes(byte_order, file_size as int, data_offset as int);
        let ghost records = sfat_header_bytes(byte_order, entries.len() as int)
            + sfat_entries_bytes(
            byte_order,
            sfat_entries(entries, data_offset as int),
            entries.len() as int,
        );
        proof {
            lemma_low32_twice(file_size as int);
            lemma_low32_twice(data_offset as int);
            assert(data_offset == crate::layout::data_offset(entries));
        }

        proof {
            reveal(archive_bytes);
        }
        let mut out: Vec<u8> = Vec::new();
        header.write(byte_order, &mut out);
        assert(out@ == head);
        table.write(byte_order, &mut out);
        assert(out@ == head + records);
        write_sfnt_header(byte_order, &mut out);
        push_bytes(&mut out, string_section.as_slice());
        assert(out@ == head + records + sfnt_header_bytes(byte_order) + name_table(entries));
        push_zeros(&mut out, data_padding);
        push_bytes(&mut out, data_section.as_slice());
        out
    }

    /// Writes the archive into a Yaz0 stream.
    pub fn write_yaz0(&self) -> (out: Result<Vec<u8>, Error>)
        ensures
            out matches Ok(bytes) && bytes@ == yaz0_stream(archive_bytes(self@)),
    {
        let temp = self.write();
        match yaz0_compress(temp.as_slice()) {
            Ok(bytes) => Ok(bytes),
            Err(error) => Err(Error::CompressionError(CompressionError::Yaz0(error))),
        }
    }

    /// Writes the archive into a Zstandard frame.
    pub fn write_zstd(&self) -> (out: Result<Vec<u8>, Error>)
        ensures
            match out {
                Ok(bytes) => bytes@ == zstd_compressed(archive_bytes(self@)),
                Err(error) => error matches Error::CompressionError(CompressionError::Zstd(_)),
            },
    {
        let temp = self.write();
        match zstd_compress(temp.as_slice()) {
            Ok(bytes) => Ok(bytes),
            Err(error) => Err(Error::CompressionError(CompressionError::Zstd(error))),
        }
    }

    /// Writes the archive into a compressed stream of the caller's choice.
    pub fn write_compressed(&self, scheme: Compression) -> (out: Result<Vec<u8>, Error>)
        ensures
            match scheme {
                Compression::Yaz0 => out matches Ok(bytes) && bytes@ == yaz0_stream(
                    archive_bytes(self@),
                ),
                Compression::Zstd => match out {
                    Ok(bytes) => bytes@ == zstd_compressed(archive_bytes(self@)),
                    Err(error) => error matches Error::CompressionError(
                        CompressionError::Zstd(_),
                    ),
                },
            },
    {
        match scheme {
            Compression::Yaz0 => self.write_yaz0(),
            Compression::Zstd => self.write_zstd(),
        }
    }

    /// The records of the file table, in table order.
    pub fn get_sfat_entries(
        &self,
        order: &Vec<usize>,
        string_offsets: &Vec<usize>,
        data_starts: &Vec<usize>,
        data_offset: u128,
    ) -> (records: Vec<SfatEntry>)
        requires
            orders(order@, self@.files),
            string_offsets@.len() == self@.files.len(),
            data_starts@.len() == self@.files.len(),
            forall|k: int|
                0 <= k < self@.files.len() ==> #[trigger] string_offsets@[k] == name_offset(
                    in_table_order(self@.files),
                    k,
                ),
            forall|k: int|
                0 <= k < self@.files.len() ==> #[trigger] data_starts@[k] == data_start(
                    in_table_order(self@.files),
                    k,
                ),
            data_offset <= 0xFFFF_FFFF_FFFF_FFFF_FFFF,
        ensures
            records@ == sfat_entries(in_table_order(self@.files), data_offset as int),
    {
        let ghost entries = in_table_order(self@.files);
        proof {
            lemma_orders(order@, self@.files);
        }
        let mut records: Vec<SfatEntry> = Vec::new();
        let mut k: usize = 0;
        while k < order.len()
            invariant
                k <= order.len(),
                entries == in_table_order(self@.files),
                order@.len() == self@.files.len(),
                entries.len() == self@.files.len(),
                string_offsets@.len() == self@.files.len(),
                data_starts@.len() == self@.files.len(),
                data_offset <= 0xFFFF_FFFF_FFFF_FFFF_FFFF,
                forall|j: int|
                    0 <= j < order@.len() ==> 0 <= #[trigger] order@[j] < self@.files.len()
                        && entries[j] == self@.files[order@[j] as int],
                forall|j: int|
                    0 <= j < self@.files.len() ==> #[trigger] string_offsets@[j] == name_offset(
                        entries,
                        j,
                    ),
                forall|j: int|
                    0 <= j < self@.files.len() ==> #[trigger] data_starts@[j] == data_start(
                        entries,
                        j,
                    ),
                records@.len() == k,
                forall|j: int|
                    0 <= j < k ==> #[trigger] records@[j] == sfat_entry(
                        entries,
                        data_offset as int,
                        j,
                    ),
            decreases order.len() - k,
        {
            let file = &self.files[order[k]];
            let start: u128 = data_offset + (data_starts[k] as u128);
            let end: u128 = start + (file.data.len() as u128);
            let name_table_offset: Option<u32> = match &file.name {
                Some(_) => Some(low32_of(string_offsets[k] as u128)),
                None => None,
            };
            records.push(
                SfatEntry {
                    name_hash: file.hash(),
                    name_table_offset,
                    file_range: (low32_of(start), low32_of(end)),
                },
            );
            k = k + 1;
        }
        proof {
            assert(records@ =~= sfat_entries(entries, data_offset as int));
        }
        records
    }

    /// The name table, and for each position of the table order the offset
    /// within it at which that entry's name record would start.
    pub fn generate_string_section(&self, order: &Vec<usize>) -> (section: (Vec<usize>, Vec<u8>))
        requires
            orders(order@, self@.files),
        ensures
            section.1@ == name_table(in_table_order(self@.files)),
            section.0@.len() == self@.files.len(),
            forall|k: int|
                0 <= k < section.0@.len() ==> #[trigger] section.0@[k] == name_offset(
                    in_table_order(self@.files),
                    k,
                ),
    {
        let ghost entries = in_table_order(self@.files);
        proof {
            lemma_orders(order@, self@.files);
        }
        let mut offsets: Vec<usize> = Vec::new();
        let mut names: Vec<u8> = Vec::new();
        let mut k: usize = 0;
        while k < order.len()
            invariant
                k <= order.len(),
                entries == in_table_order(self@.files),
                order@.len() == self@.files.len(),
                entries.len() == self@.files.len(),
                forall|j: int|
                    0 <= j < order@.len() ==> 0 <= #[trigger] order@[j] < self@.files.len()
                        && entries[j] == self@.files[order@[j] as int],
                names@ == name_table(entries.take(k as int)),
                offsets@.len() == k,
                forall|j: int| 0 <= j < k ==> #[trigger] offsets@[j] == name_offset(entries, j),
            decreases order.len() - k,
        {
            let entry = &self.files[order[k]];
            proof {
                assert(entries.take(k as int + 1).drop_last() == entries.take(k as int));
                assert(entries.take(k as int + 1).last() == entry@);
            }
            offsets.push(names.len());
            match &entry.name {
                Some(name) => {
                    SarcString::from(name.as_str()).write(&mut names);
                },
                None => {
                    assert(names@ + Seq::<u8>::empty() == names@);
                },
            }
            k = k + 1;
        }
        proof {
            assert(entries.take(k as int) == entries);
        }
        (offsets, names)
    }

    /// The data section, and for each position of the table order the offset
    /// within it at which that entry's payload starts.
    pub fn generate_data_section(&self, order: &Vec<usize>) -> (section: (Vec<usize>, Vec<u8>))
        requires
            orders(order@, self@.files),
        ensures
            section.1@ == data_section(in_table_order(self@.files)),
            section.0@.len() == self@.files.len(),
            forall|k: int|
                0 <= k < section.0@.len() ==> #[trigger] section.0@[k] == data_start(
                    in_table_order(self@.files),
                    k,
                ),
    {
        let ghost entries = in_table_order(self@.files);
        proof {
            lemma_orders(order@, self@.files);
        }
        let mut starts: Vec<usize> = Vec::new();
        let mut data: Vec<u8> = Vec::new();
        let mut k: usize = 0;
        while k < order.len()
            invariant
                k <= order.len(),
                entries == in_table_order(self@.files),
                order@.len() == self@.files.len(),
                entries.len() == self@.files.len(),
                forall|j: int|
                    0 <= j < order@.len() ==> 0 <= #[trigger] order@[j] < self@.files.len()
                        && entries[j] == self@.files[order@[j] as int],
                data@ == data_section(entries.take(k as int)),
                starts@.len() == k,
                forall|j: int| 0 <= j < k ==> #[trigger] starts@[j] == data_start(entries, j),
            decreases order.len() - k,
        {
            let entry = &self.files[order[k]];
            proof {
                assert(entries.take(k as int + 1).drop_last() == entries.take(k as int));
                assert(entries.take(k as int + 1).last() == entry@);
            }
            let padding: usize = (0x2000 - data.len() % 0x2000) % 0x2000;
            push_zeros(&mut data, padding);
            starts.push(data.len());
            push_bytes(&mut data, entry.data.as_slice());
            k = k + 1;
        }
        proof {
            assert(entries.take(k as int) == entries);
        }
        (starts, data)
    }
}

} // verus!
