//! Reading an archive from bytes.
use crate::bytes::{u16_at, u32_at};
use crate::envelope::{
    envelope_of, sniff, yaz0_decompress, yaz0_decompressed, yaz0_is_safe, yaz0_stream_is_safe,
    zstd_decompress, zstd_decompressed, Collaborators, CompressionError, Envelope,
};
use crate::layout::{sarc_magic, sfat_magic, HAS_NAME};
use crate::{Archive, Endian, Entry, SarcEntry, SarcFile};
use vstd::prelude::*;
use vstd::slice::{slice_subrange, slice_to_vec};
use vstd::utf8::{decode_utf8, encode_utf8, valid_utf8};

verus! {

/// An error while reading an archive.
#[derive(Debug)]
pub enum Error {
    /// The source could not be read.
    IoError(std::io::Error),
    /// A magic other than the expected one stands at the start of the header
    /// or of the file table.
    BadMagic,
    /// The byte-order mark is neither `0xFEFF` nor `0xFFFE`.
    InvalidByteOrderMark,
    /// The buffer ends before a structure does, or a payload lies outside it.
    ParseError,
    /// The buffer holds a compressed stream that the caller did not allow.
    MissingCapability,
    /// A compressor reported a failure.
    CompressionError(CompressionError),
}

/// What the archive header says.
pub struct SarcHeader {
    pub byte_order: Endian,
    pub file_size: u32,
    pub data_offset: u32,
}

/// What a record of the file table says of its entry.
pub struct SfatNode {
    /// Hash of the entry's name, by which the table is sorted.
    pub name_hash: u32,
    /// Word offset of the name within the name table, for a named entry.
    pub name_offset: Option<u16>,
    /// Start and end of the payload, counted from the start of the archive.
    pub file_range: (u32, u32),
}

/// The byte order that a mark stands for.
pub open spec fn byte_order_of(mark: u16) -> Option<Endian> {
    if mark == 0xFEFF {
        Some(Endian::Big)
    } else if mark == 0xFFFE {
        Some(Endian::Little)
    } else {
        None
    }
}

/// The header at the start of `data`: the magic, then at offset 6 the mark,
/// read most significant byte first, then the sizes in the order it names.
pub open spec fn header_of(data: Seq<u8>) -> Result<SarcHeader, Error> {
    if data.len() < 4 {
        Err(Error::ParseError)
    } else if data.subrange(0, 4) != sarc_magic() {
        Err(Error::BadMagic)
    } else if data.len() < 8 {
        Err(Error::ParseError)
    } else {
        match byte_order_of(u16_at(Endian::Big, data, 6)) {
            None => Err(Error::InvalidByteOrderMark),
            Some(order) => if data.len() < 0x14 {
                Err(Error::ParseError)
            } else {
                Ok(
                    SarcHeader {
                        byte_order: order,
                        file_size: u32_at(order, data, 8),
                        data_offset: u32_at(order, data, 12),
                    },
                )
            },
        }
    }
}

/// The name offset that a name field holds: its low 16 bits, where the
/// has-name bit is set.
pub open spec fn name_offset_of(field: u32) -> Option<u16> {
    if field & HAS_NAME != 0 {
        Some((field % 0x1_0000) as u16)
    } else {
        None
    }
}

/// The record at `at`.
pub open spec fn node_at(order: Endian, data: Seq<u8>, at: int) -> SfatNode {
    SfatNode {
        name_hash: u32_at(order, data, at),
        name_offset: name_offset_of(u32_at(order, data, at + 4)),
        file_range: (u32_at(order, data, at + 8), u32_at(order, data, at + 12)),
    }
}

/// The records of the file table at `at`.
pub open spec fn nodes_of(order: Endian, data: Seq<u8>, at: int) -> Result<Seq<SfatNode>, Error> {
    if data.len() < at + 4 {
        Err(Error::ParseError)
    } else if data.subrange(at, at + 4) != sfat_magic() {
        Err(Error::BadMagic)
    } else if data.len() < at + 0xC {
        Err(Error::ParseError)
    } else {
        let count = u16_at(order, data, at + 6);
        if data.len() < at + 0xC + 0x10 * count {
            Err(Error::ParseError)
        } else {
            Ok(Seq::new(count as nat, |k: int| node_at(order, data, at + 0xC + 0x10 * k)))
        }
    }
}

/// The position of the first zero byte at or behind `from`, or the length
/// of `data` where there is none.
pub open spec fn first_zero(data: Seq<u8>, from: int) -> int
    decreases data.len() - from,
{
    if from >= data.len() {
        data.len() as int
    } else if data[from] == 0 {
        from
    } else {
        first_zero(data, from + 1)
    }
}

/// The name at `offset` of a name table: the bytes up to the next zero byte,
/// where there is one and they are UTF-8.
pub open spec fn name_at(names: Seq<u8>, offset: int) -> Option<Seq<char>> {
    let end = first_zero(names, offset);
    if end < names.len() && valid_utf8(names.subrange(offset, end)) {
        Some(decode_utf8(names.subrange(offset, end)))
    } else {
        None
    }
}

/// Whether every payload lies within a buffer of `len` bytes.
pub open spec fn ranges_fit(nodes: Seq<SfatNode>, len: int) -> bool {
    forall|k: int|
        0 <= k < nodes.len() ==> (#[trigger] nodes[k]).file_range.0 <= nodes[k].file_range.1
            <= len
}

/// The entry that a record describes, where the names start at `names_at`.
pub open spec fn entry_of(data: Seq<u8>, names_at: int, node: SfatNode) -> Entry {
    Entry {
        name: match node.name_offset {
            Some(offset) => name_at(data.subrange(names_at, data.len() as int), offset * 4),
            None => None,
        },
        data: data.subrange(node.file_range.0 as int, node.file_range.1 as int),
    }
}

/// The archive that `data` holds, or the error that reading it ends in.
pub open spec fn archive_of(data: Seq<u8>) -> Result<Archive, Error> {
    match header_of(data) {
        Err(error) => Err(error),
        Ok(header) => match nodes_of(header.byte_order, data, 0x14) {
            Err(error) => Err(error),
            Ok(nodes) => {
                let names_at = 0x14 + 0xC + 0x10 * (nodes.len() as int) + 8;
                if data.len() < names_at || !ranges_fit(nodes, data.len() as int) {
                    Err(Error::ParseError)
                } else {
                    Ok(
                        Archive {
                            byte_order: header.byte_order,
                            files: Seq::new(nodes.len(), |k: int| entry_of(data, names_at, nodes[k])),
                        },
                    )
                }
            },
        },
    }
}

/// Whether a result of reading is the expected one.
pub open spec fn agrees(result: Result<SarcFile, Error>, expected: Result<Archive, Error>) -> bool {
    match result {
        Ok(file) => expected == Ok::<Archive, Error>(file@),
        Err(error) => expected == Err::<Archive, Error>(error),
    }
}

/// Decodes UTF-8 with `std::str::from_utf8` and copies the text.
///
/// Trusted: it succeeds on valid UTF-8 and on nothing else, and the text is
/// the one whose UTF-8 bytes were given.
#[verifier::external_body]
fn text_of(bytes: &[u8]) -> (text: Option<String>)
    ensures
        text is Some <==> valid_utf8(bytes@),
        text matches Some(s) ==> encode_utf8(s@) == bytes@,
{
    match std::str::from_utf8(bytes) {
        Ok(text) => Some(String::from(text)),
        Err(_) => None,
    }
}

/// The name at `offset` of a name table.
pub fn get_string(slice: &[u8], offset: usize) -> (name: Option<String>)
    ensures
        match name {
            Some(text) => name_at(slice@, offset as int) == Some(text@),
            None => name_at(slice@, offset as int) is None,
        },
{
    let mut i: usize = offset;
    while i < slice.len()
        invariant
            offset <= i,
            first_zero(slice@, offset as int) == first_zero(slice@, i as int),
        decreases slice.len() - i,
    {
        if slice[i] == 0 {
            let text = text_of(slice_subrange(slice, offset, i));
            proof {
                if text is Some {
                    vstd::utf8::encode_utf8_decode_utf8(text->0@);
                }
            }
            return text;
        }
        i = i + 1;
    }
    None
}

impl Endian {
    /// The byte order that a mark stands for.
    pub fn from_mark(mark: u16) -> (order: Option<Endian>)
        ensures
            order == byte_order_of(mark),
    {
        if mark == 0xFEFF {
            Some(Endian::Big)
        } else if mark == 0xFFFE {
            Some(Endian::Little)
        } else {
            None
        }
    }
}

/// Whether the four bytes at `at` are the given ones.
fn has_magic(data: &[u8], at: usize, magic: [u8; 4]) -> (found: bool)
    requires
        at + 4 <= data@.len(),
    ensures
        found == (data@.subrange(at as int, at + 4) == magic@),
{
    let ghost head = data@.subrange(at as int, at + 4);
    proof {
        assert(head[0] == data@[at as int] && head[1] == data@[at + 1]);
        assert(head[2] == data@[at + 2] && head[3] == data@[at + 3]);
    }
    let found = data[at] == magic[0] && data[at + 1] == magic[1] && data[at + 2] == magic[2]
        && data[at + 3] == magic[3];
    proof {
        assert(magic@.len() == 4);
        if found {
            assert(head =~= magic@);
        }
    }
    found
}

impl SarcHeader {
    /// Reads the archive header.
    pub fn parse(data: &[u8]) -> (header: Result<SarcHeader, Error>)
        ensures
            header == header_of(data@),
    {
        if data.len() < 4 {
            return Err(Error::ParseError);
        }
        if !has_magic(data, 0, [0x53, 0x41, 0x52, 0x43]) {
            return Err(Error::BadMagic);
        }
        let mark = match Endian::Big.take_u16(data, 6) {
            Some(mark) => mark,
            None => { return Err(Error::ParseError); },
        };
        match Endian::from_mark(mark) {
            Some(byte_order) => Self::parse_endian(data, byte_order),
            None => Err(Error::InvalidByteOrderMark),
        }
    }

    /// Reads the sizes of the archive header in the given byte order.
    pub fn parse_endian(data: &[u8], byte_order: Endian) -> (header: Result<SarcHeader, Error>)
        ensures
            header == (if data@.len() < 0x14 {
                Err::<SarcHeader, Error>(Error::ParseError)
            } else {
                Ok::<SarcHeader, Error>(
                    SarcHeader {
                        byte_order,
                        file_size: u32_at(byte_order, data@, 8),
                        data_offset: u32_at(byte_order, data@, 12),
                    },
                )
            }),
    {
        if data.len() < 0x14 {
            return Err(Error::ParseError);
        }
        let file_size = match byte_order.take_u32(data, 8) {
            Some(value) => value,
            None => { return Err(Error::ParseError); },
        };
        let data_offset = match byte_order.take_u32(data, 12) {
            Some(value) => value,
            None => { return Err(Error::ParseError); },
        };
        Ok(SarcHeader { byte_order, file_size, data_offset })
    }
}

/// Reads the file table at `at`.
pub fn parse_sfat(byte_order: Endian, data: &[u8], at: usize) -> (nodes: Result<
    Vec<SfatNode>,
    Error,
>)
    ensures
        match nodes {
            Ok(nodes) => nodes_of(byte_order, data@, at as int) == Ok::<Seq<SfatNode>, Error>(
                nodes@,
            ),
            Err(error) => nodes_of(byte_order, data@, at as int) == Err::<Seq<SfatNode>, Error>(
                error,
            ),
        },
{
    if data.len() < 4 || at > data.len() - 4 {
        return Err(Error::ParseError);
    }
    if !has_magic(data, at, [0x53, 0x46, 0x41, 0x54]) {
        return Err(Error::BadMagic);
    }
    if data.len() - at < 0xC {
        return Err(Error::ParseError);
    }
    let node_count = match byte_order.take_u16(data, at + 6) {
        Some(count) => count as usize,
        None => { return Err(Error::ParseError); },
    };
    if 0x10 * node_count > data.len() - at - 0xC {
        return Err(Error::ParseError);
    }
    let mut nodes: Vec<SfatNode> = Vec::new();
    let mut k: usize = 0;
    while k < node_count
        invariant
            k <= node_count,
            node_count <= 0xFFFF,
            data@.len() <= usize::MAX,
            at + 0xC + 0x10 * node_count <= data@.len(),
            nodes@.len() == k,
            forall|j: int|
                0 <= j < k ==> #[trigger] nodes@[j] == node_at(
                    byte_order,
                    data@,
                    at + 0xC + 0x10 * j,
                ),
        decreases node_count - k,
    {
        let record: usize = at + 0xC + 0x10 * k;
        let name_hash = match byte_order.take_u32(data, record) {
            Some(value) => value,
            None => { return Err(Error::ParseError); },
        };
        let file_attrs = match byte_order.take_u32(data, record + 4) {
            Some(value) => value,
            None => { return Err(Error::ParseError); },
        };
        let file_start = match byte_order.take_u32(data, record + 8) {
            Some(value) => value,
            None => { return Err(Error::ParseError); },
        };
        let file_end = match byte_order.take_u32(data, record + 12) {
            Some(value) => value,
            None => { return Err(Error::ParseError); },
        };
        let name_offset: Option<u16> = if file_attrs & HAS_NAME != 0 {
            Some((file_attrs % 0x1_0000) as u16)
        } else {
            None
        };
        nodes.push(SfatNode { name_hash, name_offset, file_range: (file_start, file_end) });
        k = k + 1;
    }
    proof {
        assert(nodes@ =~= Seq::new(
            node_count as nat,
            |k: int| node_at(byte_order, data@, at + 0xC + 0x10 * k),
        ));
    }
    Ok(nodes)
}

impl SarcFile {
    /// Reads an archive, with or without compression around it.
    pub fn read(data: &[u8]) -> (file: Result<Self, Error>)
        ensures
            read_result(data@, Collaborators { yaz0: true, zstd: true }, file),
    {
        Self::read_with(data, Collaborators { yaz0: true, zstd: true })
    }

    /// Reads an archive, opening only the compressed streams that the caller
    /// allows.
    pub fn read_with(data: &[u8], allowed: Collaborators) -> (file: Result<Self, Error>)
        ensures
            read_result(data@, allowed, file),
    {
        if data.len() < 4 {
            return Err(Error::ParseError);
        }
        match sniff(data) {
            Envelope::Plain => Self::parse(data),
            Envelope::Yaz0 => {
                if !allowed.yaz0 {
                    Err(Error::MissingCapability)
                } else if !yaz0_is_safe(data) {
                    Err(Error::ParseError)
                } else {
                    match yaz0_decompress(data) {
                        Ok(contents) => Self::parse_decompressed(Ok(contents)),
                        Err(error) => Self::parse_decompressed(
                            Err(CompressionError::Yaz0(error)),
                        ),
                    }
                }
            },
            Envelope::Zstd => {
                if !allowed.zstd {
                    Err(Error::MissingCapability)
                } else {
                    match zstd_decompress(data) {
                        Ok(contents) => Self::parse_decompressed(Ok(contents)),
                        Err(error) => Self::parse_decompressed(
                            Err(CompressionError::Zstd(error)),
                        ),
                    }
                }
            },
        }
    }

    /// Reads the archive out of what a compressor gave back.
    pub fn parse_decompressed(contents: Result<Vec<u8>, CompressionError>) -> (file: Result<
        Self,
        Error,
    >)
        ensures
            match contents {
                Ok(bytes) => agrees(file, archive_of(bytes@)),
                Err(error) => file matches Err(Error::CompressionError(reported)) && reported
                    == error,
            },
    {
        match contents {
            Ok(bytes) => Self::parse(bytes.as_slice()),
            Err(error) => Err(Error::CompressionError(error)),
        }
    }

    /// Reads an archive that has no compression around it.
    pub fn parse(data: &[u8]) -> (file: Result<Self, Error>)
        ensures
            agrees(file, archive_of(data@)),
    {
        let header = match SarcHeader::parse(data) {
            Ok(header) => header,
            Err(error) => { return Err(error); },
        };
        let byte_order = header.byte_order;
        let nodes = match parse_sfat(byte_order, data, 0x14) {
            Ok(nodes) => nodes,
            Err(error) => { return Err(error); },
        };
        assert(nodes@.len() <= 0xFFFF);
        let names_at: usize = 0x14 + 0xC + 0x10 * nodes.len() + 8;
        if data.len() < names_at {
            return Err(Error::ParseError);
        }
        let string_data = slice_subrange(data, names_at, data.len());
        let mut files: Vec<SarcEntry> = Vec::new();
        let mut k: usize = 0;
        while k < nodes.len()
            invariant
                k <= nodes@.len(),
                names_at <= data@.len(),
                names_at == 0x14 + 0xC + 0x10 * nodes@.len() + 8,
                header_of(data@) == Ok::<SarcHeader, Error>(header),
                byte_order == header.byte_order,
                nodes_of(byte_order, data@, 0x14) == Ok::<Seq<SfatNode>, Error>(nodes@),
                string_data@ == data@.subrange(names_at as int, data@.len() as int),
                files@.len() == k,
                forall|j: int|
                    0 <= j < k ==> (#[trigger] nodes@[j]).file_range.0 <= nodes@[j].file_range.1
                        <= data@.len(),
                forall|j: int|
                    0 <= j < k ==> (#[trigger] files@[j])@ == entry_of(
                        data@,
                        names_at as int,
                        nodes@[j],
                    ),
            decreases nodes@.len() - k,
        {
            let node = &nodes[k];
            let start: usize = node.file_range.0 as usize;
            let end: usize = node.file_range.1 as usize;
            if start > end || end > data.len() {
                proof {
                    let node = nodes@[k as int];
                    assert(!(node.file_range.0 <= node.file_range.1 <= data@.len()));
                }
                return Err(Error::ParseError);
            }
            let name = match node.name_offset {
                Some(offset) => get_string(string_data, (offset as usize) * 4),
                None => None,
            };
            let contents = slice_to_vec(slice_subrange(data, start, end));
            files.push(SarcEntry { name, data: contents });
            k = k + 1;
        }
        let file = SarcFile { byte_order, files };
        proof {
            assert(ranges_fit(nodes@, data@.len() as int));
            assert(file@.files =~= Seq::new(
                nodes@.len(),
                |k: int| entry_of(data@, names_at as int, nodes@[k]),
            ));
        }
        Ok(file)
    }
}

/// What reading `data` comes to, with the compressed streams that the caller
/// allows.
pub open spec fn read_result(
    data: Seq<u8>,
    allowed: Collaborators,
    file: Result<SarcFile, Error>,
) -> bool {
    if data.len() < 4 {
        file matches Err(Error::ParseError)
    } else {
        match envelope_of(data) {
            Envelope::Plain => agrees(file, archive_of(data)),
            Envelope::Yaz0 => if !allowed.yaz0 {
                file matches Err(Error::MissingCapability)
            } else if !yaz0_stream_is_safe(data) {
                file matches Err(Error::ParseError)
            } else {
                match yaz0_decompressed(data) {
                    Some(contents) => agrees(file, archive_of(contents)),
                    None => file matches Err(Error::CompressionError(CompressionError::Yaz0(_))),
                }
            },
            Envelope::Zstd => if !allowed.zstd {
                file matches Err(Error::MissingCapability)
            } else {
                ||| file matches Err(Error::CompressionError(CompressionError::Zstd(_)))
                ||| zstd_decompressed(data) matches Some(contents) && agrees(
                    file,
                    archive_of(contents),
                )
            },
        }
    }
}

} // verus!
