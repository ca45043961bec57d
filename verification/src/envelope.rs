//! The compressed streams that may wrap an archive: telling them apart by
//! their first bytes, and handing them to the compressors.
use crate::bytes::{u32_at, u32_bytes};
use crate::layout::{low32, zeros};
use crate::Endian;
use vstd::prelude::*;

verus! {

/// The error of `std::io`, carried through as it came.
#[verifier::external_type_specification]
#[verifier::external_body]
pub struct ExIoError(std::io::Error);

/// The error of the `yaz0` crate, variant by variant.
#[derive(Debug)]
pub enum Yaz0Error {
    /// Reading the stream or writing it failed.
    Io(std::io::Error),
    /// The stream does not start with the Yaz0 magic.
    InvalidMagic,
}

/// A failure that a compressor reported.
#[derive(Debug)]
pub enum CompressionError {
    Yaz0(Yaz0Error),
    Zstd(std::io::Error),
}

/// The compressed streams that a caller lets `read_with` open.
#[derive(Debug, Clone, Copy, PartialEq, Eq, Structural)]
pub struct Collaborators {
    pub yaz0: bool,
    pub zstd: bool,
}

/// A compressed stream to write an archive into.
#[derive(Debug, Clone, Copy, PartialEq, Eq, Structural)]
pub enum Compression {
    Yaz0,
    Zstd,
}

/// The contents of a Yaz0 stream as the `yaz0` crate decompresses it, `None`
/// where it reports an error.
pub uninterp spec fn yaz0_decompressed(data: Seq<u8>) -> Option<Seq<u8>>;

/// The operations into which the `yaz0` crate compresses `data` with its
/// lookahead search at quality 10: what follows the sixteen bytes of header.
pub uninterp spec fn yaz0_payload(data: Seq<u8>) -> Seq<u8>;

/// The contents of the Zstandard frames of `data`, `None` where they are
/// not well formed.
pub uninterp spec fn zstd_decompressed(data: Seq<u8>) -> Option<Seq<u8>>;

/// The frame into which the `zstd` crate compresses `data` at its default
/// level.
pub uninterp spec fn zstd_compressed(data: Seq<u8>) -> Seq<u8>;

/// A Yaz0 stream: the magic, the size of the contents as a 32-bit big-endian
/// number, eight zero bytes, and the operations.
pub open spec fn yaz0_stream(data: Seq<u8>) -> Seq<u8> {
    yaz0_magic() + u32_bytes(Endian::Big, low32(data.len() as int)) + zeros(8) + yaz0_payload(data)
}

/// The first bytes of a Yaz0 stream, `Yaz0`.
pub open spec fn yaz0_magic() -> Seq<u8> {
    seq![0x59u8, 0x61u8, 0x7Au8, 0x30u8]
}

/// The first bytes of a Zstandard frame.
pub open spec fn zstd_magic() -> Seq<u8> {
    seq![0x28u8, 0xB5u8, 0x2Fu8, 0xFDu8]
}

/// What the first four bytes of a buffer say that it holds.
#[derive(Debug, Clone, Copy, PartialEq, Eq, Structural)]
pub enum Envelope {
    /// A Yaz0 stream.
    Yaz0,
    /// A Zstandard frame.
    Zstd,
    /// Neither: the archive itself.
    Plain,
}

/// The envelope of a buffer: a compressed stream where it starts with the
/// four bytes of one.
pub open spec fn envelope_of(data: Seq<u8>) -> Envelope {
    if data.len() >= 4 && data.subrange(0, 4) == yaz0_magic() {
        Envelope::Yaz0
    } else if data.len() >= 4 && data.subrange(0, 4) == zstd_magic() {
        Envelope::Zstd
    } else {
        Envelope::Plain
    }
}

/// Tells the envelope of a buffer by its first four bytes.
pub fn sniff(data: &[u8]) -> (envelope: Envelope)
    ensures
        envelope == envelope_of(data@),
{
    if data.len() < 4 {
        return Envelope::Plain;
    }
    let ghost head = data@.subrange(0, 4);
    if data[0] == 0x59 && data[1] == 0x61 && data[2] == 0x7A && data[3] == 0x30 {
        proof {
            assert(head == yaz0_magic());
        }
        Envelope::Yaz0
    } else if data[0] == 0x28 && data[1] == 0xB5 && data[2] == 0x2F && data[3] == 0xFD {
        proof {
            assert(head[0] == data@[0] && head[1] == data@[1]);
            assert(head[2] == data@[2] && head[3] == data@[3]);
            assert(head == zstd_magic());
        }
        Envelope::Zstd
    } else {
        proof {
            assert(head[0] == data@[0] && head[1] == data@[1]);
            assert(head[2] == data@[2] && head[3] == data@[3]);
        }
        Envelope::Plain
    }
}

/// The size that a Yaz0 stream announces for its contents: the 32-bit
/// big-endian number behind the magic.
pub open spec fn yaz0_announced_size(data: Seq<u8>) -> int {
    u32_at(Endian::Big, data, 4) as int
}

/// Whether the operations of a Yaz0 stream, from `pos` on, stay within what
/// has been written and within the announced size.
///
/// `written` bytes are out, `ops_left` operations of the group byte `code`
/// remain. A stream that ends early is safe: nothing more is written.
pub open spec fn yaz0_ops_are_safe(
    data: Seq<u8>,
    pos: int,
    written: int,
    ops_left: int,
    code: u8,
    size: int,
) -> bool
    decreases size - written, (if ops_left <= 0 { 1int } else { 0int }),
{
    if written >= size {
        true
    } else if ops_left <= 0 {
        pos < data.len() ==> yaz0_ops_are_safe(data, pos + 1, written, 8, data[pos], size)
    } else if code & 0x80 != 0 {
        pos < data.len() ==> yaz0_ops_are_safe(
            data,
            pos + 1,
            written + 1,
            ops_left - 1,
            code << 1,
            size,
        )
    } else if pos + 1 < data.len() {
        let distance = ((data[pos] & 0xf) as int) * 0x100 + (data[pos + 1] as int);
        if distance + 1 > written {
            false
        } else if data[pos] >> 4 == 0 {
            pos + 2 < data.len() ==> {
                let length = (data[pos + 2] as int) + 0x12;
                written + length <= size && yaz0_ops_are_safe(
                    data,
                    pos + 3,
                    written + length,
                    ops_left - 1,
                    code << 1,
                    size,
                )
            }
        } else {
            let length = ((data[pos] >> 4) as int) + 2;
            written + length <= size && yaz0_ops_are_safe(
                data,
                pos + 2,
                written + length,
                ops_left - 1,
                code << 1,
                size,
            )
        }
    } else {
        true
    }
}

/// Whether a Yaz0 stream can be decompressed without a copy that reaches
/// back before the start of the output or runs past the announced size.
pub open spec fn yaz0_stream_is_safe(data: Seq<u8>) -> bool {
    data.len() >= 8 ==> yaz0_announced_size(data) <= isize::MAX && yaz0_ops_are_safe(
        data,
        16,
        0,
        0,
        0,
        yaz0_announced_size(data),
    )
}

/// Walks the operations of a Yaz0 stream without writing anything.
pub fn yaz0_is_safe(data: &[u8]) -> (safe: bool)
    ensures
        safe == yaz0_stream_is_safe(data@),
{
    let announced = match Endian::Big.take_u32(data, 4) {
        Some(announced) => announced,
        None => { return true; },
    };
    if announced as u64 > isize::MAX as u64 {
        return false;
    }
    let size: u64 = announced as u64;
    let mut pos: usize = 16;
    let mut written: u64 = 0;
    let mut ops_left: u8 = 0;
    let mut code: u8 = 0;
    while written < size
        invariant
            written <= size,
            size == yaz0_announced_size(data@),
            size <= isize::MAX,
            data@.len() >= 8,
            ops_left <= 8,
            yaz0_ops_are_safe(data@, 16, 0, 0, 0, size as int) == yaz0_ops_are_safe(
                data@,
                pos as int,
                written as int,
                ops_left as int,
                code,
                size as int,
            ),
        decreases size - written, (if ops_left == 0 { 1int } else { 0int }),
    {
        if ops_left == 0 {
            if pos >= data.len() {
                return true;
            }
            code = data[pos];
            pos = pos + 1;
            ops_left = 8;
        } else if code & 0x80 != 0 {
            if pos >= data.len() {
                return true;
            }
            pos = pos + 1;
            written = written + 1;
            ops_left = ops_left - 1;
            code = code << 1;
        } else {
            if data.len() < 2 || pos >= data.len() - 1 {
                return true;
            }
            let first: u8 = data[pos];
            let second: u8 = data[pos + 1];
            assert(first & 0xf <= 0xf) by (bit_vector);
            assert(first >> 4 <= 0xf) by (bit_vector);
            let distance: u64 = ((first & 0xf) as u64) * 0x100 + (second as u64);
            if distance + 1 > written {
                return false;
            }
            let length: u64;
            if first >> 4 == 0 {
                if pos >= data.len() - 2 {
                    return true;
                }
                length = (data[pos + 2] as u64) + 0x12;
                pos = pos + 3;
            } else {
                length = ((first >> 4) as u64) + 2;
                pos = pos + 2;
            }
            if length > size - written {
                return false;
            }
            written = written + length;
            ops_left = ops_left - 1;
            code = code << 1;
        }
    }
    true
}

/// Decompresses a Yaz0 stream: `yaz0::Yaz0Archive::new` on a cursor over the
/// buffer, then `decompress`.
///
/// Trusted: the result is the crate's own, under the name
/// `yaz0_decompressed`. The crate indexes its output without a check, so
/// streams that are not safe are kept away from it.
#[verifier::external_body]
pub(crate) fn yaz0_decompress(data: &[u8]) -> (contents: Result<Vec<u8>, Yaz0Error>)
    requires
        yaz0_stream_is_safe(data@),
    ensures
        match contents {
            Ok(bytes) => yaz0_decompressed(data@) == Some(bytes@),
            Err(_) => yaz0_decompressed(data@) is None,
        },
{
    let contents = match yaz0::Yaz0Archive::new(std::io::Cursor::new(data)) {
        Ok(mut archive) => archive.decompress(),
        Err(error) => Err(error),
    };
    match contents {
        Ok(bytes) => Ok(bytes),
        Err(yaz0::Error::Io(error)) => Err(Yaz0Error::Io(error)),
        Err(yaz0::Error::InvalidMagic) => Err(Yaz0Error::InvalidMagic),
    }
}

/// Compresses into a Yaz0 stream: `yaz0::Yaz0Writer::compress_and_write`
/// into a vector, with the lookahead search at quality 10.
///
/// Trusted: the crate writes the header stated here and then its operations,
/// and fails only where the writer fails, which a vector never does.
#[verifier::external_body]
pub(crate) fn yaz0_compress(data: &[u8]) -> (stream: Result<Vec<u8>, Yaz0Error>)
    ensures
        stream is Ok,
        stream matches Ok(bytes) ==> bytes@ == yaz0_magic() + u32_bytes(
            Endian::Big,
            low32(data@.len() as int),
        ) + zeros(8) + yaz0_payload(data@),
{
    let mut stream = Vec::new();
    let level = yaz0::CompressionLevel::Lookahead { quality: 10 };
    match yaz0::Yaz0Writer::new(&mut stream).compress_and_write(data, level) {
        Ok(()) => Ok(stream),
        Err(yaz0::Error::Io(error)) => Err(Yaz0Error::Io(error)),
        Err(yaz0::Error::InvalidMagic) => Err(Yaz0Error::InvalidMagic),
    }
}

/// Decompresses Zstandard frames: `zstd::stream::copy_decode` from a cursor
/// over the buffer into a vector.
///
/// Trusted: where it succeeds, the result is the contents of the frames. An
/// error may also come from the machine, so nothing is said of it.
#[verifier::external_body]
pub(crate) fn zstd_decompress(data: &[u8]) -> (contents: Result<Vec<u8>, std::io::Error>)
    ensures
        contents matches Ok(bytes) ==> zstd_decompressed(data@) == Some(bytes@),
{
    let mut contents = Vec::new();
    zstd::stream::copy_decode(std::io::Cursor::new(data), &mut contents)?;
    Ok(contents)
}

/// Compresses into a Zstandard frame: `zstd::stream::encode_all` at
/// `zstd::DEFAULT_COMPRESSION_LEVEL`.
///
/// Trusted: where it succeeds, the result is the crate's own, under the name
/// `zstd_compressed`.
#[verifier::external_body]
pub(crate) fn zstd_compress(data: &[u8]) -> (frame: Result<Vec<u8>, std::io::Error>)
    ensures
        frame matches Ok(bytes) ==> bytes@ == zstd_compressed(data@),
{
    zstd::stream::encode_all(data, zstd::DEFAULT_COMPRESSION_LEVEL)
}

} // verus!
