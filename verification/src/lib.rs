//! Reading and writing SARC archives: a flat, hash-indexed container of
//! named or anonymous byte blobs, optionally wrapped in a Yaz0 or Zstandard
//! stream.
use vstd::prelude::*;

pub mod bytes;
pub mod envelope;
pub mod laws;
pub mod layout;
pub mod order;
pub mod parser;
pub mod writer;
pub mod written;

verus! {

/// Byte order of every multi-byte field of an archive's header and tables.
#[derive(Debug, Clone, Copy, PartialEq, Eq, Structural)]
pub enum Endian {
    Big,
    Little,
}

/// A file contained within an archive.
#[derive(Debug, Clone, PartialEq, Eq)]
pub struct SarcEntry {
    /// Name of the file within the archive, if it has one.
    pub name: Option<String>,
    /// Contents of the file.
    pub data: Vec<u8>,
}

/// An in-memory representation of an archive.
#[derive(Debug, Clone, PartialEq, Eq)]
pub struct SarcFile {
    pub byte_order: Endian,
    pub files: Vec<SarcEntry>,
}

/// What an entry is: its name as text and its contents as bytes.
pub struct Entry {
    pub name: Option<Seq<char>>,
    pub data: Seq<u8>,
}

/// What an archive is: a byte order and the entries in the caller's order.
pub struct Archive {
    pub byte_order: Endian,
    pub files: Seq<Entry>,
}

impl View for SarcEntry {
    type V = Entry;

    open spec fn view(&self) -> Entry {
        Entry {
            name: match self.name {
                Some(name) => Some(name@),
                None => None,
            },
            data: self.data@,
        }
    }
}

impl View for SarcFile {
    type V = Archive;

    open spec fn view(&self) -> Archive {
        Archive { byte_order: self.byte_order, files: self.files@.map_values(|e: SarcEntry| e@) }
    }
}

/// Multiplier of the name hash; also stored in the file table as a format tag.
pub const HASH_KEY: u32 = 0x65;

/// The hash of a name: starting from zero, each character in turn replaces the
/// accumulator by `accumulator * 101 + code point`, modulo 2^32.
pub open spec fn name_hash(name: Seq<char>) -> u32
    decreases name.len(),
{
    if name.len() == 0 {
        0
    } else {
        ((name_hash(name.drop_last()) * 101 + (name.last() as u32)) % 0x1_0000_0000) as u32
    }
}

/// The empty name hashes to zero.
pub proof fn lemma_hash_of_empty_name()
    ensures
        name_hash(Seq::empty()) == 0,
{
}

/// The hash depends on the characters of the name and on nothing else: names
/// of equal characters have equal hashes.
pub proof fn lemma_equal_names_hash_equal(one: Seq<char>, other: Seq<char>)
    requires
        one.len() == other.len(),
        forall|i: int| 0 <= i < one.len() ==> one[i] == other[i],
    ensures
        name_hash(one) == name_hash(other),
{
    assert(one =~= other);
}

/// Appending a character takes the hash times 101, plus the character's
/// code point, modulo 2^32.
pub proof fn lemma_hash_of_longer_name(name: Seq<char>, last: char)
    ensures
        name_hash(name.push(last)) == (name_hash(name) * 101 + (last as u32)) % 0x1_0000_0000,
{
    assert(name.push(last).drop_last() == name);
}

/// One wrapping multiplication followed by one wrapping addition is one step of
/// the hash.
proof fn lemma_hash_step(hash: u32, code: u32)
    ensures
        vstd::wrapping::u32_specs::wrapping_add(
            vstd::wrapping::u32_specs::wrapping_mul(hash, HASH_KEY),
            code,
        ) == ((hash * 101 + code) % 0x1_0000_0000) as u32,
{
    let product: int = hash * 101;
    let low: int = product % 0x1_0000_0000;
    assert((hash as nat * HASH_KEY as nat) % (0x1_0000_0000 as nat) == low);
    assert((product + code) % 0x1_0000_0000 == (low + code) % 0x1_0000_0000);
}

/// Hashing function used for the names of the file table.
pub fn sfat_hash(string: &str) -> (hash: u32)
    ensures
        hash == name_hash(string@),
{
    let mut hash: u32 = 0;
    let ghost mut seen: Seq<char> = Seq::empty();
    for c in it: string.chars()
        invariant
            seen == it.seq().take(it.index()),
            hash == name_hash(seen),
            it.seq() == string@,
    {
        proof {
            let before = it.seq().take(it.index());
            let after = it.seq().take(it.index() + 1);
            assert(after.drop_last() == before);
            assert(after.last() == c);
        }
        proof {
            lemma_hash_step(hash, c as u32);
            assert(seen.push(c).drop_last() == seen);
            seen = seen.push(c);
        }
        hash = hash.wrapping_mul(HASH_KEY).wrapping_add(c as u32);
    }
    assert(seen == string@);
    hash
}

} // verus!
