//! Unsigned 16- and 32-bit fields in a chosen byte order.
use crate::Endian;
use vstd::prelude::*;

verus! {

/// The two bytes of `value`, most significant first for `Big`.
pub open spec fn u16_bytes(order: Endian, value: u16) -> Seq<u8> {
    let high = (value / 0x100) as u8;
    let low = (value % 0x100) as u8;
    match order {
        Endian::Big => seq![high, low],
        Endian::Little => seq![low, high],
    }
}

/// The four bytes of `value`, most significant first for `Big`.
pub open spec fn u32_bytes(order: Endian, value: u32) -> Seq<u8> {
    let b3 = (value / 0x100_0000) as u8;
    let b2 = ((value / 0x1_0000) % 0x100) as u8;
    let b1 = ((value / 0x100) % 0x100) as u8;
    let b0 = (value % 0x100) as u8;
    match order {
        Endian::Big => seq![b3, b2, b1, b0],
        Endian::Little => seq![b0, b1, b2, b3],
    }
}

/// The 16-bit value that the two bytes at `at` spell in the given order.
pub open spec fn u16_at(order: Endian, data: Seq<u8>, at: int) -> u16 {
    match order {
        Endian::Big => (data[at] * 0x100 + data[at + 1]) as u16,
        Endian::Little => (data[at + 1] * 0x100 + data[at]) as u16,
    }
}

/// The 32-bit value that the four bytes at `at` spell in the given order.
pub open spec fn u32_at(order: Endian, data: Seq<u8>, at: int) -> u32 {
    match order {
        Endian::Big => (data[at] * 0x100_0000 + data[at + 1] * 0x1_0000 + data[at + 2] * 0x100
            + data[at + 3]) as u32,
        Endian::Little => (data[at + 3] * 0x100_0000 + data[at + 2] * 0x1_0000 + data[at + 1]
            * 0x100 + data[at]) as u32,
    }
}

/// A 16-bit field always takes two bytes.
pub proof fn lemma_u16_bytes_len(order: Endian, value: u16)
    ensures
        u16_bytes(order, value).len() == 2,
{
}

/// A 32-bit field always takes four bytes.
pub proof fn lemma_u32_bytes_len(order: Endian, value: u32)
    ensures
        u32_bytes(order, value).len() == 4,
{
}

/// Reading a 16-bit field where its bytes stand gives the value written.
pub proof fn lemma_u16_at(order: Endian, data: Seq<u8>, at: int, value: u16)
    requires
        0 <= at,
        at + 2 <= data.len(),
        data.subrange(at, at + 2) == u16_bytes(order, value),
    ensures
        u16_at(order, data, at) == value,
{
    let field = data.subrange(at, at + 2);
    assert(data[at] == field[0]);
    assert(data[at + 1] == field[1]);
}

/// Reading a 32-bit field where its bytes stand gives the value written.
#[verifier::rlimit(40)]
pub proof fn lemma_u32_at(order: Endian, data: Seq<u8>, at: int, value: u32)
    requires
        0 <= at,
        at + 4 <= data.len(),
        data.subrange(at, at + 4) == u32_bytes(order, value),
    ensures
        u32_at(order, data, at) == value,
{
    let field = data.subrange(at, at + 4);
    assert(data[at] == field[0]);
    assert(data[at + 1] == field[1]);
    assert(data[at + 2] == field[2]);
    assert(data[at + 3] == field[3]);
}

/// The two byte orders spell a 16-bit field with the same bytes, reversed.
pub proof fn lemma_u16_bytes_mirror(value: u16)
    ensures
        u16_bytes(Endian::Big, value)[0] == u16_bytes(Endian::Little, value)[1],
        u16_bytes(Endian::Big, value)[1] == u16_bytes(Endian::Little, value)[0],
{
}

/// The two byte orders spell a 32-bit field with the same bytes, reversed.
pub proof fn lemma_u32_bytes_mirror(value: u32)
    ensures
        forall|i: int|
            0 <= i < 4 ==> u32_bytes(Endian::Big, value)[i] == u32_bytes(Endian::Little, value)[3
                - i],
{
}

impl Endian {
    /// The byte-order mark as a number: its bytes in the archive's own order
    /// are `FE FF` for `Big` and `FF FE` for `Little`.
    pub const MARK: u16 = 0xFEFF;

    /// Reads the 16-bit field at `at`, if the buffer holds two bytes there.
    pub fn take_u16(self, data: &[u8], at: usize) -> (value: Option<u16>)
        ensures
            value == (if at + 2 <= data@.len() {
                Some(u16_at(self, data@, at as int))
            } else {
                None
            }),
    {
        if data.len() < 2 || at > data.len() - 2 {
            return None;
        }
        let first: u16 = data[at] as u16;
        let second: u16 = data[at + 1] as u16;
        match self {
            Endian::Big => Some(first * 0x100 + second),
            Endian::Little => Some(second * 0x100 + first),
        }
    }

    /// Reads the 32-bit field at `at`, if the buffer holds four bytes there.
    pub fn take_u32(self, data: &[u8], at: usize) -> (value: Option<u32>)
        ensures
            value == (if at + 4 <= data@.len() {
                Some(u32_at(self, data@, at as int))
            } else {
                None
            }),
    {
        if data.len() < 4 || at > data.len() - 4 {
            return None;
        }
        let b0: u32 = data[at] as u32;
        let b1: u32 = data[at + 1] as u32;
        let b2: u32 = data[at + 2] as u32;
        let b3: u32 = data[at + 3] as u32;
        match self {
            Endian::Big => Some(b0 * 0x100_0000 + b1 * 0x1_0000 + b2 * 0x100 + b3),
            Endian::Little => Some(b3 * 0x100_0000 + b2 * 0x1_0000 + b1 * 0x100 + b0),
        }
    }

    /// Appends the two bytes of `value` in this order.
    pub fn write_u16(self, out: &mut Vec<u8>, value: u16)
        ensures
            final(out)@ == old(out)@ + u16_bytes(self, value),
    {
        let high: u8 = (value / 0x100) as u8;
        let low: u8 = (value % 0x100) as u8;
        match self {
            Endian::Big => {
                out.push(high);
                out.push(low);
            },
            Endian::Little => {
                out.push(low);
                out.push(high);
            },
        }
    }

    /// Appends the four bytes of `value` in this order.
    pub fn write_u32(self, out: &mut Vec<u8>, value: u32)
        ensures
            final(out)@ == old(out)@ + u32_bytes(self, value),
    {
        let b3: u8 = (value / 0x100_0000) as u8;
        let b2: u8 = ((value / 0x1_0000) % 0x100) as u8;
        let b1: u8 = ((value / 0x100) % 0x100) as u8;
        let b0: u8 = (value % 0x100) as u8;
        match self {
            Endian::Big => {
                out.push(b3);
                out.push(b2);
                out.push(b1);
                out.push(b0);
            },
            Endian::Little => {
                out.push(b0);
                out.push(b1);
                out.push(b2);
                out.push(b3);
            },
        }
    }
}

} // verus!
