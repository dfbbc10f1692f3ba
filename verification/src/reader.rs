//! Reading little-endian integers and names out of a byte buffer.

use byteorder::ByteOrder;
use byteorder::LittleEndian;
use vstd::prelude::*;
use vstd::string::*;
use vstd::utf8::valid_utf8;

verus! {

/// The number that the first two bytes of `s` spell, least significant byte
/// first.
pub open spec fn le16(s: Seq<u8>) -> int {
    s[0] as int + 0x100 * (s[1] as int)
}

/// The number that the first four bytes of `s` spell, least significant byte
/// first.
pub open spec fn le32(s: Seq<u8>) -> int {
    s[0] as int + 0x100 * (s[1] as int) + 0x1_0000 * (s[2] as int) + 0x100_0000 * (s[3] as int)
}

/// The number that the first eight bytes of `s` spell, least significant
/// byte first.
pub open spec fn le64(s: Seq<u8>) -> int {
    s[0] as int + 0x100 * (s[1] as int) + 0x1_0000 * (s[2] as int) + 0x100_0000 * (s[3] as int)
        + 0x1_0000_0000 * (s[4] as int) + 0x100_0000_0000 * (s[5] as int) + 0x1_0000_0000_0000 * (
    s[6] as int) + 0x100_0000_0000_0000 * (s[7] as int)
}

/// The byte at `pos`, if the data reaches that far.
pub open spec fn u8_at(data: Seq<u8>, pos: int) -> Option<int> {
    if 0 <= pos && pos + 1 <= data.len() {
        Some(data[pos] as int)
    } else {
        None
    }
}

/// The 16-bit number at `pos`, if the data reaches that far.
pub open spec fn u16_at(data: Seq<u8>, pos: int) -> Option<int> {
    if 0 <= pos && pos + 2 <= data.len() {
        Some(le16(data.subrange(pos, pos + 2)))
    } else {
        None
    }
}

/// The 32-bit number at `pos`, if the data reaches that far.
pub open spec fn u32_at(data: Seq<u8>, pos: int) -> Option<int> {
    if 0 <= pos && pos + 4 <= data.len() {
        Some(le32(data.subrange(pos, pos + 4)))
    } else {
        None
    }
}

/// The 64-bit number at `pos`, if the data reaches that far.
pub open spec fn u64_at(data: Seq<u8>, pos: int) -> Option<int> {
    if 0 <= pos && pos + 8 <= data.len() {
        Some(le64(data.subrange(pos, pos + 8)))
    } else {
        None
    }
}

/// `byteorder::LittleEndian::read_u16`: the number that the first two bytes
/// of `buf` spell, least significant byte first. The call panics on a
/// shorter buffer.
#[verifier::external_body]
fn le_u16(buf: &[u8]) -> (r: u16)
    requires
        buf@.len() >= 2,
    ensures
        r as int == le16(buf@),
{
    LittleEndian::read_u16(buf)
}

/// `byteorder::LittleEndian::read_u32`: the number that the first four bytes
/// of `buf` spell, least significant byte first. The call panics on a
/// shorter buffer.
#[verifier::external_body]
fn le_u32(buf: &[u8]) -> (r: u32)
    requires
        buf@.len() >= 4,
    ensures
        r as int == le32(buf@),
{
    LittleEndian::read_u32(buf)
}

/// `byteorder::LittleEndian::read_u64`: the number that the first eight
/// bytes of `buf` spell, least significant byte first. The call panics on a
/// shorter buffer.
#[verifier::external_body]
fn le_u64(buf: &[u8]) -> (r: u64)
    requires
        buf@.len() >= 8,
    ensures
        r as int == le64(buf@),
{
    LittleEndian::read_u64(buf)
}

/// `std::str::from_utf8`: the bytes as a string slice, if and only if they
/// are well-formed UTF-8. The string is spelled with exactly these bytes.
#[verifier::external_body]
pub(crate) fn utf8_str<'a>(bytes: &'a [u8]) -> (r: Option<&'a str>)
    ensures
        match r {
            Some(s) => valid_utf8(bytes@) && s.spec_bytes() == bytes@,
            None => !valid_utf8(bytes@),
        },
{
    std::str::from_utf8(bytes).ok()
}

/// Reads the byte at `pos`.
pub fn read_u8(data: &[u8], pos: usize) -> (r: Option<u8>)
    ensures
        match r {
            Some(v) => u8_at(data@, pos as int) == Some(v as int),
            None => u8_at(data@, pos as int) is None,
        },
{
    if pos < data.len() {
        Some(data[pos])
    } else {
        None
    }
}

/// Reads the 16-bit number at `pos`.
pub fn read_u16(data: &[u8], pos: usize) -> (r: Option<u16>)
    ensures
        match r {
            Some(v) => u16_at(data@, pos as int) == Some(v as int),
            None => u16_at(data@, pos as int) is None,
        },
{
    if pos <= data.len() && data.len() - pos >= 2 {
        Some(le_u16(&data[pos..pos + 2]))
    } else {
        None
    }
}

/// Reads the 32-bit number at `pos`.
pub fn read_u32(data: &[u8], pos: usize) -> (r: Option<u32>)
    ensures
        match r {
            Some(v) => u32_at(data@, pos as int) == Some(v as int),
            None => u32_at(data@, pos as int) is None,
        },
{
    if pos <= data.len() && data.len() - pos >= 4 {
        Some(le_u32(&data[pos..pos + 4]))
    } else {
        None
    }
}

/// Reads the 64-bit number at `pos`.
pub fn read_u64(data: &[u8], pos: usize) -> (r: Option<u64>)
    ensures
        match r {
            Some(v) => u64_at(data@, pos as int) == Some(v as int),
            None => u64_at(data@, pos as int) is None,
        },
{
    if pos <= data.len() && data.len() - pos >= 8 {
        Some(le_u64(&data[pos..pos + 8]))
    } else {
        None
    }
}

} // verus!
