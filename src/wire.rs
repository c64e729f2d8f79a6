//! Little-endian integers and UTF-8 text read out of a byte buffer.
use byteorder::{ByteOrder, LittleEndian};
use vstd::prelude::*;
use vstd::slice::slice_subrange;

verus! {

/// The 16-bit little-endian integer whose low byte stands at `p`.
pub open spec fn le16(b: Seq<u8>, p: int) -> int {
    b[p] as int + 256 * (b[p + 1] as int)
}

/// The 32-bit little-endian integer whose lowest byte stands at `p`.
pub open spec fn le32(b: Seq<u8>, p: int) -> int {
    b[p] as int + 256 * (b[p + 1] as int) + 65536 * (b[p + 2] as int) + 16777216 * (
    b[p + 3] as int)
}

/// What UTF-8 decoding makes of a byte sequence: the text, or `None` where
/// the bytes are not valid UTF-8.
pub uninterp spec fn utf8_text(b: Seq<u8>) -> Option<Seq<char>>;

/// Relies on byteorder's `LittleEndian::read_u16`: the first two bytes of
/// `buf`, least significant first (it panics on fewer than two).
#[verifier::external_body]
fn le_u16_prefix(buf: &[u8]) -> (r: u16)
    requires
        buf@.len() >= 2,
    ensures
        r as int == le16(buf@, 0),
{
    LittleEndian::read_u16(buf)
}

/// Relies on byteorder's `LittleEndian::read_u32`: the first four bytes of
/// `buf`, least significant first (it panics on fewer than four).
#[verifier::external_body]
fn le_u32_prefix(buf: &[u8]) -> (r: u32)
    requires
        buf@.len() >= 4,
    ensures
        r as int == le32(buf@, 0),
{
    LittleEndian::read_u32(buf)
}

/// Relies on `String::from_utf8`: the decoded text, or `None` on invalid UTF-8.
#[verifier::external_body]
pub(crate) fn decode_utf8(b: Vec<u8>) -> (r: Option<String>)
    ensures
        match r {
            Some(s) => utf8_text(b@) == Some(s@),
            None => utf8_text(b@).is_none(),
        },
{
    String::from_utf8(b).ok()
}

/// The 16-bit integer at `pos`, if two bytes stand there.
pub fn u16_at(data: &Vec<u8>, pos: usize) -> (r: Option<u16>)
    ensures
        match r {
            Some(v) => pos + 2 <= data@.len() && v as int == le16(data@, pos as int),
            None => pos + 2 > data@.len(),
        },
{
    if pos > data.len() || data.len() - pos < 2 {
        return None;
    }
    let sub = slice_subrange(data.as_slice(), pos, pos + 2);
    let v = le_u16_prefix(sub);
    Some(v)
}

/// The 32-bit integer at `pos`, if four bytes stand there.
pub fn u32_at(data: &Vec<u8>, pos: usize) -> (r: Option<u32>)
    ensures
        match r {
            Some(v) => pos + 4 <= data@.len() && v as int == le32(data@, pos as int),
            None => pos + 4 > data@.len(),
        },
{
    if pos > data.len() || data.len() - pos < 4 {
        return None;
    }
    let sub = slice_subrange(data.as_slice(), pos, pos + 4);
    let v = le_u32_prefix(sub);
    Some(v)
}

/// The bytes `data[from..to]`, copied.
pub fn bytes_between(data: &Vec<u8>, from: usize, to: usize) -> (r: Vec<u8>)
    requires
        from <= to <= data@.len(),
    ensures
        r@ == data@.subrange(from as int, to as int),
{
    let mut r: Vec<u8> = Vec::new();
    let mut i: usize = from;
    while i < to
        invariant
            from <= i <= to <= data@.len(),
            r@ == data@.subrange(from as int, i as int),
        decreases to - i,
    {
        r.push(data[i]);
        i = i + 1;
        assert(r@ =~= data@.subrange(from as int, i as int));
    }
    r
}

} // verus!
