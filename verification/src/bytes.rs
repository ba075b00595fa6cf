//! Little-endian integer readers and small byte-string helpers.

use vstd::prelude::*;

verus! {

/// The characters that lossy UTF-8 decoding yields for a byte string.
pub uninterp spec fn lossy_of(bytes: Seq<u8>) -> Seq<char>;

/// Relies on `String::from_utf8_lossy`: the result depends on the bytes
/// alone, and ASCII bytes decode to their own characters (UTF-8 is
/// ASCII-compatible).
#[verifier::external_body]
pub fn utf8_lossy(bytes: &[u8]) -> (r: String)
    ensures
        r@ == lossy_of(bytes@),
        (forall|i: int| 0 <= i < bytes@.len() ==> bytes@[i] < 0x80) ==> r@ == bytes@.map(
            |i: int, b: u8| b as char,
        ),
{
    String::from_utf8_lossy(bytes).into_owned()
}

/// The `u16` encoded little-endian by two bytes.
pub open spec fn le_u16_of(b0: u8, b1: u8) -> u16 {
    (b0 as u16 + (b1 as u16) * 0x100) as u16
}

/// The `u32` encoded little-endian by four bytes.
pub open spec fn le_u32_of(b0: u8, b1: u8, b2: u8, b3: u8) -> u32 {
    (b0 as u32 + (b1 as u32) * 0x100 + (b2 as u32) * 0x10000 + (b3 as u32) * 0x1000000) as u32
}

/// The little-endian `u16` at `offset` in `data`, when in bounds.
pub open spec fn spec_u16_at(data: Seq<u8>, offset: int) -> u16 {
    le_u16_of(data[offset], data[offset + 1])
}

/// The little-endian `u32` at `offset` in `data`, when in bounds.
pub open spec fn spec_u32_at(data: Seq<u8>, offset: int) -> u32 {
    le_u32_of(data[offset], data[offset + 1], data[offset + 2], data[offset + 3])
}

/// Compares two byte slices for equality.
pub fn bytes_eq(a: &[u8], b: &[u8]) -> (r: bool)
    ensures
        r == (a@ == b@),
{
    if a.len() != b.len() {
        assert(a@ != b@);
        return false;
    }
    let n = a.len();
    for i in 0..n
        invariant
            n == a@.len() && n == b@.len(),
            forall|j: int| 0 <= j < i ==> a@[j] == b@[j],
    {
        if a[i] != b[i] {
            assert(a@ != b@);
            return false;
        }
    }
    proof {
        assert(a@ =~= b@);
    }
    true
}

/// Copies a byte slice into an owned vector.
pub fn copy_bytes(s: &[u8]) -> (r: Vec<u8>)
    ensures
        r@ == s@,
{
    let mut r: Vec<u8> = Vec::new();
    let n = s.len();
    for i in 0..n
        invariant
            n == s@.len(),
            r@ =~= s@.subrange(0, i as int),
    {
        r.push(s[i]);
    }
    proof {
        assert(r@ =~= s@);
    }
    r
}

/// Reads the little-endian `u16` at `offset`, or fails when fewer than two
/// bytes are available there.
pub fn parse_u16_at(data: &[u8], offset: usize) -> (r: Result<u16, &'static str>)
    ensures
        r is Ok <==> offset + 2 <= data@.len(),
        r is Ok ==> r->Ok_0 == spec_u16_at(data@, offset as int),
{
    if offset >= data.len() || data.len() - offset < 2 {
        return Err("Buffer too small for u16");
    }
    let b0 = data[offset];
    let b1 = data[offset + 1];
    let v: u16 = b0 as u16 | ((b1 as u16) << 8);
    proof {
        assert(b0 as u16 | ((b1 as u16) << 8u16) == b0 as u16 + (b1 as u16) * 0x100)
            by (bit_vector);
    }
    Ok(v)
}

/// Reads the little-endian `u32` at `offset`, or fails when fewer than four
/// bytes are available there.
pub fn parse_u32_at(data: &[u8], offset: usize) -> (r: Result<u32, &'static str>)
    ensures
        r is Ok <==> offset + 4 <= data@.len(),
        r is Ok ==> r->Ok_0 == spec_u32_at(data@, offset as int),
{
    if offset >= data.len() || data.len() - offset < 4 {
        return Err("Buffer too small for u32");
    }
    let b0 = data[offset];
    let b1 = data[offset + 1];
    let b2 = data[offset + 2];
    let b3 = data[offset + 3];
    let v: u32 = b0 as u32 | ((b1 as u32) << 8) | ((b2 as u32) << 16) | ((b3 as u32) << 24);
    proof {
        assert(b0 as u32 | ((b1 as u32) << 8u32) | ((b2 as u32) << 16u32) | ((b3 as u32) << 24u32)
            == b0 as u32 + (b1 as u32) * 0x100 + (b2 as u32) * 0x10000 + (b3 as u32) * 0x1000000)
            by (bit_vector);
    }
    Ok(v)
}

/// The little-endian `u64` at `offset` in `data`, when in bounds: the low
/// word first.
pub open spec fn spec_u64_at(data: Seq<u8>, offset: int) -> u64 {
    (spec_u32_at(data, offset) as u64 + (spec_u32_at(data, offset + 4) as u64)
        * 0x100000000) as u64
}

/// Reads the little-endian `u64` at `offset`, or fails when fewer than
/// eight bytes are available there.
pub fn parse_u64_at(data: &[u8], offset: usize) -> (r: Result<u64, &'static str>)
    ensures
        r is Ok <==> offset + 8 <= data@.len(),
        r is Ok ==> r->Ok_0 == spec_u64_at(data@, offset as int),
{
    if offset >= data.len() || data.len() - offset < 8 {
        return Err("Buffer too small for u64");
    }
    let lo = match parse_u32_at(data, offset) {
        Ok(v) => v,
        Err(e) => {
            return Err(e);
        },
    };
    let hi = match parse_u32_at(data, offset + 4) {
        Ok(v) => v,
        Err(e) => {
            return Err(e);
        },
    };
    let v: u64 = lo as u64 | ((hi as u64) << 32);
    proof {
        assert(lo as u64 | ((hi as u64) << 32u64) == lo as u64 + (hi as u64) * 0x100000000)
            by (bit_vector);
    }
    Ok(v)
}

/// Relies on `String::from_utf8`: succeeds exactly on valid UTF-8 and the
/// returned string holds exactly the given bytes.
#[verifier::external_body]
pub fn utf8_exact(bytes: Vec<u8>) -> (r: Result<String, ()>)
    ensures
        r is Ok <==> vstd::utf8::valid_utf8(bytes@),
        r is Ok ==> vstd::utf8::encode_utf8(r->Ok_0@) == bytes@,
{
    match String::from_utf8(bytes) {
        Ok(s) => Ok(s),
        Err(_) => Err(()),
    }
}

} // verus!
