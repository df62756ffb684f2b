use vstd::prelude::*;

use byteorder::ByteOrder;

use crate::error::{Error, HeaderFault};

verus! {

/// The value of the marker that opens every archive.
pub const MARKER: u32 = 4;

/// The four bytes of `n`, least significant first.
pub open spec fn le_bytes(n: u32) -> Seq<u8> {
    seq![
        (n % 256) as u8,
        ((n / 256) % 256) as u8,
        ((n / 65536) % 256) as u8,
        ((n / 16777216) % 256) as u8,
    ]
}

/// The number that four bytes write, least significant first.
pub open spec fn le_value(b: Seq<u8>) -> int {
    b[0] as int + b[1] as int * 256 + b[2] as int * 65536 + b[3] as int * 16777216
}

/// The number that the four bytes at `at` write.
pub open spec fn field_at(b: Seq<u8>, at: int) -> int {
    le_value(b.subrange(at, at + 4))
}

/// Relies on `byteorder::LittleEndian::read_u32`, which reads the first four
/// bytes as a little-endian number and panics on fewer.
#[verifier::external_body]
fn read_u32_le(buf: &[u8]) -> (r: u32)
    requires
        buf@.len() >= 4,
    ensures
        r as int == le_value(buf@),
{
    byteorder::LittleEndian::read_u32(buf)
}

/// Relies on `byteorder::LittleEndian::write_u32`, which writes a number as
/// four little-endian bytes.
#[verifier::external_body]
fn push_u32_le(out: &mut Vec<u8>, n: u32)
    ensures
        final(out)@ == old(out)@ + le_bytes(n),
{
    let mut b = [0u8; 4];
    byteorder::LittleEndian::write_u32(&mut b, n);
    out.extend_from_slice(&b);
}

/// The frame of a header around the JSON text `json`, with the three length
/// fields given.
pub open spec fn frame(f4: u32, f8: u32, f12: u32, json: Seq<u8>) -> Seq<u8> {
    le_bytes(MARKER) + le_bytes(f4) + le_bytes(f8) + le_bytes(f12) + json
}

/// The header of an archive around the JSON text `json`: the marker, then
/// `len + 8`, `len + 4` and `len` for the text's length `len`, then the text,
/// with no padding. The data region follows at `16 + len`.
pub fn encode_header(json: &Vec<u8>) -> (r: Vec<u8>)
    requires
        json@.len() + 8 <= u32::MAX,
    ensures
        r@ == frame(
            (json@.len() + 8) as u32,
            (json@.len() + 4) as u32,
            json@.len() as u32,
            json@,
        ),
{
    let len = json.len() as u32;
    let mut out: Vec<u8> = Vec::new();
    push_u32_le(&mut out, MARKER);
    push_u32_le(&mut out, len + 8);
    push_u32_le(&mut out, len + 4);
    push_u32_le(&mut out, len);
    let mut i: usize = 0;
    let ghost head = out@;
    while i < json.len()
        invariant
            i <= json@.len(),
            out@ == head + json@.subrange(0, i as int),
        decreases json.len() - i,
    {
        out.push(json[i]);
        assert(out@ =~= head + json@.subrange(0, (i + 1) as int));
        i = i + 1;
    }
    assert(json@.subrange(0, json@.len() as int) =~= json@);
    out
}

/// The length that a header padded to eight bytes gives the JSON text of
/// length `len`: `len` rounded up to a multiple of eight.
pub open spec fn padded_len(len: int) -> int {
    len + (8 - len % 8) % 8
}

/// The header of an archive around the JSON text `json`, with the text
/// padded by zeros to a multiple of eight bytes: the marker, `padded + 8`,
/// `padded + 4`, the text's own length, the text and the zeros. The data
/// region follows at `16 + padded`.
pub fn get_header(json: &Vec<u8>) -> (r: Vec<u8>)
    requires
        json@.len() + 16 <= u32::MAX,
    ensures
        r@ == frame(
            (padded_len(json@.len() as int) + 8) as u32,
            (padded_len(json@.len() as int) + 4) as u32,
            json@.len() as u32,
            json@ + Seq::new((padded_len(json@.len() as int) - json@.len()) as nat, |i: int| 0u8),
        ),
{
    let len = json.len() as u32;
    let size = len + (8 - len % 8) % 8;
    let mut out: Vec<u8> = Vec::new();
    push_u32_le(&mut out, MARKER);
    push_u32_le(&mut out, size + 8);
    push_u32_le(&mut out, size + 4);
    push_u32_le(&mut out, len);
    let ghost head = out@;
    let mut i: usize = 0;
    while i < json.len()
        invariant
            i <= json@.len(),
            out@ == head + json@.subrange(0, i as int),
        decreases json.len() - i,
    {
        out.push(json[i]);
        assert(out@ =~= head + json@.subrange(0, (i + 1) as int));
        i = i + 1;
    }
    assert(json@.subrange(0, json@.len() as int) =~= json@);
    let ghost text = out@;
    let mut k: u32 = len;
    while k < size
        invariant
            len <= k <= size,
            size == len + (8 - len % 8) % 8,
            out@ == text + Seq::new((k - len) as nat, |i: int| 0u8),
        decreases size - k,
    {
        out.push(0u8);
        assert(out@ =~= text + Seq::new((k + 1 - len) as nat, |i: int| 0u8));
        k = k + 1;
    }
    assert(out@ =~= frame(
        (padded_len(json@.len() as int) + 8) as u32,
        (padded_len(json@.len() as int) + 4) as u32,
        json@.len() as u32,
        json@ + Seq::new((padded_len(json@.len() as int) - json@.len()) as nat, |i: int| 0u8),
    ));
    out
}

/// Whether the first sixteen bytes of an archive are there and open with
/// the marker `4`.
pub open spec fn prefix_ok(prefix: Seq<u8>) -> bool {
    prefix.len() >= 16 && field_at(prefix, 0) == MARKER
}

/// The fault of a prefix that is not `prefix_ok`.
pub open spec fn prefix_fault(prefix: Seq<u8>) -> HeaderFault {
    if prefix.len() < 16 {
        HeaderFault::Truncated
    } else {
        HeaderFault::BadMarker
    }
}

/// Checks the first sixteen bytes of an archive and reads the length of the
/// JSON text, the field at offset 12.
fn payload_len(prefix: &Vec<u8>) -> (r: Result<u32, Error>)
    ensures
        r is Ok <==> prefix_ok(prefix@),
        r matches Ok(len) ==> len == field_at(prefix@, 12),
        r matches Err(e) ==> e matches Error::ParseHeaderError(f, n) && f == prefix_fault(prefix@)
            && n@.len() == 0,
{
    if prefix.len() < 16 {
        return Err(Error::ParseHeaderError(HeaderFault::Truncated, String::new()));
    }
    let s = prefix.as_slice();
    let marker = read_u32_le(s);
    let len = read_u32_le(slice_from(s, 12));
    if marker != MARKER {
        return Err(Error::ParseHeaderError(HeaderFault::BadMarker, String::new()));
    }
    Ok(len)
}

/// Reads the first sixteen bytes of an archive: the marker must be `4`.
/// Returns the length of the JSON text, the field at offset 12, and the
/// address where the data region starts, right after the text at
/// `16 + len`.
pub fn decode_prefix(prefix: &Vec<u8>) -> (r: Result<(u64, u64), Error>)
    ensures
        r is Ok <==> prefix_ok(prefix@),
        r matches Ok((len, start)) ==> len == field_at(prefix@, 12) && start == len + 16,
        r matches Err(e) ==> e matches Error::ParseHeaderError(f, n) && f == prefix_fault(prefix@)
            && n@.len() == 0,
{
    match payload_len(prefix) {
        Ok(len) => Ok((len as u64, len as u64 + 16)),
        Err(e) => Err(e),
    }
}

/// Reads the first sixteen bytes of an archive whose JSON text is padded to
/// a multiple of eight bytes, as `get_header` writes it: the marker must be
/// `4`. Returns the length of the JSON text, the field at offset 12, and the
/// address where the data region starts, after the padded text at
/// `16 + padded_len(len)`.
pub fn decode_padded_prefix(prefix: &Vec<u8>) -> (r: Result<(u64, u64), Error>)
    ensures
        r is Ok <==> prefix_ok(prefix@),
        r matches Ok((len, start)) ==> len == field_at(prefix@, 12) && start == padded_len(
            len as int,
        ) + 16,
        r matches Err(e) ==> e matches Error::ParseHeaderError(f, n) && f == prefix_fault(prefix@)
            && n@.len() == 0,
{
    match payload_len(prefix) {
        Ok(len) => {
            let l = len as u64;
            Ok((l, l + (8 - l % 8) % 8 + 16))
        },
        Err(e) => Err(e),
    }
}

/// The bytes of `s` from index `at` on.
fn slice_from(s: &[u8], at: usize) -> (r: &[u8])
    requires
        at <= s@.len(),
    ensures
        r@ == s@.subrange(at as int, s@.len() as int),
{
    vstd::slice::slice_subrange(s, at, s.len())
}

} // verus!
