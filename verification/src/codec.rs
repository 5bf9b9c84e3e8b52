//! Shared pieces of the binary codec: the error taxonomy, little-endian
//! 32-bit integer packing, and bounds-checked reads from a byte source.

use vstd::prelude::*;
use vstd::slice::slice_index_get;
use vstd::utf8::{encode_utf8, valid_utf8};

verus! {

/// Why a decode failed.
#[derive(Debug, Clone, Copy, PartialEq, Eq, Structural)]
pub enum DecodeError {
    /// The declared format version byte is not the supported version.
    VersionMismatch,
    /// Fewer bytes were available than a declared length requires.
    Truncation,
    /// Key bytes of a mapping entry are not valid UTF-8.
    InvalidEncoding,
    /// Raw bytes cannot be reshaped into the declared width-by-height grid.
    InvalidImageData,
    /// The declared width times height times four exceeds the platform's
    /// representable size.
    SizeOverflow,
}

impl DecodeError {
    /// The description of each error.
    pub open spec fn spec_message(self) -> Seq<char> {
        match self {
            DecodeError::VersionMismatch => "Unsupported file version"@,
            DecodeError::Truncation => "Unexpected end of data"@,
            DecodeError::InvalidEncoding => "Invalid UTF-8 string"@,
            DecodeError::InvalidImageData => "Invalid image data"@,
            DecodeError::SizeOverflow => "Image size overflows"@,
        }
    }

    /// A human-readable description of the error.
    pub fn message(&self) -> (r: String)
        ensures
            r@ == self.spec_message(),
    {
        match self {
            DecodeError::VersionMismatch => "Unsupported file version".to_owned(),
            DecodeError::Truncation => "Unexpected end of data".to_owned(),
            DecodeError::InvalidEncoding => "Invalid UTF-8 string".to_owned(),
            DecodeError::InvalidImageData => "Invalid image data".to_owned(),
            DecodeError::SizeOverflow => "Image size overflows".to_owned(),
        }
    }
}

/// The four bytes of `x` in little-endian order.
pub open spec fn u32_le_bytes(x: u32) -> Seq<u8> {
    seq![
        (x & 0xff) as u8,
        ((x >> 8) & 0xff) as u8,
        ((x >> 16) & 0xff) as u8,
        ((x >> 24) & 0xff) as u8,
    ]
}

/// The value whose little-endian bytes are `b0`, `b1`, `b2`, `b3`.
pub open spec fn u32_from_le(b0: u8, b1: u8, b2: u8, b3: u8) -> u32 {
    (b0 as u32) | ((b1 as u32) << 8) | ((b2 as u32) << 16) | ((b3 as u32) << 24)
}

/// The u32 stored little-endian at position `pos` of `bytes`.
pub open spec fn le32_at(bytes: Seq<u8>, pos: int) -> u32
    recommends
        0 <= pos,
        pos + 4 <= bytes.len(),
{
    u32_from_le(bytes[pos], bytes[pos + 1], bytes[pos + 2], bytes[pos + 3])
}

/// Reading back the four little-endian bytes of a value yields the value.
pub proof fn lemma_u32_le_round_trip(x: u32)
    ensures
        u32_from_le(
            u32_le_bytes(x)[0],
            u32_le_bytes(x)[1],
            u32_le_bytes(x)[2],
            u32_le_bytes(x)[3],
        ) == x,
{
    let b0 = (x & 0xff) as u8;
    let b1 = ((x >> 8) & 0xff) as u8;
    let b2 = ((x >> 16) & 0xff) as u8;
    let b3 = ((x >> 24) & 0xff) as u8;
    assert((b0 as u32) | ((b1 as u32) << 8) | ((b2 as u32) << 16) | ((b3 as u32) << 24) == x)
        by (bit_vector)
        requires
            b0 == (x & 0xff) as u8,
            b1 == ((x >> 8) & 0xff) as u8,
            b2 == ((x >> 16) & 0xff) as u8,
            b3 == ((x >> 24) & 0xff) as u8,
    ;
}

/// Appends the four little-endian bytes of `x` to `out`.
pub fn push_u32_le(out: &mut Vec<u8>, x: u32)
    ensures
        final(out)@ == old(out)@ + u32_le_bytes(x),
{
    proof {
        assert(x & 0xff <= 0xff && (x >> 8) & 0xff <= 0xff && (x >> 16) & 0xff <= 0xff && (x >> 24)
            & 0xff <= 0xff) by (bit_vector);
    }
    out.push((x & 0xff) as u8);
    out.push(((x >> 8) & 0xff) as u8);
    out.push(((x >> 16) & 0xff) as u8);
    out.push(((x >> 24) & 0xff) as u8);
    proof {
        assert(out@ =~= old(out)@ + u32_le_bytes(x));
    }
}

/// Appends all bytes of `data` to `out`.
pub fn push_bytes(out: &mut Vec<u8>, data: &[u8])
    ensures
        final(out)@ == old(out)@ + data@,
{
    let n = data.len();
    let mut i: usize = 0;
    while i < n
        invariant
            i <= n == data@.len(),
            out@ =~= old(out)@ + data@.subrange(0, i as int),
        decreases n - i,
    {
        out.push(*slice_index_get(data, i));
        i = i + 1;
        proof {
            assert(out@ =~= old(out)@ + data@.subrange(0, i as int));
        }
    }
    proof {
        assert(data@.subrange(0, n as int) =~= data@);
    }
}

/// Reads the byte at position `pos`, or fails when the source is exhausted.
pub fn read_u8(bytes: &[u8], pos: usize) -> (r: Option<u8>)
    ensures
        r is Some <==> pos < bytes@.len(),
        r matches Some(b) ==> b == bytes@[pos as int],
{
    if pos < bytes.len() {
        Some(*slice_index_get(bytes, pos))
    } else {
        None
    }
}

/// Reads the u32 stored little-endian at position `pos`, or fails when fewer
/// than four bytes remain.
pub fn read_u32_le(bytes: &[u8], pos: usize) -> (r: Option<u32>)
    ensures
        r is Some <==> pos + 4 <= bytes@.len(),
        r matches Some(x) ==> x == le32_at(bytes@, pos as int),
{
    if bytes.len() >= 4 && pos <= bytes.len() - 4 {
        let b0 = *slice_index_get(bytes, pos);
        let b1 = *slice_index_get(bytes, pos + 1);
        let b2 = *slice_index_get(bytes, pos + 2);
        let b3 = *slice_index_get(bytes, pos + 3);
        Some((b0 as u32) | ((b1 as u32) << 8) | ((b2 as u32) << 16) | ((b3 as u32) << 24))
    } else {
        None
    }
}

/// Copies the `n` bytes starting at position `pos` into a fresh vector, or
/// fails when fewer than `n` bytes remain.
pub fn read_bytes(bytes: &[u8], pos: usize, n: usize) -> (r: Option<Vec<u8>>)
    ensures
        r is Some <==> pos + n <= bytes@.len(),
        r matches Some(v) ==> v@ == bytes@.subrange(pos as int, pos + n),
{
    let len = bytes.len();
    if n <= len && pos <= len - n {
        let mut v: Vec<u8> = Vec::new();
        let mut i: usize = 0;
        while i < n
            invariant
                i <= n,
                pos + n <= len == bytes@.len(),
                v@ =~= bytes@.subrange(pos as int, pos + i),
            decreases n - i,
        {
            v.push(*slice_index_get(bytes, pos + i));
            i = i + 1;
            proof {
                assert(v@ =~= bytes@.subrange(pos as int, pos + i));
            }
        }
        Some(v)
    } else {
        None
    }
}

/// Relies on `String::from_utf8`: it succeeds exactly when the bytes are a
/// valid UTF-8 encoding, and then returns the string of the characters that
/// the bytes encode.
#[verifier::external_body]
pub(crate) fn string_from_utf8(bytes: Vec<u8>) -> (r: Option<String>)
    ensures
        r is Some <==> valid_utf8(bytes@),
        r matches Some(s) ==> encode_utf8(s@) == bytes@,
{
    String::from_utf8(bytes).ok()
}

} // verus!
