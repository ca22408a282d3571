//! Readers of the primitive fields of a message: big-endian integers, a
//! length-prefixed label and a run of opaque bytes.

use crate::buffer::{as_slice, bytes_of, slice};
use crate::error::DnsError;
use crate::label_map::{LabelMap, NameTable};
use bytes::Bytes;
use std::string::FromUtf8Error;
use vstd::prelude::*;
use vstd::slice::{slice_subrange, slice_to_vec};
use vstd::utf8::{decode_utf8, valid_utf8};

verus! {

/// `std::string::FromUtf8Error`, the error of `String::from_utf8`. It is only
/// told apart from success.
#[verifier::external_type_specification]
#[verifier::external_body]
pub struct ExFromUtf8Error(std::string::FromUtf8Error);

/// `String::from_utf8`: the text that the bytes spell in UTF-8, and an error
/// exactly if they spell none.
pub assume_specification[ String::from_utf8 ](bytes: Vec<u8>) -> (r: Result<String, FromUtf8Error>)
    ensures
        r is Ok <==> valid_utf8(bytes@),
        r matches Ok(s) ==> s@ == decode_utf8(bytes@),
;

/// The longest label that a length prefix can announce, in bytes.
pub const MAX_LABEL_LEN: usize = 63;

/// What an encoder gives: the bytes or an error, and the table it leaves.
pub struct Encoding {
    pub result: Result<Seq<u8>, DnsError>,
    pub table: NameTable,
}

/// What a decoder gives: the position after the value and the value, or an
/// error, and the table it leaves.
pub struct Decoding<V> {
    pub result: Result<(int, V), DnsError>,
    pub table: NameTable,
}

/// The result of an encoder, with the buffer taken by its contents.
pub open spec fn wire_result(r: Result<Bytes, DnsError>) -> Result<Seq<u8>, DnsError> {
    match r {
        Ok(b) => Ok(bytes_of(b)),
        Err(e) => Err(e),
    }
}

/// The result of a decoder, with the value taken by its view.
pub open spec fn cursor_result<T: View>(r: Result<(usize, T), DnsError>) -> Result<
    (int, T::V),
    DnsError,
> {
    match r {
        Ok((next, v)) => Ok((next as int, v@)),
        Err(e) => Err(e),
    }
}

/// The result of a reader of numbers, with the position as an integer.
pub open spec fn number_result<T>(r: Result<(usize, T), DnsError>) -> Result<(int, T), DnsError> {
    match r {
        Ok((next, v)) => Ok((next as int, v)),
        Err(e) => Err(e),
    }
}

/// The result of a reader of opaque bytes, with the bytes taken by their
/// contents.
pub open spec fn data_result(r: Result<(usize, Bytes), DnsError>) -> Result<(int, Seq<u8>), DnsError> {
    match r {
        Ok((next, data)) => Ok((next as int, bytes_of(data))),
        Err(e) => Err(e),
    }
}

/// A value with a wire form. `encoding` and `decoding` say what the wire
/// form is; `encode` and `decode` compute it.
pub trait DnsData: Sized + View {
    /// The bytes of `self` when written at offset `pos` of a message whose
    /// names so far are in `table`.
    spec fn encoding(&self, pos: int, table: NameTable) -> Encoding;

    /// The value that `buf` holds at `pos`, given the names seen before it.
    spec fn decoding(buf: Seq<u8>, pos: int, table: NameTable) -> Decoding<Self::V>;

    /// Encodes `self` for offset `pos` of the message, recording in
    /// `label_map` the names it writes.
    fn encode(&self, pos: usize, label_map: &mut LabelMap) -> (r: Result<Bytes, DnsError>)
        ensures
            wire_result(r) == self.encoding(pos as int, old(label_map)@).result,
            final(label_map)@ == self.encoding(pos as int, old(label_map)@).table,
    ;

    /// Decodes a value at `pos` of `buf`, recording in `label_map` the names
    /// it reads.
    fn decode(buf: &Bytes, pos: usize, label_map: &mut LabelMap) -> (r: Result<
        (usize, Self),
        DnsError,
    >)
        ensures
            cursor_result(r) == Self::decoding(bytes_of(*buf), pos as int, old(label_map)@).result,
            final(label_map)@ == Self::decoding(bytes_of(*buf), pos as int, old(label_map)@).table,
    ;
}

/// The 16-bit number whose big-endian bytes are `hi` and `lo`.
pub open spec fn u16_of(hi: u8, lo: u8) -> u16 {
    ((hi as u16) << 8) | (lo as u16)
}

/// The 32-bit number whose big-endian bytes are `b0` to `b3`.
pub open spec fn u32_of(b0: u8, b1: u8, b2: u8, b3: u8) -> u32 {
    ((b0 as u32) << 24) | ((b1 as u32) << 16) | ((b2 as u32) << 8) | (b3 as u32)
}

/// A 16-bit number is found again from its two bytes.
pub proof fn lemma_u16_round_trip(n: u16)
    ensures
        u16_of((n >> 8) as u8, (n & 0xff) as u8) == n,
{
    assert(((((n >> 8) as u8) as u16) << 8) | (((n & 0xff) as u8) as u16) == n) by (bit_vector);
}

/// A 32-bit number is found again from its four bytes.
pub proof fn lemma_u32_round_trip(n: u32)
    ensures
        u32_of(
            (n >> 24) as u8,
            ((n >> 16) & 0xff) as u8,
            ((n >> 8) & 0xff) as u8,
            (n & 0xff) as u8,
        ) == n,
{
    assert(((((n >> 24) as u8) as u32) << 24) | (((((n >> 16) & 0xff) as u8) as u32) << 16) | (((((n
        >> 8) & 0xff) as u8) as u32) << 8) | (((n & 0xff) as u8) as u32) == n) by (bit_vector);
}

/// What reading one byte of `buf` at `pos` gives.
pub open spec fn read_u8(buf: Seq<u8>, pos: int) -> Result<(int, u8), DnsError> {
    if 0 <= pos && pos + 1 <= buf.len() {
        Ok((pos + 1, buf[pos]))
    } else {
        Err(DnsError::Truncated)
    }
}

/// What reading a big-endian 16-bit number of `buf` at `pos` gives.
pub open spec fn read_u16(buf: Seq<u8>, pos: int) -> Result<(int, u16), DnsError> {
    if 0 <= pos && pos + 2 <= buf.len() {
        Ok((pos + 2, u16_of(buf[pos], buf[pos + 1])))
    } else {
        Err(DnsError::Truncated)
    }
}

/// What reading a big-endian 32-bit number of `buf` at `pos` gives.
pub open spec fn read_u32(buf: Seq<u8>, pos: int) -> Result<(int, u32), DnsError> {
    if 0 <= pos && pos + 4 <= buf.len() {
        Ok((pos + 4, u32_of(buf[pos], buf[pos + 1], buf[pos + 2], buf[pos + 3])))
    } else {
        Err(DnsError::Truncated)
    }
}

/// What reading a length-prefixed label of `buf` at `pos` gives.
pub open spec fn read_string(buf: Seq<u8>, pos: int) -> Result<(int, Seq<char>), DnsError> {
    if !(0 <= pos < buf.len()) {
        Err(DnsError::Truncated)
    } else if buf[pos] > MAX_LABEL_LEN {
        Err(DnsError::LabelTooLong)
    } else if pos + 1 + buf[pos] > buf.len() {
        Err(DnsError::Truncated)
    } else if !valid_utf8(buf.subrange(pos + 1, pos + 1 + buf[pos])) {
        Err(DnsError::InvalidLabel)
    } else {
        Ok((pos + 1 + buf[pos], decode_utf8(buf.subrange(pos + 1, pos + 1 + buf[pos]))))
    }
}

/// What reading `len` opaque bytes of `buf` at `pos` gives.
pub open spec fn read_data(buf: Seq<u8>, pos: int, len: int) -> Result<(int, Seq<u8>), DnsError> {
    if 0 <= pos && 0 <= len && pos + len <= buf.len() {
        Ok((pos + len, buf.subrange(pos, pos + len)))
    } else {
        Err(DnsError::Truncated)
    }
}

/// Reads one byte at `pos` and returns the position after it.
pub fn parse_u8(buf: &Bytes, pos: usize) -> (r: Result<(usize, u8), DnsError>)
    ensures
        number_result(r) == read_u8(bytes_of(*buf), pos as int),
{
    let s = as_slice(buf);
    if pos >= s.len() {
        return Err(DnsError::Truncated);
    }
    Ok((pos + 1, s[pos]))
}

/// Reads a big-endian 16-bit number at `pos` and returns the position after it.
pub fn parse_u16(buf: &Bytes, pos: usize) -> (r: Result<(usize, u16), DnsError>)
    ensures
        number_result(r) == read_u16(bytes_of(*buf), pos as int),
{
    let s = as_slice(buf);
    if s.len() < 2 || pos > s.len() - 2 {
        return Err(DnsError::Truncated);
    }
    let v: u16 = ((s[pos] as u16) << 8) | (s[pos + 1] as u16);
    Ok((pos + 2, v))
}

/// Reads a big-endian 32-bit number at `pos` and returns the position after it.
pub fn parse_u32(buf: &Bytes, pos: usize) -> (r: Result<(usize, u32), DnsError>)
    ensures
        number_result(r) == read_u32(bytes_of(*buf), pos as int),
{
    let s = as_slice(buf);
    if s.len() < 4 || pos > s.len() - 4 {
        return Err(DnsError::Truncated);
    }
    let v: u32 = ((s[pos] as u32) << 24) | ((s[pos + 1] as u32) << 16) | ((s[pos + 2] as u32) << 8)
        | (s[pos + 3] as u32);
    Ok((pos + 4, v))
}

/// Reads a label at `pos`: one byte of length, at most `MAX_LABEL_LEN`, then
/// that many bytes of UTF-8 text. Returns the position after the label.
pub fn parse_string(buf: &Bytes, pos: usize) -> (r: Result<(usize, String), DnsError>)
    ensures
        cursor_result(r) == read_string(bytes_of(*buf), pos as int),
{
    let s = as_slice(buf);
    if pos >= s.len() {
        return Err(DnsError::Truncated);
    }
    let len: usize = s[pos] as usize;
    if len > MAX_LABEL_LEN {
        return Err(DnsError::LabelTooLong);
    }
    if len > s.len() - pos - 1 {
        return Err(DnsError::Truncated);
    }
    let text = slice_to_vec(slice_subrange(s, pos + 1, pos + 1 + len));
    match String::from_utf8(text) {
        Ok(label) => Ok((pos + 1 + len, label)),
        Err(_) => Err(DnsError::InvalidLabel),
    }
}

/// Reads `len` opaque bytes at `pos` and returns the position after them.
pub fn parse_data(buf: &Bytes, pos: usize, len: usize) -> (r: Result<(usize, Bytes), DnsError>)
    ensures
        data_result(r) == read_data(bytes_of(*buf), pos as int, len as int),
{
    let s = as_slice(buf);
    if len > s.len() || pos > s.len() - len {
        return Err(DnsError::Truncated);
    }
    Ok((pos + len, slice(buf, pos, pos + len)))
}

} // verus!
