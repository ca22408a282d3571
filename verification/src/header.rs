//! The fixed twelve-byte header of a message.

use crate::buffer::{as_slice, be16, put_u16, put_u8, written};
use crate::error::DnsError;
use crate::label_map::{LabelMap, NameTable};
use crate::parse::{lemma_u16_round_trip, u16_of, Decoding, DnsData, Encoding};
use bytes::{Bytes, BytesMut};
use vstd::prelude::*;

verus! {

/// The length of a header in bytes.
pub const HEADER_LEN: usize = 12;

/// The direction of a message.
#[derive(Clone, Copy, Debug, PartialEq, Eq, Structural)]
pub enum DnsPacketType {
    Query,
    Response,
}

impl Default for DnsPacketType {
    fn default() -> (r: DnsPacketType)
        ensures
            r == DnsPacketType::Query,
    {
        DnsPacketType::Query
    }
}

/// The header of a message: its id, its flags and the four record counts.
#[derive(Clone, Copy, Debug, PartialEq, Eq, Structural)]
pub struct DnsHeader {
    pub packet_id: u16,
    pub query_type: DnsPacketType,
    pub opcode: u8,
    pub auth_answer: bool,
    pub truncation: bool,
    pub recursion_desired: bool,
    pub recursion_available: bool,
    pub reserved: u8,
    pub response_code: u8,
    pub question_count: u16,
    pub answer_record_count: u16,
    pub authority_record_count: u16,
    pub additional_record_count: u16,
}

impl DnsHeader {
    /// The header of an empty query: every field zero or unset.
    pub open spec fn zeroed() -> DnsHeader {
        DnsHeader {
            packet_id: 0,
            query_type: DnsPacketType::Query,
            opcode: 0,
            auth_answer: false,
            truncation: false,
            recursion_desired: false,
            recursion_available: false,
            reserved: 0,
            response_code: 0,
            question_count: 0,
            answer_record_count: 0,
            authority_record_count: 0,
            additional_record_count: 0,
        }
    }
}

impl Default for DnsHeader {
    fn default() -> (r: DnsHeader)
        ensures
            r == DnsHeader::zeroed(),
    {
        DnsHeader {
            packet_id: 0,
            query_type: DnsPacketType::Query,
            opcode: 0,
            auth_answer: false,
            truncation: false,
            recursion_desired: false,
            recursion_available: false,
            reserved: 0,
            response_code: 0,
            question_count: 0,
            answer_record_count: 0,
            authority_record_count: 0,
            additional_record_count: 0,
        }
    }
}

impl View for DnsHeader {
    type V = DnsHeader;

    open spec fn view(&self) -> DnsHeader {
        *self
    }
}

/// One bit of a flags byte.
pub open spec fn bit(set: bool, mask: u8) -> u8 {
    if set {
        mask
    } else {
        0
    }
}

/// `mask` where `set` holds, and no bit otherwise.
fn flag(set: bool, mask: u8) -> (r: u8)
    ensures
        r == bit(set, mask),
{
    if set {
        mask
    } else {
        0
    }
}

/// The first flags byte: direction, opcode, authoritative answer,
/// truncation, recursion desired.
pub open spec fn flags_high(h: DnsHeader) -> u8 {
    bit(h.query_type == DnsPacketType::Response, 0x80) | ((h.opcode & 0xf) << 3) | bit(
        h.auth_answer,
        0x04,
    ) | bit(h.truncation, 0x02) | bit(h.recursion_desired, 0x01)
}

/// The second flags byte: recursion available, the reserved bits, the
/// response code.
pub open spec fn flags_low(h: DnsHeader) -> u8 {
    bit(h.recursion_available, 0x80) | ((h.reserved & 0x7) << 4) | (h.response_code & 0xf)
}

/// The twelve bytes of a header.
pub open spec fn header_bytes(h: DnsHeader) -> Seq<u8> {
    be16(h.packet_id) + seq![flags_high(h), flags_low(h)] + be16(h.question_count) + be16(
        h.answer_record_count,
    ) + be16(h.authority_record_count) + be16(h.additional_record_count)
}

/// The header that the first twelve bytes of `buf` spell.
pub open spec fn header_of(buf: Seq<u8>) -> DnsHeader {
    DnsHeader {
        packet_id: u16_of(buf[0], buf[1]),
        query_type: if buf[2] >> 7 == 1 {
            DnsPacketType::Response
        } else {
            DnsPacketType::Query
        },
        opcode: (buf[2] >> 3) & 0xf,
        auth_answer: (buf[2] >> 2) & 0x1 == 1,
        truncation: (buf[2] >> 1) & 0x1 == 1,
        recursion_desired: buf[2] & 0x1 == 1,
        recursion_available: (buf[3] >> 7) & 0x1 == 1,
        reserved: (buf[3] >> 4) & 0x7,
        response_code: buf[3] & 0xf,
        question_count: u16_of(buf[4], buf[5]),
        answer_record_count: u16_of(buf[6], buf[7]),
        authority_record_count: u16_of(buf[8], buf[9]),
        additional_record_count: u16_of(buf[10], buf[11]),
    }
}

/// What decoding a header gives. The header is read from the first twelve
/// bytes of the buffer; `pos` only says from where the cursor moves on.
pub open spec fn decode_header(buf: Seq<u8>, pos: int, table: NameTable) -> Decoding<DnsHeader> {
    if buf.len() < HEADER_LEN || pos + HEADER_LEN > usize::MAX {
        Decoding { result: Err(DnsError::Truncated), table }
    } else {
        Decoding { result: Ok((pos + HEADER_LEN, header_of(buf))), table }
    }
}

impl DnsHeader {
    /// The fields with fewer than eight bits hold no more than their bits.
    pub open spec fn valid(&self) -> bool {
        &&& self.opcode <= 0xf
        &&& self.reserved <= 0x7
        &&& self.response_code <= 0xf
    }
}

/// The flags are found again from the first flags byte.
proof fn lemma_flags_high(direction: u8, opcode: u8, auth: u8, trunc: u8, desired: u8, high: u8)
    requires
        direction == 0 || direction == 0x80,
        auth == 0 || auth == 0x04,
        trunc == 0 || trunc == 0x02,
        desired == 0 || desired == 0x01,
        opcode <= 0xf,
        high == direction | ((opcode & 0xf) << 3) | auth | trunc | desired,
    ensures
        (high >> 7 == 1) == (direction == 0x80),
        (high >> 3) & 0xf == opcode,
        ((high >> 2) & 0x1 == 1) == (auth == 0x04),
        ((high >> 1) & 0x1 == 1) == (trunc == 0x02),
        (high & 0x1 == 1) == (desired == 0x01),
{
    assert((high >> 7 == 1) == (direction == 0x80) && (high >> 3) & 0xf == opcode && ((high >> 2)
        & 0x1 == 1) == (auth == 0x04) && ((high >> 1) & 0x1 == 1) == (trunc == 0x02) && (high & 0x1
        == 1) == (desired == 0x01)) by (bit_vector)
        requires
            direction == 0 || direction == 0x80,
            auth == 0 || auth == 0x04,
            trunc == 0 || trunc == 0x02,
            desired == 0 || desired == 0x01,
            opcode <= 0xf,
            high == direction | ((opcode & 0xf) << 3) | auth | trunc | desired,
    ;
}

/// The flags are found again from the second flags byte.
proof fn lemma_flags_low(available: u8, reserved: u8, code: u8, low: u8)
    requires
        available == 0 || available == 0x80,
        reserved <= 0x7,
        code <= 0xf,
        low == available | ((reserved & 0x7) << 4) | (code & 0xf),
    ensures
        ((low >> 7) & 0x1 == 1) == (available == 0x80),
        (low >> 4) & 0x7 == reserved,
        low & 0xf == code,
{
    assert(((low >> 7) & 0x1 == 1) == (available == 0x80) && (low >> 4) & 0x7 == reserved && low
        & 0xf == code) by (bit_vector)
        requires
            available == 0 || available == 0x80,
            reserved <= 0x7,
            code <= 0xf,
            low == available | ((reserved & 0x7) << 4) | (code & 0xf),
    ;
}

/// A valid header is found again from any buffer that starts with its
/// bytes.
pub proof fn lemma_header_of_bytes(h: DnsHeader, buf: Seq<u8>)
    requires
        h.valid(),
        buf.len() >= HEADER_LEN,
        buf.take(HEADER_LEN as int) == header_bytes(h),
    ensures
        header_of(buf) == h,
{
    let bytes = header_bytes(h);
    assert forall|i: int| 0 <= i < HEADER_LEN implies buf[i] == bytes[i] by {
        assert(buf.take(HEADER_LEN as int)[i] == buf[i]);
    }
    lemma_u16_round_trip(h.packet_id);
    lemma_u16_round_trip(h.question_count);
    lemma_u16_round_trip(h.answer_record_count);
    lemma_u16_round_trip(h.authority_record_count);
    lemma_u16_round_trip(h.additional_record_count);
    lemma_flags_high(
        bit(h.query_type == DnsPacketType::Response, 0x80),
        h.opcode,
        bit(h.auth_answer, 0x04),
        bit(h.truncation, 0x02),
        bit(h.recursion_desired, 0x01),
        flags_high(h),
    );
    lemma_flags_low(bit(h.recursion_available, 0x80), h.reserved, h.response_code, flags_low(h));
}

/// Decoding what a valid header encodes to gives the header back, and the
/// cursor twelve bytes further on.
pub proof fn lemma_header_round_trip(h: DnsHeader, pos: int, from: NameTable, to: NameTable)
    requires
        h.valid(),
        0 <= pos <= usize::MAX - HEADER_LEN,
    ensures
        h.encoding(pos, from).result matches Ok(bytes) && bytes.len() == HEADER_LEN
            && DnsHeader::decoding(bytes, pos, to).result == Ok::<_, DnsError>(
            (pos + HEADER_LEN, h),
        ),
{
    let bytes = header_bytes(h);
    assert(bytes.take(HEADER_LEN as int) == bytes);
    lemma_header_of_bytes(h, bytes);
}

impl DnsData for DnsHeader {
    open spec fn encoding(&self, pos: int, table: NameTable) -> Encoding {
        Encoding { result: Ok(header_bytes(*self)), table }
    }

    open spec fn decoding(buf: Seq<u8>, pos: int, table: NameTable) -> Decoding<DnsHeader> {
        decode_header(buf, pos, table)
    }

    fn encode(&self, pos: usize, label_map: &mut LabelMap) -> (r: Result<Bytes, DnsError>) {
        let mut buf = BytesMut::new();
        put_u16(&mut buf, self.packet_id);
        let response = match self.query_type {
            DnsPacketType::Response => true,
            DnsPacketType::Query => false,
        };
        let high: u8 = flag(response, 0x80) | ((self.opcode & 0xf) << 3) | flag(
            self.auth_answer,
            0x04,
        ) | flag(self.truncation, 0x02) | flag(self.recursion_desired, 0x01);
        let low: u8 = flag(self.recursion_available, 0x80) | ((self.reserved & 0x7) << 4) | (
        self.response_code & 0xf);
        put_u8(&mut buf, high);
        put_u8(&mut buf, low);
        put_u16(&mut buf, self.question_count);
        put_u16(&mut buf, self.answer_record_count);
        put_u16(&mut buf, self.authority_record_count);
        put_u16(&mut buf, self.additional_record_count);
        proof {
            assert(written(buf) =~= header_bytes(*self));
        }
        Ok(buf.freeze())
    }

    fn decode(buf: &Bytes, pos: usize, label_map: &mut LabelMap) -> (r: Result<
        (usize, DnsHeader),
        DnsError,
    >) {
        let s = as_slice(buf);
        if s.len() < HEADER_LEN || pos > usize::MAX - HEADER_LEN {
            return Err(DnsError::Truncated);
        }
        let direction: u8 = s[2];
        assert(direction >> 7 == 0 || direction >> 7 == 1) by (bit_vector);
        let query_type = match direction >> 7 {
            0 => DnsPacketType::Query,
            1 => DnsPacketType::Response,
            _ => {
                return Err(DnsError::InvalidPacketType);
            },
        };
        let header = DnsHeader {
            packet_id: ((s[0] as u16) << 8) | (s[1] as u16),
            query_type,
            opcode: (s[2] >> 3) & 0xf,
            auth_answer: (s[2] >> 2) & 0x1 == 1,
            truncation: (s[2] >> 1) & 0x1 == 1,
            recursion_desired: s[2] & 0x1 == 1,
            recursion_available: (s[3] >> 7) & 0x1 == 1,
            reserved: (s[3] >> 4) & 0x7,
            response_code: s[3] & 0xf,
            question_count: ((s[4] as u16) << 8) | (s[5] as u16),
            answer_record_count: ((s[6] as u16) << 8) | (s[7] as u16),
            authority_record_count: ((s[8] as u16) << 8) | (s[9] as u16),
            additional_record_count: ((s[10] as u16) << 8) | (s[11] as u16),
        };
        Ok((pos + HEADER_LEN, header))
    }
}

} // verus!
