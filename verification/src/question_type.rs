//! The record types that a question or an answer can name.

use crate::error::DnsError;
use vstd::prelude::*;
use vstd::std_specs::convert::TryFromSpecImpl;

verus! {

/// A record type, with the code that stands for it on the wire.
#[derive(Clone, Copy, Debug, PartialEq, Eq, Hash, Structural)]
pub enum QuestionType {
    /// 1, a host address
    A,
    /// 2, an authoritative name server
    NS,
    /// 3, a mail destination
    MD,
    /// 4, a mail forwarder
    MF,
    /// 5, the canonical name for an alias
    CNAME,
    /// 6, the start of a zone of authority
    SOA,
    /// 7, a mailbox domain name
    MB,
    /// 8, a mail group member
    MG,
    /// 9, a mail rename domain name
    MR,
    /// 10, a null record
    NULL,
    /// 11, a well known service description
    WKS,
    /// 12, a domain name pointer
    PTR,
    /// 13, host information
    HINFO,
    /// 14, mailbox or mail list information
    MINFO,
    /// 15, mail exchange
    MX,
    /// 16, text strings
    TXT,
}

impl Default for QuestionType {
    fn default() -> (r: QuestionType)
        ensures
            r == QuestionType::A,
    {
        QuestionType::A
    }
}

/// The code of a record type.
pub open spec fn code_of(qtype: QuestionType) -> u16 {
    match qtype {
        QuestionType::A => 1,
        QuestionType::NS => 2,
        QuestionType::MD => 3,
        QuestionType::MF => 4,
        QuestionType::CNAME => 5,
        QuestionType::SOA => 6,
        QuestionType::MB => 7,
        QuestionType::MG => 8,
        QuestionType::MR => 9,
        QuestionType::NULL => 10,
        QuestionType::WKS => 11,
        QuestionType::PTR => 12,
        QuestionType::HINFO => 13,
        QuestionType::MINFO => 14,
        QuestionType::MX => 15,
        QuestionType::TXT => 16,
    }
}

/// The record type that a code stands for; a code outside 1 to 16 stands
/// for none.
pub open spec fn type_of_code(code: u16) -> Result<QuestionType, DnsError> {
    match code {
        1 => Ok(QuestionType::A),
        2 => Ok(QuestionType::NS),
        3 => Ok(QuestionType::MD),
        4 => Ok(QuestionType::MF),
        5 => Ok(QuestionType::CNAME),
        6 => Ok(QuestionType::SOA),
        7 => Ok(QuestionType::MB),
        8 => Ok(QuestionType::MG),
        9 => Ok(QuestionType::MR),
        10 => Ok(QuestionType::NULL),
        11 => Ok(QuestionType::WKS),
        12 => Ok(QuestionType::PTR),
        13 => Ok(QuestionType::HINFO),
        14 => Ok(QuestionType::MINFO),
        15 => Ok(QuestionType::MX),
        16 => Ok(QuestionType::TXT),
        _ => Err(DnsError::InvalidQuestionType(code)),
    }
}

/// Every record type is found again from its code, and the codes that stand
/// for a record type are those from 1 to 16.
pub proof fn lemma_codes(qtype: QuestionType, code: u16)
    ensures
        type_of_code(code_of(qtype)) == Ok::<_, DnsError>(qtype),
        type_of_code(code) is Ok <==> 1 <= code <= 16,
        type_of_code(code) matches Ok(found) ==> code_of(found) == code,
{
}

impl TryFrom<u16> for QuestionType {
    type Error = DnsError;

    /// The record type that `code` stands for.
    fn try_from(code: u16) -> (r: Result<QuestionType, DnsError>)
        ensures
            r == type_of_code(code),
    {
        match code {
            1 => Ok(QuestionType::A),
            2 => Ok(QuestionType::NS),
            3 => Ok(QuestionType::MD),
            4 => Ok(QuestionType::MF),
            5 => Ok(QuestionType::CNAME),
            6 => Ok(QuestionType::SOA),
            7 => Ok(QuestionType::MB),
            8 => Ok(QuestionType::MG),
            9 => Ok(QuestionType::MR),
            10 => Ok(QuestionType::NULL),
            11 => Ok(QuestionType::WKS),
            12 => Ok(QuestionType::PTR),
            13 => Ok(QuestionType::HINFO),
            14 => Ok(QuestionType::MINFO),
            15 => Ok(QuestionType::MX),
            16 => Ok(QuestionType::TXT),
            _ => Err(DnsError::InvalidQuestionType(code)),
        }
    }
}

impl TryFromSpecImpl<u16> for QuestionType {
    open spec fn obeys_try_from_spec() -> bool {
        true
    }

    open spec fn try_from_spec(code: u16) -> Result<QuestionType, DnsError> {
        type_of_code(code)
    }
}

impl TryFrom<QuestionType> for u16 {
    type Error = DnsError;

    /// The code of `qtype`. Every record type has one.
    fn try_from(qtype: QuestionType) -> (r: Result<u16, DnsError>)
        ensures
            r == Ok::<_, DnsError>(code_of(qtype)),
    {
        Ok(
            match qtype {
                QuestionType::A => 1,
                QuestionType::NS => 2,
                QuestionType::MD => 3,
                QuestionType::MF => 4,
                QuestionType::CNAME => 5,
                QuestionType::SOA => 6,
                QuestionType::MB => 7,
                QuestionType::MG => 8,
                QuestionType::MR => 9,
                QuestionType::NULL => 10,
                QuestionType::WKS => 11,
                QuestionType::PTR => 12,
                QuestionType::HINFO => 13,
                QuestionType::MINFO => 14,
                QuestionType::MX => 15,
                QuestionType::TXT => 16,
            },
        )
    }
}

impl TryFromSpecImpl<QuestionType> for u16 {
    open spec fn obeys_try_from_spec() -> bool {
        true
    }

    open spec fn try_from_spec(qtype: QuestionType) -> Result<u16, DnsError> {
        Ok(code_of(qtype))
    }
}

} // verus!
