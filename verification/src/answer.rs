//! Answer records and the answer section of a message.

use crate::buffer::{as_slice, be16, be32, bytes_of, put_u16, put_u32, written};
use crate::error::DnsError;
use crate::label::{
    after, decode_domain, encode_domain, lemma_encode_labels_len, Domain,
};
use crate::label_map::{LabelMap, NameTable};
use crate::parse::{
    cursor_result, parse_data, parse_u16, parse_u32, read_data, read_u16, read_u32, wire_result,
    Decoding, DnsData, Encoding,
};
use crate::question_type::{code_of, type_of_code, QuestionType};
use bytes::{Bytes, BytesMut};
use vstd::prelude::*;

verus! {

/// The longest record data that a 16-bit length can announce, in bytes.
pub const MAX_DATA_LEN: usize = 0xffff;

/// One answer: a name, a record type, a class, a time to live in seconds
/// and the record's data, which the codec carries without reading it.
#[derive(Debug, Hash, PartialEq, Eq)]
pub struct DnsAnswer {
    pub name: Domain,
    pub qtype: QuestionType,
    pub class: u16,
    pub ttl: u32,
    pub data: Bytes,
}

impl Default for DnsAnswer {
    fn default() -> (r: DnsAnswer)
        ensures
            r@ == (AnswerView {
                name: Seq::empty(),
                qtype: QuestionType::A,
                class: 0,
                ttl: 0,
                data: Seq::empty(),
            }),
    {
        DnsAnswer {
            name: Domain::default(),
            qtype: QuestionType::A,
            class: 0,
            ttl: 0,
            data: Bytes::new(),
        }
    }
}

impl Clone for DnsAnswer {
    fn clone(&self) -> (r: DnsAnswer)
        ensures
            r@ == self@,
    {
        DnsAnswer {
            name: self.name.clone(),
            qtype: self.qtype,
            class: self.class,
            ttl: self.ttl,
            data: self.data.clone(),
        }
    }
}

/// An answer as plain values.
pub struct AnswerView {
    pub name: Seq<Seq<char>>,
    pub qtype: QuestionType,
    pub class: u16,
    pub ttl: u32,
    pub data: Seq<u8>,
}

impl View for DnsAnswer {
    type V = AnswerView;

    open spec fn view(&self) -> AnswerView {
        AnswerView {
            name: self.name@,
            qtype: self.qtype,
            class: self.class,
            ttl: self.ttl,
            data: bytes_of(self.data),
        }
    }
}

/// The wire form of an answer written at offset `pos`: the name, the type
/// code, the class, the time to live, the length of the data and the data.
/// Data too long for its length field is refused before anything is written.
pub open spec fn encode_answer(a: AnswerView, pos: int, table: NameTable) -> Encoding {
    if a.data.len() > MAX_DATA_LEN {
        Encoding { result: Err(DnsError::DataTooLong), table }
    } else {
        let name = encode_domain(a.name, pos, table);
        Encoding {
            result: match name.result {
                Ok(bytes) => Ok(
                    bytes + be16(code_of(a.qtype)) + be16(a.class) + be32(a.ttl) + be16(
                        a.data.len() as u16,
                    ) + a.data,
                ),
                Err(e) => Err(e),
            },
            table: name.table,
        }
    }
}

/// The answer that `buf` holds at `pos`.
pub open spec fn decode_answer(buf: Seq<u8>, pos: int, table: NameTable) -> Decoding<AnswerView> {
    let name = decode_domain(buf, pos, table);
    Decoding {
        result: match name.result {
            Err(e) => Err(e),
            Ok((at, labels)) => match read_u16(buf, at) {
                Err(e) => Err(e),
                Ok((at, code)) => match type_of_code(code) {
                    Err(e) => Err(e),
                    Ok(qtype) => match read_u16(buf, at) {
                        Err(e) => Err(e),
                        Ok((at, class)) => match read_u32(buf, at) {
                            Err(e) => Err(e),
                            Ok((at, ttl)) => match read_u16(buf, at) {
                                Err(e) => Err(e),
                                Ok((at, len)) => match read_data(buf, at, len as int) {
                                    Err(e) => Err(e),
                                    Ok((next, data)) => Ok(
                                        (next, AnswerView { name: labels, qtype, class, ttl, data }),
                                    ),
                                },
                            },
                        },
                    },
                },
            },
        },
        table: name.table,
    }
}

impl DnsData for DnsAnswer {
    open spec fn encoding(&self, pos: int, table: NameTable) -> Encoding {
        encode_answer(self@, pos, table)
    }

    open spec fn decoding(buf: Seq<u8>, pos: int, table: NameTable) -> Decoding<AnswerView> {
        decode_answer(buf, pos, table)
    }

    fn encode(&self, pos: usize, label_map: &mut LabelMap) -> (r: Result<Bytes, DnsError>) {
        let data = as_slice(&self.data);
        if data.len() > MAX_DATA_LEN {
            return Err(DnsError::DataTooLong);
        }
        proof {
            if self.name@.len() > 0 {
                lemma_encode_labels_len(self.name@, 0, pos as int, label_map@);
            }
        }
        let name = match self.name.encode(pos, label_map) {
            Ok(name) => name,
            Err(e) => {
                return Err(e);
            },
        };
        let code: u16 = match u16::try_from(self.qtype) {
            Ok(code) => code,
            Err(e) => {
                return Err(e);
            },
        };
        let mut buf = BytesMut::new();
        buf.extend_from_slice(as_slice(&name));
        put_u16(&mut buf, code);
        put_u16(&mut buf, self.class);
        put_u32(&mut buf, self.ttl);
        put_u16(&mut buf, data.len() as u16);
        buf.extend_from_slice(data);
        Ok(buf.freeze())
    }

    fn decode(buf: &Bytes, pos: usize, label_map: &mut LabelMap) -> (r: Result<
        (usize, DnsAnswer),
        DnsError,
    >) {
        let (current, name) = match Domain::decode(buf, pos, label_map) {
            Ok(read) => read,
            Err(e) => {
                return Err(e);
            },
        };
        let (current, code) = match parse_u16(buf, current) {
            Ok(read) => read,
            Err(e) => {
                return Err(e);
            },
        };
        let qtype = match QuestionType::try_from(code) {
            Ok(qtype) => qtype,
            Err(e) => {
                return Err(e);
            },
        };
        let (current, class) = match parse_u16(buf, current) {
            Ok(read) => read,
            Err(e) => {
                return Err(e);
            },
        };
        let (current, ttl) = match parse_u32(buf, current) {
            Ok(read) => read,
            Err(e) => {
                return Err(e);
            },
        };
        let (current, len) = match parse_u16(buf, current) {
            Ok(read) => read,
            Err(e) => {
                return Err(e);
            },
        };
        let (current, data) = match parse_data(buf, current, len as usize) {
            Ok(read) => read,
            Err(e) => {
                return Err(e);
            },
        };
        Ok((current, DnsAnswer { name, qtype, class, ttl, data }))
    }
}

/// The answers of a message, in order.
#[derive(Debug, Hash, PartialEq, Eq)]
pub struct DnsAnswerSet {
    pub answers: Vec<DnsAnswer>,
}

impl Default for DnsAnswerSet {
    fn default() -> (r: DnsAnswerSet)
        ensures
            r@ == Seq::<AnswerView>::empty(),
    {
        let r = DnsAnswerSet { answers: Vec::new() };
        assert(r@ == Seq::<AnswerView>::empty());
        r
    }
}

impl Clone for DnsAnswerSet {
    fn clone(&self) -> (r: DnsAnswerSet)
        ensures
            r@ == self@,
    {
        let mut answers: Vec<DnsAnswer> = Vec::new();
        let mut i: usize = 0;
        while i < self.answers.len()
            invariant
                i <= self.answers.len(),
                answers.len() == i,
                forall|k: int| 0 <= k < i ==> (#[trigger] answers[k])@ == self.answers[k]@,
            decreases self.answers.len() - i,
        {
            answers.push(self.answers[i].clone());
            i += 1;
        }
        assert(answer_views(answers@) == answer_views(self.answers@));
        DnsAnswerSet { answers }
    }
}

/// The answers as plain values.
pub open spec fn answer_views(answers: Seq<DnsAnswer>) -> Seq<AnswerView> {
    Seq::new(answers.len(), |i: int| answers[i]@)
}

impl View for DnsAnswerSet {
    type V = Seq<AnswerView>;

    open spec fn view(&self) -> Seq<AnswerView> {
        answer_views(self.answers@)
    }
}

/// The wire form of the answers from index `i` on, the first of them
/// written at offset `at`; all share one table. A section that would end
/// beyond `isize::MAX` is refused.
pub open spec fn encode_answers(answers: Seq<AnswerView>, i: int, at: int, table: NameTable) -> Encoding
    decreases answers.len() - i,
{
    if i >= answers.len() {
        Encoding { result: Ok(Seq::empty()), table }
    } else {
        let first = encode_answer(answers[i], at, table);
        match first.result {
            Err(e) => Encoding { result: Err(e), table: first.table },
            Ok(bytes) => if at + bytes.len() > isize::MAX {
                Encoding { result: Err(DnsError::MessageTooLong), table: first.table }
            } else {
                after(bytes, encode_answers(answers, i + 1, at + bytes.len(), first.table))
            },
        }
    }
}

/// The wire form of an answer section that starts at offset `pos` and is
/// declared to hold `count` answers. A count that is not the number of
/// answers is refused.
pub open spec fn encode_answer_set(answers: Seq<AnswerView>, count: int, pos: int, table: NameTable) -> Encoding {
    if count != answers.len() {
        Encoding { result: Err(DnsError::CountMismatch), table }
    } else {
        encode_answers(answers, 0, pos, table)
    }
}

/// The answers that `buf` holds from `at` on, after `found` were read, up to
/// `count` in all.
pub open spec fn decode_answers(
    buf: Seq<u8>,
    at: int,
    count: int,
    found: Seq<AnswerView>,
    table: NameTable,
) -> Decoding<Seq<AnswerView>>
    decreases count - found.len(),
{
    if found.len() >= count {
        Decoding { result: Ok((at, found)), table }
    } else {
        let one = decode_answer(buf, at, table);
        match one.result {
            Err(e) => Decoding { result: Err(e), table: one.table },
            Ok((next, a)) => decode_answers(buf, next, count, found.push(a), one.table),
        }
    }
}

/// The `count` answers that `buf` holds at `pos`.
pub open spec fn decode_answer_set(buf: Seq<u8>, pos: int, count: int, table: NameTable) -> Decoding<
    Seq<AnswerView>,
> {
    decode_answers(buf, pos, count, Seq::empty(), table)
}

/// An answer section ends at or before `isize::MAX`.
pub proof fn lemma_answers_len(answers: Seq<AnswerView>, i: int, at: int, table: NameTable)
    requires
        0 <= i <= answers.len(),
        0 <= at <= isize::MAX,
    ensures
        encode_answers(answers, i, at, table).result matches Ok(bytes) ==> at + bytes.len()
            <= isize::MAX,
    decreases answers.len() - i,
{
    if i < answers.len() {
        let first = encode_answer(answers[i], at, table);
        if let Ok(bytes) = first.result {
            if at + bytes.len() <= isize::MAX {
                lemma_answers_len(answers, i + 1, at + bytes.len(), first.table);
            }
        }
    }
}

impl DnsAnswerSet {
    /// Encodes the answers for a section that starts at offset `pos`.
    /// `num_answers` is the count that the header declares: unless it is the
    /// number of answers at hand, nothing is encoded.
    pub fn encode(&self, num_answers: usize, label_map: &mut LabelMap, pos: usize) -> (r: Result<
        Bytes,
        DnsError,
    >)
        ensures
            wire_result(r) == encode_answer_set(
                self@,
                num_answers as int,
                pos as int,
                old(label_map)@,
            ).result,
            final(label_map)@ == encode_answer_set(
                self@,
                num_answers as int,
                pos as int,
                old(label_map)@,
            ).table,
            num_answers != self.answers.len() ==> r == Err::<Bytes, _>(DnsError::CountMismatch),
    {
        if num_answers != self.answers.len() {
            return Err(DnsError::CountMismatch);
        }
        let mut buf = BytesMut::new();
        let mut i: usize = 0;
        let ghost answers = self@;
        while i < self.answers.len()
            invariant
                i <= self.answers.len(),
                num_answers == self.answers.len(),
                answers == self@,
                i > 0 ==> pos + written(buf).len() <= isize::MAX,
                i == 0 ==> written(buf).len() == 0,
                after(
                    written(buf),
                    encode_answers(answers, i as int, pos + written(buf).len(), label_map@),
                ) == encode_answers(answers, 0, pos as int, old(label_map)@),
            decreases self.answers.len() - i,
        {
            let at = pos + buf.len();
            let one = match self.answers[i].encode(at, label_map) {
                Ok(one) => one,
                Err(e) => {
                    return Err(e);
                },
            };
            let bytes = as_slice(&one);
            if at > isize::MAX as usize || bytes.len() > isize::MAX as usize - at {
                return Err(DnsError::MessageTooLong);
            }
            let ghost before = written(buf);
            buf.extend_from_slice(bytes);
            proof {
                let rest = encode_answers(answers, i + 1, pos + written(buf).len(), label_map@);
                if let Ok(more) = rest.result {
                    assert(written(buf) + more == before + (bytes@ + more));
                }
            }
            i += 1;
        }
        Ok(buf.freeze())
    }

    /// Decodes `num_answers` answers, one after the other, from `pos` on.
    pub fn decode(buf: &Bytes, pos: usize, num_answers: usize, label_map: &mut LabelMap) -> (r:
        Result<(usize, DnsAnswerSet), DnsError>)
        ensures
            cursor_result(r) == decode_answer_set(
                bytes_of(*buf),
                pos as int,
                num_answers as int,
                old(label_map)@,
            ).result,
            final(label_map)@ == decode_answer_set(
                bytes_of(*buf),
                pos as int,
                num_answers as int,
                old(label_map)@,
            ).table,
    {
        let mut answers: Vec<DnsAnswer> = Vec::new();
        let mut current = pos;
        let ghost bytes = bytes_of(*buf);
        proof {
            assert(answer_views(answers@) == Seq::<AnswerView>::empty());
        }
        while answers.len() < num_answers
            invariant
                bytes == bytes_of(*buf),
                answers.len() <= num_answers,
                decode_answers(
                    bytes,
                    current as int,
                    num_answers as int,
                    answer_views(answers@),
                    label_map@,
                ) == decode_answer_set(bytes, pos as int, num_answers as int, old(label_map)@),
            decreases num_answers - answers.len(),
        {
            let (next, a) = match DnsAnswer::decode(buf, current, label_map) {
                Ok(read) => read,
                Err(e) => {
                    return Err(e);
                },
            };
            let ghost found = answer_views(answers@);
            answers.push(a);
            proof {
                assert(answer_views(answers@) == found.push(a@));
            }
            current = next;
        }
        Ok((current, DnsAnswerSet { answers }))
    }
}

} // verus!
