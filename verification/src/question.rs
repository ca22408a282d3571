//! Question records and the question section of a message.

use crate::buffer::{as_slice, be16, bytes_of, put_u16, written};
use crate::error::DnsError;
use crate::label::{after, decode_domain, encode_domain, lemma_encode_labels_len, Domain};
use crate::label_map::{LabelMap, NameTable};
use crate::parse::{cursor_result, parse_u16, read_u16, wire_result, Decoding, DnsData, Encoding};
use crate::question_type::{code_of, type_of_code, QuestionType};
use bytes::{Bytes, BytesMut};
use vstd::prelude::*;

verus! {

/// One question: a name, a record type and a class.
#[derive(Debug, PartialEq, Eq)]
pub struct DnsQuestion {
    pub name: Domain,
    pub qtype: QuestionType,
    pub class: u16,
}

impl Default for DnsQuestion {
    fn default() -> (r: DnsQuestion)
        ensures
            r@ == (QuestionView { name: Seq::empty(), qtype: QuestionType::A, class: 0 }),
    {
        DnsQuestion { name: Domain::default(), qtype: QuestionType::A, class: 0 }
    }
}

impl Clone for DnsQuestion {
    fn clone(&self) -> (r: DnsQuestion)
        ensures
            r@ == self@,
    {
        DnsQuestion { name: self.name.clone(), qtype: self.qtype, class: self.class }
    }
}

/// A question as plain values.
pub struct QuestionView {
    pub name: Seq<Seq<char>>,
    pub qtype: QuestionType,
    pub class: u16,
}

impl View for DnsQuestion {
    type V = QuestionView;

    open spec fn view(&self) -> QuestionView {
        QuestionView { name: self.name@, qtype: self.qtype, class: self.class }
    }
}

/// The wire form of a question written at offset `pos`: the name, then the
/// type code and the class, two bytes each.
pub open spec fn encode_question(q: QuestionView, pos: int, table: NameTable) -> Encoding {
    let name = encode_domain(q.name, pos, table);
    Encoding {
        result: match name.result {
            Ok(bytes) => Ok(bytes + be16(code_of(q.qtype)) + be16(q.class)),
            Err(e) => Err(e),
        },
        table: name.table,
    }
}

/// The question that `buf` holds at `pos`.
pub open spec fn decode_question(buf: Seq<u8>, pos: int, table: NameTable) -> Decoding<
    QuestionView,
> {
    let name = decode_domain(buf, pos, table);
    Decoding {
        result: match name.result {
            Err(e) => Err(e),
            Ok((at, labels)) => match read_u16(buf, at) {
                Err(e) => Err(e),
                Ok((at, code)) => match type_of_code(code) {
                    Err(e) => Err(e),
                    Ok(qtype) => match read_u16(buf, at) {
                        Err(e) => Err(e),
                        Ok((next, class)) => Ok((next, QuestionView { name: labels, qtype, class })),
                    },
                },
            },
        },
        table: name.table,
    }
}

impl DnsData for DnsQuestion {
    open spec fn encoding(&self, pos: int, table: NameTable) -> Encoding {
        encode_question(self@, pos, table)
    }

    open spec fn decoding(buf: Seq<u8>, pos: int, table: NameTable) -> Decoding<QuestionView> {
        decode_question(buf, pos, table)
    }

    fn encode(&self, pos: usize, label_map: &mut LabelMap) -> (r: Result<Bytes, DnsError>) {
        proof {
            if self.name@.len() > 0 {
                lemma_encode_labels_len(self.name@, 0, pos as int, label_map@);
            }
        }
        let name = match self.name.encode(pos, label_map) {
            Ok(name) => name,
            Err(e) => {
                return Err(e);
            },
        };
        let code: u16 = match u16::try_from(self.qtype) {
            Ok(code) => code,
            Err(e) => {
                return Err(e);
            },
        };
        let mut buf = BytesMut::new();
        buf.extend_from_slice(as_slice(&name));
        put_u16(&mut buf, code);
        put_u16(&mut buf, self.class);
        proof {
            assert(written(buf) == bytes_of(name) + be16(code_of(self.qtype)) + be16(self.class));
        }
        Ok(buf.freeze())
    }

    fn decode(buf: &Bytes, pos: usize, label_map: &mut LabelMap) -> (r: Result<
        (usize, DnsQuestion),
        DnsError,
    >) {
        let (current, name) = match Domain::decode(buf, pos, label_map) {
            Ok(read) => read,
            Err(e) => {
                return Err(e);
            },
        };
        let (current, code) = match parse_u16(buf, current) {
            Ok(read) => read,
            Err(e) => {
                return Err(e);
            },
        };
        let qtype = match QuestionType::try_from(code) {
            Ok(qtype) => qtype,
            Err(e) => {
                return Err(e);
            },
        };
        let (current, class) = match parse_u16(buf, current) {
            Ok(read) => read,
            Err(e) => {
                return Err(e);
            },
        };
        Ok((current, DnsQuestion { name, qtype, class }))
    }
}

/// The questions of a message, in order.
#[derive(Debug, PartialEq, Eq)]
pub struct DnsQuestionSet {
    pub questions: Vec<DnsQuestion>,
}

impl Default for DnsQuestionSet {
    fn default() -> (r: DnsQuestionSet)
        ensures
            r@ == Seq::<QuestionView>::empty(),
    {
        let r = DnsQuestionSet { questions: Vec::new() };
        assert(r@ == Seq::<QuestionView>::empty());
        r
    }
}

impl Clone for DnsQuestionSet {
    fn clone(&self) -> (r: DnsQuestionSet)
        ensures
            r@ == self@,
    {
        let mut questions: Vec<DnsQuestion> = Vec::new();
        let mut i: usize = 0;
        while i < self.questions.len()
            invariant
                i <= self.questions.len(),
                questions.len() == i,
                forall|k: int| 0 <= k < i ==> (#[trigger] questions[k])@ == self.questions[k]@,
            decreases self.questions.len() - i,
        {
            questions.push(self.questions[i].clone());
            i += 1;
        }
        assert(question_views(questions@) == question_views(self.questions@));
        DnsQuestionSet { questions }
    }
}

/// The questions as plain values.
pub open spec fn question_views(questions: Seq<DnsQuestion>) -> Seq<QuestionView> {
    Seq::new(questions.len(), |i: int| questions[i]@)
}

impl View for DnsQuestionSet {
    type V = Seq<QuestionView>;

    open spec fn view(&self) -> Seq<QuestionView> {
        question_views(self.questions@)
    }
}

/// The wire form of the questions from index `i` on, the first of them
/// written at offset `at`; all share one table. A section that would end
/// beyond `isize::MAX` is refused.
pub open spec fn encode_questions(qs: Seq<QuestionView>, i: int, at: int, table: NameTable) -> Encoding
    decreases qs.len() - i,
{
    if i >= qs.len() {
        Encoding { result: Ok(Seq::empty()), table }
    } else {
        let first = encode_question(qs[i], at, table);
        match first.result {
            Err(e) => Encoding { result: Err(e), table: first.table },
            Ok(bytes) => if at + bytes.len() > isize::MAX {
                Encoding { result: Err(DnsError::MessageTooLong), table: first.table }
            } else {
                after(bytes, encode_questions(qs, i + 1, at + bytes.len(), first.table))
            },
        }
    }
}

/// The wire form of a question section that starts at offset `pos` and is
/// declared to hold `count` questions. A count that is not the number of
/// questions is refused.
pub open spec fn encode_question_set(qs: Seq<QuestionView>, count: int, pos: int, table: NameTable) -> Encoding {
    if count != qs.len() {
        Encoding { result: Err(DnsError::CountMismatch), table }
    } else {
        encode_questions(qs, 0, pos, table)
    }
}

/// The questions that `buf` holds from `at` on, after `found` were read, up
/// to `count` in all.
pub open spec fn decode_questions(
    buf: Seq<u8>,
    at: int,
    count: int,
    found: Seq<QuestionView>,
    table: NameTable,
) -> Decoding<Seq<QuestionView>>
    decreases count - found.len(),
{
    if found.len() >= count {
        Decoding { result: Ok((at, found)), table }
    } else {
        let one = decode_question(buf, at, table);
        match one.result {
            Err(e) => Decoding { result: Err(e), table: one.table },
            Ok((next, q)) => decode_questions(buf, next, count, found.push(q), one.table),
        }
    }
}

/// The `count` questions that `buf` holds at `pos`.
pub open spec fn decode_question_set(buf: Seq<u8>, pos: int, count: int, table: NameTable) -> Decoding<
    Seq<QuestionView>,
> {
    decode_questions(buf, pos, count, Seq::empty(), table)
}

/// A question section ends at or before `isize::MAX`.
pub proof fn lemma_questions_len(qs: Seq<QuestionView>, i: int, at: int, table: NameTable)
    requires
        0 <= i <= qs.len(),
        0 <= at <= isize::MAX,
    ensures
        encode_questions(qs, i, at, table).result matches Ok(bytes) ==> at + bytes.len()
            <= isize::MAX,
    decreases qs.len() - i,
{
    if i < qs.len() {
        let first = encode_question(qs[i], at, table);
        if let Ok(bytes) = first.result {
            if at + bytes.len() <= isize::MAX {
                lemma_questions_len(qs, i + 1, at + bytes.len(), first.table);
            }
        }
    }
}

impl DnsQuestionSet {
    /// Decodes `num_questions` questions, one after the other, from `pos` on.
    pub fn decode(buf: &Bytes, pos: usize, num_questions: usize, label_map: &mut LabelMap) -> (r:
        Result<(usize, DnsQuestionSet), DnsError>)
        ensures
            cursor_result(r) == decode_question_set(
                bytes_of(*buf),
                pos as int,
                num_questions as int,
                old(label_map)@,
            ).result,
            final(label_map)@ == decode_question_set(
                bytes_of(*buf),
                pos as int,
                num_questions as int,
                old(label_map)@,
            ).table,
    {
        let mut questions: Vec<DnsQuestion> = Vec::new();
        let mut current = pos;
        let ghost bytes = bytes_of(*buf);
        proof {
            assert(question_views(questions@) == Seq::<QuestionView>::empty());
        }
        while questions.len() < num_questions
            invariant
                bytes == bytes_of(*buf),
                questions.len() <= num_questions,
                decode_questions(
                    bytes,
                    current as int,
                    num_questions as int,
                    question_views(questions@),
                    label_map@,
                ) == decode_question_set(bytes, pos as int, num_questions as int, old(label_map)@),
            decreases num_questions - questions.len(),
        {
            let (next, q) = match DnsQuestion::decode(buf, current, label_map) {
                Ok(read) => read,
                Err(e) => {
                    return Err(e);
                },
            };
            let ghost found = question_views(questions@);
            questions.push(q);
            proof {
                assert(question_views(questions@) == found.push(q@));
            }
            current = next;
        }
        Ok((current, DnsQuestionSet { questions }))
    }

    /// Encodes the questions for a section that starts at offset `pos`.
    /// `num_questions` is the count that the header declares: unless it is
    /// the number of questions at hand, nothing is encoded.
    pub fn encode(&self, num_questions: usize, label_map: &mut LabelMap, pos: usize) -> (r: Result<
        Bytes,
        DnsError,
    >)
        ensures
            wire_result(r) == encode_question_set(
                self@,
                num_questions as int,
                pos as int,
                old(label_map)@,
            ).result,
            final(label_map)@ == encode_question_set(
                self@,
                num_questions as int,
                pos as int,
                old(label_map)@,
            ).table,
            num_questions != self.questions.len() ==> r == Err::<Bytes, _>(DnsError::CountMismatch),
    {
        if num_questions != self.questions.len() {
            return Err(DnsError::CountMismatch);
        }
        let mut buf = BytesMut::new();
        let mut i: usize = 0;
        let ghost qs = self@;
        while i < self.questions.len()
            invariant
                i <= self.questions.len(),
                num_questions == self.questions.len(),
                qs == self@,
                i > 0 ==> pos + written(buf).len() <= isize::MAX,
                i == 0 ==> written(buf).len() == 0,
                after(
                    written(buf),
                    encode_questions(qs, i as int, pos + written(buf).len(), label_map@),
                ) == encode_questions(qs, 0, pos as int, old(label_map)@),
            decreases self.questions.len() - i,
        {
            let at = pos + buf.len();
            let one = match self.questions[i].encode(at, label_map) {
                Ok(one) => one,
                Err(e) => {
                    return Err(e);
                },
            };
            let bytes = as_slice(&one);
            if at > isize::MAX as usize || bytes.len() > isize::MAX as usize - at {
                return Err(DnsError::MessageTooLong);
            }
            let ghost before = written(buf);
            buf.extend_from_slice(bytes);
            proof {
                let rest = encode_questions(qs, i + 1, pos + written(buf).len(), label_map@);
                if let Ok(more) = rest.result {
                    assert(written(buf) + more == before + (bytes@ + more));
                }
            }
            i += 1;
        }
        Ok(buf.freeze())
    }
}

} // verus!
