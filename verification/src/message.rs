//! Whole messages: a header, the questions and the answers.

use crate::answer::{
    decode_answer_set, encode_answer_set, lemma_answers_len, AnswerView, DnsAnswerSet,
};
use crate::buffer::{as_slice, bytes_of};
use crate::error::DnsError;
use crate::header::{decode_header, header_bytes, DnsHeader, DnsPacketType, HEADER_LEN};
use crate::label::after;
use crate::label_map::{LabelMap, NameTable};
use crate::parse::{wire_result, Decoding, DnsData, Encoding};
use crate::question::{
    decode_question_set, encode_question_set, lemma_questions_len, DnsQuestionSet, QuestionView,
};
use bytes::{Bytes, BytesMut};
use vstd::prelude::*;

verus! {

/// A message: its header, its questions and its answers.
#[derive(Debug, PartialEq, Eq)]
pub struct DnsMessage {
    pub header: DnsHeader,
    pub questions: DnsQuestionSet,
    pub answers: DnsAnswerSet,
}

impl Default for DnsMessage {
    fn default() -> (r: DnsMessage)
        ensures
            r@ == (MessageView {
                header: DnsHeader::zeroed(),
                questions: Seq::empty(),
                answers: Seq::empty(),
            }),
    {
        DnsMessage {
            header: DnsHeader::default(),
            questions: DnsQuestionSet::default(),
            answers: DnsAnswerSet::default(),
        }
    }
}

/// A message as plain values.
pub struct MessageView {
    pub header: DnsHeader,
    pub questions: Seq<QuestionView>,
    pub answers: Seq<AnswerView>,
}

impl View for DnsMessage {
    type V = MessageView;

    open spec fn view(&self) -> MessageView {
        MessageView { header: self.header, questions: self.questions@, answers: self.answers@ }
    }
}

/// The wire form of a message: the header at offset 0, then the questions,
/// then the answers, all sharing one table. The header's counts must be the
/// numbers of questions and of answers.
pub open spec fn encode_message(m: MessageView, table: NameTable) -> Encoding {
    let questions = encode_question_set(
        m.questions,
        m.header.question_count as int,
        HEADER_LEN as int,
        table,
    );
    match questions.result {
        Err(e) => Encoding { result: Err(e), table: questions.table },
        Ok(qbytes) => after(
            header_bytes(m.header) + qbytes,
            encode_answer_set(
                m.answers,
                m.header.answer_record_count as int,
                HEADER_LEN + qbytes.len(),
                questions.table,
            ),
        ),
    }
}

/// The message that `buf` holds: the header in its first twelve bytes, then
/// from `pos + 12` on as many questions and answers as the header declares.
pub open spec fn decode_message(buf: Seq<u8>, pos: int, table: NameTable) -> Decoding<MessageView> {
    let header = decode_header(buf, pos, table);
    match header.result {
        Err(e) => Decoding { result: Err(e), table: header.table },
        Ok((at, h)) => {
            let questions = decode_question_set(buf, at, h.question_count as int, header.table);
            match questions.result {
                Err(e) => Decoding { result: Err(e), table: questions.table },
                Ok((at, qs)) => {
                    let answers = decode_answer_set(
                        buf,
                        at,
                        h.answer_record_count as int,
                        questions.table,
                    );
                    Decoding {
                        result: match answers.result {
                            Err(e) => Err(e),
                            Ok((next, ans)) => Ok(
                                (next, MessageView { header: h, questions: qs, answers: ans }),
                            ),
                        },
                        table: answers.table,
                    }
                },
            }
        },
    }
}

impl DnsData for DnsMessage {
    /// A message always starts at offset 0: `pos` plays no part.
    open spec fn encoding(&self, pos: int, table: NameTable) -> Encoding {
        encode_message(self@, table)
    }

    open spec fn decoding(buf: Seq<u8>, pos: int, table: NameTable) -> Decoding<MessageView> {
        decode_message(buf, pos, table)
    }

    fn encode(&self, pos: usize, label_map: &mut LabelMap) -> (r: Result<Bytes, DnsError>) {
        let mut buf = BytesMut::new();
        let header = match self.header.encode(buf.len(), label_map) {
            Ok(header) => header,
            Err(e) => {
                return Err(e);
            },
        };
        buf.extend_from_slice(as_slice(&header));
        let questions = match self.questions.encode(
            self.header.question_count as usize,
            label_map,
            buf.len(),
        ) {
            Ok(questions) => questions,
            Err(e) => {
                return Err(e);
            },
        };
        proof {
            lemma_questions_len(self.questions@, 0, HEADER_LEN as int, old(label_map)@);
        }
        buf.extend_from_slice(as_slice(&questions));
        let answers = match self.answers.encode(
            self.header.answer_record_count as usize,
            label_map,
            buf.len(),
        ) {
            Ok(answers) => answers,
            Err(e) => {
                return Err(e);
            },
        };
        proof {
            lemma_answers_len(
                self.answers@,
                0,
                HEADER_LEN + bytes_of(questions).len(),
                encode_question_set(
                    self.questions@,
                    self.header.question_count as int,
                    HEADER_LEN as int,
                    old(label_map)@,
                ).table,
            );
        }
        buf.extend_from_slice(as_slice(&answers));
        Ok(buf.freeze())
    }

    fn decode(buf: &Bytes, pos: usize, label_map: &mut LabelMap) -> (r: Result<
        (usize, DnsMessage),
        DnsError,
    >) {
        if as_slice(buf).len() < HEADER_LEN {
            return Err(DnsError::Truncated);
        }
        let (current, header) = match DnsHeader::decode(buf, pos, label_map) {
            Ok(read) => read,
            Err(e) => {
                return Err(e);
            },
        };
        let (current, questions) = match DnsQuestionSet::decode(
            buf,
            current,
            header.question_count as usize,
            label_map,
        ) {
            Ok(read) => read,
            Err(e) => {
                return Err(e);
            },
        };
        let (current, answers) = match DnsAnswerSet::decode(
            buf,
            current,
            header.answer_record_count as usize,
            label_map,
        ) {
            Ok(read) => read,
            Err(e) => {
                return Err(e);
            },
        };
        Ok((current, DnsMessage { header, questions, answers }))
    }
}

/// What a server that has nothing to add sends back for a datagram: the
/// message that the datagram holds, encoded anew.
pub open spec fn echo_of(datagram: Seq<u8>) -> Result<Seq<u8>, DnsError> {
    match decode_message(datagram, 0, Seq::empty()).result {
        Err(e) => Err(e),
        Ok((_, m)) => encode_message(m, Seq::empty()).result,
    }
}

/// Decodes a datagram and encodes the message again, each with a table of
/// its own.
pub fn echo(datagram: &Bytes) -> (r: Result<Bytes, DnsError>)
    ensures
        wire_result(r) == echo_of(bytes_of(*datagram)),
{
    let mut seen = LabelMap::new();
    let message = match DnsMessage::decode(datagram, 0, &mut seen) {
        Ok((_, message)) => message,
        Err(e) => {
            return Err(e);
        },
    };
    let mut recorded = LabelMap::new();
    message.encode(0, &mut recorded)
}

impl DnsMessage {
    /// The same message, marked as a response.
    pub fn as_reply(self) -> (r: DnsMessage)
        ensures
            r.header == (DnsHeader { query_type: DnsPacketType::Response, ..self.header }),
            r.questions == self.questions,
            r.answers == self.answers,
    {
        let mut reply = self;
        reply.header.query_type = DnsPacketType::Response;
        reply
    }

    /// The same message with `answer` as its answers and the header's
    /// answer count set to their number. More answers than a 16-bit count
    /// can announce are refused.
    pub fn with_answers(self, answer: DnsAnswerSet) -> (r: Result<DnsMessage, DnsError>)
        ensures
            answer.answers.len() <= u16::MAX ==> r == Ok::<_, DnsError>(
                DnsMessage {
                    header: DnsHeader {
                        answer_record_count: answer.answers.len() as u16,
                        ..self.header
                    },
                    questions: self.questions,
                    answers: answer,
                },
            ),
            answer.answers.len() > u16::MAX ==> r == Err::<DnsMessage, _>(DnsError::TooManyRecords),
    {
        let count = answer.answers.len();
        if count > u16::MAX as usize {
            return Err(DnsError::TooManyRecords);
        }
        let mut message = self;
        message.header.answer_record_count = count as u16;
        message.answers = answer;
        Ok(message)
    }
}

} // verus!
