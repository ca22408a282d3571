//! What holds of records and messages on the wire: what was encoded is
//! decoded to itself.

use crate::answer::{
    decode_answer, decode_answers, decode_answer_set, encode_answer, encode_answer_set,
    encode_answers, AnswerView,
};
use crate::buffer::{be16, be32};
use crate::error::DnsError;
use crate::header::{decode_header, header_bytes, lemma_header_of_bytes, HEADER_LEN};
use crate::label::{after, encode_domain, join_dots, pointer_bytes};
use crate::label_map::{lemma_offset_of_none, offset_of, NameTable};
use crate::message::{decode_message, echo_of, encode_message, MessageView};
use crate::name_laws::{
    first_known, lemma_domain_round_trip, lemma_encode_compresses, lemma_first_known,
    lemma_first_known_fresh, lemma_offset_of_some, lemma_pointer_bytes, lemma_wire_len_grows,
    new_entries, ordered_before, plain_name, wire_from,
};
use crate::parse::{
    lemma_u16_round_trip, lemma_u32_round_trip, read_u16, read_u32, Decoding, Encoding,
};
use crate::question::{
    decode_question, decode_question_set, decode_questions, encode_question, encode_question_set,
    encode_questions, QuestionView,
};
use crate::question_type::{code_of, lemma_codes};
use vstd::prelude::*;
use vstd::utf8::encode_utf8;

verus! {

/// A part of what a buffer holds at `pos` is found in the buffer itself.
pub proof fn lemma_window(buf: Seq<u8>, pos: int, bytes: Seq<u8>, from: int, to: int)
    requires
        0 <= pos,
        pos + bytes.len() <= buf.len(),
        buf.subrange(pos, pos + bytes.len()) == bytes,
        0 <= from <= to <= bytes.len(),
    ensures
        buf.subrange(pos + from, pos + to) == bytes.subrange(from, to),
        forall|x: int| from <= x < to ==> buf[pos + x] == bytes[x],
{
    let held = buf.subrange(pos, pos + bytes.len());
    assert forall|x: int| from <= x < to implies buf[pos + x] == bytes[x] by {
        assert(held[x] == buf[pos + x]);
    }
    assert(buf.subrange(pos + from, pos + to) =~= bytes.subrange(from, to));
}

/// Two bytes that a buffer holds are read as the number they spell.
pub proof fn lemma_read_be16(buf: Seq<u8>, at: int, n: u16)
    requires
        0 <= at,
        at + 2 <= buf.len(),
        buf.subrange(at, at + 2) == be16(n),
    ensures
        read_u16(buf, at) == Ok::<_, DnsError>((at + 2, n)),
{
    lemma_u16_round_trip(n);
    assert(buf.subrange(at, at + 2)[0] == buf[at]);
    assert(buf.subrange(at, at + 2)[1] == buf[at + 1]);
}

/// Four bytes that a buffer holds are read as the number they spell.
pub proof fn lemma_read_be32(buf: Seq<u8>, at: int, n: u32)
    requires
        0 <= at,
        at + 4 <= buf.len(),
        buf.subrange(at, at + 4) == be32(n),
    ensures
        read_u32(buf, at) == Ok::<_, DnsError>((at + 4, n)),
{
    lemma_u32_round_trip(n);
    assert(buf.subrange(at, at + 4)[0] == buf[at]);
    assert(buf.subrange(at, at + 4)[1] == buf[at + 1]);
    assert(buf.subrange(at, at + 4)[2] == buf[at + 2]);
    assert(buf.subrange(at, at + 4)[3] == buf[at + 3]);
}

/// A question with a plain name that was encoded at `pos`, after a message
/// whose table is in order, is decoded to itself from any buffer that holds
/// its bytes at `pos`.
pub proof fn lemma_question_round_trip(q: QuestionView, pos: int, table: NameTable, buf: Seq<u8>)
    requires
        plain_name(q.name),
        0 <= pos,
        ordered_before(table, pos),
        encode_question(q, pos, table).result matches Ok(bytes) && pos + bytes.len() <= buf.len()
            && buf.subrange(pos, pos + bytes.len()) == bytes,
    ensures
        decode_question(buf, pos, table) == (Decoding {
            result: Ok((pos + encode_question(q, pos, table).result->Ok_0.len(), q)),
            table: encode_question(q, pos, table).table,
        }),
        ordered_before(
            encode_question(q, pos, table).table,
            pos + encode_question(q, pos, table).result->Ok_0.len(),
        ),
{
    let bytes = encode_question(q, pos, table).result->Ok_0;
    let name = encode_domain(q.name, pos, table).result->Ok_0;
    let n = name.len() as int;
    assert(bytes == name + be16(code_of(q.qtype)) + be16(q.class));
    lemma_window(buf, pos, bytes, 0, n);
    assert(bytes.subrange(0, n) == name);
    lemma_domain_round_trip(q.name, pos, table, buf);
    lemma_window(buf, pos, bytes, n, n + 2);
    assert(bytes.subrange(n, n + 2) == be16(code_of(q.qtype)));
    lemma_read_be16(buf, pos + n, code_of(q.qtype));
    lemma_codes(q.qtype, 0);
    lemma_window(buf, pos, bytes, n + 2, n + 4);
    assert(bytes.subrange(n + 2, n + 4) == be16(q.class));
    lemma_read_be16(buf, pos + n + 2, q.class);
}

/// Every question has a plain name.
pub open spec fn plain_questions(qs: Seq<QuestionView>) -> bool {
    forall|i: int| 0 <= i < qs.len() ==> plain_name((#[trigger] qs[i]).name)
}

/// Questions with plain names that were encoded one after the other from
/// `at` on are decoded to themselves from any buffer that holds their bytes
/// at `at`.
pub proof fn lemma_questions_round_trip(
    qs: Seq<QuestionView>,
    i: int,
    at: int,
    table: NameTable,
    buf: Seq<u8>,
)
    requires
        plain_questions(qs),
        0 <= i <= qs.len(),
        0 <= at,
        ordered_before(table, at),
        encode_questions(qs, i, at, table).result matches Ok(bytes) && at + bytes.len() <= buf.len()
            && buf.subrange(at, at + bytes.len()) == bytes,
    ensures
        decode_questions(buf, at, qs.len() as int, qs.take(i), table) == (Decoding {
            result: Ok((at + encode_questions(qs, i, at, table).result->Ok_0.len(), qs)),
            table: encode_questions(qs, i, at, table).table,
        }),
        ordered_before(
            encode_questions(qs, i, at, table).table,
            at + encode_questions(qs, i, at, table).result->Ok_0.len(),
        ),
    decreases qs.len() - i,
{
    let bytes = encode_questions(qs, i, at, table).result->Ok_0;
    if i < qs.len() {
        let first = encode_question(qs[i], at, table);
        let one = first.result->Ok_0;
        let n = one.len() as int;
        let rest = encode_questions(qs, i + 1, at + n, first.table);
        let more = rest.result->Ok_0;
        assert(bytes == one + more);
        lemma_window(buf, at, bytes, 0, n);
        assert(bytes.subrange(0, n) == one);
        lemma_question_round_trip(qs[i], at, table, buf);
        lemma_window(buf, at, bytes, n, bytes.len() as int);
        assert(bytes.subrange(n, bytes.len() as int) == more);
        lemma_questions_round_trip(qs, i + 1, at + n, first.table, buf);
        assert(qs.take(i).push(qs[i]) == qs.take(i + 1));
    } else {
        assert(qs.take(i) == qs);
    }
}

/// An answer with a plain name that was encoded at `pos`, after a message
/// whose table is in order, is decoded to itself from any buffer that holds
/// its bytes at `pos`.
pub proof fn lemma_answer_round_trip(a: AnswerView, pos: int, table: NameTable, buf: Seq<u8>)
    requires
        plain_name(a.name),
        0 <= pos,
        ordered_before(table, pos),
        encode_answer(a, pos, table).result matches Ok(bytes) && pos + bytes.len() <= buf.len()
            && buf.subrange(pos, pos + bytes.len()) == bytes,
    ensures
        decode_answer(buf, pos, table) == (Decoding {
            result: Ok((pos + encode_answer(a, pos, table).result->Ok_0.len(), a)),
            table: encode_answer(a, pos, table).table,
        }),
        ordered_before(
            encode_answer(a, pos, table).table,
            pos + encode_answer(a, pos, table).result->Ok_0.len(),
        ),
{
    let bytes = encode_answer(a, pos, table).result->Ok_0;
    let name = encode_domain(a.name, pos, table).result->Ok_0;
    let n = name.len() as int;
    let len = a.data.len() as int;
    assert(bytes == name + be16(code_of(a.qtype)) + be16(a.class) + be32(a.ttl) + be16(
        a.data.len() as u16,
    ) + a.data);
    lemma_window(buf, pos, bytes, 0, n);
    assert(bytes.subrange(0, n) == name);
    lemma_domain_round_trip(a.name, pos, table, buf);
    lemma_window(buf, pos, bytes, n, n + 2);
    assert(bytes.subrange(n, n + 2) == be16(code_of(a.qtype)));
    lemma_read_be16(buf, pos + n, code_of(a.qtype));
    lemma_codes(a.qtype, 0);
    lemma_window(buf, pos, bytes, n + 2, n + 4);
    assert(bytes.subrange(n + 2, n + 4) == be16(a.class));
    lemma_read_be16(buf, pos + n + 2, a.class);
    lemma_window(buf, pos, bytes, n + 4, n + 8);
    assert(bytes.subrange(n + 4, n + 8) == be32(a.ttl));
    lemma_read_be32(buf, pos + n + 4, a.ttl);
    lemma_window(buf, pos, bytes, n + 8, n + 10);
    assert(bytes.subrange(n + 8, n + 10) == be16(a.data.len() as u16));
    lemma_read_be16(buf, pos + n + 8, a.data.len() as u16);
    lemma_window(buf, pos, bytes, n + 10, n + 10 + len);
    assert(bytes.subrange(n + 10, n + 10 + len) == a.data);
}

/// Every answer has a plain name.
pub open spec fn plain_answers(answers: Seq<AnswerView>) -> bool {
    forall|i: int| 0 <= i < answers.len() ==> plain_name((#[trigger] answers[i]).name)
}

/// Answers with plain names that were encoded one after the other from `at`
/// on are decoded to themselves from any buffer that holds their bytes at
/// `at`.
pub proof fn lemma_answers_round_trip(
    answers: Seq<AnswerView>,
    i: int,
    at: int,
    table: NameTable,
    buf: Seq<u8>,
)
    requires
        plain_answers(answers),
        0 <= i <= answers.len(),
        0 <= at,
        ordered_before(table, at),
        encode_answers(answers, i, at, table).result matches Ok(bytes) && at + bytes.len()
            <= buf.len() && buf.subrange(at, at + bytes.len()) == bytes,
    ensures
        decode_answers(buf, at, answers.len() as int, answers.take(i), table) == (Decoding {
            result: Ok((at + encode_answers(answers, i, at, table).result->Ok_0.len(), answers)),
            table: encode_answers(answers, i, at, table).table,
        }),
        ordered_before(
            encode_answers(answers, i, at, table).table,
            at + encode_answers(answers, i, at, table).result->Ok_0.len(),
        ),
    decreases answers.len() - i,
{
    let bytes = encode_answers(answers, i, at, table).result->Ok_0;
    if i < answers.len() {
        let first = encode_answer(answers[i], at, table);
        let one = first.result->Ok_0;
        let n = one.len() as int;
        let rest = encode_answers(answers, i + 1, at + n, first.table);
        let more = rest.result->Ok_0;
        assert(bytes == one + more);
        lemma_window(buf, at, bytes, 0, n);
        assert(bytes.subrange(0, n) == one);
        lemma_answer_round_trip(answers[i], at, table, buf);
        lemma_window(buf, at, bytes, n, bytes.len() as int);
        assert(bytes.subrange(n, bytes.len() as int) == more);
        lemma_answers_round_trip(answers, i + 1, at + n, first.table, buf);
        assert(answers.take(i).push(answers[i]) == answers.take(i + 1));
    } else {
        assert(answers.take(i) == answers);
    }
}

/// A question section of plain names that was encoded at `at` is decoded
/// to itself, under the count it was encoded with, from any buffer that
/// holds its bytes at `at`.
pub proof fn lemma_question_set_round_trip(
    qs: Seq<QuestionView>,
    count: int,
    at: int,
    table: NameTable,
    buf: Seq<u8>,
)
    requires
        plain_questions(qs),
        0 <= at,
        ordered_before(table, at),
        encode_question_set(qs, count, at, table).result matches Ok(bytes) && at + bytes.len()
            <= buf.len() && buf.subrange(at, at + bytes.len()) == bytes,
    ensures
        decode_question_set(buf, at, count, table) == (Decoding {
            result: Ok((at + encode_question_set(qs, count, at, table).result->Ok_0.len(), qs)),
            table: encode_question_set(qs, count, at, table).table,
        }),
        ordered_before(
            encode_question_set(qs, count, at, table).table,
            at + encode_question_set(qs, count, at, table).result->Ok_0.len(),
        ),
{
    assert(qs.take(0) == Seq::<QuestionView>::empty());
    lemma_questions_round_trip(qs, 0, at, table, buf);
}

/// An answer section of plain names that was encoded at `at` is decoded to
/// itself, under the count it was encoded with, from any buffer that holds
/// its bytes at `at`.
pub proof fn lemma_answer_set_round_trip(
    answers: Seq<AnswerView>,
    count: int,
    at: int,
    table: NameTable,
    buf: Seq<u8>,
)
    requires
        plain_answers(answers),
        0 <= at,
        ordered_before(table, at),
        encode_answer_set(answers, count, at, table).result matches Ok(bytes) && at + bytes.len()
            <= buf.len() && buf.subrange(at, at + bytes.len()) == bytes,
    ensures
        decode_answer_set(buf, at, count, table) == (Decoding {
            result: Ok(
                (at + encode_answer_set(answers, count, at, table).result->Ok_0.len(), answers),
            ),
            table: encode_answer_set(answers, count, at, table).table,
        }),
        ordered_before(
            encode_answer_set(answers, count, at, table).table,
            at + encode_answer_set(answers, count, at, table).result->Ok_0.len(),
        ),
{
    assert(answers.take(0) == Seq::<AnswerView>::empty());
    lemma_answers_round_trip(answers, 0, at, table, buf);
}

/// A message that can go over the wire and come back: the small fields of
/// its header hold no more than their bits, and every name is plain.
pub open spec fn plain_message(m: MessageView) -> bool {
    &&& m.header.valid()
    &&& plain_questions(m.questions)
    &&& plain_answers(m.answers)
}

/// A plain message that was encoded is decoded to itself: decoding the
/// bytes from offset 0, with the table that encoding started from, gives
/// the message, the table that encoding left, and the cursor at the end of
/// the bytes.
pub proof fn lemma_message_round_trip(m: MessageView, table: NameTable)
    requires
        plain_message(m),
        ordered_before(table, HEADER_LEN as int),
        encode_message(m, table).result is Ok,
    ensures
        decode_message(encode_message(m, table).result->Ok_0, 0, table) == (Decoding {
            result: Ok((encode_message(m, table).result->Ok_0.len() as int, m)),
            table: encode_message(m, table).table,
        }),
{
    let bytes = encode_message(m, table).result->Ok_0;
    let head = header_bytes(m.header);
    let qcount = m.header.question_count as int;
    let acount = m.header.answer_record_count as int;
    let questions = encode_question_set(m.questions, qcount, HEADER_LEN as int, table);
    let qbytes = questions.result->Ok_0;
    let qend = HEADER_LEN + qbytes.len();
    let answers = encode_answer_set(m.answers, acount, qend, questions.table);
    let abytes = answers.result->Ok_0;
    assert(bytes == (head + qbytes) + abytes);
    assert(head.len() == HEADER_LEN);
    assert(decode_header(bytes, 0, table) == (Decoding {
        result: Ok((HEADER_LEN as int, m.header)),
        table,
    })) by {
        assert(bytes.take(HEADER_LEN as int) == head);
        lemma_header_of_bytes(m.header, bytes);
    }
    assert(decode_question_set(bytes, HEADER_LEN as int, qcount, table) == (Decoding {
        result: Ok((qend, m.questions)),
        table: questions.table,
    }) && ordered_before(questions.table, qend)) by {
        assert(bytes.subrange(HEADER_LEN as int, qend) == qbytes);
        lemma_question_set_round_trip(m.questions, qcount, HEADER_LEN as int, table, bytes);
    }
    assert(decode_answer_set(bytes, qend, acount, questions.table) == (Decoding {
        result: Ok((bytes.len() as int, m.answers)),
        table: answers.table,
    })) by {
        assert(bytes.subrange(qend, bytes.len() as int) == abytes);
        lemma_answer_set_round_trip(m.answers, acount, qend, questions.table, bytes);
    }
}

/// A message is encoded only if its header's counts are the numbers of its
/// questions and of its answers: a count that differs is refused, whatever
/// else holds of the message.
pub proof fn lemma_counts_must_match(m: MessageView, table: NameTable)
    ensures
        m.header.question_count != m.questions.len() ==> encode_message(m, table) == (Encoding {
            result: Err(DnsError::CountMismatch),
            table,
        }),
        encode_message(m, table).result is Ok ==> m.header.question_count == m.questions.len()
            && m.header.answer_record_count == m.answers.len(),
{
}

/// A plain message that was encoded with an empty table comes back from an
/// echo byte for byte.
pub proof fn lemma_echo_reproduces(m: MessageView)
    requires
        plain_message(m),
        encode_message(m, Seq::empty()).result is Ok,
    ensures
        echo_of(encode_message(m, Seq::empty()).result->Ok_0) == encode_message(
            m,
            Seq::empty(),
        ).result,
{
    lemma_message_round_trip(m, Seq::empty());
}

/// Two questions whose names share an ending, encoded one after the other
/// with one table that starts empty: the second name is written up to an
/// ending that the first has recorded, and a pointer to that ending follows.
/// Together they take fewer bytes than the first and the second encoded
/// apart, each with an empty table. The law leaves out the one case in
/// which the pointer saves nothing: where all that it stands for is a last
/// label that is empty.
pub proof fn lemma_shared_ending_is_compressed(
    first: QuestionView,
    second: QuestionView,
    i: int,
    j: int,
    pos: int,
    apart: int,
)
    requires
        0 <= pos,
        0 <= i < first.name.len(),
        0 <= j < second.name.len(),
        first.name.skip(i) == second.name.skip(j),
        encode_questions(seq![first, second], 0, pos, Seq::empty()).result is Ok,
        encode_question(second, apart, Seq::empty()).result is Ok,
        encode_utf8(second.name.last()).len() > 0 || first_known(
            second.name,
            0,
            encode_question(first, pos, Seq::empty()).table,
        ) < second.name.len() - 1,
    ensures
        ({
            let alone = encode_question(first, pos, Seq::empty());
            let other = encode_question(second, apart, Seq::empty());
            let both = encode_questions(seq![first, second], 0, pos, Seq::empty());
            let k = first_known(second.name, 0, alone.table);
            &&& alone.result is Ok
            &&& k <= j
            &&& offset_of(alone.table, join_dots(second.name.skip(k))) matches Some(offset)
                && both.result == Ok::<_, DnsError>(
                alone.result->Ok_0 + (wire_from(second.name, 0, k) + pointer_bytes(offset) + be16(
                    code_of(second.qtype),
                ) + be16(second.class)),
            ) && pointer_bytes(offset)[0] & 0xc0 == 0xc0
            &&& both.result->Ok_0.len() < alone.result->Ok_0.len() + other.result->Ok_0.len()
        }),
{
    let fresh = Seq::<(Seq<char>, int)>::empty();
    let qs = seq![first, second];
    let alone = encode_question(first, pos, fresh);
    let other = encode_question(second, apart, fresh);
    let both = encode_questions(qs, 0, pos, fresh);
    let table = alone.table;
    let one = alone.result->Ok_0;
    let next = encode_question(second, pos + one.len(), table);
    let two = next.result->Ok_0;
    let k = first_known(second.name, 0, table);
    let n = second.name.len() as int;
    let rest = encode_questions(qs, 1, pos + one.len(), table);
    let end = encode_questions(qs, 2, pos + one.len() + two.len(), next.table);
    assert(qs[0] == first && qs[1] == second);
    assert(alone.result is Ok);
    assert(both == after(one, rest));
    assert(next.result is Ok);
    assert(rest == after(two, end));
    assert(end.result == Ok::<_, DnsError>(Seq::<u8>::empty()));
    assert(two + Seq::<u8>::empty() == two);
    assert(both.result == Ok::<_, DnsError>(one + two));

    // what the first question leaves in the table
    lemma_first_known_fresh(first.name, 0);
    lemma_encode_compresses(first.name, pos, fresh);
    let shared = join_dots(first.name.skip(i));
    assert(table == fresh + new_entries(first.name, pos, first.name.len() as int));
    assert(table[i].0 == shared);
    lemma_offset_of_none(table, shared);

    // the second name stops at an ending that the table knows
    lemma_first_known(second.name, 0, table);
    assert(k <= j) by {
        if k > j {
            assert(offset_of(table, join_dots(second.name.skip(j))) is None);
        }
    }
    lemma_encode_compresses(second.name, pos + one.len(), table);
    let ending = join_dots(second.name.skip(k));
    let offset = offset_of(table, ending)->Some_0;
    let found = lemma_offset_of_some(table, ending);
    lemma_wire_len_grows(first.name, 0, found);
    lemma_pointer_bytes(offset as u16);

    // the second question alone is written out in full
    lemma_first_known_fresh(second.name, 0);
    lemma_encode_compresses(second.name, apart, fresh);
    lemma_wire_len_grows(second.name, k, n - 1);
}

} // verus!
