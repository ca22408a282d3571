use bytes::Bytes;
use dns::{
    echo, DnsAnswer, DnsAnswerSet, DnsData, DnsError, DnsHeader, DnsMessage, DnsPacketType,
    DnsQuestion, DnsQuestionSet, Domain, Label, LabelMap, QuestionType,
};

fn name(labels: &[&str]) -> Domain {
    Domain { labels: labels.iter().map(|x| Label(x.to_string())).collect() }
}

fn ask(labels: &[&str], qtype: QuestionType, class: u16) -> DnsQuestion {
    DnsQuestion { name: name(labels), qtype, class }
}

fn answer(labels: &[&str], data: &[u8]) -> DnsAnswer {
    DnsAnswer {
        name: name(labels),
        qtype: QuestionType::A,
        class: 1,
        ttl: 0x01020304,
        data: Bytes::copy_from_slice(data),
    }
}

const ALL_TYPES: [QuestionType; 16] = [
    QuestionType::A,
    QuestionType::NS,
    QuestionType::MD,
    QuestionType::MF,
    QuestionType::CNAME,
    QuestionType::SOA,
    QuestionType::MB,
    QuestionType::MG,
    QuestionType::MR,
    QuestionType::NULL,
    QuestionType::WKS,
    QuestionType::PTR,
    QuestionType::HINFO,
    QuestionType::MINFO,
    QuestionType::MX,
    QuestionType::TXT,
];

#[test]
fn record_types_and_codes() {
    for (i, qtype) in ALL_TYPES.iter().enumerate() {
        let code = (i + 1) as u16;
        assert_eq!(u16::try_from(*qtype), Ok(code));
        assert_eq!(QuestionType::try_from(code), Ok(*qtype));
        let back: Result<QuestionType, DnsError> = code.try_into();
        assert_eq!(back, Ok(*qtype));
    }
    assert_eq!(QuestionType::try_from(0), Err(DnsError::InvalidQuestionType(0)));
    assert_eq!(QuestionType::try_from(17), Err(DnsError::InvalidQuestionType(17)));
    assert_eq!(QuestionType::try_from(0xffff), Err(DnsError::InvalidQuestionType(0xffff)));
    assert_eq!(QuestionType::default(), QuestionType::A);
}

#[test]
fn question_wire_form() {
    let q = ask(&["google", "com"], QuestionType::MX, 0x0102);
    let bytes = q.encode(0, &mut LabelMap::new()).unwrap();
    assert_eq!(
        &bytes[..],
        &[6, b'g', b'o', b'o', b'g', b'l', b'e', 3, b'c', b'o', b'm', 0, 0x00, 0x0f, 0x01, 0x02]
    );
    assert_eq!(DnsQuestion::decode(&bytes, 0, &mut LabelMap::new()), Ok((16, q.clone())));
    assert_eq!(q.clone(), q);
}

#[test]
fn question_with_unknown_type_is_refused() {
    let mut map = LabelMap::new();
    let buf = Bytes::from(vec![1, b'a', 0, 0x00, 0x11, 0x00, 0x01]);
    assert_eq!(DnsQuestion::decode(&buf, 0, &mut map), Err(DnsError::InvalidQuestionType(17)));
    assert_eq!(map.get(&"a".to_string()), Some(0));
    let short = Bytes::from(vec![1, b'a', 0, 0x00, 0x01, 0x00]);
    assert_eq!(DnsQuestion::decode(&short, 0, &mut LabelMap::new()), Err(DnsError::Truncated));
    let shorter = Bytes::from(vec![1, b'a', 0, 0x00]);
    assert_eq!(DnsQuestion::decode(&shorter, 0, &mut LabelMap::new()), Err(DnsError::Truncated));
}

#[test]
fn shared_ending_makes_two_questions_shorter() {
    let first = ask(&["www", "example", "com"], QuestionType::A, 1);
    let second = ask(&["ftp", "example", "com"], QuestionType::A, 1);
    let set = DnsQuestionSet { questions: vec![first.clone(), second.clone()] };
    let mut map = LabelMap::new();
    let both = set.encode(2, &mut map, 12).unwrap();
    let one = first.encode(12, &mut LabelMap::new()).unwrap();
    let two = second.encode(12, &mut LabelMap::new()).unwrap();
    assert_eq!(one.len(), 21);
    assert_eq!(two.len(), 21);
    assert_eq!(both.len(), 21 + 10);
    assert!(both.len() < one.len() + two.len());
    assert_eq!(&both[..21], &one[..]);
    assert_eq!(&both[21..], &[3, b'f', b't', b'p', 0xc0, 16, 0, 1, 0, 1]);
    assert_eq!(both[25] & 0xc0, 0xc0);
    let (end, decoded) = {
        let mut whole = vec![0u8; 12];
        whole.extend_from_slice(&both);
        DnsQuestionSet::decode(&Bytes::from(whole), 12, 2, &mut LabelMap::new()).unwrap()
    };
    assert_eq!(end, 12 + both.len());
    assert_eq!(decoded, set);
}

#[test]
fn empty_last_label_gains_nothing_from_a_pointer() {
    let first = ask(&["a", ""], QuestionType::A, 1);
    let second = ask(&["b", ""], QuestionType::A, 1);
    let set = DnsQuestionSet { questions: vec![first.clone(), second.clone()] };
    let both = set.encode(2, &mut LabelMap::new(), 0).unwrap();
    let one = first.encode(0, &mut LabelMap::new()).unwrap();
    let two = second.encode(0, &mut LabelMap::new()).unwrap();
    assert_eq!(&both[8..12], &[1, b'b', 0xc0, 2]);
    assert_eq!(both.len(), one.len() + two.len());
}

#[test]
fn question_count_must_match() {
    let set = DnsQuestionSet { questions: vec![ask(&["a"], QuestionType::A, 1)] };
    let mut map = LabelMap::new();
    assert_eq!(set.encode(0, &mut map, 0), Err(DnsError::CountMismatch));
    assert_eq!(set.encode(2, &mut map, 0), Err(DnsError::CountMismatch));
    assert_eq!(map.len(), 0);
    assert!(set.encode(1, &mut map, 0).is_ok());
    assert_eq!(DnsQuestionSet::default().encode(1, &mut map, 0), Err(DnsError::CountMismatch));
    assert_eq!(DnsQuestionSet::default().encode(0, &mut map, 0), Ok(Bytes::new()));
    assert_eq!(set.clone(), set);
}

#[test]
fn answer_count_must_match() {
    let set = DnsAnswerSet { answers: vec![answer(&["a"], &[1, 2, 3, 4])] };
    let mut map = LabelMap::new();
    assert_eq!(set.encode(0, &mut map, 0), Err(DnsError::CountMismatch));
    assert_eq!(set.encode(2, &mut map, 0), Err(DnsError::CountMismatch));
    assert_eq!(map.len(), 0);
    assert!(set.encode(1, &mut map, 0).is_ok());
    assert_eq!(DnsAnswerSet::default().encode(3, &mut map, 0), Err(DnsError::CountMismatch));
    assert_eq!(DnsAnswerSet::default().encode(0, &mut map, 0), Ok(Bytes::new()));
    assert_eq!(set.clone(), set);
}

#[test]
fn message_counts_must_match() {
    let mut message = DnsMessage::default();
    message.questions.questions.push(ask(&["a"], QuestionType::A, 1));
    assert_eq!(message.encode(0, &mut LabelMap::new()), Err(DnsError::CountMismatch));
    message.header.question_count = 1;
    assert!(message.encode(0, &mut LabelMap::new()).is_ok());
    message.header.answer_record_count = 1;
    let mut map = LabelMap::new();
    assert_eq!(message.encode(0, &mut map), Err(DnsError::CountMismatch));
    assert_eq!(map.get(&"a".to_string()), Some(12));
}

#[test]
fn set_decoding_stops_at_the_first_failure() {
    let buf = Bytes::from(vec![1, b'a', 0, 0, 1, 0, 1, 1, b'b', 0, 0, 99, 0, 1]);
    let mut map = LabelMap::new();
    assert_eq!(
        DnsQuestionSet::decode(&buf, 0, 2, &mut map),
        Err(DnsError::InvalidQuestionType(99))
    );
    assert_eq!(map.len(), 2);
    let mut map = LabelMap::new();
    let (end, one) = DnsQuestionSet::decode(&buf, 0, 1, &mut map).unwrap();
    assert_eq!(end, 7);
    assert_eq!(one.questions, vec![ask(&["a"], QuestionType::A, 1)]);
    assert_eq!(DnsQuestionSet::decode(&buf, 3, 0, &mut map), Ok((3, DnsQuestionSet::default())));
    assert_eq!(DnsQuestionSet::decode(&buf, 0, 3, &mut map), Err(DnsError::InvalidQuestionType(99)));
}

#[test]
fn answer_wire_form() {
    let a = answer(&["a"], &[10, 20, 30, 40, 50]);
    let bytes = a.encode(0, &mut LabelMap::new()).unwrap();
    assert_eq!(
        &bytes[..],
        &[1, b'a', 0, 0, 1, 0, 1, 0x01, 0x02, 0x03, 0x04, 0x00, 0x05, 10, 20, 30, 40, 50]
    );
    assert_eq!(DnsAnswer::decode(&bytes, 0, &mut LabelMap::new()), Ok((18, a.clone())));
    assert_eq!(a.clone(), a);
    assert_eq!(DnsAnswer::default().data.len(), 0);
}

#[test]
fn answer_data_is_taken_by_its_declared_length() {
    let buf = Bytes::from(vec![1, b'a', 0, 0, 16, 0, 3, 0, 0, 0, 9, 0, 2, 7, 8, 9]);
    let (end, a) = DnsAnswer::decode(&buf, 0, &mut LabelMap::new()).unwrap();
    assert_eq!(end, 15);
    assert_eq!(a.qtype, QuestionType::TXT);
    assert_eq!(a.class, 3);
    assert_eq!(a.ttl, 9);
    assert_eq!(&a.data[..], &[7, 8]);
    let short = Bytes::from(vec![1, b'a', 0, 0, 16, 0, 3, 0, 0, 0, 9, 0, 4, 7, 8, 9]);
    assert_eq!(DnsAnswer::decode(&short, 0, &mut LabelMap::new()), Err(DnsError::Truncated));
    let cut = Bytes::from(vec![1, b'a', 0, 0, 16, 0, 3, 0, 0, 0]);
    assert_eq!(DnsAnswer::decode(&cut, 0, &mut LabelMap::new()), Err(DnsError::Truncated));
    let odd = Bytes::from(vec![1, b'a', 0, 0, 0, 0, 3, 0, 0, 0, 9, 0, 0]);
    assert_eq!(DnsAnswer::decode(&odd, 0, &mut LabelMap::new()), Err(DnsError::InvalidQuestionType(0)));
}

#[test]
fn answer_data_must_fit_its_length_field() {
    let mut map = LabelMap::new();
    let big = answer(&["a"], &vec![7u8; 0x10000]);
    assert_eq!(big.encode(0, &mut map), Err(DnsError::DataTooLong));
    assert_eq!(map.len(), 0);
    let fits = answer(&["a"], &vec![7u8; 0xffff]);
    let bytes = fits.encode(0, &mut map).unwrap();
    assert_eq!(bytes.len(), 3 + 10 + 0xffff);
    assert_eq!((bytes[11], bytes[12]), (0xff, 0xff));
    assert_eq!(DnsAnswer::decode(&bytes, 0, &mut LabelMap::new()), Ok((bytes.len(), fits)));
}

#[test]
fn message_with_answers_round_trip() {
    let mut message = DnsMessage::default();
    message.header.packet_id = 0xbeef;
    message.header.recursion_desired = true;
    message.questions.questions.push(ask(&["www", "example", "com"], QuestionType::A, 1));
    message.header.question_count = 1;
    let answers = DnsAnswerSet {
        answers: vec![
            answer(&["www", "example", "com"], &[93, 184, 216, 34]),
            answer(&["example", "com"], &[]),
            answer(&["mail", "example", "com"], &[1, 2, 3, 4, 5, 6]),
        ],
    };
    let message = message.as_reply().with_answers(answers.clone()).unwrap();
    assert_eq!(message.header.query_type, DnsPacketType::Response);
    assert_eq!(message.header.answer_record_count, 3);
    assert_eq!(message.header.packet_id, 0xbeef);
    assert_eq!(message.answers, answers);

    let bytes = message.encode(0, &mut LabelMap::new()).unwrap();
    // header, question, then three answers that point back into the question
    assert_eq!(bytes.len(), 12 + 21 + (2 + 10 + 4) + (2 + 10) + (5 + 2 + 10 + 6));
    assert_eq!(&bytes[33..35], &[0xc0, 12]);
    assert_eq!(&bytes[49..51], &[0xc0, 16]);
    assert_eq!(&bytes[61..68], &[4, b'm', b'a', b'i', b'l', 0xc0, 16]);
    let mut map = LabelMap::new();
    let (end, decoded) = DnsMessage::decode(&bytes, 0, &mut map).unwrap();
    assert_eq!(end, bytes.len());
    assert_eq!(decoded, message);
    assert_eq!(map.len(), 4);
    assert_eq!(echo(&bytes), Ok(bytes));
}

#[test]
fn message_position_only_moves_the_cursor() {
    let mut message = DnsMessage::default();
    message.questions.questions.push(ask(&["a"], QuestionType::NS, 1));
    message.header.question_count = 1;
    let at_zero = message.encode(0, &mut LabelMap::new()).unwrap();
    let elsewhere = message.encode(77, &mut LabelMap::new()).unwrap();
    assert_eq!(at_zero, elsewhere);
    let mut shifted = at_zero.to_vec();
    shifted.splice(12..12, [0xee, 0xee, 0xee]);
    let (end, decoded) = DnsMessage::decode(&Bytes::from(shifted), 3, &mut LabelMap::new()).unwrap();
    assert_eq!(end, 3 + at_zero.len());
    assert_eq!(decoded, message);
}

#[test]
fn reply_keeps_all_but_the_direction() {
    let mut message = DnsMessage::default();
    message.header.packet_id = 9;
    message.questions.questions.push(ask(&["a"], QuestionType::A, 1));
    message.header.question_count = 1;
    let questions = message.questions.clone();
    let reply = message.as_reply();
    assert_eq!(
        reply.header,
        DnsHeader { packet_id: 9, question_count: 1, query_type: DnsPacketType::Response, ..DnsHeader::default() }
    );
    assert_eq!(reply.questions, questions);
    assert_eq!(reply.answers, DnsAnswerSet::default());
}

#[test]
fn too_many_answers_are_refused() {
    let many = DnsAnswerSet { answers: vec![DnsAnswer::default(); 0x10000] };
    assert_eq!(DnsMessage::default().with_answers(many), Err(DnsError::TooManyRecords));
    let most = DnsAnswerSet { answers: vec![DnsAnswer::default(); 0xffff] };
    let message = DnsMessage::default().with_answers(most).unwrap();
    assert_eq!(message.header.answer_record_count, 0xffff);
    assert_eq!(message.answers.answers.len(), 0xffff);
}

#[test]
fn echo_drops_what_is_no_message() {
    assert_eq!(echo(&Bytes::from_static(b"hello world")), Err(DnsError::Truncated));
    assert_eq!(echo(&Bytes::new()), Err(DnsError::Truncated));
    // a header that declares one question, and nothing after it
    let mut lonely = vec![0u8; 12];
    lonely[5] = 1;
    assert_eq!(echo(&Bytes::from(lonely)), Err(DnsError::Truncated));
    assert_eq!(echo(&Bytes::from(vec![0u8; 12])), Ok(Bytes::from(vec![0u8; 12])));
    // after a datagram that was dropped the next one is answered
    let mut message = DnsMessage::default();
    message.questions.questions.push(ask(&["google", "com"], QuestionType::A, 1));
    message.header.question_count = 1;
    let sent = message.encode(0, &mut LabelMap::new()).unwrap();
    let reply = echo(&sent).unwrap();
    let (_, decoded) = DnsMessage::decode(&reply, 0, &mut LabelMap::new()).unwrap();
    assert_eq!(decoded.questions, message.questions);
}

#[test]
fn echo_writes_names_anew() {
    // the same name twice, written out in full both times
    let mut buf = vec![0u8; 12];
    buf[5] = 2;
    for _ in 0..2 {
        buf.extend_from_slice(&[1, b'a', 0, 0, 1, 0, 1]);
    }
    let reply = echo(&Bytes::from(buf)).unwrap();
    assert_eq!(reply.len(), 12 + 7 + 6);
    assert_eq!(&reply[19..], &[0xc0, 12, 0, 1, 0, 1]);
}
