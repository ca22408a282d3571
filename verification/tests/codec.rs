use bytes::Bytes;
use dns::{
    DnsAnswer, DnsAnswerSet, DnsData, DnsError, DnsHeader, DnsMessage, DnsPacketType, DnsQuestion,
    DnsQuestionSet, Domain, Label, LabelByte, LabelMap, QuestionType,
};

fn domain(labels: &[&str]) -> Domain {
    Domain { labels: labels.iter().map(|x| Label(x.to_string())).collect() }
}

fn question(labels: &[&str], qtype: QuestionType, class: u16) -> DnsQuestion {
    DnsQuestion { name: domain(labels), qtype, class }
}

fn request(questions: Vec<DnsQuestion>) -> DnsMessage {
    let mut message = DnsMessage::default();
    message.questions = DnsQuestionSet { questions };
    message.header.question_count = message.questions.questions.len().try_into().unwrap();
    message
}

/// Encodes the request as a client would, and decodes what a server that
/// echoes the message would send back.
fn echo(message: &DnsMessage) -> DnsMessage {
    let sent = message.encode(0, &mut LabelMap::new()).unwrap();
    let (_, received) = DnsMessage::decode(&sent, 0, &mut LabelMap::new()).unwrap();
    let reply = received.encode(0, &mut LabelMap::new()).unwrap();
    assert_eq!(reply, sent);
    let (end, decoded) = DnsMessage::decode(&reply, 0, &mut LabelMap::new()).unwrap();
    assert_eq!(end, reply.len());
    decoded
}

#[test]
fn simple() {
    let dns_request = request(vec![question(&["google", "com"], QuestionType::CNAME, 48648)]);
    let decoded = echo(&dns_request);
    assert_eq!(decoded.questions, dns_request.questions);
}

#[test]
fn test_answer_label_fail_1() {
    let dns_request = request(vec![
        question(&["6", "7", "4a", "7"], QuestionType::MG, 17423),
        question(&["1", "7"], QuestionType::MR, 45750),
    ]);
    let decoded = echo(&dns_request);
    assert_eq!(decoded.questions, dns_request.questions);
}

#[test]
fn test_answer_label_fail_2() {
    let dns_request = request(vec![
        question(&["60", "3", "375", "c8fd8", "1"], QuestionType::NULL, 15751),
        question(&["841f5", "38", "3f", "e"], QuestionType::MD, 16954),
        question(&["49", "b42", "0", "5", "1", "1"], QuestionType::MG, 5805),
        question(&["0fb1b", "7fe", "68", "5f0d1", "8", "1"], QuestionType::A, 1142),
    ]);
    let decoded = echo(&dns_request);
    assert_eq!(decoded.questions, dns_request.questions);
}

#[test]
fn test_answer_label_fail_3() {
    let dns_request = request(vec![
        question(&["a50", "0", "13ab", "f"], QuestionType::CNAME, 32542),
        question(&["2", "f"], QuestionType::SOA, 16770),
        question(&["bf0", "f28", "c777e", "102", "92970", "8"], QuestionType::SOA, 45054),
        question(&["9a", "a", "b8", "81d48", "2", "f"], QuestionType::MR, 46776),
    ]);
    let decoded = echo(&dns_request);
    assert_eq!(decoded.questions, dns_request.questions);
}

#[test]
fn test_encode_decode_message_with_question() {
    let dns_request = request(vec![
        question(&["7f", "171ef"], QuestionType::MX, 30784),
        question(&["bd", "3"], QuestionType::SOA, 51141),
        question(&["7", "a8", "80f9", "1", "3"], QuestionType::MR, 37020),
        question(&["1168", "ad55b", "19", "e"], QuestionType::PTR, 11335),
    ]);
    let decoded = echo(&dns_request);
    assert_eq!(decoded.questions, dns_request.questions);
}

#[test]
fn test_forwarding() {
    let dns_request = request(vec![question(&["google", "com"], QuestionType::A, 1)]);
    let decoded = echo(&dns_request);
    assert_eq!(decoded.questions, dns_request.questions);
    assert_eq!(decoded.header, dns_request.header);
    assert_eq!(decoded, dns_request);
}

#[test]
fn test_parse_request_questions() {
    let mut request_header = DnsHeader::default();
    request_header.question_count = 1;
    let mut map = LabelMap::new();
    let mut buf: Vec<u8> = Vec::new();
    buf.extend_from_slice(&request_header.encode(0, &mut map).unwrap());
    let q = question(&["google", "com"], QuestionType::A, 1);
    buf.extend_from_slice(&q.encode(buf.len(), &mut map).unwrap());
    let (end, message) =
        DnsMessage::decode(&Bytes::from(buf.clone()), 0, &mut LabelMap::new()).unwrap();
    assert_eq!(end, buf.len());
    assert_eq!(message.questions.questions, vec![q]);
    let resp = message.encode(0, &mut LabelMap::new()).unwrap();
    assert!(resp.len() > 0);
    assert_eq!(&resp[..], &buf[..]);
}

#[test]
fn test_basic_reply() {
    let message = Bytes::copy_from_slice("hello world".as_bytes());
    let r = DnsMessage::decode(&message, 0, &mut LabelMap::new());
    assert_eq!(r, Err(DnsError::Truncated));
}

#[test]
fn test_parse_header() {
    let req: [u8; 12] = [0; 12];
    let message = Bytes::copy_from_slice(&req);
    let (end, decoded) = DnsMessage::decode(&message, 0, &mut LabelMap::new()).unwrap();
    assert_eq!(end, 12);
    assert_eq!(decoded, DnsMessage::default());
    let resp = decoded.encode(0, &mut LabelMap::new()).unwrap();
    assert!(resp.len() > 0);
    assert_eq!(&resp[..], &req[..]);
}

#[test]
fn test_encode_decode_message() {
    let mut dns_request = DnsMessage::default();
    dns_request.questions.questions.push(question(&["a"], QuestionType::A, 1));
    dns_request.answers.answers.push(DnsAnswer {
        name: domain(&["a"]),
        qtype: QuestionType::A,
        class: 1,
        ttl: 60,
        data: Bytes::from(vec![127, 0, 0, 1]),
    });
    dns_request.header.question_count = 1;
    dns_request.header.answer_record_count = 1;
    let dns_bytes = dns_request.encode(0, &mut LabelMap::new()).unwrap();
    let (end, decoded) = DnsMessage::decode(&dns_bytes, 0, &mut LabelMap::new()).unwrap();
    assert_eq!(end, dns_bytes.len());
    assert_eq!(decoded, dns_request);
}

#[test]
fn google_com_wire_form() {
    let mut map = LabelMap::new();
    let bytes = domain(&["google", "com"]).encode(0, &mut map).unwrap();
    assert_eq!(
        &bytes[..],
        &[0x06, 0x67, 0x6f, 0x6f, 0x67, 0x6c, 0x65, 0x03, 0x63, 0x6f, 0x6d, 0x00]
    );
    assert_eq!(map.len(), 2);
    assert_eq!(map.get(&"google.com".to_string()), Some(0));
    assert_eq!(map.get(&"com".to_string()), Some(7));
    assert_eq!(map.get(&"google".to_string()), None);
    assert_eq!(map.name_at(7), Some("com".to_string()));
    assert_eq!(map.name_at(1), None);
}

#[test]
fn label_byte_classes() {
    let buf = Bytes::from(vec![0x00, 0xc0, 0x3f, 0x40, 0x80, 0xff, 0x01]);
    assert_eq!(LabelByte::from_byte(&buf, 0), Ok(LabelByte::Null));
    assert_eq!(LabelByte::from_byte(&buf, 1), Ok(LabelByte::Pointer));
    assert_eq!(LabelByte::from_byte(&buf, 2), Ok(LabelByte::Length));
    assert_eq!(LabelByte::from_byte(&buf, 3), Ok(LabelByte::Length));
    assert_eq!(LabelByte::from_byte(&buf, 4), Ok(LabelByte::Length));
    assert_eq!(LabelByte::from_byte(&buf, 5), Ok(LabelByte::Pointer));
    assert_eq!(LabelByte::from_byte(&buf, 6), Ok(LabelByte::Length));
    assert_eq!(LabelByte::from_byte(&buf, 7), Err(DnsError::Truncated));
}

#[test]
fn packet_type_default_is_query() {
    assert_eq!(DnsPacketType::default(), DnsPacketType::Query);
    assert_eq!(DnsAnswerSet::default().answers.len(), 0);
}
