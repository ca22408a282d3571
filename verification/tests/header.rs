use bytes::Bytes;
use dns::{DnsData, DnsError, DnsHeader, DnsPacketType, LabelMap};

fn sample() -> DnsHeader {
    DnsHeader {
        packet_id: 0x1234,
        query_type: DnsPacketType::Response,
        opcode: 2,
        auth_answer: true,
        truncation: false,
        recursion_desired: true,
        recursion_available: true,
        reserved: 5,
        response_code: 3,
        question_count: 1,
        answer_record_count: 2,
        authority_record_count: 3,
        additional_record_count: 0x0405,
    }
}

#[test]
fn header_wire_form() {
    let bytes = sample().encode(0, &mut LabelMap::new()).unwrap();
    assert_eq!(
        &bytes[..],
        &[0x12, 0x34, 0x95, 0xd3, 0x00, 0x01, 0x00, 0x02, 0x00, 0x03, 0x04, 0x05]
    );
}

#[test]
fn header_round_trip() {
    let mut map = LabelMap::new();
    let bytes = sample().encode(0, &mut map).unwrap();
    let (index, decoded) = DnsHeader::decode(&bytes, 0, &mut map).unwrap();
    assert_eq!(index, 12);
    assert_eq!(decoded, sample());
    assert_eq!(map.len(), 0);
}

#[test]
fn header_each_flag_has_its_bit() {
    let zero = DnsHeader::default();
    let cases: Vec<(DnsHeader, u8, u8)> = vec![
        (DnsHeader { query_type: DnsPacketType::Response, ..zero }, 0x80, 0x00),
        (DnsHeader { opcode: 0xf, ..zero }, 0x78, 0x00),
        (DnsHeader { auth_answer: true, ..zero }, 0x04, 0x00),
        (DnsHeader { truncation: true, ..zero }, 0x02, 0x00),
        (DnsHeader { recursion_desired: true, ..zero }, 0x01, 0x00),
        (DnsHeader { recursion_available: true, ..zero }, 0x00, 0x80),
        (DnsHeader { reserved: 0x7, ..zero }, 0x00, 0x70),
        (DnsHeader { response_code: 0xf, ..zero }, 0x00, 0x0f),
    ];
    for (header, high, low) in cases {
        let bytes = header.encode(0, &mut LabelMap::new()).unwrap();
        assert_eq!(bytes.len(), 12);
        assert_eq!((bytes[2], bytes[3]), (high, low));
        let (_, decoded) = DnsHeader::decode(&bytes, 0, &mut LabelMap::new()).unwrap();
        assert_eq!(decoded, header);
    }
}

#[test]
fn header_fields_are_cut_to_their_bits() {
    let wide = DnsHeader { opcode: 0x1f, reserved: 0xf, response_code: 0x3f, ..DnsHeader::default() };
    let bytes = wide.encode(0, &mut LabelMap::new()).unwrap();
    assert_eq!((bytes[2], bytes[3]), (0x78, 0x7f));
    let (_, decoded) = DnsHeader::decode(&bytes, 0, &mut LabelMap::new()).unwrap();
    assert_eq!(decoded.opcode, 0xf);
    assert_eq!(decoded.reserved, 0x7);
    assert_eq!(decoded.response_code, 0xf);
}

#[test]
fn header_is_read_from_the_start_of_the_buffer() {
    let mut buf = sample().encode(0, &mut LabelMap::new()).unwrap().to_vec();
    buf.extend_from_slice(&[0xff; 8]);
    let (index, decoded) = DnsHeader::decode(&Bytes::from(buf), 5, &mut LabelMap::new()).unwrap();
    assert_eq!(index, 17);
    assert_eq!(decoded, sample());
}

#[test]
fn header_short_buffer_is_refused() {
    for len in 0..12 {
        let buf = Bytes::from(vec![0u8; len]);
        assert_eq!(DnsHeader::decode(&buf, 0, &mut LabelMap::new()), Err(DnsError::Truncated));
    }
}

#[test]
fn header_cursor_must_fit() {
    let buf = Bytes::from(vec![0u8; 12]);
    assert_eq!(
        DnsHeader::decode(&buf, usize::MAX - 11, &mut LabelMap::new()),
        Err(DnsError::Truncated)
    );
    assert_eq!(
        DnsHeader::decode(&buf, usize::MAX - 12, &mut LabelMap::new()),
        Ok((usize::MAX, DnsHeader::default()))
    );
}

#[test]
fn header_default_is_an_empty_query() {
    let header = DnsHeader::default();
    assert_eq!(header.query_type, DnsPacketType::Query);
    assert_eq!(header.encode(7, &mut LabelMap::new()).unwrap(), Bytes::from(vec![0u8; 12]));
}
