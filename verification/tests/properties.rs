use dns::{
    DnsAnswer, DnsAnswerSet, DnsData, DnsHeader, DnsMessage, DnsPacketType, DnsQuestion,
    DnsQuestionSet, Domain, Label, LabelMap, QuestionType,
};

/// A small generator of repeatable pseudo-random numbers.
struct Gen(u64);

impl Gen {
    fn next(&mut self) -> u64 {
        self.0 ^= self.0 << 13;
        self.0 ^= self.0 >> 7;
        self.0 ^= self.0 << 17;
        self.0
    }

    fn below(&mut self, n: u64) -> u64 {
        (self.next() >> 11) % n
    }

    fn flag(&mut self) -> bool {
        self.below(2) == 1
    }

    fn header(&mut self) -> DnsHeader {
        DnsHeader {
            packet_id: self.below(0x10000) as u16,
            query_type: if self.flag() { DnsPacketType::Response } else { DnsPacketType::Query },
            opcode: self.below(16) as u8,
            auth_answer: self.flag(),
            truncation: self.flag(),
            recursion_desired: self.flag(),
            recursion_available: self.flag(),
            reserved: self.below(8) as u8,
            response_code: self.below(16) as u8,
            question_count: self.below(0x10000) as u16,
            answer_record_count: self.below(0x10000) as u16,
            authority_record_count: self.below(0x10000) as u16,
            additional_record_count: self.below(0x10000) as u16,
        }
    }

    fn domain(&mut self) -> Domain {
        let chars = b"0123456789abcdef";
        let num_labels = self.below(5) + 2;
        let mut labels = Vec::new();
        for _ in 0..num_labels {
            let size = self.below(5) + 1;
            let mut label = String::new();
            for _ in 0..size {
                label.push(chars[self.below(16) as usize] as char);
            }
            labels.push(Label(label));
        }
        Domain { labels }
    }

    fn qtype(&mut self) -> QuestionType {
        QuestionType::try_from(self.below(16) as u16 + 1).unwrap()
    }

    fn question(&mut self) -> DnsQuestion {
        DnsQuestion { name: self.domain(), qtype: self.qtype(), class: self.below(0x10000) as u16 }
    }

    fn answer(&mut self) -> DnsAnswer {
        let len = self.below(9);
        let data: Vec<u8> = (0..len).map(|_| self.below(256) as u8).collect();
        DnsAnswer {
            name: self.domain(),
            qtype: self.qtype(),
            class: self.below(0x10000) as u16,
            ttl: self.below(256) as u32 + 5,
            data: data.into(),
        }
    }
}

#[test]
fn decode_encode_header() {
    let mut g = Gen(0x9e3779b97f4a7c15);
    for _ in 0..500 {
        let h = g.header();
        let mut m = LabelMap::new();
        let encoded_header = h.encode(0, &mut m).unwrap();
        let (index, decoded_header) = DnsHeader::decode(&encoded_header, 0, &mut m).unwrap();
        assert_eq!(index, 12);
        assert_eq!(decoded_header, h);
    }
}

#[test]
fn encode_decode_labels() {
    let mut g = Gen(0x2545f4914f6cdd1d);
    for _ in 0..500 {
        let h = g.domain();
        let mut m = LabelMap::new();
        let encoded_domain = h.encode(0, &mut m).unwrap();
        let (_, decoded_domain) = Domain::decode(&encoded_domain, 0, &mut m).unwrap();
        assert_eq!(decoded_domain, h);
        let (end, fresh) = Domain::decode(&encoded_domain, 0, &mut LabelMap::new()).unwrap();
        assert_eq!(end, encoded_domain.len());
        assert_eq!(fresh, h);
    }
}

#[test]
fn encode_decode_questions() {
    let mut g = Gen(0xd1b54a32d192ed03);
    for _ in 0..300 {
        let n = g.below(5);
        let h = DnsQuestionSet { questions: (0..n).map(|_| g.question()).collect() };
        let mut m = LabelMap::new();
        let buf = h.encode(h.questions.len(), &mut m, 0).unwrap();
        let (_, questions) = DnsQuestionSet::decode(&buf, 0, h.questions.len(), &mut m).unwrap();
        assert_eq!(questions, h);
        let mut seen = LabelMap::new();
        let (end, fresh) = DnsQuestionSet::decode(&buf, 0, h.questions.len(), &mut seen).unwrap();
        assert_eq!(end, buf.len());
        assert_eq!(fresh, h);
        assert_eq!(seen.len(), m.len());
    }
}

#[test]
fn encode_decode_answers() {
    let mut g = Gen(0x853c49e6748fea9b);
    for _ in 0..300 {
        let n = g.below(5);
        let h = DnsAnswerSet { answers: (0..n).map(|_| g.answer()).collect() };
        let mut m = LabelMap::new();
        let buf = h.encode(h.answers.len(), &mut m, 0).unwrap();
        let (end, answers) =
            DnsAnswerSet::decode(&buf, 0, h.answers.len(), &mut LabelMap::new()).unwrap();
        assert_eq!(end, buf.len());
        assert_eq!(answers, h);
    }
}

#[test]
fn encode_decode_messages() {
    let mut g = Gen(0xda942042e4dd58b5);
    for _ in 0..300 {
        let mut message = DnsMessage::default();
        message.header = g.header();
        let n = g.below(5);
        message.questions = DnsQuestionSet { questions: (0..n).map(|_| g.question()).collect() };
        message.header.question_count = n as u16;
        let n = g.below(5);
        let answers = DnsAnswerSet { answers: (0..n).map(|_| g.answer()).collect() };
        let message = message.with_answers(answers).unwrap();
        let buf = message.encode(0, &mut LabelMap::new()).unwrap();
        let (end, decoded) = DnsMessage::decode(&buf, 0, &mut LabelMap::new()).unwrap();
        assert_eq!(end, buf.len());
        assert_eq!(decoded, message);
        assert_eq!(dns::echo(&buf), Ok(buf));
    }
}

#[test]
fn shared_endings_always_save_bytes() {
    let mut g = Gen(0x94d049bb133111eb);
    for _ in 0..300 {
        let first = g.question();
        let mut second = g.question();
        let keep = g.below(first.name.labels.len() as u64) as usize;
        second.name.labels.extend(first.name.labels[keep..].iter().cloned());
        let set = DnsQuestionSet { questions: vec![first.clone(), second.clone()] };
        let both = set.encode(2, &mut LabelMap::new(), 12).unwrap();
        let one = first.encode(12, &mut LabelMap::new()).unwrap();
        let two = second.encode(12, &mut LabelMap::new()).unwrap();
        assert!(both.len() < one.len() + two.len());
        assert_eq!(both[both.len() - 6] & 0xc0, 0xc0);
    }
}
