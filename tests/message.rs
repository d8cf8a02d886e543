use opslag::{
    Answer, Flags, IpAddr, Label, Message, ParseError, QClass, QType, Query, Record, Request,
    Response, Writer, A, PTR, SRV, TXT,
};

fn text(l: &Label<4>) -> String {
    let segs: Vec<String> = l.iter().into_iter().map(|s| String::from_utf8(s).unwrap()).collect();
    segs.join(".")
}

fn ipv4(a: u8, b: u8, c: u8, d: u8) -> u32 {
    match IpAddr::v4(a, b, c, d) {
        IpAddr::V4(v) => v,
        IpAddr::V6(_) => unreachable!(),
    }
}

const QUERY_PACKET: [u8; 29] = [
    0xAA, 0xAA, 0x01, 0x00, 0x00, 0x01, 0x00, 0x00, 0x00, 0x00, 0x00, 0x00, 0x07, 0x65, //
    0x78, 0x61, 0x6D, 0x70, 0x6C, 0x65, 0x03, 0x63, 0x6F, 0x6D, 0x00, //
    0x00, 0x01, 0x00, 0x01,
];

#[test]
fn parse_offset_label() {
    const FAIL: &[u8] = &[
        0, 0, 0, 0, 0, 12, 0, 0, 0, 0, 0, 0, 8, 67, 72, 49, 64, 105, 110, 45, 97, 14, 95, 110,
        101, 116, 97, 117, 100, 105, 111, 45, 99, 104, 97, 110, 4, 95, 117, 100, 112, 5, 108,
        111, 99, 97, 108, 0, 0, 33, 128, 1, 192, 12, 0, 16, 128, 1, 8, 67, 72, 50, 64, 105,
        110, 45, 97, 192, 21, 0, 33, 128, 1, 192, 58, 0, 16, 128, 1, 8, 67, 72, 49, 64, 105,
        110, 45, 98, 192, 21, 0, 33, 128, 1, 192, 79, 0, 16, 128, 1, 8, 67, 72, 50, 64, 105,
        110, 45, 98, 192, 21, 0, 33, 128, 1, 192, 100, 0, 16, 128, 1, 8, 67, 72, 49, 64, 105,
        110, 45, 99, 192, 21, 0, 33, 128, 1, 192, 121, 0, 16, 128, 1, 8, 67, 72, 50, 64, 105,
        110, 45, 99, 192, 21, 0, 33, 128, 1, 192, 142, 0, 16, 128, 1,
    ];
    let m = Message::<12, 12, 4>::parse(FAIL).unwrap();
    println!("{:#?}", m);
}

#[test]
fn parse_recursive_label() {
    const FAIL: &[u8] = &[
        6, 0, 0, 0, 1, 1, 162, 8, 0, 1, 0, 10, 1, 14, 1, 1, 1, 1, 64, 64, 64, 64, 64, 64, 85,
        0, 1, 0, 10, 1, 14, 64, 64, 64, 40, 64, 64, 64, 64, 64, 64, 64, 64, 64, 208, 64, 64,
        64, 64, 64, 64, 64, 64, 64, 64, 64, 64, 64, 64, 64, 64, 64, 64, 64, 64, 64, 1, 0, 0, 0,
        64, 64,
    ];
    Message::<12, 12, 4>::parse(FAIL).unwrap_err();
}

#[test]
fn parse_recursive_label2() {
    const FAIL: &[u8] = &[
        14, 10, 0, 142, 10, 78, 44, 10, 0, 192, 192, 192, 192, 64, 64, 64, 40, 64, 96, 64, 64,
        64, 64, 64, 64, 64, 208, 64, 64, 64, 64, 64, 64, 64, 64, 64, 64, 64, 173, 173, 173,
        173, 173, 173, 64, 64, 64, 64, 64, 64, 64, 64, 64, 64, 64, 64, 64, 64, 1, 0, 0, 1, 64,
        64, 64, 14, 10, 16, 241, 8, 211, 0, 0, 0, 0, 0, 0, 0, 64, 64, 64, 64, 0, 0, 0, 0,
    ];
    Message::<12, 12, 4>::parse(FAIL).unwrap_err();
}

#[test]
fn roundtrip_query() {
    let name = Label::<4>::new("example.local");
    let query = Query { name, qtype: QType::A, qclass: QClass::IN };
    let mut w = Writer::<10>::new(256);
    query.serialize(&mut w);
    let bytes = w.into_inner();
    let (parsed_query, _) = Query::parse(&bytes, 0).unwrap();
    assert_eq!(query, parsed_query);
}

#[test]
fn roundtrip_answer() {
    let name = Label::new("example.local");
    let answer: Answer<4> = Answer {
        name,
        atype: QType::A,
        aclass: QClass::IN,
        ttl: 120,
        record: Record::A(A { address: ipv4(192, 168, 1, 1) }),
    };
    let mut w = Writer::<10>::new(256);
    answer.serialize(&mut w);
    let bytes = w.into_inner();
    let (parsed_answer, _) = Answer::parse(&bytes, 0).unwrap();
    assert_eq!(answer, parsed_answer);
}

#[test]
fn parse_query() {
    let data = QUERY_PACKET;
    let (request, _) = Request::<12, 4>::parse(&data).unwrap();
    assert_eq!(request.id, 0xAAAA);
    assert_eq!(request.flags.0, 0x0100);
    assert_eq!(request.queries.len(), 1);
    assert_eq!(text(&request.queries[0].name), "example.com");
    assert_eq!(request.queries[0].qtype, QType::A);
    assert_eq!(request.queries[0].qclass, QClass::IN);
}

#[test]
fn a_record_query_round_trip() {
    let data = QUERY_PACKET;
    let (message, end) = Message::<12, 12, 4>::parse(&data).unwrap();
    assert_eq!(end, data.len());
    let request = match &message {
        Message::Request(r) => r,
        Message::Response(_) => panic!("Expected a request"),
    };
    let mut out = [0u8; 256];
    let n = message.serialize::<10>(&mut out);
    assert_eq!(&out[..n], &data[..]);
    let (again, _) = Request::<12, 4>::parse(&out[..n]).unwrap();
    assert_eq!(request, &again);
}

const RESPONSE_PACKET: [u8; 45] = [
    0xAA, 0xAA, // transaction ID
    0x81, 0x80, // flags
    0x00, 0x01, // 1 question
    0x00, 0x01, // 1 A-answer
    0x00, 0x00, // no authority
    0x00, 0x00, // no additional answers
    0x07, 0x65, 0x78, 0x61, 0x6D, 0x70, 0x6C, 0x65, 0x03, 0x63, 0x6F, 0x6D, 0x00, //
    0x00, 0x01, 0x00, 0x01, //
    0xC0, 0x0C, // ptr to question section
    0x00, 0x01, 0x00, 0x01, // A and IN
    0x00, 0x00, 0x00, 0x3C, // TTL 60 seconds
    0x00, 0x04, // length of address
    192, 168, 1, 3,
];

#[test]
fn parse_response() {
    let data = RESPONSE_PACKET;
    let (response, _) = Response::<12, 12, 4>::parse(&data).unwrap();
    assert_eq!(response.id, 0xAAAA);
    assert_eq!(response.flags.0, 0x8180);
    assert_eq!(response.answers.len(), 1);
    assert_eq!(text(&response.answers[0].name), "example.com");
    assert_eq!(response.answers[0].atype, QType::A);
    assert_eq!(response.answers[0].aclass, QClass::IN);
    assert_eq!(response.answers[0].ttl, 60);
    if let Record::A(a) = &response.answers[0].record {
        assert_eq!(a.address, ipv4(192, 168, 1, 3));
    } else {
        panic!("Expected A record");
    }
}

#[test]
fn pointer_compression_round_trip() {
    let data = RESPONSE_PACKET;
    let (response, _) = Response::<12, 12, 4>::parse(&data).unwrap();
    assert!(response.answers[0].name.eq_str("example.com"));
    let mut w = Writer::<10>::new(256);
    response.serialize(&mut w);
    assert!(!w.is_overflow());
    let bytes = w.into_inner();
    let (again, _) = Response::<12, 12, 4>::parse(&bytes).unwrap();
    assert_eq!(response, again);
}

#[test]
fn parse_response_two_records() {
    let data = [
        0xAA, 0xAA, 0x81, 0x80, 0x00, 0x01, 0x00, 0x02, 0x00, 0x00, 0x00, 0x00, //
        0x07, 0x65, 0x78, 0x61, 0x6D, 0x70, 0x6C, 0x65, 0x03, 0x63, 0x6F, 0x6D, 0x00, //
        0x00, 0x01, 0x00, 0x01, //
        0xC0, 0x0C, 0x00, 0x01, 0x00, 0x01, 0x00, 0x00, 0x00, 0x3C, 0x00, 0x04, //
        0x5D, 0xB8, 0xD8, 0x22, //
        0x07, 0x65, 0x78, 0x61, 0x6D, 0x70, 0x6C, 0x65, 0x03, 0x63, 0x6F, 0x6D, 0x00, //
        0x00, 0x10, 0x00, 0x01, 0x00, 0x00, 0x00, 0x3C, 0x00, 0x0F, //
        0x74, 0x65, 0x73, 0x74, 0x20, 0x74, 0x78, 0x74, 0x20, 0x72, 0x65, 0x63, 0x6F, 0x72,
        0x64,
    ];
    let (response, _) = Response::<12, 12, 4>::parse(&data).unwrap();
    assert_eq!(response.id, 0xAAAA);
    assert_eq!(response.flags.0, 0x8180);
    assert_eq!(response.answers.len(), 2);
    assert_eq!(text(&response.answers[0].name), "example.com");
    assert_eq!(response.answers[0].atype, QType::A);
    assert_eq!(response.answers[0].aclass, QClass::IN);
    assert_eq!(response.answers[0].ttl, 60);
    if let Record::A(a) = &response.answers[0].record {
        assert_eq!(a.address, ipv4(93, 184, 216, 34));
    } else {
        panic!("Expected A record");
    }
    assert_eq!(text(&response.answers[1].name), "example.com");
    assert_eq!(response.answers[1].atype, QType::TXT);
    assert_eq!(response.answers[1].aclass, QClass::IN);
    assert_eq!(response.answers[1].ttl, 60);
    if let Record::TXT(txt) = &response.answers[1].record {
        assert_eq!(txt.text, b"test txt record".to_vec());
    } else {
        panic!("Expected TXT record");
    }
}

#[test]
fn parse_response_srv() {
    let data = [
        0xAA, 0xAA, 0x81, 0x80, 0x00, 0x01, 0x00, 0x01, 0x00, 0x00, 0x00, 0x00, //
        0x04, 0x5f, 0x73, 0x69, 0x70, 0x04, 0x5f, 0x74, 0x63, 0x70, 0x07, 0x65, 0x78, 0x61,
        0x6d, 0x70, 0x6c, 0x65, 0x03, 0x63, 0x6f, 0x6d, 0x00, //
        0x00, 0x21, 0x00, 0x01, //
        0xc0, 0x0c, //
        0x00, 0x21, 0x00, 0x01, 0x00, 0x00, 0x00, 0x3C, //
        0x00, 0x19, 0x00, 0x0A, 0x00, 0x05, 0x13, 0xC4, //
        0x09, 0x73, 0x69, 0x70, 0x73, 0x65, 0x72, 0x76, 0x65, 0x72, 0x07, 0x65, 0x78, 0x61,
        0x6d, 0x70, 0x6c, 0x65, 0x03, 0x63, 0x6f, 0x6d, 0x00,
    ];
    let (response, _) = Response::<12, 12, 4>::parse(&data).unwrap();
    assert_eq!(response.id, 0xAAAA);
    assert_eq!(response.flags.0, 0x8180);
    assert_eq!(response.answers.len(), 1);
    assert_eq!(text(&response.answers[0].name), "_sip._tcp.example.com");
    assert_eq!(response.answers[0].atype, QType::SRV);
    assert_eq!(response.answers[0].aclass, QClass::IN);
    assert_eq!(response.answers[0].ttl, 60);
    let Record::SRV(srv) = &response.answers[0].record else {
        panic!("Expected SRV record");
    };
    assert_eq!(srv.priority, 10);
    assert_eq!(srv.weight, 5);
    assert_eq!(srv.port, 5060);
    assert_eq!(text(&srv.target), "sipserver.example.com");
}

#[test]
fn parse_response_back_forth() {
    let data = [
        0, 0, 132, 0, 0, 0, 0, 4, 0, 0, 0, 0, //
        9, 95, 109, 105, 100, 105, 114, 105, 102, 102, //
        4, 95, 117, 100, 112, //
        5, 108, 111, 99, 97, 108, //
        0, //
        0, 12, 0, 1, 0, 0, 17, 148, 0, 10, //
        7, 112, 105, 51, 53, 50, 57, 49, //
        192, 12, //
        192, 44, 0, 33, 128, 1, 0, 0, 0, 120, 0, 11, 0, 0, 0, 0, 137, 219, //
        2, 112, 105, 192, 27, //
        192, 44, 0, 16, 128, 1, 0, 0, 17, 148, 0, 1, 0, 192, 72, 0, 1, 128, 1, 0, 0, 0, 120, 0,
        4, 10, 1, 1, 9,
    ];
    let (response, _) = Response::<12, 12, 4>::parse(&data).unwrap();
    println!("{:#?}", response);
    assert!(response.answers[0].name.eq_str("_midiriff._udp.local"));
    let Record::PTR(ptr) = &response.answers[0].record else {
        panic!()
    };
    assert!(ptr.name.eq_str("pi35291._midiriff._udp.local"));
    let mut w = Writer::<10>::new(256);
    response.serialize(&mut w);
    let buffer = w.into_inner();
    println!("{:?}", buffer);
    let (response2, _) = Response::<12, 12, 4>::parse(&buffer).unwrap();
    assert_eq!(response, response2);
}

fn service_response() -> Response<1, 4, 4> {
    let mut response = Response::<1, 4, 4> {
        id: 0x1234,
        flags: Flags::standard_response(),
        queries: Vec::new(),
        answers: Vec::new(),
    };
    response.queries.push(Query {
        name: Label::new("_test._udp.local"),
        qtype: QType::PTR,
        qclass: QClass::IN,
    });
    response.answers.push(Answer {
        name: Label::new("_test._udp.local"),
        atype: QType::PTR,
        aclass: QClass::IN,
        ttl: 4500,
        record: Record::PTR(PTR { name: Label::new("test-service._test._udp.local") }),
    });
    response.answers.push(Answer {
        name: Label::new("test-service._test._udp.local"),
        atype: QType::SRV,
        aclass: QClass::IN,
        ttl: 120,
        record: Record::SRV(SRV { priority: 0, weight: 0, port: 8080, target: Label::new("host.local") }),
    });
    response.answers.push(Answer {
        name: Label::new("test-service._test._udp.local"),
        atype: QType::TXT,
        aclass: QClass::IN,
        ttl: 120,
        record: Record::TXT(TXT { text: b"path=/test".to_vec() }),
    });
    response.answers.push(Answer {
        name: Label::new("host.local"),
        atype: QType::A,
        aclass: QClass::IN,
        ttl: 120,
        record: Record::A(A { address: ipv4(192, 168, 1, 100) }),
    });
    response
}

#[test]
fn mdns_service_response() {
    let response = service_response();
    let mut w = Writer::<10>::new(256);
    response.serialize(&mut w);
    let buffer = w.into_inner();
    let (parsed_response, _) = Response::<1, 4, 4>::parse(&buffer).unwrap();
    assert_eq!(response, parsed_response);
}

#[test]
fn service_announcement_round_trip_through_message() {
    let message = Message::Response(service_response());
    let mut out = [0u8; 256];
    let n = message.serialize::<10>(&mut out);
    assert!(n > 12);
    let (parsed, end) = Message::<1, 4, 4>::parse(&out[..n]).unwrap();
    assert_eq!(end, n);
    match (&message, &parsed) {
        (Message::Response(a), Message::Response(b)) => assert_eq!(a, b),
        _ => panic!("Expected responses"),
    }
}

#[test]
fn serialize_reports_a_short_buffer() {
    let message = Message::Response(service_response());
    let mut big = [0u8; 256];
    let full = message.serialize::<10>(&mut big);
    let mut small = [0u8; 40];
    let n = message.serialize::<10>(&mut small);
    assert!(n < full);
    assert!(n <= 40);
    assert_eq!(&small[..n], &big[..n]);
    for len in 0..full {
        let mut buf = vec![0xAAu8; len];
        let k = message.serialize::<10>(&mut buf);
        assert!(k < full);
        assert_eq!(&buf[..k], &big[..k]);
        assert!(buf[k..].iter().all(|b| *b == 0xAA));
    }
}

#[test]
fn header_encodes_counts_and_ids() {
    let message = Message::Response(service_response());
    let mut out = [0u8; 256];
    let n = message.serialize::<10>(&mut out);
    assert!(n >= 12);
    assert_eq!(&out[..12], &[0x12, 0x34, 0x84, 0x00, 0, 1, 0, 4, 0, 0, 0, 0]);
}

#[test]
fn short_message_is_length_value() {
    assert_eq!(Message::<4, 4, 4>::parse(&[0, 0, 0]).unwrap_err(), ParseError::LengthValue);
}

#[test]
fn truncated_header_is_incomplete() {
    assert_eq!(Message::<4, 4, 4>::parse(&[0, 0, 0, 0, 0]).unwrap_err(), ParseError::Incomplete);
}

#[test]
fn more_questions_than_capacity_is_too_large() {
    let mut data = QUERY_PACKET.to_vec();
    data[5] = 2;
    data.extend_from_slice(&[0xC0, 0x0C, 0x00, 0x01, 0x00, 0x01]);
    assert!(Request::<2, 4>::parse(&data).is_ok());
    assert_eq!(Request::<1, 4>::parse(&data).unwrap_err(), ParseError::TooLarge);
}

#[test]
fn unknown_answer_type_is_tag() {
    let mut data = RESPONSE_PACKET.to_vec();
    data[32] = 0x63;
    assert_eq!(Response::<4, 4, 4>::parse(&data).unwrap_err(), ParseError::Tag);
    data[31] = 0x00;
    data[32] = 0xFF;
    assert_eq!(Response::<4, 4, 4>::parse(&data).unwrap_err(), ParseError::Tag);
}

#[test]
fn wrong_a_length_is_fail() {
    let mut data = RESPONSE_PACKET.to_vec();
    data[40] = 3;
    assert_eq!(Response::<4, 4, 4>::parse(&data).unwrap_err(), ParseError::Fail);
}

#[test]
fn invalid_txt_is_alphanumeric() {
    let mut data = RESPONSE_PACKET.to_vec();
    data[32] = 0x10;
    data[41] = 0xff;
    assert_eq!(Response::<4, 4, 4>::parse(&data).unwrap_err(), ParseError::AlphaNumeric);
}

#[test]
fn aaaa_record_round_trip() {
    let answer: Answer<4> = Answer {
        name: Label::new("v6.local"),
        atype: QType::AAAA,
        aclass: QClass::IN,
        ttl: 120,
        record: Record::AAAA(opslag::AAAA { address: 0xfe80_0000_0000_0000_0000_0000_0000_0001 }),
    };
    let mut w = Writer::<10>::new(256);
    answer.serialize(&mut w);
    let bytes = w.into_inner();
    assert_eq!(&bytes[bytes.len() - 18..bytes.len() - 16], &[0, 16]);
    assert_eq!(bytes[bytes.len() - 16], 0xfe);
    assert_eq!(bytes[bytes.len() - 1], 0x01);
    let (parsed, _) = Answer::parse(&bytes, 0).unwrap();
    assert_eq!(answer, parsed);
}

#[test]
fn uncompressed_round_trip_reads_back_the_same_message() {
    let message = Message::Response(service_response());
    let mut out = [0u8; 512];
    let n = message.serialize::<0>(&mut out);
    let mut compressed = [0u8; 512];
    let m = message.serialize::<10>(&mut compressed);
    assert!(m < n);
    let (parsed, end) = Message::<1, 4, 4>::parse(&out[..n]).unwrap();
    assert_eq!(end, n);
    match (&message, &parsed) {
        (Message::Response(a), Message::Response(b)) => assert_eq!(a, b),
        _ => panic!("Expected responses"),
    }
}

#[test]
fn push_front_and_capacity() {
    let mut l = Label::<2>::new("_svc._udp.local");
    assert!(l.push_front("inst"));
    assert!(l.eq_str("inst._svc._udp.local"));
    assert!(!l.push_back("more"));
    assert!(l.eq_str("inst._svc._udp.local"));
    let mut w = Writer::<10>::new(64);
    l.serialize(&mut w);
    assert_eq!(w.into_inner(), b"\x04inst\x04_svc\x04_udp\x05local\x00");
}

#[test]
fn arbitrary_bytes_never_panic() {
    let mut state: u64 = 0x2545_F491_4F6C_DD1D;
    for round in 0..2000usize {
        let len = round % 2049;
        let mut data = Vec::with_capacity(len);
        for _ in 0..len {
            state ^= state << 13;
            state ^= state >> 7;
            state ^= state << 17;
            // Bias towards pointer and length bytes.
            let b = (state >> 24) as u8;
            data.push(if b % 5 == 0 { 0xC0 | (b & 0x03) } else { b });
        }
        let _ = Message::<12, 12, 4>::parse(&data);
    }
}
