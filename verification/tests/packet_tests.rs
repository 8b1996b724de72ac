use dns_resolver::buffer::{BufferBuilder, BufferParser};
use dns_resolver::dns_packet::{
    Answer, DnsPacket, Header, OperationCode, Question, QueryType, Record, ResponseCode,
};
use dns_resolver::errors::DnsError;
use dns_resolver::resolver::ipv4;

#[test]
fn test_header_creation() {
    let header = Header::new(42, true, true, ResponseCode::NXDOMAIN);
    assert_eq!(header.id, 42);
    assert_eq!(header.get_query_response(), true);
    assert_eq!(header.get_recursion_desired(), true);
    assert_eq!(header.get_response_code(), ResponseCode::NXDOMAIN);
}

#[test]
fn test_header_flags() {
    let mut header = Header::new(42, false, false, ResponseCode::NOERROR);
    header.set_query_response(true);
    header.set_op_code(OperationCode::Update);
    header.set_authoritative_answer(true);
    header.set_truncated_message(true);
    header.set_recursion_desired(true);
    header.set_recursion_available(true);
    header.set_response_code(ResponseCode::SERVFAIL);

    assert_eq!(header.get_query_response(), true);
    assert_eq!(header.get_op_code(), OperationCode::Update);
    assert_eq!(header.get_authoritative_answer(), true);
    assert_eq!(header.get_truncated_message(), true);
    assert_eq!(header.get_recursion_desired(), true);
    assert_eq!(header.get_recursion_available(), true);
    assert_eq!(header.get_response_code(), ResponseCode::SERVFAIL);
}

#[test]
fn test_parse_header_invalid_size() {
    let data = [0x12, 0x34, 0x81, 0x80, 0x00, 0x01, 0x00, 0x02, 0x00, 0x02];

    let mut parser = BufferParser::new(&data);
    let result = Header::from_buf(&mut parser);

    assert!(result.is_err());
    assert_eq!(result.unwrap_err(), DnsError::EndOfBuffer);
}

#[test]
fn test_header_read_write() {
    let header = Header::new(42, true, true, ResponseCode::NXDOMAIN);
    let mut builder = BufferBuilder::new(vec![0u8; 512]);
    header.write_to_buf(&mut builder).unwrap();
    let buf = builder.into_buf();

    let mut parser = BufferParser::new(&buf);
    let header2 = Header::from_buf(&mut parser).unwrap();

    assert_eq!(header.id, header2.id);
    assert_eq!(header.flags1, header2.flags1);
    assert_eq!(header.flags2, header2.flags2);
    assert_eq!(header.question_count, header2.question_count);
    assert_eq!(header.answer_count, header2.answer_count);
    assert_eq!(header.authoritiy_count, header2.authoritiy_count);
    assert_eq!(header.additional_count, header2.additional_count);
}

#[test]
fn packet_create_and_query() {
    let header = Header::new(42, true, false, ResponseCode::NOERROR);
    let mut packet = DnsPacket::new(header);
    let question = Question {
        name: "exmaple.com".to_string(),
        query_type: QueryType::A,
        class: 1,
    };
    packet.add_question(question.clone());
    assert_eq!(packet.questions.len(), 1);
    assert_eq!(packet.header.question_count, 1);
    assert_eq!(packet.questions[0], question);
}

#[test]
fn test_add_answer() {
    let header = Header::new(42, true, false, ResponseCode::NOERROR);
    let mut packet = DnsPacket::new(header);
    let answer = Answer {
        name: "example.com".to_string(),
        query_type: QueryType::A,
        class: 1,
        ttl: 100,
        len: 4,
        record: Record::A(ipv4(93, 184, 216, 34)),
    };
    packet.add_answer(answer.clone());
    assert_eq!(packet.answers.len(), 1);
    assert_eq!(packet.header.answer_count, 1);
    assert_eq!(packet.answers[0], answer);
}

#[test]
fn build_and_parse_packet() {
    let header = Header::new(42, true, false, ResponseCode::NOERROR);
    let mut packet = DnsPacket::new(header);
    let question = Question {
        name: "example.com".to_string(),
        query_type: QueryType::A,
        class: 1,
    };
    packet.add_question(question.clone());

    let mut builder = BufferBuilder::new(vec![0u8; 512]);
    packet.write_to_buf(&mut builder).unwrap();
    let bytes_written = builder.get_pos();
    let buf = builder.into_buf();

    let parsed_packet = DnsPacket::from_buf(&buf[..bytes_written]).unwrap();

    assert_eq!(parsed_packet.header, packet.header);
    assert_eq!(parsed_packet.questions.len(), packet.questions.len());
    assert_eq!(parsed_packet.answers.len(), packet.answers.len());
    assert_eq!(parsed_packet.authorities.len(), packet.authorities.len());
    assert_eq!(parsed_packet.additional.len(), packet.additional.len());

    assert_eq!(parsed_packet.questions[0], question);
}

#[test]
fn test_message_round_trip_all_types() {
    let header = Header::new(7, true, true, ResponseCode::NOERROR);
    let mut packet = DnsPacket::new(header);
    packet.add_question(Question {
        name: "example.com".to_string(),
        query_type: QueryType::MX,
        class: 1,
    });
    packet.add_answer(Answer {
        name: "example.com".to_string(),
        query_type: QueryType::MX,
        class: 1,
        ttl: 60,
        len: 12,
        record: Record::MX {
            priority: 10,
            host: "mail.net".to_string(),
        },
    });
    packet.add_answer(Answer {
        name: "example.com".to_string(),
        query_type: QueryType::AAAA,
        class: 1,
        ttl: 60,
        len: 16,
        record: Record::AAAA(0x20010db8000000000000000000000001),
    });
    packet.add_authority(Answer {
        name: "com".to_string(),
        query_type: QueryType::NS,
        class: 1,
        ttl: 120,
        len: 8,
        record: Record::NS("ns.com".to_string()),
    });
    packet.add_additional(Answer {
        name: "ns.com".to_string(),
        query_type: QueryType::A,
        class: 1,
        ttl: 120,
        len: 4,
        record: Record::A(ipv4(10, 0, 0, 1)),
    });

    let (buf, n) = packet.to_buf().unwrap();
    let parsed = DnsPacket::from_buf(&buf[..n]).unwrap();
    assert_eq!(parsed, packet);
}

#[test]
fn test_unknown_records_dropped_on_encode() {
    let header = Header::new(9, true, true, ResponseCode::NOERROR);
    let mut packet = DnsPacket::new(header);
    packet.add_answer(Answer {
        name: "example.com".to_string(),
        query_type: QueryType::UNKOWN(999),
        class: 1,
        ttl: 60,
        len: 0,
        record: Record::UNKOWN(999),
    });
    packet.add_answer(Answer {
        name: "example.com".to_string(),
        query_type: QueryType::A,
        class: 1,
        ttl: 60,
        len: 4,
        record: Record::A(ipv4(127, 0, 0, 1)),
    });

    let (buf, n) = packet.to_buf().unwrap();
    let parsed = DnsPacket::from_buf(&buf[..n]).unwrap();
    assert_eq!(parsed.header.answer_count, 1);
    assert_eq!(parsed.answers.len(), 1);
    assert!(matches!(parsed.answers[0].record, Record::A(_)));
}

#[test]
fn test_encode_over_512_bytes_is_refused() {
    let header = Header::new(5, true, true, ResponseCode::NOERROR);
    let mut packet = DnsPacket::new(header);
    for _ in 0..30 {
        packet.add_answer(Answer {
            name: "a-rather-long-owner-name.example.com".to_string(),
            query_type: QueryType::A,
            class: 1,
            ttl: 60,
            len: 4,
            record: Record::A(ipv4(127, 0, 0, 1)),
        });
    }
    let result = packet.to_buf();
    assert_eq!(result.unwrap_err(), DnsError::EndOfBuffer);
}

#[test]
fn test_query_type_codes() {
    assert_eq!(QueryType::from(1), QueryType::A);
    assert_eq!(QueryType::from(2), QueryType::NS);
    assert_eq!(QueryType::from(5), QueryType::CNAME);
    assert_eq!(QueryType::from(15), QueryType::MX);
    assert_eq!(QueryType::from(28), QueryType::AAAA);
    assert_eq!(QueryType::from(999), QueryType::UNKOWN(999));
    assert_eq!(QueryType::UNKOWN(999).to_u16(), 999);
    assert_eq!(QueryType::MX.to_u16(), 15);
}

#[test]
fn test_response_codes() {
    assert_eq!(ResponseCode::from(0), ResponseCode::NOERROR);
    assert_eq!(ResponseCode::from(3), ResponseCode::NXDOMAIN);
    assert_eq!(ResponseCode::from(12), ResponseCode::UNKNOWN);
    assert_eq!(ResponseCode::UNKNOWN.to_u8(), 2);
    assert_eq!(ResponseCode::NOTZONE.to_u8(), 9);
}
