use dns_codec::packet::{BytePacketBuffer, Packet};
use dns_codec::query::QueryType;
use dns_codec::question::Question;
use dns_codec::record::{Ipv4Address, Record};
use dns_codec::relay::{build_query, build_response, QUERY_ID};
use dns_codec::rescode::ResultCode;
use dns_codec::DnsError;

#[test]
fn result_codes_map_every_four_bit_value() {
    assert_eq!(ResultCode::from_num(0), Ok(ResultCode::NOERROR));
    assert_eq!(ResultCode::from_num(1), Ok(ResultCode::FORMERR));
    assert_eq!(ResultCode::from_num(2), Ok(ResultCode::SERVFAIL));
    assert_eq!(ResultCode::from_num(3), Ok(ResultCode::NXDOMAIN));
    assert_eq!(ResultCode::from_num(4), Ok(ResultCode::NOTIMP));
    assert_eq!(ResultCode::from_num(5), Ok(ResultCode::REFUSED));
    for raw in 6u8..=15 {
        assert_eq!(ResultCode::from_num(raw), Ok(ResultCode::UNRECOGNIZED(raw)));
        assert_eq!(ResultCode::from_num(raw).unwrap().to_num(), raw);
    }
    assert_eq!(ResultCode::NXDOMAIN.to_num(), 3);
}

#[test]
fn result_codes_outside_four_bits_are_malformed() {
    assert_eq!(ResultCode::from_num(16), Err(DnsError::MalformedResultCode));
    assert_eq!(ResultCode::from_num(255), Err(DnsError::MalformedResultCode));
}

#[test]
fn query_types_round_trip_through_their_codes() {
    assert_eq!(QueryType::from_num(1), QueryType::A);
    assert_eq!(QueryType::from_num(99), QueryType::UNKNOWN(99));
    assert_eq!(QueryType::A.to_num(), 1);
    assert_eq!(QueryType::UNKNOWN(28).to_num(), 28);
    assert_eq!(QueryType::from_num(QueryType::UNKNOWN(28).to_num()), QueryType::UNKNOWN(28));
}

#[test]
fn loading_oversized_datagrams_is_refused() {
    let big = vec![0u8; 513];
    assert_eq!(BytePacketBuffer::from_bytes(&big).err(), Some(DnsError::BufferOverrun));
    assert!(BytePacketBuffer::from_bytes(&vec![0u8; 512]).is_ok());
}

#[test]
fn built_query_asks_for_one_name_with_recursion() {
    let packet = build_query(b"example.com".to_vec(), QueryType::A);
    assert_eq!(packet.header.id, QUERY_ID);
    assert!(packet.header.rd);
    assert!(!packet.header.qr);
    assert_eq!(packet.header.qdcount, 1);
    assert_eq!(packet.questions.len(), 1);
    assert_eq!(packet.questions[0].name, b"example.com".to_vec());
    assert_eq!(packet.questions[0].qtype, QueryType::A);
    assert!(packet.answers.is_empty());
}

#[test]
fn response_without_question_is_formerr() {
    let response = build_response(7, None, None);
    assert_eq!(response.header.id, 7);
    assert!(response.header.qr && response.header.rd && response.header.ra);
    assert_eq!(response.header.rcode, ResultCode::FORMERR);
    assert!(response.questions.is_empty());
    assert!(response.answers.is_empty());
}

#[test]
fn response_after_failed_lookup_is_servfail() {
    let question = Question::new(b"example.com".to_vec(), QueryType::A);
    let response = build_response(8, Some(question), None);
    assert_eq!(response.header.rcode, ResultCode::SERVFAIL);
    assert!(response.questions.is_empty());
    assert!(response.answers.is_empty());
}

#[test]
fn response_carries_the_lookup_result_over() {
    let question = Question::new(b"example.com".to_vec(), QueryType::A);
    let mut upstream = Packet::new();
    upstream.header.rcode = ResultCode::NOERROR;
    upstream.answers.push(Record::A {
        domain: b"example.com".to_vec(),
        addr: Ipv4Address { a: 93, b: 184, c: 216, d: 34 },
        ttl: 3600,
    });

    let response = build_response(9, Some(question.clone()), Some(upstream));
    assert_eq!(response.header.id, 9);
    assert_eq!(response.header.rcode, ResultCode::NOERROR);
    assert_eq!(response.questions, vec![question]);
    assert_eq!(response.answers.len(), 1);
    assert_eq!(
        response.answers[0],
        Record::A {
            domain: b"example.com".to_vec(),
            addr: Ipv4Address { a: 93, b: 184, c: 216, d: 34 },
            ttl: 3600,
        }
    );
}

#[test]
fn query_message_round_trips_through_the_wire() {
    let mut query = build_query(b"www.example.com".to_vec(), QueryType::A);
    let mut buffer = BytePacketBuffer::new();
    query.write(&mut buffer).expect("query fits");

    buffer.seek(0).unwrap();
    let decoded = Packet::from_buffer(&mut buffer).expect("round trip");
    assert_eq!(decoded.header, query.header);
    assert_eq!(decoded.questions, query.questions);
    assert!(decoded.answers.is_empty());
}
