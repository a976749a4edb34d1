use dns_codec::header::Header;
use dns_codec::packet::{BytePacketBuffer, Packet};
use dns_codec::query::QueryType;
use dns_codec::question::Question;
use dns_codec::record::{Ipv4Address, Record};
use dns_codec::rescode::ResultCode;
use dns_codec::DnsError;

fn buffer_from(bytes: &[u8]) -> BytePacketBuffer {
    BytePacketBuffer::from_bytes(bytes).expect("fits in a packet")
}

#[test]
fn reads_header_and_question_scenario() {
    // id 0x029A, flags 0x0100 (recursion desired only), one question for
    // "example.com" type A class 1.
    let mut bytes = vec![0x02u8, 0x9A, 0x01, 0x00, 0x00, 0x01, 0x00, 0x00, 0x00, 0x00, 0x00, 0x00];
    bytes.push(7);
    bytes.extend_from_slice(b"example");
    bytes.push(3);
    bytes.extend_from_slice(b"com");
    bytes.push(0);
    bytes.extend_from_slice(&[0x00, 0x01, 0x00, 0x01]);

    let mut buffer = buffer_from(&bytes);
    let packet = Packet::from_buffer(&mut buffer).expect("well-formed message");

    assert_eq!(packet.header.id, 0x029A);
    assert!(!packet.header.qr);
    assert!(packet.header.rd);
    assert!(!packet.header.ra);
    assert!(!packet.header.aa);
    assert!(!packet.header.tc);
    assert_eq!(packet.header.opcode, 0);
    assert_eq!(packet.header.z, 0);
    assert_eq!(packet.header.rcode, ResultCode::NOERROR);
    assert_eq!(packet.header.qdcount, 1);
    assert_eq!(packet.header.ancount, 0);
    assert_eq!(packet.questions.len(), 1);
    assert_eq!(packet.questions[0].name, b"example.com".to_vec());
    assert_eq!(packet.questions[0].qtype, QueryType::A);
    assert_eq!(packet.answers.len(), 0);
    assert_eq!(packet.authorities.len(), 0);
    assert_eq!(packet.resources.len(), 0);
}

#[test]
fn compressed_name_decodes_to_same_string() {
    // The name "www.example.com" in full at offset 12, and a second
    // occurrence at offset 29 as a pure pointer back to offset 12.
    let mut bytes = vec![0u8; 12];
    bytes.push(3);
    bytes.extend_from_slice(b"www");
    bytes.push(7);
    bytes.extend_from_slice(b"example");
    bytes.push(3);
    bytes.extend_from_slice(b"com");
    bytes.push(0);
    assert_eq!(bytes.len(), 29);
    bytes.extend_from_slice(&[0xC0, 12]);

    let mut buffer = buffer_from(&bytes);
    buffer.seek(12).unwrap();

    let mut first = Vec::new();
    buffer.read_qname(&mut first).unwrap();
    assert_eq!(first, b"www.example.com".to_vec());
    assert_eq!(buffer.pos(), 29);

    let mut second = Vec::new();
    buffer.read_qname(&mut second).unwrap();
    assert_eq!(second, b"www.example.com".to_vec());
    assert_eq!(buffer.pos(), 31);
    assert_eq!(first, second);
}

#[test]
fn pointer_cycle_fails_with_too_many_redirects() {
    // A pointer at offset 0 to offset 2, whose pointer points back to 0.
    let bytes = [0xC0u8, 0x02, 0xC0, 0x00];
    let mut buffer = buffer_from(&bytes);
    let mut out = Vec::new();
    assert_eq!(buffer.read_qname(&mut out), Err(DnsError::TooManyRedirects));
}

#[test]
fn self_pointing_pointer_fails_with_too_many_redirects() {
    let bytes = [0xC0u8, 0x00];
    let mut buffer = buffer_from(&bytes);
    let mut out = Vec::new();
    assert_eq!(buffer.read_qname(&mut out), Err(DnsError::TooManyRedirects));
}

#[test]
fn reads_and_writes_at_or_past_the_end_overrun() {
    let mut buffer = BytePacketBuffer::new();
    buffer.seek(512).unwrap();
    assert_eq!(buffer.read(), Err(DnsError::BufferOverrun));
    assert_eq!(buffer.read_u16(), Err(DnsError::BufferOverrun));
    assert_eq!(buffer.read_u32(), Err(DnsError::BufferOverrun));
    assert_eq!(buffer.write_u8(1), Err(DnsError::BufferOverrun));
    assert_eq!(buffer.get(512), Err(DnsError::BufferOverrun));
    assert_eq!(buffer.get(600), Err(DnsError::BufferOverrun));
    assert_eq!(buffer.seek(513), Err(DnsError::BufferOverrun));
    assert_eq!(buffer.step(1), Err(DnsError::BufferOverrun));

    let mut fresh = BytePacketBuffer::new();
    assert_eq!(fresh.step(513), Err(DnsError::BufferOverrun));
    assert!(fresh.step(512).is_ok());
    assert_eq!(fresh.pos(), 512);
}

#[test]
fn ranged_read_reaching_the_final_byte_overruns() {
    // A range whose end reaches byte 512 is refused, even though the last
    // byte exists: the stricter bound is the codec's documented behavior.
    let mut buffer = BytePacketBuffer::new();
    assert_eq!(buffer.get_range(0, 512).err(), Some(DnsError::BufferOverrun));
    assert_eq!(buffer.get_range(511, 1).err(), Some(DnsError::BufferOverrun));
    assert_eq!(buffer.get_range(512, 1).err(), Some(DnsError::BufferOverrun));
    assert!(buffer.get_range(0, 511).is_ok());
    assert!(buffer.get_range(510, 1).is_ok());
}

#[test]
fn sixty_three_byte_label_fits_sixty_four_fails() {
    let label63 = vec![b'a'; 63];
    let mut buffer = BytePacketBuffer::new();
    assert!(buffer.write_qname(&label63).is_ok());
    assert_eq!(buffer.pos(), 65);

    let label64 = vec![b'a'; 64];
    let mut buffer = BytePacketBuffer::new();
    assert_eq!(buffer.write_qname(&label64), Err(DnsError::LabelTooLong));
}

#[test]
fn unknown_record_skips_exactly_its_data() {
    // Record: name "abc", type 99, class 1, ttl 3600, data length 4, then
    // four payload bytes the codec must skip without interpreting.
    let mut bytes = Vec::new();
    bytes.push(3);
    bytes.extend_from_slice(b"abc");
    bytes.push(0);
    bytes.extend_from_slice(&[0x00, 99, 0x00, 0x01]);
    bytes.extend_from_slice(&[0x00, 0x00, 0x0E, 0x10]);
    bytes.extend_from_slice(&[0x00, 0x04]);
    bytes.extend_from_slice(&[0xDE, 0xAD, 0xBE, 0xEF]);

    let mut buffer = buffer_from(&bytes);
    let record = Record::read(&mut buffer).expect("well-formed record");
    assert_eq!(
        record,
        Record::Unknown { domain: b"abc".to_vec(), qtype: 99, data_len: 4, ttl: 3600 }
    );
    // Cursor ends exactly four bytes past the record header: 5 (name) + 10
    // (fixed fields) + 4 (skipped data).
    assert_eq!(buffer.pos(), 19);
}

#[test]
fn address_record_decodes_its_octets() {
    let mut bytes = Vec::new();
    bytes.push(3);
    bytes.extend_from_slice(b"abc");
    bytes.push(0);
    bytes.extend_from_slice(&[0x00, 0x01, 0x00, 0x01]);
    bytes.extend_from_slice(&[0x00, 0x00, 0x00, 0x3C]);
    bytes.extend_from_slice(&[0x00, 0x04]);
    bytes.extend_from_slice(&[93, 184, 216, 34]);

    let mut buffer = buffer_from(&bytes);
    let record = Record::read(&mut buffer).expect("well-formed record");
    assert_eq!(
        record,
        Record::A {
            domain: b"abc".to_vec(),
            addr: Ipv4Address { a: 93, b: 184, c: 216, d: 34 },
            ttl: 60,
        }
    );
    assert_eq!(buffer.pos(), 19);
}

#[test]
fn message_round_trip_preserves_all_fields() {
    let mut packet = Packet::new();
    packet.header.id = 0xBEEF;
    packet.header.qr = true;
    packet.header.opcode = 2;
    packet.header.aa = true;
    packet.header.tc = false;
    packet.header.rd = true;
    packet.header.ra = true;
    packet.header.z = 5;
    packet.header.rcode = ResultCode::NXDOMAIN;
    packet.questions.push(Question::new(b"www.example.com".to_vec(), QueryType::A));
    packet.answers.push(Record::A {
        domain: b"www.example.com".to_vec(),
        addr: Ipv4Address { a: 203, b: 0, c: 113, d: 7 },
        ttl: 86400,
    });
    packet.answers.push(Record::Unknown {
        domain: b"x.example".to_vec(),
        qtype: 99,
        data_len: 0,
        ttl: 1,
    });
    packet.authorities.push(Record::A {
        domain: b"ns1.example.com".to_vec(),
        addr: Ipv4Address { a: 198, b: 51, c: 100, d: 1 },
        ttl: 7200,
    });
    packet.resources.push(Record::A {
        domain: b"alt.example.com".to_vec(),
        addr: Ipv4Address { a: 192, b: 0, c: 2, d: 255 },
        ttl: 0,
    });

    let mut buffer = BytePacketBuffer::new();
    packet.write(&mut buffer).expect("message fits");
    let end = buffer.pos();

    // The counts were recomputed from the live sequences.
    assert_eq!(packet.header.qdcount, 1);
    assert_eq!(packet.header.ancount, 2);
    assert_eq!(packet.header.nscount, 1);
    assert_eq!(packet.header.arcount, 1);

    buffer.seek(0).unwrap();
    let decoded = Packet::from_buffer(&mut buffer).expect("round trip");
    assert_eq!(buffer.pos(), end);

    assert_eq!(decoded.header, packet.header);
    assert_eq!(decoded.questions, packet.questions);
    assert_eq!(decoded.answers, packet.answers);
    assert_eq!(decoded.authorities, packet.authorities);
    assert_eq!(decoded.resources, packet.resources);
}

#[test]
fn decode_rejects_truncated_message() {
    // qdcount of 1, but the packet holds no question bytes: the name scan
    // walks zeros until the range check fails.
    let mut bytes = vec![0u8; 12];
    bytes[5] = 0x01;
    let mut buffer = buffer_from(&bytes);
    let packet = Packet::from_buffer(&mut buffer).expect("zero bytes decode as a root name");
    assert_eq!(packet.questions[0].name, Vec::<u8>::new());

    // A question whose name runs past the end of the packet overruns: a
    // chain of 63-byte labels marches the scan to byte 460, where one more
    // label would cross the end.
    let mut long = vec![0u8; 512];
    long[5] = 0x01;
    let mut pos = 12;
    while pos < 512 {
        long[pos] = 63;
        pos += 64;
    }
    let mut buffer = buffer_from(&long);
    assert_eq!(Packet::from_buffer(&mut buffer).err(), Some(DnsError::BufferOverrun));
}

#[test]
fn header_bitfields_survive_write_then_read() {
    let mut header = Header::new();
    header.id = 0x1234;
    header.qr = true;
    header.opcode = 15;
    header.aa = false;
    header.tc = true;
    header.rd = false;
    header.ra = true;
    header.z = 7;
    header.rcode = ResultCode::UNRECOGNIZED(11);
    header.qdcount = 2;
    header.ancount = 3;
    header.nscount = 4;
    header.arcount = 5;

    let mut buffer = BytePacketBuffer::new();
    header.write(&mut buffer).unwrap();
    assert_eq!(buffer.pos(), 12);

    buffer.seek(0).unwrap();
    let mut decoded = Header::new();
    decoded.read(&mut buffer).unwrap();
    assert_eq!(decoded, header);
}

#[test]
fn primitive_values_survive_write_then_read() {
    let mut buffer = BytePacketBuffer::new();
    buffer.write_u8(0xAB).unwrap();
    buffer.write_u16(0x1234).unwrap();
    buffer.write_u32(0xDEADBEEF).unwrap();
    assert_eq!(buffer.pos(), 7);

    buffer.seek(0).unwrap();
    assert_eq!(buffer.read(), Ok(0xAB));
    assert_eq!(buffer.read_u16(), Ok(0x1234));
    assert_eq!(buffer.read_u32(), Ok(0xDEADBEEF));

    assert_eq!(buffer.get(0), Ok(0xAB));
    let range = buffer.get_range(1, 2).unwrap().to_vec();
    assert_eq!(range, vec![0x12, 0x34]);
    // get and get_range leave the cursor alone.
    assert_eq!(buffer.pos(), 7);
}

#[test]
fn uppercase_labels_are_lowercased_on_read() {
    let mut bytes = Vec::new();
    bytes.push(4);
    bytes.extend_from_slice(b"WiKi");
    bytes.push(3);
    bytes.extend_from_slice(b"OrG");
    bytes.push(0);
    let mut buffer = buffer_from(&bytes);
    let mut out = Vec::new();
    buffer.read_qname(&mut out).unwrap();
    assert_eq!(out, b"wiki.org".to_vec());
}

#[test]
fn header_packs_the_documented_bit_positions() {
    let mut header = Header::new();
    header.qr = true;
    header.opcode = 2;
    header.aa = true;
    header.rd = true;
    header.ra = true;
    header.rcode = ResultCode::NXDOMAIN;

    let mut buffer = BytePacketBuffer::new();
    header.write(&mut buffer).unwrap();
    // High flags byte: qr at bit 7, opcode at bits 3..6, aa at bit 2,
    // tc at bit 1, rd at bit 0. Low flags byte: ra at bit 7, reserved at
    // bits 4..6, result code at bits 0..3.
    assert_eq!(buffer.get(2), Ok(0x95));
    assert_eq!(buffer.get(3), Ok(0x83));
}

#[test]
fn encoded_query_matches_the_wire_format_byte_for_byte() {
    let mut query = dns_codec::relay::build_query(b"example.com".to_vec(), QueryType::A);
    let mut buffer = BytePacketBuffer::new();
    query.write(&mut buffer).unwrap();

    let mut expected = vec![
        0x1A, 0x0A, // id 6666
        0x01, 0x00, // recursion desired, all else clear
        0x00, 0x01, // one question
        0x00, 0x00, 0x00, 0x00, 0x00, 0x00,
    ];
    expected.push(7);
    expected.extend_from_slice(b"example");
    expected.push(3);
    expected.extend_from_slice(b"com");
    expected.push(0);
    expected.extend_from_slice(&[0x00, 0x01, 0x00, 0x01]);

    assert_eq!(buffer.pos(), expected.len());
    for (i, want) in expected.iter().enumerate() {
        assert_eq!(buffer.get(i), Ok(*want));
    }
}

#[test]
fn write_qname_overruns_when_name_does_not_fit() {
    let mut buffer = BytePacketBuffer::new();
    buffer.seek(510).unwrap();
    assert_eq!(buffer.write_qname(b"abc"), Err(DnsError::BufferOverrun));
}
