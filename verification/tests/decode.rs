// Decoding tests over hand-assembled wire buffers: a query for google.com,
// a response for google.com whose answer name is a compression pointer, and
// a query/response pair for the short name "ai".

use dns_parser::{
    parse_dns_header, parse_label, parse_label_part, parse_packet, parse_question, parse_record,
    parse_record_preamble, DnsError, DnsRecord, Ipv4Address, LabelPart, RecordType,
};

fn query_google() -> Vec<u8> {
    let mut b = vec![
        0x5c, 0x91, 0x01, 0x20, 0x00, 0x01, 0x00, 0x00, 0x00, 0x00, 0x00, 0x00,
    ];
    b.extend_from_slice(b"\x06google\x03com\x00");
    b.extend_from_slice(&[0x00, 0x01, 0x00, 0x01]);
    b
}

fn response_google() -> Vec<u8> {
    let mut b = vec![
        0x5c, 0x91, 0x81, 0x80, 0x00, 0x01, 0x00, 0x01, 0x00, 0x00, 0x00, 0x00,
    ];
    b.extend_from_slice(b"\x06google\x03com\x00");
    b.extend_from_slice(&[0x00, 0x01, 0x00, 0x01]);
    // answer: pointer to the question name at offset 12, type A, class IN,
    // a five-minute ttl, four body bytes of address
    b.extend_from_slice(&[0xc0, 0x0c, 0x00, 0x01, 0x00, 0x01]);
    b.extend_from_slice(&[0x00, 0x00, 0x01, 0x2c, 0x00, 0x04]);
    b.extend_from_slice(&[0x8e, 0xfa, 0xb3, 0x8e]);
    b
}

fn query_ai() -> Vec<u8> {
    let mut b = vec![
        0x12, 0x34, 0x01, 0x20, 0x00, 0x01, 0x00, 0x00, 0x00, 0x00, 0x00, 0x00,
    ];
    b.extend_from_slice(b"\x02ai\x00");
    b.extend_from_slice(&[0x00, 0x01, 0x00, 0x01]);
    b
}

fn response_ai() -> Vec<u8> {
    let mut b = vec![
        0x12, 0x34, 0x81, 0x80, 0x00, 0x01, 0x00, 0x01, 0x00, 0x00, 0x00, 0x00,
    ];
    b.extend_from_slice(b"\x02ai\x00");
    b.extend_from_slice(&[0x00, 0x01, 0x00, 0x01]);
    b.extend_from_slice(&[0xc0, 0x0c, 0x00, 0x01, 0x00, 0x01]);
    b.extend_from_slice(&[0x00, 0x00, 0x0e, 0x10, 0x00, 0x04]);
    b.extend_from_slice(&[209, 59, 119, 34]);
    b
}

#[test]
fn test_parse_header() {
    let bytes = query_google();
    if let Ok((actual, end)) = parse_dns_header(&bytes, 0) {
        println!("{:?}", actual);
        assert_eq!(actual.id, 0x5c91, "id mismatch");
        assert_eq!(actual.message_type, 0u8);
        assert_eq!(actual.questions, 1u16, "num questions mismatch");
        assert_eq!(end, 12);
    } else {
        panic!("fail");
    }
}

#[test]
fn test_parse_label() {
    let start_of_packet = query_google();
    let (label, end) = parse_label(&start_of_packet, 12).unwrap();
    println!("rest starts at: {}", end);
    assert!(end == 24);
    assert_eq!(label.parts, vec![b"google".to_vec(), b"com".to_vec()]);
}

#[test]
fn test_parse_label_jump() {
    let start_of_packet = response_google();
    let (label, end) = parse_label(&start_of_packet, 28).unwrap();
    println!("rest starts at: {}", end);
    assert!(end == 30);
    assert_eq!(label.parts, vec![b"google".to_vec(), b"com".to_vec()]);
}

#[test]
fn test_parse_question() {
    let start_of_packet = query_google();
    let (question, end) = parse_question(&start_of_packet, 12).unwrap();
    assert!(end == start_of_packet.len());
    assert!(question.qtype == 1u16);
    assert_eq!(question.qname.parts, vec![b"google".to_vec(), b"com".to_vec()]);
}

#[test]
fn test_parse_simple_record() {
    let start_of_packet = response_google();
    println!("input: {:x?}", &start_of_packet[28..]);
    let res = parse_record_preamble(&start_of_packet, 28);
    assert!(res.is_ok());
    let (record, end) = res.unwrap();
    println!("record: {:?}", record);
    assert!(end == start_of_packet.len() - 4); // IP left over
    assert!(record.rtype == RecordType::A);
    assert!(record.rname.parts == vec![b"google".to_vec(), b"com".to_vec()]);
}

#[test]
fn test_full_A_record() {
    let start_of_packet = response_ai();
    let res = parse_record(&start_of_packet, 0x14);
    assert!(res.is_ok());
    let (record, end) = res.unwrap();
    assert!(end == start_of_packet.len());
    if let DnsRecord::A { preamble, ipv4 } = record {
        assert!(preamble.rname.parts == vec![b"ai".to_vec()]);
        assert_eq!(ipv4, Ipv4Address::new(209, 59, 119, 34));
    } else {
        assert!(false, "wrong record type");
    }
}

#[test]
fn test_parse_full_query() {
    let start_of_packet = query_ai();
    let res = parse_packet(&start_of_packet, 0);
    assert!(res.is_ok());
    let (packet, end) = res.unwrap();
    assert!(end == start_of_packet.len());
    assert_eq!(packet.header.questions, 1);
    let q = &packet.questions[0];
    assert_eq!(q.qname.parts, vec![b"ai".to_vec()]);
}

#[test]
fn test_parse_full_response() {
    let start_of_packet = response_ai();
    let res = parse_packet(&start_of_packet, 0);
    assert!(res.is_ok());
    let (packet, end) = res.unwrap();
    assert!(end == start_of_packet.len());
    assert_eq!(packet.header.questions, 1);
    let q = &packet.questions[0];
    assert_eq!(q.qname.parts, vec![b"ai".to_vec()]);
    assert_eq!(packet.header.answers, 1);
    let a = &packet.answers[0];
    if let DnsRecord::A { preamble, ipv4 } = a {
        assert_eq!(preamble.rname.parts, vec![b"ai".to_vec()]);
        assert_eq!(*ipv4, Ipv4Address::new(209, 59, 119, 34));
    } else {
        assert!(false, "invalid parse");
    }
}

#[test]
fn test_parse_google_query_packet() {
    // the example request: one question for google.com, type A, class IN
    let bytes = query_google();
    let (packet, end) = parse_packet(&bytes, 0).unwrap();
    assert_eq!(end, bytes.len());
    assert_eq!(packet.header.id, 0x5c91);
    assert_eq!(packet.header.questions, 1);
    assert_eq!(packet.header.answers, 0);
    let q = &packet.questions[0];
    assert_eq!(q.qname.parts, vec![b"google".to_vec(), b"com".to_vec()]);
    assert_eq!(q.qtype, 1);
}

#[test]
fn test_label_part_kinds() {
    let bytes = response_google();
    // a regular label at the question name
    let (part, end) = parse_label_part(&bytes, 12).unwrap();
    if let LabelPart::Regular(text) = part {
        assert_eq!(text, b"google".to_vec());
    } else {
        panic!("expected a regular label");
    }
    assert_eq!(end, 19);
    // the root terminator that closes the question name
    let (part, end) = parse_label_part(&bytes, 23).unwrap();
    assert!(matches!(part, LabelPart::Root));
    assert_eq!(end, 24);
    // the pointer that opens the answer name
    let (part, end) = parse_label_part(&bytes, 28).unwrap();
    if let LabelPart::Backreference(offset) = part {
        assert_eq!(offset, 12);
    } else {
        panic!("expected a pointer");
    }
    assert_eq!(end, 30);
}

#[test]
fn test_pointer_matches_original_occurrence() {
    // the answer name is a pointer to the question name: both decode to the
    // same labels, and the pointer consumes exactly its own two bytes
    let bytes = response_google();
    let (at_question, _) = parse_label(&bytes, 12).unwrap();
    let (at_answer, end) = parse_label(&bytes, 28).unwrap();
    assert_eq!(at_question.parts, at_answer.parts);
    assert_eq!(end, 30);
}

#[test]
fn test_pointer_cycle_fails() {
    // a self-referential pointer at offset 20: 0xc0 0x14 points back to 20
    let mut bytes = query_ai();
    bytes.extend_from_slice(&[0xc0, 0x14]);
    let res = parse_label(&bytes, 20);
    assert_eq!(res.unwrap_err(), DnsError::TooManyIndirections);
}

#[test]
fn test_forward_pointer_chain_fails() {
    // two pointers that chase each other forever
    let mut bytes = vec![0u8; 24];
    bytes[20] = 0xc0;
    bytes[21] = 22;
    bytes[22] = 0xc0;
    bytes[23] = 20;
    let res = parse_label(&bytes, 20);
    assert_eq!(res.unwrap_err(), DnsError::TooManyIndirections);
}

#[test]
fn test_pointer_out_of_range() {
    // a pointer whose 14-bit offset is 512
    let bytes = vec![0xc2, 0x00];
    let res = parse_label(&bytes, 0);
    assert_eq!(res.unwrap_err(), DnsError::PointerOutOfRange);
}

#[test]
fn test_truncated_header() {
    let bytes = &response_ai()[..11];
    let res = parse_packet(bytes, 0);
    assert_eq!(res.unwrap_err(), DnsError::Truncated);
}

#[test]
fn test_truncated_label_text() {
    // a length byte promising six bytes of text with only three present
    let bytes = vec![0x06, b'g', b'o', b'o'];
    let res = parse_label(&bytes, 0);
    assert_eq!(res.unwrap_err(), DnsError::Truncated);
}

#[test]
fn test_unknown_record_type_skipped() {
    // a TXT record (type 16): the body is skipped using its length
    let mut bytes = vec![
        0x12, 0x34, 0x81, 0x80, 0x00, 0x00, 0x00, 0x01, 0x00, 0x00, 0x00, 0x00,
    ];
    bytes.extend_from_slice(b"\x02ai\x00");
    bytes.extend_from_slice(&[0x00, 0x10, 0x00, 0x01]);
    bytes.extend_from_slice(&[0x00, 0x00, 0x0e, 0x10, 0x00, 0x03]);
    bytes.extend_from_slice(b"abc");
    let (record, end) = parse_record(&bytes, 12).unwrap();
    assert_eq!(end, bytes.len());
    if let DnsRecord::UNKNOWN { preamble } = record {
        assert_eq!(preamble.rtype, RecordType::UNKNOWN(16));
        assert_eq!(preamble.length, 3);
        assert_eq!(preamble.ttl, 3600);
    } else {
        panic!("expected an unknown record");
    }
}

#[test]
fn test_long_label_decoded_permissively() {
    // the decoder takes any first byte below 0xc0 as a length, so a label
    // of 64 bytes is read back as received; only the encoder rejects it
    let mut bytes = vec![64u8];
    bytes.extend_from_slice(&[b'x'; 64]);
    bytes.push(0);
    let (label, end) = parse_label(&bytes, 0).unwrap();
    assert_eq!(end, bytes.len());
    assert_eq!(label.parts, vec![vec![b'x'; 64]]);
}

#[test]
fn test_record_type_registry() {
    assert_eq!(RecordType::from(1u16), RecordType::A);
    assert_eq!(RecordType::from(0u16), RecordType::UNKNOWN(0));
    assert_eq!(RecordType::from(28u16), RecordType::UNKNOWN(28));
}
