// Encoding tests: packing primitives, header round trips, and the
// structural round trip of a constructed reply.

use dns_parser::{
    pack_header, pack_label, pack_question, pack_questions, pack_u16, parse_dns_header,
    parse_label, parse_packet, DnsError, DnsPacket, DnsQuestion, DnsRecord, Ipv4Address, Label,
};

#[test]
fn test_pack_u16_big_endian() {
    let mut out = vec![0u8; 4];
    let n = pack_u16(&mut out, 1, 0x1234).unwrap();
    assert_eq!(n, 3);
    assert_eq!(out, vec![0x00, 0x12, 0x34, 0x00]);
}

#[test]
fn test_pack_u16_too_small() {
    let mut out = vec![0u8; 4];
    let res = pack_u16(&mut out, 3, 0x1234);
    assert_eq!(res.unwrap_err(), DnsError::BufferTooSmall);
    assert_eq!(out, vec![0u8; 4]);
}

#[test]
fn test_header_bytes_round_trip() {
    // decoding any twelve bytes and packing the result reproduces them
    let bytes = vec![
        0x5c, 0x91, 0xa5, 0x3c, 0x00, 0x01, 0x00, 0x02, 0x00, 0x03, 0x00, 0x04,
    ];
    let (header, _) = parse_dns_header(&bytes, 0).unwrap();
    let mut out = vec![0u8; 12];
    let n = pack_header(&mut out, 0, &header).unwrap();
    assert_eq!(n, 12);
    assert_eq!(out, bytes);
}

#[test]
fn test_pack_label_round_trip() {
    let label = Label { parts: vec![b"google".to_vec(), b"com".to_vec()] };
    let mut out = vec![0u8; 16];
    let n = pack_label(&mut out, 0, &label).unwrap();
    assert_eq!(n, 12);
    assert_eq!(&out[..12], b"\x06google\x03com\x00");
    let (back, end) = parse_label(&out, 0).unwrap();
    assert_eq!(end, 12);
    assert_eq!(back.parts, label.parts);
}

#[test]
fn test_pack_label_too_long() {
    let label = Label { parts: vec![vec![b'a'; 64]] };
    let mut out = vec![0u8; 128];
    let res = pack_label(&mut out, 0, &label);
    assert_eq!(res.unwrap_err(), DnsError::LabelTooLong);
    assert_eq!(out, vec![0u8; 128]);
}

#[test]
fn test_pack_question_wire_bytes() {
    let question = DnsQuestion { qname: Label { parts: vec![b"ai".to_vec()] }, qtype: 1 };
    let mut out = vec![0u8; 8];
    let n = pack_question(&mut out, 0, &question).unwrap();
    assert_eq!(n, 8);
    assert_eq!(out, b"\x02ai\x00\x00\x01\x00\x01".to_vec());
}

#[test]
fn test_pack_questions_in_order() {
    let questions = vec![
        DnsQuestion { qname: Label { parts: vec![b"ai".to_vec()] }, qtype: 1 },
        DnsQuestion { qname: Label { parts: vec![b"io".to_vec()] }, qtype: 2 },
    ];
    let mut out = vec![0u8; 16];
    let n = pack_questions(&mut out, 0, &questions).unwrap();
    assert_eq!(n, 16);
    assert_eq!(&out[..8], b"\x02ai\x00\x00\x01\x00\x01");
    assert_eq!(&out[8..], b"\x02io\x00\x00\x02\x00\x01");
}

#[test]
fn test_serialise_reply_round_trip() {
    // a reply built the way the transport shell does: the request's
    // question copied in, one synthesized address answer
    let question = DnsQuestion { qname: Label { parts: vec![b"ai".to_vec()] }, qtype: 1 };
    let answer = DnsRecord::from_question(&question, Ipv4Address::new(209, 59, 119, 34));
    let mut response = DnsPacket::new();
    response.header.id = 0x1234;
    response.header.message_type = 1;
    response.add_question(question);
    response.add_answer(answer);

    let mut buf = vec![0u8; 512];
    let n = response.serialise(&mut buf).unwrap();
    let (decoded, end) = parse_packet(&buf[..n], 0).unwrap();
    assert_eq!(end, n);
    assert_eq!(decoded, response);
}

#[test]
fn test_serialise_buffer_too_small() {
    let question = DnsQuestion { qname: Label { parts: vec![b"ai".to_vec()] }, qtype: 1 };
    let mut packet = DnsPacket::new();
    packet.add_question(question);
    let mut buf = vec![0u8; 16];
    let res = packet.serialise(&mut buf);
    assert_eq!(res.unwrap_err(), DnsError::BufferTooSmall);
    assert_eq!(buf, vec![0u8; 16]);
}
