use fetch::dns::{DnsError, Header, QueryClass, QueryType, Question, RData, Resolver, ResourceRecord, Response};
use fetch::name::{decode_name, encode_name};

#[test]
fn test_from_bytes_to_question() {
    let mut bytes: [u8; 512] = [0; 512];
    let initial_offset = 10;
    let mut offset: usize = initial_offset;
    let header_payload = [
        // example.com: type A, class IN
        0x07, 0x65, 0x78, 0x61, 0x6d, 0x70, 0x6c, 0x65, 0x03, 0x63, 0x6f, 0x6d, 0x00, 0x00,
        0x01, 0x00, 0x01,
    ];
    for byte in header_payload {
        bytes[offset] = byte;
        offset += 1;
    }
    offset = initial_offset;
    assert_eq!(
        Question::decode(&bytes, &mut offset),
        Ok(Question::new("example.com", QueryType::A)),
    );
    assert_eq!(offset, header_payload.len() + initial_offset);
}

const RESPONSE: [u8; 60] = [
    0x9e, 0xd9, 0x81, 0x80, 0x00, 0x01, 0x00, 0x02, 0x00, 0x00, 0x00, 0x00, 0x03, 0x64, 0x6e,
    0x73, 0x06, 0x67, 0x6f, 0x6f, 0x67, 0x6c, 0x65, 0x00, 0x00, 0x01, 0x00, 0x01, 0xc0, 0x0c,
    0x00, 0x01, 0x00, 0x01, 0x00, 0x00, 0x02, 0xb3, 0x00, 0x04, 0x08, 0x08, 0x04, 0x04, 0xc0,
    0x0c, 0x00, 0x01, 0x00, 0x01, 0x00, 0x00, 0x02, 0xb3, 0x00, 0x04, 0x08, 0x08, 0x08, 0x08,
];

#[test]
fn test_from_bytes_to_resource_record() {
    let mut bytes: [u8; 512] = [0; 512];
    let mut start_offset: usize = 28;
    let mut offset = 0;
    let rr_payload = RESPONSE;
    for byte in rr_payload {
        bytes[offset] = byte;
        offset += 1;
    }
    assert_eq!(
        ResourceRecord::decode(&bytes, &mut start_offset),
        Ok(ResourceRecord::new(
            "dns.google".to_string(),
            QueryType::A,
            QueryClass::IN,
            691,
            4,
            RData::A([8, 8, 4, 4])
        )),
    );
    assert_eq!(offset, rr_payload.len());
}

#[test]
fn header_round_trip_on_values() {
    let h = Header::new(0xbeef, true, 5, true, false, true, true, 3, 1, 2, 3, 0xffff);
    let bytes = h.encode();
    assert_eq!(bytes.len(), 12);
    assert_eq!(bytes[0], 0xbe);
    assert_eq!(bytes[1], 0xef);
    assert_eq!(bytes[2], 0x80 | (5 << 3) | 0x04 | 0x01);
    assert_eq!(bytes[3], 0x80 | 3);
    assert_eq!(Header::decode(&bytes), Ok(h));
}

#[test]
fn query_header_bytes() {
    let h = Header::new_query(0x1234, 1);
    assert_eq!(h.encode(), vec![0x12, 0x34, 0x01, 0x00, 0, 1, 0, 0, 0, 0, 0, 0]);
}

#[test]
fn header_too_short_is_a_size_error() {
    assert_eq!(Header::decode(&[0u8; 11]), Err(DnsError::Size));
}

#[test]
fn name_round_trip_lowercases() {
    let wire = encode_name("WWW.Example.COM").unwrap();
    assert_eq!(
        wire,
        vec![3, b'W', b'W', b'W', 7, b'E', b'x', b'a', b'm', b'p', b'l', b'e', 3, b'C', b'O', b'M', 0]
    );
    let mut cursor = 0;
    assert_eq!(decode_name(&wire, &mut cursor), Ok("www.example.com".to_string()));
    assert_eq!(cursor, wire.len());
}

#[test]
fn name_with_long_label_is_a_size_error() {
    let label = "a".repeat(64);
    assert_eq!(encode_name(&label), Err(DnsError::Size));
    assert!(encode_name(&"a".repeat(63)).is_ok());
}

#[test]
fn name_over_255_bytes_is_a_size_error() {
    let name = vec!["a".repeat(63); 4].join(".");
    assert_eq!(name.len(), 255);
    assert_eq!(encode_name(&name), Err(DnsError::Size));
    let name = vec!["a".repeat(63), "a".repeat(63), "a".repeat(63), "a".repeat(61)].join(".");
    assert_eq!(encode_name(&name).unwrap().len(), 255);
}

#[test]
fn compression_pointer_leaves_cursor_past_pointer() {
    let mut cursor = 28;
    assert_eq!(decode_name(&RESPONSE, &mut cursor), Ok("dns.google".to_string()));
    assert_eq!(cursor, 30);
}

#[test]
fn pointer_loop_is_malformed() {
    let buf = [0xc0u8, 0x00];
    let mut cursor = 0;
    assert_eq!(decode_name(&buf, &mut cursor), Err(DnsError::Malformed));
    assert_eq!(cursor, 0);
}

#[test]
fn name_past_end_is_malformed() {
    let buf = [5u8, b'a', b'b'];
    let mut cursor = 0;
    assert_eq!(decode_name(&buf, &mut cursor), Err(DnsError::Malformed));
    assert_eq!(cursor, 0);
}

#[test]
fn record_decode_advances_by_its_length() {
    let bytes = [
        0x03, 0x64, 0x6e, 0x73, 0x06, 0x67, 0x6f, 0x6f, 0x67, 0x6c, 0x65, 0x00, 0x00, 0x01, 0x00,
        0x01, 0x00, 0x00, 0x02, 0xb3, 0x00, 0x04, 0x08, 0x08, 0x04, 0x04,
    ];
    let mut cursor = 0;
    let r = ResourceRecord::decode(&bytes, &mut cursor).unwrap();
    assert_eq!(r.name, "dns.google");
    assert_eq!(r.query_type, QueryType::A);
    assert_eq!(r.query_class, QueryClass::IN);
    assert_eq!(r.ttl, 691);
    assert_eq!(r.rdlength, 4);
    assert_eq!(r.rdata, RData::A([8, 8, 4, 4]));
    assert_eq!(cursor, 26);
}

#[test]
fn record_of_unknown_type_is_skipped_with_an_error() {
    let bytes = [0x00, 0x00, 0x05, 0x00, 0x01, 0x00, 0x00, 0x00, 0x10, 0x00, 0x02, 0xaa, 0xbb];
    let mut cursor = 0;
    assert_eq!(ResourceRecord::decode(&bytes, &mut cursor), Err(DnsError::UnknownType(5)));
    assert_eq!(cursor, 13);
}

#[test]
fn a_record_with_wrong_length_is_malformed() {
    let bytes = [0x00, 0x00, 0x01, 0x00, 0x01, 0x00, 0x00, 0x00, 0x10, 0x00, 0x02, 0xaa, 0xbb];
    let mut cursor = 0;
    assert_eq!(ResourceRecord::decode(&bytes, &mut cursor), Err(DnsError::Malformed));
    assert_eq!(cursor, 0);
}

#[test]
fn question_of_other_class_is_malformed() {
    let bytes = [0x00, 0x00, 0x01, 0x00, 0x03];
    let mut cursor = 0;
    assert_eq!(Question::decode(&bytes, &mut cursor), Err(DnsError::Malformed));
    let bytes = [0x00, 0x00, 0x02, 0x00, 0x01];
    assert_eq!(Question::decode(&bytes, &mut cursor), Err(DnsError::Malformed));
    assert_eq!(cursor, 0);
}

#[test]
fn question_encoding() {
    let q = Question::new("dns.google", QueryType::AAAA);
    assert_eq!(
        q.encode().unwrap(),
        vec![3, b'd', b'n', b's', 6, b'g', b'o', b'o', b'g', b'l', b'e', 0, 0, 28, 0, 1]
    );
}

#[test]
fn response_parses_all_sections() {
    let r = Response::decode(&RESPONSE).unwrap();
    assert_eq!(r.header.id, 0x9ed9);
    assert_eq!(r.questions, vec![Question::new("dns.google", QueryType::A)]);
    assert_eq!(r.answers.len(), 2);
    assert_eq!(r.answers[0].rdata, RData::A([8, 8, 4, 4]));
    assert_eq!(r.answers[1].rdata, RData::A([8, 8, 8, 8]));
    assert_eq!(r.answers[1].name, "dns.google");
}

#[test]
fn response_with_missing_record_is_malformed() {
    let mut buf = RESPONSE.to_vec();
    buf[7] = 3;
    assert_eq!(Response::decode(&buf).unwrap_err(), DnsError::Malformed);
}

#[test]
fn resolver_query_bytes() {
    let q = Resolver::new().query(0x0102, "a.b").unwrap();
    assert_eq!(q, vec![1, 2, 1, 0, 0, 1, 0, 0, 0, 0, 0, 0, 1, b'a', 1, b'b', 0, 0, 1, 0, 1]);
}

#[test]
fn resolver_returns_first_a_record() {
    assert_eq!(Resolver::new().address(0x9ed9, &RESPONSE), Ok([8, 8, 4, 4]));
}

#[test]
fn resolver_fails_on_empty_answer() {
    let buf = [0x9e, 0xd9, 0x81, 0x80, 0, 0, 0, 0, 0, 0, 0, 0];
    assert_eq!(Resolver::new().address(0x9ed9, &buf), Err(DnsError::Empty));
}

#[test]
fn resolver_fails_on_id_mismatch() {
    assert_eq!(Resolver::new().address(0x9ed8, &RESPONSE), Err(DnsError::Mismatch));
}

#[test]
fn resolver_fails_on_aaaa_answer() {
    let mut buf = vec![0x00, 0x07, 0x81, 0x80, 0, 0, 0, 1, 0, 0, 0, 0];
    buf.extend_from_slice(&[0, 0, 28, 0, 1, 0, 0, 0, 60, 0, 16]);
    buf.extend_from_slice(&[0x20, 0x01, 0x48, 0x60, 0, 0, 0, 0, 0, 0, 0, 0, 0, 0, 0x88, 0x88]);
    assert_eq!(Resolver::new().address(7, &buf), Err(DnsError::Unsupported));
}

#[test]
fn rdata_text_forms() {
    assert_eq!(RData::A([8, 8, 4, 4]).to_string(), "8.8.4.4");
    assert_eq!(RData::A([192, 168, 0, 255]).to_string(), "192.168.0.255");
    let v6 = RData::AAAA([32, 1, 72, 96, 0, 0, 0, 0, 0, 0, 0, 0, 0, 0, 136, 136]);
    assert_eq!(v6.to_string(), "32:1:72:96:0:0:0:0:0:0:0:0:0:0:136:136");
}

#[test]
fn decimal_of_bytes() {
    assert_eq!(fetch::dns::decimal(0), "0");
    assert_eq!(fetch::dns::decimal(42), "42");
    assert_eq!(fetch::dns::decimal(100), "100");
    assert_eq!(fetch::dns::decimal(255), "255");
}

#[test]
fn query_for_a_record() {
    let q = fetch::dns::Query::new(9, "example.com");
    assert_eq!(q.header, Header::new_query(9, 1));
    assert_eq!(q.questions, vec![Question::new("example.com", QueryType::A)]);
    let bytes = q.encode().unwrap();
    assert_eq!(&bytes[..12], &[0, 9, 1, 0, 0, 1, 0, 0, 0, 0, 0, 0]);
    assert_eq!(bytes.len(), 12 + 13 + 4);
    let mut cursor = 12;
    assert_eq!(Question::decode(&bytes, &mut cursor), Ok(Question::new("example.com", QueryType::A)));
    assert_eq!(cursor, bytes.len());
}

#[test]
fn query_with_oversized_label_fails() {
    let host = format!("{}.com", "x".repeat(70));
    assert_eq!(Resolver::new().query(1, &host), Err(DnsError::Size));
}

#[test]
fn reserved_header_bits_decode_as_zero() {
    let mut bytes = [0u8; 12];
    bytes[3] = 0x70 | 0x05;
    let h = Header::decode(&bytes).unwrap();
    assert_eq!(h.z, 0);
    assert_eq!(h.rcode, 5);
    assert!(!h.ra);
}

#[test]
fn name_decodes_at_an_offset_of_a_full_buffer() {
    let wire = encode_name("Mail.Example.ORG").unwrap();
    let mut buf = [0u8; 512];
    buf[300..300 + wire.len()].copy_from_slice(&wire);
    let mut cursor = 300;
    assert_eq!(decode_name(&buf, &mut cursor), Ok("mail.example.org".to_string()));
    assert_eq!(cursor, 300 + wire.len());
}
