use dns_header::bits::BitCursor;
use dns_header::error::ParseError;
use dns_header::header::{Header, Opcode, ResponseCode};

fn sample_bytes() -> [u8; 12] {
    [0x00, 0x01, 0x81, 0x80, 0x00, 0x01, 0x00, 0x01, 0x00, 0x00, 0x00, 0x00]
}

#[test]
fn decodes_sample_response_header() {
    let data = sample_bytes();
    let (h, off) = Header::decode(&data).unwrap();
    assert_eq!(off, 12);
    assert_eq!(h.id, 1);
    assert!(!h.is_query);
    assert_eq!(h.opcode, Opcode::Query);
    assert!(!h.authoritative_answer);
    assert!(!h.truncation);
    assert!(h.recursion_desired);
    assert!(h.recursion_available);
    assert_eq!(h.resp_code, ResponseCode::NoError);
    assert_eq!(h.question_count, 1);
    assert_eq!(h.answer_count, 1);
    assert_eq!(h.name_server_count, 0);
    assert_eq!(h.additional_records_count, 0);
}

#[test]
fn decodes_query_with_all_fields_set() {
    // QR=0, opcode=2, AA=1, TC=1, RD=1; RA=1, Z=0, RCODE=5.
    let data = [0xff, 0xff, 0x17, 0x85, 0xff, 0xff, 0x00, 0x00, 0x12, 0x34, 0xab, 0xcd];
    let (h, _) = Header::decode(&data).unwrap();
    assert_eq!(h.id, 65535);
    assert!(h.is_query);
    assert_eq!(h.opcode, Opcode::Status);
    assert!(h.authoritative_answer && h.truncation && h.recursion_desired);
    assert!(h.recursion_available);
    assert_eq!(h.resp_code, ResponseCode::Refused);
    assert_eq!(h.question_count, 65535);
    assert_eq!(h.answer_count, 0);
    assert_eq!(h.name_server_count, 0x1234);
    assert_eq!(h.additional_records_count, 0xabcd);
}

#[test]
fn deserialize_moves_cursor_by_96_bits() {
    let mut data = vec![0xeeu8];
    data.extend_from_slice(&sample_bytes());
    data.push(0x77);
    let c = BitCursor::new(&data, 8);
    let (next, h) = Header::deserialize(c).unwrap();
    assert_eq!(next.bit_offset, 104);
    assert_eq!(next.byte_index(), 13);
    assert_eq!(h.id, 1);
}

#[test]
fn reserved_bits_rejected() {
    for (j, mask) in [0x40u8, 0x20, 0x10].iter().enumerate() {
        let mut data = sample_bytes();
        data[3] |= mask;
        assert_eq!(
            Header::decode(&data).map(|(h, _)| h.id),
            Err(ParseError::ReservedBitsNonzero { position: 25 + j })
        );
    }
}

#[test]
fn unknown_opcode_rejected() {
    let mut data = sample_bytes();
    data[2] = (data[2] & 0x87) | (3 << 3);
    assert_eq!(
        Header::decode(&data).map(|(h, _)| h.id),
        Err(ParseError::UnknownOpcode(3))
    );
    data[2] = (data[2] & 0x87) | (15 << 3);
    assert_eq!(
        Header::decode(&data).map(|(h, _)| h.id),
        Err(ParseError::UnknownOpcode(15))
    );
}

#[test]
fn unknown_response_code_rejected() {
    for code in 6u8..16 {
        let mut data = sample_bytes();
        data[3] = (data[3] & 0xf0) | code;
        assert_eq!(
            Header::decode(&data).map(|(h, _)| h.id),
            Err(ParseError::UnknownResponseCode(code))
        );
    }
}

#[test]
fn truncated_header_fails_at_field_boundary() {
    let data = sample_bytes();
    let expected = [
        (0usize, 16usize, 0usize),
        (1, 16, 8),
        (2, 1, 0),
        (3, 1, 0),
        (4, 16, 0),
        (5, 16, 8),
        (6, 16, 0),
        (7, 16, 8),
        (8, 16, 0),
        (9, 16, 8),
        (10, 16, 0),
        (11, 16, 8),
    ];
    for (m, needed, available) in expected {
        assert_eq!(
            Header::decode(&data[..m]).map(|(h, _)| h.id),
            Err(ParseError::InsufficientInput { needed, available })
        );
    }
}

#[test]
fn opcode_and_response_code_tables() {
    assert_eq!(Opcode::try_from(0), Ok(Opcode::Query));
    assert_eq!(Opcode::try_from(1), Ok(Opcode::InverseQuery));
    assert_eq!(Opcode::try_from(2), Ok(Opcode::Status));
    assert_eq!(Opcode::try_from(3), Err(ParseError::UnknownOpcode(3)));
    assert_eq!(ResponseCode::try_from(3), Ok(ResponseCode::NameError));
    assert_eq!(ResponseCode::try_from(4), Ok(ResponseCode::NotImplemented));
    assert_eq!(ResponseCode::try_from(6), Err(ParseError::UnknownResponseCode(6)));
}

fn encode(h: &Header) -> [u8; 12] {
    let hi = ((!h.is_query as u8) << 7)
        | (match h.opcode {
            Opcode::Query => 0,
            Opcode::InverseQuery => 1,
            Opcode::Status => 2,
        } << 3)
        | ((h.authoritative_answer as u8) << 2)
        | ((h.truncation as u8) << 1)
        | (h.recursion_desired as u8);
    let lo = ((h.recursion_available as u8) << 7)
        | match h.resp_code {
            ResponseCode::NoError => 0,
            ResponseCode::FormatError => 1,
            ResponseCode::ServerFailure => 2,
            ResponseCode::NameError => 3,
            ResponseCode::NotImplemented => 4,
            ResponseCode::Refused => 5,
        };
    let mut out = [0u8; 12];
    out[0..2].copy_from_slice(&h.id.to_be_bytes());
    out[2] = hi;
    out[3] = lo;
    out[4..6].copy_from_slice(&h.question_count.to_be_bytes());
    out[6..8].copy_from_slice(&h.answer_count.to_be_bytes());
    out[8..10].copy_from_slice(&h.name_server_count.to_be_bytes());
    out[10..12].copy_from_slice(&h.additional_records_count.to_be_bytes());
    out
}

#[test]
fn round_trip_on_boundary_values() {
    let opcodes = [Opcode::Query, Opcode::InverseQuery, Opcode::Status];
    let codes = [
        ResponseCode::NoError,
        ResponseCode::FormatError,
        ResponseCode::ServerFailure,
        ResponseCode::NameError,
        ResponseCode::NotImplemented,
        ResponseCode::Refused,
    ];
    for (i, op) in opcodes.iter().enumerate() {
        for (j, rc) in codes.iter().enumerate() {
            let count = if (i + j) % 2 == 0 { 0 } else { 65535 };
            let h = Header {
                id: 0xbeef,
                is_query: i % 2 == 0,
                opcode: *op,
                authoritative_answer: j % 2 == 0,
                truncation: j % 3 == 0,
                recursion_desired: i == 1,
                recursion_available: j > 2,
                resp_code: *rc,
                question_count: count,
                answer_count: 65535 - count,
                name_server_count: count,
                additional_records_count: 1,
            };
            let bytes = encode(&h);
            let (back, off) = Header::decode(&bytes).unwrap();
            assert_eq!(back, h);
            assert_eq!(off, 12);
        }
    }
}
