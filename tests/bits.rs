use dns_header::bits::{take_bit, take_nibble, take_u16, BitCursor};
use dns_header::error::ParseError;

#[test]
fn test_nibble() {
    let data = [0b1010_1111u8];
    let input = BitCursor::new(&data, 0);
    let (_input, actual_nibble) = take_nibble(input).unwrap();
    let expected_nibble = 0b1010;
    assert_eq!(actual_nibble, expected_nibble);
}

#[test]
fn test_tag_wrapper() {
    let data = [0b1111_1111u8];
    let c = BitCursor::new(&data, 0);
    // The pattern 1111 matches the stream 1111_1111
    assert!(c.expect_bits(0b1111, 4).is_ok());
    // The pattern 1 matches the stream too
    assert!(c.expect_bits(0b1, 1).is_ok());
    // The pattern 01 does not match the stream
    assert!(c.expect_bits(0b1, 2).is_err());
    // The pattern 1111_1110 does not match the stream either
    assert!(c.expect_bits(0b1111_1110, 8).is_err());
}

#[test]
fn test_take_bit() {
    let data = [0b10101010u8];
    let input = BitCursor::new(&data, 0);
    let (input, first_bit) = take_bit(input).unwrap();
    assert!(first_bit);
    let (_input, second_bit) = take_bit(input).unwrap();
    assert!(!second_bit);
}

#[test]
fn extract_across_byte_boundary() {
    let data = [0b0000_0101u8, 0b1100_0000];
    let c = BitCursor::new(&data, 5);
    let (next, v) = c.extract_bits(5).unwrap();
    assert_eq!(v, 0b10111);
    assert_eq!(next.bit_offset, 10);
    assert_eq!(next.byte_index(), 1);
    assert_eq!(next.bit_in_byte(), 2);
}

#[test]
fn split_read_matches_single_read() {
    let data = [0x9cu8, 0x3a, 0xe5];
    for k in 0..8usize {
        for n in 1..=16usize {
            let c = BitCursor::new(&data, k);
            let (_, whole) = c.extract_bits(n).unwrap();
            for a in 1..n {
                let (mid, hi) = c.extract_bits(a).unwrap();
                let (_, lo) = mid.extract_bits(n - a).unwrap();
                assert_eq!(((hi as u32) << (n - a)) | lo as u32, whole as u32);
            }
        }
    }
}

#[test]
fn extraction_advances_by_exactly_n() {
    let data = [0xffu8, 0x00, 0x0f];
    let c = BitCursor::new(&data, 3);
    for n in 1..=16usize {
        let (next, _) = c.extract_bits(n).unwrap();
        assert_eq!(next.bit_offset, 3 + n);
        assert_eq!(next.data, &data[..]);
        assert_eq!(c.bit_offset, 3);
    }
}

#[test]
fn extract_sixteen_bits_unaligned() {
    let data = [0x12u8, 0x34, 0x56];
    let c = BitCursor::new(&data, 4);
    let (_, v) = take_u16(c).unwrap();
    assert_eq!(v, 0x2345);
}

#[test]
fn extract_insufficient_input() {
    let data = [0xabu8];
    let c = BitCursor::new(&data, 3);
    assert_eq!(
        c.extract_bits(6).map(|(_, v)| v),
        Err(ParseError::InsufficientInput { needed: 6, available: 5 })
    );
    assert_eq!(
        take_u16(c).map(|(_, v)| v),
        Err(ParseError::InsufficientInput { needed: 16, available: 5 })
    );
    let end = BitCursor::new(&data, 8);
    assert_eq!(
        take_bit(end).map(|(_, b)| b),
        Err(ParseError::InsufficientInput { needed: 1, available: 0 })
    );
}

#[test]
fn expect_bits_mismatch_reports_found_bits() {
    let data = [0b1011_0000u8];
    let c = BitCursor::new(&data, 0);
    assert_eq!(
        c.expect_bits(0b1001, 4).map(|n| n.bit_offset),
        Err(ParseError::PatternMismatch { expected: 0b1001, found: 0b1011 })
    );
    let next = c.expect_bits(0b1011, 4).unwrap();
    assert_eq!(next.bit_offset, 4);
}
