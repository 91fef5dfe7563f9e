use dns_header::text::{parse_input, parse_numbers, Line, Point, TextError};

#[test]
fn test_parse_numbers() {
    assert_eq!(Ok((&b""[..], 405)), parse_numbers(b"405"));
    assert_eq!(Ok((&b"abc"[..], 405)), parse_numbers(b"405abc"));
}

#[test]
fn test_parse_point() {
    let tests: [(&[u8], Point, &[u8]); 2] = [
        (b"1,2", Point { x: 1, y: 2 }, b""),
        (b"1,2asdf", Point { x: 1, y: 2 }, b"asdf"),
    ];
    for (input, expected_output, expected_remaining_input) in tests {
        let (remaining_input, output) = Point::parse(input).unwrap();
        assert_eq!(output, expected_output);
        assert_eq!(remaining_input, expected_remaining_input);
    }
}

#[test]
fn test_parse_line() {
    let tests: [(&[u8], Line, &[u8]); 2] = [
        (
            b"0,9 -> 5,9",
            Line(Point { x: 0, y: 9 }, Point { x: 5, y: 9 }),
            b"",
        ),
        (
            b"0,9 -> 5,9xyz",
            Line(Point { x: 0, y: 9 }, Point { x: 5, y: 9 }),
            b"xyz",
        ),
    ];
    for (input, expected_output, expected_remaining_input) in tests {
        let (remaining_input, output) = Line::parse(input).unwrap();
        assert_eq!(remaining_input, expected_remaining_input);
        assert_eq!(output, expected_output);
    }
}

#[test]
fn parse_several_lines() {
    let input = b"0,9 -> 5,9\n8,0 -> 0,8\r\n9,4 -> 3,4\n";
    let lines = parse_input(input).unwrap();
    assert_eq!(lines.len(), 3);
    assert_eq!(lines[1], Line(Point { x: 8, y: 0 }, Point { x: 0, y: 8 }));
    assert_eq!(lines[2], Line(Point { x: 9, y: 4 }, Point { x: 3, y: 4 }));
}

#[test]
fn parse_input_stops_at_first_bad_line() {
    let input = b"1,1 -> 2,2\n3,3 -> x\n4,4 -> 5,5";
    let lines = parse_input(input).unwrap();
    assert_eq!(lines, vec![Line(Point { x: 1, y: 1 }, Point { x: 2, y: 2 })]);
}

#[test]
fn text_errors() {
    assert_eq!(parse_numbers(b"abc"), Err(TextError::NoDigits));
    assert_eq!(parse_numbers(b"4294967295"), Ok((&b""[..], 4294967295)));
    assert_eq!(parse_numbers(b"4294967296"), Err(TextError::TooLarge));
    assert_eq!(Point::parse(b"1;2"), Err(TextError::MissingComma));
    assert_eq!(Line::parse(b"1,2 => 3,4"), Err(TextError::MissingArrow));
    assert_eq!(parse_input(b"x"), Err(TextError::NoDigits));
}
