use social_graph::edge_list::{parse_edge_line, ParseError};

#[test]
fn a_line_of_two_numerals_is_an_edge() {
    assert_eq!(parse_edge_line(b"0 1"), Ok((0, 1)));
    assert_eq!(parse_edge_line(b"4038 12"), Ok((4038, 12)));
    assert_eq!(parse_edge_line(b"7\t7"), Ok((7, 7)));
}

#[test]
fn white_space_around_the_fields_is_skipped() {
    assert_eq!(parse_edge_line(b"  12   34  "), Ok((12, 34)));
    assert_eq!(parse_edge_line(b"\t12 \t 34\r"), Ok((12, 34)));
    assert_eq!(parse_edge_line(b"12\x0b34\x0c"), Ok((12, 34)));
    assert_eq!(parse_edge_line(b"12\n34"), Ok((12, 34)));
}

#[test]
fn fields_after_the_second_are_ignored() {
    assert_eq!(parse_edge_line(b"1 2 3"), Ok((1, 2)));
    assert_eq!(parse_edge_line(b"1 2 weight=0.5"), Ok((1, 2)));
}

#[test]
fn leading_zeros_and_plus_signs_are_accepted() {
    assert_eq!(parse_edge_line(b"007 +5"), Ok((7, 5)));
    assert_eq!(parse_edge_line(b"+0 0000"), Ok((0, 0)));
}

#[test]
fn a_line_with_fewer_than_two_fields_misses_a_vertex() {
    assert_eq!(parse_edge_line(b""), Err(ParseError::MissingVertex));
    assert_eq!(parse_edge_line(b"   \t "), Err(ParseError::MissingVertex));
    assert_eq!(parse_edge_line(b"12"), Err(ParseError::MissingVertex));
    assert_eq!(parse_edge_line(b" 12 "), Err(ParseError::MissingVertex));
}

#[test]
fn a_field_that_is_no_numeral_is_invalid() {
    assert_eq!(parse_edge_line(b"a 1"), Err(ParseError::InvalidVertex));
    assert_eq!(parse_edge_line(b"1 b"), Err(ParseError::InvalidVertex));
    assert_eq!(parse_edge_line(b"1,2"), Err(ParseError::InvalidVertex));
    assert_eq!(parse_edge_line(b"-1 2"), Err(ParseError::InvalidVertex));
    assert_eq!(parse_edge_line(b"1 2x"), Err(ParseError::InvalidVertex));
    assert_eq!(parse_edge_line(b"+ 2"), Err(ParseError::InvalidVertex));
    assert_eq!(parse_edge_line(b"1 ++2"), Err(ParseError::InvalidVertex));
    assert_eq!(parse_edge_line(b"1.5 2"), Err(ParseError::InvalidVertex));
}

#[test]
fn the_first_field_is_judged_before_the_second_is_missed() {
    assert_eq!(parse_edge_line(b"abc"), Err(ParseError::InvalidVertex));
    assert_eq!(parse_edge_line(b"12"), Err(ParseError::MissingVertex));
}

#[test]
fn a_number_too_large_for_the_machine_is_invalid() {
    let max = usize::MAX.to_string();
    let line = format!("{} {}", max, max);
    assert_eq!(parse_edge_line(line.as_bytes()), Ok((usize::MAX, usize::MAX)));
    let over = format!("{}0 1", max);
    assert_eq!(parse_edge_line(over.as_bytes()), Err(ParseError::InvalidVertex));
    let next = format!("1 {}", usize::MAX as u128 + 1);
    assert_eq!(parse_edge_line(next.as_bytes()), Err(ParseError::InvalidVertex));
    assert_eq!(
        parse_edge_line(b"99999999999999999999999999999999999999999 1"),
        Err(ParseError::InvalidVertex)
    );
}

#[test]
fn fields_are_read_as_the_standard_library_reads_them() {
    let tokens = ["0", "42", "+42", "0042", "18446744073709551615", "18446744073709551616", "-3", "4e2", "", "+", "12a"];
    for t in tokens {
        let line = format!("{} 1", t);
        let expected = t.parse::<usize>().ok();
        match parse_edge_line(line.as_bytes()) {
            Ok((x, y)) => {
                assert_eq!(Some(x), expected);
                assert_eq!(y, 1);
            }
            Err(_) => assert_eq!(expected, None),
        }
    }
}
