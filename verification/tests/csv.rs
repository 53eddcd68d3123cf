use server::parser::{parse_csv, ParseError, ParsedDocument};

fn text(s: &str) -> Vec<u8> {
    s.as_bytes().to_vec()
}

fn row(fields: &[&str]) -> Vec<Vec<u8>> {
    fields.iter().map(|f| text(f)).collect()
}

fn doc(columns: &[&str], rows: &[&[&str]]) -> ParsedDocument {
    ParsedDocument { columns: row(columns), rows: rows.iter().map(|r| row(r)).collect() }
}

#[test]
fn header_and_one_row() {
    assert_eq!(parse_csv(b"a,b\n1,2\n"), Ok(doc(&["a", "b"], &[&["1", "2"]])));
}

#[test]
fn last_line_break_is_optional() {
    assert_eq!(parse_csv(b"a,b\n1,2"), Ok(doc(&["a", "b"], &[&["1", "2"]])));
}

#[test]
fn carriage_return_line_feed_ends_a_record() {
    assert_eq!(parse_csv(b"a,b\r\n1,2\r\n"), Ok(doc(&["a", "b"], &[&["1", "2"]])));
    assert_eq!(parse_csv(b"a,b\r\n1,2"), Ok(doc(&["a", "b"], &[&["1", "2"]])));
    assert_eq!(parse_csv(b"a,b\n1,2\r\n3,4\n"), Ok(doc(&["a", "b"], &[&["1", "2"], &["3", "4"]])));
}

#[test]
fn header_alone_has_no_rows() {
    assert_eq!(parse_csv(b"a,b,c\n"), Ok(doc(&["a", "b", "c"], &[])));
    assert_eq!(parse_csv(b"a"), Ok(doc(&["a"], &[])));
}

#[test]
fn several_rows_keep_their_order() {
    assert_eq!(
        parse_csv(b"id,name\n3,c\n1,a\n2,b\n"),
        Ok(doc(&["id", "name"], &[&["3", "c"], &["1", "a"], &["2", "b"]]))
    );
}

#[test]
fn quoted_fields_may_hold_separators() {
    assert_eq!(
        parse_csv(b"\"a,x\",b\n\"1\n2\",\"3\r\n4\"\n"),
        Ok(doc(&["a,x", "b"], &[&["1\n2", "3\r\n4"]]))
    );
}

#[test]
fn doubled_quote_is_one_quote() {
    assert_eq!(
        parse_csv(b"\"say \"\"hi\"\"\",\"\"\"\"\n"),
        Ok(doc(&["say \"hi\"", "\""], &[]))
    );
    assert_eq!(parse_csv(b"\"a\"\"\",b\n"), Ok(doc(&["a\"", "b"], &[])));
}

#[test]
fn quoted_and_plain_fields_mix() {
    assert_eq!(parse_csv(b"a,\"b\",c\n\"1\",2,\"3\"\n"), Ok(doc(&["a", "b", "c"], &[&["1", "2", "3"]])));
}

#[test]
fn empty_fields_are_fields() {
    assert_eq!(parse_csv(b"a,b\n,\n"), Ok(doc(&["a", "b"], &[&["", ""]])));
    assert_eq!(parse_csv(b"a,\n"), Ok(doc(&["a", ""], &[])));
    assert_eq!(parse_csv(b"a,"), Ok(doc(&["a", ""], &[])));
    assert_eq!(parse_csv(b",a\n1,\n"), Ok(doc(&["", "a"], &[&["1", ""]])));
    assert_eq!(parse_csv(b"\"\"\n"), Ok(doc(&[""], &[])));
    assert_eq!(parse_csv(b"\"\",\"\"\n\"\",\n"), Ok(doc(&["", ""], &[&["", ""]])));
}

#[test]
fn empty_line_is_a_record_of_one_empty_field() {
    assert_eq!(parse_csv(b"\n"), Ok(doc(&[""], &[])));
    assert_eq!(parse_csv(b"a\n\n"), Ok(doc(&["a"], &[&[""]])));
    assert_eq!(parse_csv(b"\r\n\r\n"), Ok(doc(&[""], &[&[""]])));
}

#[test]
fn bytes_outside_ascii_pass_through() {
    let body = [0xffu8, 0x2c, 0x00, 0x0a, 0xc3, 0xa9, 0x2c, 0x22, 0x80, 0x22, 0x0a];
    let expected = ParsedDocument {
        columns: vec![vec![0xff], vec![0x00]],
        rows: vec![vec![vec![0xc3, 0xa9], vec![0x80]]],
    };
    assert_eq!(parse_csv(&body), Ok(expected));
}

#[test]
fn spaces_belong_to_the_field() {
    assert_eq!(parse_csv(b" a , b \n 1,2 \n"), Ok(doc(&[" a ", " b "], &[&[" 1", "2 "]])));
}

#[test]
fn empty_body_has_no_columns() {
    assert_eq!(parse_csv(b""), Err(ParseError::Empty));
}

#[test]
fn quote_left_open() {
    assert_eq!(parse_csv(b"a,b\n\"1,2\n"), Err(ParseError::UnterminatedQuote { at: 4 }));
    assert_eq!(parse_csv(b"\""), Err(ParseError::UnterminatedQuote { at: 0 }));
    assert_eq!(parse_csv(b"a,\"b\"\""), Err(ParseError::UnterminatedQuote { at: 2 }));
    assert_eq!(parse_csv(b"\"a\"\"\n"), Err(ParseError::UnterminatedQuote { at: 0 }));
}

#[test]
fn quote_inside_a_plain_field() {
    assert_eq!(parse_csv(b"a,b\n1,2\"3\n"), Err(ParseError::UnexpectedQuote { at: 7 }));
    assert_eq!(parse_csv(b"a\""), Err(ParseError::UnexpectedQuote { at: 1 }));
    assert_eq!(parse_csv(b"a \"b\"\n"), Err(ParseError::UnexpectedQuote { at: 2 }));
}

#[test]
fn text_after_a_closing_quote() {
    assert_eq!(parse_csv(b"\"a\"b\n"), Err(ParseError::UnexpectedByteAfterQuote { at: 3 }));
    assert_eq!(parse_csv(b"\"a\" ,b\n"), Err(ParseError::UnexpectedByteAfterQuote { at: 3 }));
    assert_eq!(parse_csv(b"x\n\"a\"\rb"), Err(ParseError::UnexpectedByteAfterQuote { at: 5 }));
    assert_eq!(parse_csv(b"\"a\"\r"), Err(ParseError::UnexpectedByteAfterQuote { at: 3 }));
}

#[test]
fn carriage_return_without_line_feed() {
    assert_eq!(parse_csv(b"a\rb\n"), Err(ParseError::BareCarriageReturn { at: 1 }));
    assert_eq!(parse_csv(b"a\r"), Err(ParseError::BareCarriageReturn { at: 1 }));
    assert_eq!(parse_csv(b"a,b\n1,2\r\r\n"), Err(ParseError::BareCarriageReturn { at: 7 }));
}

#[test]
fn row_narrower_or_wider_than_the_header() {
    assert_eq!(
        parse_csv(b"a,b\n1\n"),
        Err(ParseError::RaggedRow { row: 1, expected: 2, found: 1 })
    );
    assert_eq!(
        parse_csv(b"a,b\n1,2,3\n"),
        Err(ParseError::RaggedRow { row: 1, expected: 2, found: 3 })
    );
    assert_eq!(
        parse_csv(b"a,b\n1,2\n\n"),
        Err(ParseError::RaggedRow { row: 2, expected: 2, found: 1 })
    );
    assert_eq!(
        parse_csv(b"a\n1\n2\n3,4\n5,6,7\n"),
        Err(ParseError::RaggedRow { row: 3, expected: 1, found: 2 })
    );
}

#[test]
fn fault_in_the_text_comes_before_fault_in_the_shape() {
    assert_eq!(parse_csv(b"a,b\n1\n\"x"), Err(ParseError::UnterminatedQuote { at: 6 }));
}

#[test]
fn first_fault_in_the_text_is_the_one_named() {
    assert_eq!(parse_csv(b"a\"b\n\"c"), Err(ParseError::UnexpectedQuote { at: 1 }));
}

fn canonical(columns: &[&str], rows: &[&[&str]]) -> Vec<u8> {
    let mut out = Vec::new();
    let mut records: Vec<&[&str]> = vec![columns];
    records.extend(rows.iter().copied());
    for record in records {
        for (i, field) in record.iter().enumerate() {
            if i > 0 {
                out.push(b',');
            }
            out.push(b'"');
            for b in field.bytes() {
                if b == b'"' {
                    out.push(b'"');
                }
                out.push(b);
            }
            out.push(b'"');
        }
        out.push(b'\n');
    }
    out
}

#[test]
fn canonical_text_parses_back() {
    let columns = ["plain", "with,comma", "with \"quote\"", ""];
    let rows: [&[&str]; 3] =
        [&["1", "a\nb", "\"", "\r\n"], &["", "", "", ""], &["\"\"", ",", "x\ry", " "]];
    let body = canonical(&columns, &rows);
    assert_eq!(parse_csv(&body), Ok(doc(&columns, &rows)));
}

#[test]
fn parsed_rows_are_as_wide_as_the_header() {
    for body in [&b"a,b\n1,2\n3,4\n"[..], b"x\n", b"\"q\",w,e\n,,\n"] {
        let parsed = parse_csv(body).unwrap();
        assert!(parsed.columns.len() >= 1);
        for r in &parsed.rows {
            assert_eq!(r.len(), parsed.columns.len());
        }
    }
}
