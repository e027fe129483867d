use frap::aprs_is::{
    is_server_comment, login_line, sendable_line, LineAssembler, LineError, MAX_LINE_BYTES,
};

#[test]
fn assembles_aprs_is_lines_across_chunks() {
    let mut lines = LineAssembler::new();
    assert_eq!(lines.feed(b"# logre"), (7, None));
    let (consumed, outcome) = lines.feed(b"sp verified\r\nN0CALL>APRS:>hi\r\n");
    assert_eq!(consumed, 13);
    assert_eq!(outcome, Some(Ok("# logresp verified".to_owned())));
    let (consumed, outcome) = lines.feed(b"N0CALL>APRS:>hi\r\n");
    assert_eq!(consumed, 17);
    assert_eq!(outcome, Some(Ok("N0CALL>APRS:>hi".to_owned())));
    assert_eq!(lines.feed(b""), (0, Some(Err(LineError::Closed))));
    assert_eq!(lines.feed(b"partial"), (7, None));
    assert_eq!(lines.feed(b""), (0, Some(Err(LineError::ClosedMidLine))));
    assert_eq!(lines.feed(b"\xff\n"), (2, Some(Err(LineError::NotUtf8))));
}

#[test]
fn drains_over_long_aprs_is_lines() {
    let mut lines = LineAssembler::new();
    let long = vec![b'x'; MAX_LINE_BYTES];
    assert_eq!(lines.feed(&long), (MAX_LINE_BYTES, None));
    assert_eq!(lines.feed(b"yy"), (2, None));
    assert_eq!(lines.feed(b"z\nnext\n"), (2, Some(Err(LineError::TooLong))));
    assert_eq!(lines.feed(b"next\n"), (5, Some(Ok("next".to_owned()))));
}

#[test]
fn formats_aprs_is_login_and_recognizes_comments() {
    assert_eq!(
        login_line("N0CALL", "-1", "frap", "0.1", Some("r/60.18/24.94/100")),
        "user N0CALL pass -1 vers frap 0.1 filter r/60.18/24.94/100"
    );
    assert_eq!(
        login_line("N0CALL", "13023", "app", "1", None),
        "user N0CALL pass 13023 vers app 1"
    );
    assert!(is_server_comment("# aprsc 2.1"));
    assert!(!is_server_comment("N0CALL>APRS:>x"));
    assert!(!is_server_comment(""));
    assert!(sendable_line("user N0CALL"));
    assert!(!sendable_line("bad\r\nline"));
}

#[test]
fn accepts_a_line_at_the_limit_with_its_terminator() {
    let mut lines = LineAssembler::new();
    let mut line = vec![b'x'; MAX_LINE_BYTES];
    line.extend_from_slice(b"\r\n");
    let (consumed, outcome) = lines.feed(&line);
    assert_eq!(consumed, MAX_LINE_BYTES + 2);
    assert_eq!(outcome, Some(Ok("x".repeat(MAX_LINE_BYTES))));

    let mut longer = vec![b'x'; MAX_LINE_BYTES + 1];
    longer.push(b'\n');
    assert_eq!(lines.feed(&longer), (MAX_LINE_BYTES + 2, Some(Err(LineError::TooLong))));
}

#[test]
fn keeps_carriage_returns_inside_a_line_and_drops_them_at_its_end() {
    let mut lines = LineAssembler::new();
    assert_eq!(lines.feed(b"a\r"), (2, None));
    assert_eq!(lines.feed(b"\rb\r\r\r\n"), (6, Some(Ok("a\r\rb".to_owned()))));
    assert_eq!(lines.feed(b"\r\r"), (2, None));
    assert_eq!(lines.feed(b""), (0, Some(Err(LineError::ClosedMidLine))));
    let mut many = vec![b'\r'; MAX_LINE_BYTES * 2];
    many.extend_from_slice(b"ok\n");
    assert_eq!(lines.feed(&many), (MAX_LINE_BYTES * 2 + 3, Some(Err(LineError::TooLong))));
    let mut crs_only = vec![b'\r'; MAX_LINE_BYTES * 2];
    crs_only.push(b'\n');
    assert_eq!(lines.feed(&crs_only), (MAX_LINE_BYTES * 2 + 1, Some(Ok(String::new()))));
}
