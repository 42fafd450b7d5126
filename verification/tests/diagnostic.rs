use polylang::diagnostic::{is_showable, locate, parse_error_to_error, LexicalError, ParseError};

#[test]
fn test_error_unrecognized_token() {
    let code = "
            collection test-cities {}
        ";
    // the parser stops at the `-` (bytes 28..29) and expected a `{`
    let error = ParseError::UnrecognizedToken {
        token: (28, "-".to_string(), 29),
        expected: vec!["\"{\"".to_string()],
    };
    let e = parse_error_to_error(code, &error);
    assert_eq!(
        e.message,
        r#"Error found at line 2, column 27: Unrecognized token "-". Expected one of: "{"
collection test-cities {}
               ^"#,
    );
}

#[test]
fn test_error_invalid_token() {
    let code = "
            collection ą {}
        ";
    let error = ParseError::InvalidToken { location: 24 };
    let e = parse_error_to_error(code, &error);
    assert_eq!(
        e.message,
        r#"Error found at line 2, column 23: Invalid token
collection ą {}
           ^"#,
    );
}

#[test]
fn test_error_unexpected_eof() {
    let code = "
            function x() {
        ";
    let error = ParseError::UnrecognizedEOF { location: 27, expected: vec!["\"}\"".to_string()] };
    let e = parse_error_to_error(code, &error);
    assert_eq!(
        e.message,
        r#"Error found at line 2, column 26: Unexpected end of file
function x() {
              ^"#,
    );
}

#[test]
fn error_on_first_line_without_indent() {
    let e = parse_error_to_error("abc def", &ParseError::ExtraToken { token: (4, "def".to_string(), 7) });
    assert_eq!(e.message, "Error found at line 1, column 4: Extra token \"def\"\nabc def\n    ^^^");
}

#[test]
fn expected_list_is_joined_with_commas() {
    let error = ParseError::UnrecognizedToken {
        token: (0, "x".to_string(), 1),
        expected: vec!["a".to_string(), "b".to_string(), "c".to_string()],
    };
    let e = parse_error_to_error("x", &error);
    assert_eq!(e.message, "Error found at line 1, column 0: Unrecognized token \"x\". Expected one of: a, b, c\nx\n^");
}

#[test]
fn empty_expected_list() {
    let error = ParseError::UnrecognizedToken { token: (0, "x".to_string(), 1), expected: vec![] };
    let e = parse_error_to_error("x", &error);
    assert_eq!(e.message, "Error found at line 1, column 0: Unrecognized token \"x\". Expected one of: \nx\n^");
}

#[test]
fn lexical_errors() {
    let input = "a\n\tb 12x";
    let cases = [
        (LexicalError::NumberParseError { start: 5, end: 8 }, "Failed to parse number"),
        (LexicalError::InvalidToken { start: 5, end: 8 }, "Invalid token"),
        (LexicalError::UnterminatedComment { start: 5, end: 8 }, "Unterminated comment"),
        (LexicalError::UnterminatedString { start: 5, end: 8 }, "Unterminated string"),
        (LexicalError::UserError { start: 5, end: 8, message: "custom".to_string() }, "custom"),
    ];
    for (lexical, text) in cases {
        let e = parse_error_to_error(input, &ParseError::User { error: lexical });
        assert_eq!(e.message, format!("Error found at line 2, column 3: {}\nb 12x\n  ^^^", text));
    }
}

#[test]
fn wide_indentation_counts_bytes() {
    // U+3000 is whitespace three bytes wide; U+00A0 two bytes wide
    let input = "\u{3000}\u{a0}x";
    let text = locate(input, 5, 6, "here");
    assert_eq!(text, "Error found at line 1, column 5: here\nx\n^");
}

#[test]
fn span_over_lines_shows_every_line() {
    let input = "one\n  two\nthree\nfour";
    let text = locate(input, 6, 13, "span");
    assert_eq!(text, "Error found at line 2, column 2: span\ntwo\nthree\n^^^^^^^");
}

#[test]
fn error_at_end_of_text() {
    let input = "ab\n";
    let text = locate(input, 3, 3, "eof");
    assert_eq!(text, "Error found at line 2, column 0: eof\n\n^");
}

#[test]
fn showable_spans() {
    let input = "\n  ą {}";
    assert!(is_showable(input, 3, 5));
    assert!(is_showable(input, 5, 5));
    // inside the indentation
    assert!(!is_showable(input, 2, 3));
    // inside the two bytes of `ą`
    assert!(!is_showable(input, 4, 5));
    // reversed, or past the end
    assert!(!is_showable(input, 5, 3));
    assert!(!is_showable(input, 5, 99));
}

#[test]
fn error_spans() {
    assert_eq!(ParseError::InvalidToken { location: 3 }.span(), (3, 3));
    assert_eq!(ParseError::ExtraToken { token: (1, "x".to_string(), 4) }.span(), (1, 4));
    assert_eq!(ParseError::User { error: LexicalError::UnterminatedString { start: 2, end: 9 } }.span(), (2, 9));
}
