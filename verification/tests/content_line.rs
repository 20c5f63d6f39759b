use elikoga_ical_rs::content_line::{build_name, build_qsafe, build_safe, build_value};
use elikoga_ical_rs::{ContentLine, Error, GrammarRule, Param};

fn grammar(rule: GrammarRule, at: usize) -> Error {
    Error::GrammarViolation { rule, at }
}

#[test]
fn parses_name_and_value() {
    let line = ContentLine::from_str("SUMMARY:Team meeting").unwrap();
    assert_eq!(line.name, "SUMMARY");
    assert!(line.params.is_empty());
    assert_eq!(line.value, "Team meeting");
}

#[test]
fn parses_parameter_with_two_values() {
    let line = ContentLine::from_str("X;P=a,b:v").unwrap();
    assert_eq!(
        line,
        ContentLine::new(
            "X".to_string(),
            vec![Param::new("P".to_string(), vec!["a".to_string(), "b".to_string()])],
            "v".to_string(),
        )
    );
    assert_eq!(line.params[0].name(), "P");
    assert_eq!(line.params[0].values(), &vec!["a".to_string(), "b".to_string()]);
}

#[test]
fn parses_quoted_and_unquoted_values_of_several_parameters() {
    let line = ContentLine::from_str("ATTENDEE;CN=\"Doe, Jane\",x;ROLE=CHAIR:mailto:jane@example.com")
        .unwrap();
    assert_eq!(line.name, "ATTENDEE");
    assert_eq!(
        line.params,
        vec![
            Param::new("CN".to_string(), vec!["Doe, Jane".to_string(), "x".to_string()]),
            Param::new("ROLE".to_string(), vec!["CHAIR".to_string()]),
        ]
    );
    assert_eq!(line.value, "mailto:jane@example.com");
}

#[test]
fn parses_empty_name_empty_value_and_empty_parameter_value() {
    let line = ContentLine::from_str(":").unwrap();
    assert_eq!(line, ContentLine::new(String::new(), vec![], String::new()));
    let line = ContentLine::from_str("A;P=:").unwrap();
    assert_eq!(line.params, vec![Param::new("P".to_string(), vec![String::new()])]);
}

#[test]
fn keeps_characters_beyond_ascii() {
    let line = ContentLine::from_str("SUMMARY;LANGUAGE=\"dé;\":Grüße aus Köln 🎉").unwrap();
    assert_eq!(line.params, vec![Param::new("LANGUAGE".to_string(), vec!["dé;".to_string()])]);
    assert_eq!(line.value, "Grüße aus Köln 🎉");
    assert_eq!(line.to_string(), "SUMMARY;LANGUAGE=\"dé;\":Grüße aus Köln 🎉");
}

#[test]
fn rejects_line_without_name_end() {
    assert_eq!(
        ContentLine::from_str("SUMMARY"),
        Err(grammar(GrammarRule::MissingNameEnd, 0))
    );
    assert_eq!(ContentLine::from_str(""), Err(grammar(GrammarRule::MissingNameEnd, 0)));
}

#[test]
fn rejects_invalid_name_at_first_offending_byte() {
    assert_eq!(
        ContentLine::from_str("SUM MARY:x"),
        Err(grammar(GrammarRule::InvalidName, 3))
    );
    assert_eq!(
        ContentLine::from_str(" SUMMARY:x"),
        Err(grammar(GrammarRule::InvalidName, 0))
    );
    assert_eq!(
        ContentLine::from_str("A;P_Q=1:x"),
        Err(grammar(GrammarRule::InvalidName, 3))
    );
}

#[test]
fn rejects_parameter_without_equals() {
    assert_eq!(
        ContentLine::from_str("A;P:x"),
        Err(grammar(GrammarRule::MissingEquals, 2))
    );
}

#[test]
fn rejects_unclosed_quote() {
    assert_eq!(
        ContentLine::from_str("A;P=\"abc:x"),
        Err(grammar(GrammarRule::MissingClosingQuote, 5))
    );
}

#[test]
fn rejects_control_byte_in_quoted_value() {
    assert_eq!(
        ContentLine::from_str("A;P=\"a\u{1}b\":x"),
        Err(grammar(GrammarRule::InvalidQuotedSafe, 6))
    );
}

#[test]
fn rejects_unended_parameter_value() {
    assert_eq!(
        ContentLine::from_str("A;P=abc"),
        Err(grammar(GrammarRule::MissingValueEnd, 4))
    );
    assert_eq!(
        ContentLine::from_str("A;P="),
        Err(grammar(GrammarRule::MissingValueEnd, 4))
    );
}

#[test]
fn rejects_quote_inside_unquoted_value() {
    assert_eq!(
        ContentLine::from_str("A;P=ab\"c:x"),
        Err(grammar(GrammarRule::InvalidSafe, 6))
    );
}

#[test]
fn rejects_missing_colon_after_quoted_value() {
    assert_eq!(
        ContentLine::from_str("A;P=\"abc\""),
        Err(grammar(GrammarRule::MissingColon, 9))
    );
    assert_eq!(
        ContentLine::from_str("A;P=\"abc\"x:y"),
        Err(grammar(GrammarRule::MissingColon, 9))
    );
}

#[test]
fn rejects_control_byte_in_value_but_takes_tab() {
    assert_eq!(
        ContentLine::from_str("A:x\u{7f}y"),
        Err(grammar(GrammarRule::InvalidValue, 3))
    );
    assert_eq!(
        ContentLine::from_str("A:x\ny"),
        Err(grammar(GrammarRule::InvalidValue, 3))
    );
    assert_eq!(ContentLine::from_str("A:x\ty").unwrap().value, "x\ty");
}

#[test]
fn formats_with_commas_between_values() {
    let line = ContentLine::new(
        "X".to_string(),
        vec![Param::new("P".to_string(), vec!["a".to_string(), "b".to_string()])],
        "v".to_string(),
    );
    assert_eq!(line.to_string(), "X;P=a,b:v");
}

#[test]
fn quotes_exactly_the_values_that_hold_a_delimiter() {
    let line = ContentLine::new(
        "X".to_string(),
        vec![
            Param::new(
                "P".to_string(),
                vec!["a;b".to_string(), "c".to_string(), "d:e".to_string(), "f,g".to_string()],
            ),
            Param::new("Q".to_string(), vec!["h".to_string()]),
        ],
        "v;w".to_string(),
    );
    assert_eq!(line.to_string(), "X;P=\"a;b\",c,\"d:e\",\"f,g\";Q=h:v;w");
}

#[test]
fn value_with_semicolon_is_quoted_again() {
    let line = ContentLine::from_str("X;P=\"a;b\":v").unwrap();
    assert_eq!(line.params, vec![Param::new("P".to_string(), vec!["a;b".to_string()])]);
    assert_eq!(line.to_string(), "X;P=\"a;b\":v");
}

#[test]
fn quoted_value_without_delimiter_loses_its_quotes() {
    let line = ContentLine::from_str("X;P=\"ab\":v").unwrap();
    assert_eq!(line.to_string(), "X;P=ab:v");
    assert_eq!(ContentLine::from_str(&line.to_string()).unwrap(), line);
}

#[test]
fn parse_of_format_gives_the_line_back() {
    let line = ContentLine::new(
        "DTSTART".to_string(),
        vec![
            Param::new("TZID".to_string(), vec!["Europe/Berlin".to_string()]),
            Param::new("X-A".to_string(), vec!["1,2".to_string(), "".to_string(), "é:".to_string()]),
        ],
        "20240101T100000".to_string(),
    );
    assert_eq!(ContentLine::from_str(&line.to_string()), Ok(line));
}

#[test]
fn build_name_takes_letters_digits_and_hyphen() {
    assert_eq!(build_name(b"X-Abc-09"), Ok("X-Abc-09".to_string()));
    assert_eq!(build_name(b""), Ok(String::new()));
    assert_eq!(build_name(b"AB_C"), Err(grammar(GrammarRule::InvalidName, 2)));
    assert_eq!(build_name("é".as_bytes()), Err(grammar(GrammarRule::InvalidName, 0)));
}

#[test]
fn build_safe_refuses_delimiters_and_quote() {
    assert_eq!(build_safe(b"a b-c"), Ok("a b-c".to_string()));
    assert_eq!(build_safe(b"a b\tc"), Err(grammar(GrammarRule::InvalidSafe, 3)));
    assert_eq!(build_safe(b"a;b"), Err(grammar(GrammarRule::InvalidSafe, 1)));
    assert_eq!(build_safe(b"ab:"), Err(grammar(GrammarRule::InvalidSafe, 2)));
    assert_eq!(build_safe(b",ab"), Err(grammar(GrammarRule::InvalidSafe, 0)));
    assert_eq!(build_safe(b"a\"b"), Err(grammar(GrammarRule::InvalidSafe, 1)));
    assert_eq!(build_safe(b"a\rb"), Err(grammar(GrammarRule::InvalidSafe, 1)));
}

#[test]
fn build_qsafe_refuses_quote_and_control_bytes() {
    assert_eq!(build_qsafe(b"a;b:c,d\te"), Ok("a;b:c,d\te".to_string()));
    assert_eq!(build_qsafe(b"a\"b"), Err(grammar(GrammarRule::InvalidQuotedSafe, 1)));
    assert_eq!(build_qsafe(b"\x00"), Err(grammar(GrammarRule::InvalidQuotedSafe, 0)));
}

#[test]
fn build_value_refuses_control_bytes_only() {
    assert_eq!(build_value(b"a\"b;c:d,e"), Ok("a\"b;c:d,e".to_string()));
    assert_eq!(build_value("Grüße".as_bytes()), Ok("Grüße".to_string()));
    assert_eq!(build_value(b"ab\x1f"), Err(grammar(GrammarRule::InvalidValue, 2)));
}

#[test]
fn build_value_reports_bytes_that_are_not_utf8() {
    assert_eq!(build_value(&[0x41, 0xff]), Err(Error::EncodingFailure { at: 0 }));
    assert_eq!(build_value(&[0xc3]), Err(Error::EncodingFailure { at: 0 }));
}

#[test]
fn tab_is_taken_in_quotes_and_in_the_value_only() {
    assert_eq!(
        ContentLine::from_str("A;P=a\tb:x"),
        Err(grammar(GrammarRule::InvalidSafe, 5))
    );
    let line = ContentLine::from_str("A;P=\"a\tb\":x\ty").unwrap();
    assert_eq!(line.params, vec![Param::new("P".to_string(), vec!["a\tb".to_string()])]);
    assert_eq!(line.value, "x\ty");
}

#[test]
fn value_with_tab_and_no_delimiter_is_not_read_back() {
    let line = ContentLine::new(
        "A".to_string(),
        vec![Param::new("P".to_string(), vec!["a\tb".to_string()])],
        "x".to_string(),
    );
    assert_eq!(line.to_string(), "A;P=a\tb:x");
    assert_eq!(
        ContentLine::from_str(&line.to_string()),
        Err(grammar(GrammarRule::InvalidSafe, 5))
    );
}

#[test]
fn parameter_without_values_is_read_back_with_one_empty_value() {
    let line = ContentLine::new(
        "A".to_string(),
        vec![Param::new("P".to_string(), vec![])],
        "x".to_string(),
    );
    assert_eq!(line.to_string(), "A;P=:x");
    let read = ContentLine::from_str("A;P=:x").unwrap();
    assert_eq!(read.params, vec![Param::new("P".to_string(), vec![String::new()])]);
}

#[test]
fn offsets_count_bytes() {
    // each of the two characters before the control byte takes two bytes
    assert_eq!(
        ContentLine::from_str("A:äö\u{1}"),
        Err(grammar(GrammarRule::InvalidValue, 6))
    );
}
