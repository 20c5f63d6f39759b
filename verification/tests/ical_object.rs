use elikoga_ical_rs::{
    ContentLine, Error, GrammarRule, ICalObject, LineCursor, Param, StructuralKind,
};

fn structural(kind: StructuralKind) -> Error {
    Error::StructuralViolation { kind }
}

fn object(object_type: &str, properties: Vec<ContentLine>, sub_objects: Vec<ICalObject>) -> ICalObject {
    ICalObject { object_type: object_type.to_string(), properties, sub_objects }
}

fn line(name: &str, value: &str) -> ContentLine {
    ContentLine::new(name.to_string(), vec![], value.to_string())
}

#[test]
fn nested_objects() {
    let parsed = ICalObject::from_str("BEGIN:A\r\nBEGIN:B\r\nEND:B\r\nEND:A\r\n").unwrap();
    assert_eq!(parsed, object("A", vec![], vec![object("B", vec![], vec![])]));
    assert_eq!(parsed.object_type, "A");
    assert!(parsed.properties.is_empty());
    assert_eq!(parsed.sub_objects.len(), 1);
    assert_eq!(parsed.sub_objects[0].object_type, "B");
    assert!(parsed.sub_objects[0].properties.is_empty());
    assert!(parsed.sub_objects[0].sub_objects.is_empty());
}

#[test]
fn mismatched_end() {
    assert_eq!(
        ICalObject::from_str("BEGIN:A\r\nEND:B\r\n"),
        Err(structural(StructuralKind::MismatchedEnd))
    );
}

#[test]
fn end_type_is_compared_byte_for_byte() {
    assert_eq!(
        ICalObject::from_str("BEGIN:A\r\nEND:a\r\n"),
        Err(structural(StructuralKind::MismatchedEnd))
    );
}

#[test]
fn begin_and_end_are_read_in_any_case() {
    let parsed = ICalObject::from_str("begin:A\r\nBegin:B\r\nX:1\r\neNd:B\r\nend:A\r\n").unwrap();
    assert_eq!(parsed, object("A", vec![], vec![object("B", vec![line("X", "1")], vec![])]));
}

#[test]
fn properties_and_objects_keep_their_order() {
    let text = "BEGIN:VCALENDAR\r\nVERSION:2.0\r\nBEGIN:VEVENT\r\nSUMMARY;LANGUAGE=en:One\r\nEND:VEVENT\r\nPRODID:x\r\nBEGIN:VTODO\r\nEND:VTODO\r\nEND:VCALENDAR\r\n";
    let parsed = ICalObject::from_str(text).unwrap();
    let summary = ContentLine::new(
        "SUMMARY".to_string(),
        vec![Param::new("LANGUAGE".to_string(), vec!["en".to_string()])],
        "One".to_string(),
    );
    assert_eq!(
        parsed,
        object(
            "VCALENDAR",
            vec![line("VERSION", "2.0"), line("PRODID", "x")],
            vec![object("VEVENT", vec![summary], vec![]), object("VTODO", vec![], vec![])],
        )
    );
}

#[test]
fn stream_without_lines_expects_begin() {
    assert_eq!(ICalObject::from_str(""), Err(structural(StructuralKind::ExpectedBegin)));
}

#[test]
fn first_line_of_another_name_expects_begin() {
    assert_eq!(
        ICalObject::from_str("VERSION:2.0\r\nBEGIN:A\r\nEND:A\r\n"),
        Err(structural(StructuralKind::ExpectedBegin))
    );
}

#[test]
fn failed_first_line_expects_begin() {
    assert_eq!(ICalObject::from_str("BEGIN\r\n"), Err(structural(StructuralKind::ExpectedBegin)));
    assert_eq!(ICalObject::from_str("\r\n"), Err(structural(StructuralKind::ExpectedBegin)));
}

#[test]
fn stream_that_ends_inside_an_object_is_rejected() {
    assert_eq!(
        ICalObject::from_str("BEGIN:A\r\nX:1\r\n"),
        Err(structural(StructuralKind::UnexpectedEnd))
    );
    assert_eq!(
        ICalObject::from_str("BEGIN:A\r\nBEGIN:B\r\nEND:B\r\n"),
        Err(structural(StructuralKind::UnexpectedEnd))
    );
}

#[test]
fn failure_of_a_line_inside_an_object_comes_out_as_it_is() {
    assert_eq!(
        ICalObject::from_str("BEGIN:A\r\nX 1\r\nEND:A\r\n"),
        Err(Error::GrammarViolation { rule: GrammarRule::MissingNameEnd, at: 0 })
    );
    assert_eq!(
        ICalObject::from_str("BEGIN:A\r\n\r\nEND:A\r\n"),
        Err(Error::EmptyLine { at: 9 })
    );
    assert_eq!(
        ICalObject::from_str("BEGIN:A\r\nX:1\nEND:A\r\n"),
        Err(Error::MalformedTermination { at: 9 })
    );
    assert_eq!(
        ICalObject::from_bytes(b"BEGIN:A\r\nX:\xff\r\nEND:A\r\n".to_vec()),
        Err(Error::EncodingFailure { at: 9 })
    );
}

#[test]
fn what_follows_the_end_line_is_not_read() {
    assert_eq!(
        ICalObject::from_str("BEGIN:A\r\nEND:A\r\nthis is no content line\r\n"),
        Ok(object("A", vec![], vec![]))
    );
}

#[test]
fn cursor_keeps_what_follows_the_first_object() {
    let mut lines = LineCursor::new();
    for text in ["BEGIN:A", "END:A", "BEGIN:B", "X:1", "END:B"] {
        lines.push(ContentLine::from_str(text));
    }
    assert_eq!(ICalObject::from_peekable(&mut lines), Ok(object("A", vec![], vec![])));
    assert_eq!(lines.peek(), Some(&Ok(line("BEGIN", "B"))));
    assert_eq!(
        ICalObject::from_peekable(&mut lines),
        Ok(object("B", vec![line("X", "1")], vec![]))
    );
    assert_eq!(lines.peek(), None);
    assert_eq!(lines.next(), None);
    assert_eq!(
        ICalObject::from_peekable(&mut lines),
        Err(structural(StructuralKind::ExpectedBegin))
    );
}

#[test]
fn from_iterator_reads_items() {
    let items = vec![
        Ok(line("BEGIN", "A")),
        Ok(line("X", "1")),
        Err(Error::EmptyLine { at: 7 }),
        Ok(line("END", "A")),
    ];
    assert_eq!(ICalObject::from_iterator(items), Err(Error::EmptyLine { at: 7 }));
    let items = vec![Ok(line("BEGIN", "A")), Ok(line("X", "1")), Ok(line("END", "A"))];
    assert_eq!(ICalObject::from_iterator(items), Ok(object("A", vec![line("X", "1")], vec![])));
}

#[test]
fn writes_begin_lines_objects_end() {
    let tree = object(
        "VCALENDAR",
        vec![line("VERSION", "2.0")],
        vec![object("VEVENT", vec![line("SUMMARY", "One")], vec![]), object("VTODO", vec![], vec![])],
    );
    assert_eq!(
        tree.to_string(),
        "BEGIN:VCALENDAR\r\nVERSION:2.0\r\nBEGIN:VEVENT\r\nSUMMARY:One\r\nEND:VEVENT\r\nBEGIN:VTODO\r\nEND:VTODO\r\nEND:VCALENDAR\r\n"
    );
}

#[test]
fn writes_long_lines_folded() {
    let tree = object("A", vec![line("DESCRIPTION", &"x".repeat(100))], vec![]);
    let expected = format!(
        "BEGIN:A\r\nDESCRIPTION:{}\r\n {}\r\nEND:A\r\n",
        "x".repeat(63),
        "x".repeat(37)
    );
    assert_eq!(tree.to_string(), expected);
}

#[test]
fn parse_of_format_gives_the_tree_back() {
    let event = object(
        "VEVENT",
        vec![
            ContentLine::new(
                "ATTENDEE".to_string(),
                vec![
                    Param::new("CN".to_string(), vec!["Doe, Jane".to_string(), "x".to_string()]),
                    Param::new("ROLE".to_string(), vec!["CHAIR".to_string()]),
                ],
                "mailto:jane@example.com".to_string(),
            ),
            line("DESCRIPTION", &"Grüße aus Köln 🎉 ".repeat(30)),
        ],
        vec![object("VALARM", vec![line("ACTION", "DISPLAY")], vec![])],
    );
    let tree = object("VCALENDAR", vec![line("VERSION", "2.0")], vec![event, object("VTODO", vec![], vec![])]);
    let text = tree.to_string();
    assert_eq!(ICalObject::from_str(&text), Ok(tree));
}

#[test]
fn it_works_on_a_calendar_twice() {
    let text = "BEGIN:VCALENDAR\r\nPRODID:-//Example//EN\r\nBEGIN:VEVENT\r\nDTSTART;TZID=\"Europe/Berlin\":20240101T100000\r\nSUMMARY:A summary that is long enough to be folded when it is written out a\r\n gain\r\nEND:VEVENT\r\nEND:VCALENDAR\r\n";
    let ical = ICalObject::from_str(text).unwrap();
    let ical2 = ICalObject::from_str(&ical.to_string()).unwrap();
    assert_eq!(ical, ical2);
}

#[test]
fn first_line_that_starts_with_a_space_is_no_begin_line() {
    assert_eq!(
        ContentLine::from_str(" BEGIN:A"),
        Err(Error::GrammarViolation { rule: GrammarRule::InvalidName, at: 0 })
    );
    assert_eq!(
        ICalObject::from_str(" BEGIN:A\r\nEND:A\r\n"),
        Err(structural(StructuralKind::ExpectedBegin))
    );
}

#[test]
fn objects_nest_to_any_depth() {
    let depth = 200;
    let mut text = String::new();
    for i in 0..depth {
        text.push_str(&format!("BEGIN:L{}\r\n", i));
    }
    for i in (0..depth).rev() {
        text.push_str(&format!("END:L{}\r\n", i));
    }
    let mut object = &ICalObject::from_str(&text).unwrap();
    for i in 0..depth {
        assert_eq!(object.object_type, format!("L{}", i));
        if i + 1 < depth {
            assert_eq!(object.sub_objects.len(), 1);
            object = &object.sub_objects[0];
        } else {
            assert!(object.sub_objects.is_empty());
        }
    }
}
