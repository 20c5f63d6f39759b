use elikoga_ical_rs::{Error, Unfold};

fn items(input: &[u8]) -> Vec<Result<String, Error>> {
    let mut unfold = Unfold::new(input.to_vec());
    let mut items = Vec::new();
    while let Some(item) = unfold.next() {
        items.push(item);
    }
    assert_eq!(unfold.next(), None);
    items
}

fn ok(s: &str) -> Result<String, Error> {
    Ok(s.to_string())
}

#[test]
fn empty_stream_has_no_lines() {
    assert_eq!(items(b""), vec![]);
}

#[test]
fn splits_at_crlf_and_flushes_the_last_line() {
    assert_eq!(items(b"A:1\r\nB:2\r\n"), vec![ok("A:1"), ok("B:2")]);
    assert_eq!(items(b"A:1\r\n"), vec![ok("A:1")]);
}

#[test]
fn joins_continuation_lines_without_their_first_byte() {
    assert_eq!(
        items(b"DESCRIPTION:one\r\n two\r\n\tthree\r\n  four\r\nB:2\r\n"),
        vec![ok("DESCRIPTION:onetwothree four"), ok("B:2")]
    );
}

#[test]
fn continuation_of_a_single_space_adds_nothing() {
    assert_eq!(items(b"A:1\r\n \r\nB:2\r\n"), vec![ok("A:1"), ok("B:2")]);
}

#[test]
fn first_line_keeps_its_leading_space() {
    assert_eq!(items(b" A:1\r\nB:2\r\n"), vec![ok(" A:1"), ok("B:2")]);
}

#[test]
fn empty_line_is_rejected() {
    assert_eq!(
        items(b"A:1\r\n\r\nB:2\r\n"),
        vec![ok("A:1"), Err(Error::EmptyLine { at: 5 })]
    );
    assert_eq!(items(b"\r\n"), vec![Err(Error::EmptyLine { at: 0 })]);
}

#[test]
fn empty_first_line_that_is_continued_is_a_line() {
    assert_eq!(items(b"\r\n A:1\r\n"), vec![ok("A:1")]);
}

#[test]
fn line_ending_in_lf_alone_is_rejected() {
    assert_eq!(items(b"A:1\n"), vec![Err(Error::MalformedTermination { at: 0 })]);
    assert_eq!(
        items(b"A:1\r\nB:2\nC:3\r\n"),
        vec![ok("A:1"), Err(Error::MalformedTermination { at: 5 })]
    );
}

#[test]
fn line_without_end_is_rejected() {
    assert_eq!(
        items(b"A:1\r\nB:2"),
        vec![ok("A:1"), Err(Error::MalformedTermination { at: 5 })]
    );
}

#[test]
fn cr_without_lf_is_rejected() {
    assert_eq!(items(b"A:1\r"), vec![Err(Error::MalformedTermination { at: 0 })]);
    assert_eq!(items(b"A:1\rB:2\r\n"), vec![Err(Error::MalformedTermination { at: 0 })]);
}

#[test]
fn malformed_continuation_fails_the_line_it_continues() {
    assert_eq!(
        items(b"A:1\r\n two\nB:2\r\n"),
        vec![Err(Error::MalformedTermination { at: 5 })]
    );
}

#[test]
fn bytes_that_are_not_utf8_are_rejected() {
    assert_eq!(
        items(b"A:1\r\nB:\xff\r\nC:3\r\n"),
        vec![ok("A:1"), Err(Error::EncodingFailure { at: 5 })]
    );
}

#[test]
fn character_split_over_two_physical_lines_is_joined() {
    // the two bytes of one character, with a fold between them
    assert_eq!(items(b"A:\xc3\r\n \xa4\r\n"), vec![ok("A:ä")]);
}

#[test]
fn nothing_comes_after_a_failure() {
    let mut unfold = Unfold::new(b"\r\nA:1\r\n".to_vec());
    assert_eq!(unfold.next(), Some(Err(Error::EmptyLine { at: 0 })));
    assert_eq!(unfold.next(), None);
    assert_eq!(unfold.next(), None);
}

#[test]
fn it_works_on_a_calendar() {
    let text = b"BEGIN:VCALENDAR\r\nVERSION:2.0\r\nBEGIN:VEVENT\r\nSUMMARY:A very long\r\n  summary\r\nEND:VEVENT\r\nEND:VCALENDAR\r\n";
    assert_eq!(
        items(text),
        vec![
            ok("BEGIN:VCALENDAR"),
            ok("VERSION:2.0"),
            ok("BEGIN:VEVENT"),
            ok("SUMMARY:A very long summary"),
            ok("END:VEVENT"),
            ok("END:VCALENDAR"),
        ]
    );
}
