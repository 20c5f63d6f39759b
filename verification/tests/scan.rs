use elikoga_ical_rs::charset::Charset;
use elikoga_ical_rs::scan::{seek1, seek2, seek3};

#[test]
fn seek_finds_the_first_match_at_or_after_the_start() {
    let bytes = b"abc;def:ghi,jkl;";
    assert_eq!(seek1(bytes, 0, b';'), 3);
    assert_eq!(seek1(bytes, 3, b';'), 3);
    assert_eq!(seek1(bytes, 4, b';'), 15);
    assert_eq!(seek2(bytes, 4, b':', b','), 7);
    assert_eq!(seek2(bytes, 8, b':', b','), 11);
    assert_eq!(seek3(bytes, 0, b',', b':', b';'), 3);
    assert_eq!(seek3(bytes, 4, b',', b'x', b'y'), 11);
}

#[test]
fn seek_gives_the_length_when_there_is_no_match() {
    let bytes = b"abc;def";
    assert_eq!(seek1(bytes, 4, b';'), 7);
    assert_eq!(seek2(bytes, 0, b'x', b'y'), 7);
    assert_eq!(seek3(bytes, 0, b'x', b'y', b'z'), 7);
    assert_eq!(seek1(bytes, 7, b'a'), 7);
    assert_eq!(seek1(bytes, 100, b'a'), 7);
    assert_eq!(seek3(b"", 0, b'a', b'b', b'c'), 0);
}

#[test]
fn name_set_holds_letters_digits_and_hyphen() {
    for b in 0..=255u8 {
        let expected = b.is_ascii_alphanumeric() || b == b'-';
        assert_eq!(Charset::Name.contains(b), expected, "byte {}", b);
    }
}

#[test]
fn value_sets_differ_in_tab_quote_and_delimiters() {
    for b in 0..=255u8 {
        let control = b.is_ascii_control();
        assert_eq!(Charset::Value.contains(b), !control || b == b'\t', "byte {}", b);
        assert_eq!(
            Charset::QuotedSafe.contains(b),
            (!control || b == b'\t') && b != b'"',
            "byte {}",
            b
        );
        assert_eq!(
            Charset::Safe.contains(b),
            !control && b != b'"' && b != b';' && b != b':' && b != b',',
            "byte {}",
            b
        );
    }
}

#[test]
fn find_rejected_gives_the_first_byte_outside_the_set() {
    assert_eq!(Charset::Name.find_rejected(b"ABC-1"), None);
    assert_eq!(Charset::Name.find_rejected(b"AB C D"), Some(2));
    assert_eq!(Charset::Value.find_rejected(b""), None);
    assert_eq!(Charset::Safe.find_rejected("é;".as_bytes()), Some(2));
}
