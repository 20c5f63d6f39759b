use elikoga_ical_rs::{fold, fold_and_join, fold_with_max_length, Unfold};

#[test]
fn short_line_is_not_folded() {
    assert_eq!(fold("SUMMARY:short"), "SUMMARY:short");
    assert_eq!(fold(""), "");
}

#[test]
fn line_of_75_bytes_is_not_folded_and_76_is() {
    let exact = "a".repeat(75);
    assert_eq!(fold(&exact), exact);
    let longer = "a".repeat(76);
    assert_eq!(fold(&longer), format!("{}\r\n a", "a".repeat(75)));
}

#[test]
fn continuation_lines_count_their_leading_space() {
    let line = "b".repeat(75 + 74 + 3);
    let expected = format!("{}\r\n {}\r\n {}", "b".repeat(75), "b".repeat(74), "b".repeat(3));
    assert_eq!(fold(&line), expected);
}

#[test]
fn folds_to_a_given_width() {
    assert_eq!(fold_with_max_length("abcdefgh", 3), "abc\r\n de\r\n fg\r\n h");
    assert_eq!(fold_with_max_length("abc", 3), "abc");
}

#[test]
fn width_counts_bytes_and_no_character_is_split() {
    // each of these characters takes two bytes
    assert_eq!(fold_with_max_length("ääää", 4), "ää\r\n ä\r\n ä");
    // four bytes each
    assert_eq!(fold_with_max_length("🎉🎉", 5), "🎉\r\n 🎉");
}

#[test]
fn width_too_small_for_a_character_breaks_before_each() {
    assert_eq!(fold_with_max_length("ab", 0), "\r\n a\r\n b");
    assert_eq!(fold_with_max_length("ä", 1), "\r\n ä");
}

#[test]
fn fold_and_join_ends_each_line_with_crlf() {
    let lines = vec!["A:1".to_string(), "B:2".to_string()];
    assert_eq!(fold_and_join(&lines), "A:1\r\nB:2\r\n");
    assert_eq!(fold_and_join(&["A:1".to_string()]), "A:1\r\n");
}

#[test]
fn fold_and_join_of_nothing_is_one_line_end() {
    assert_eq!(fold_and_join(&[]), "\r\n");
}

#[test]
fn fold_and_join_folds_long_lines() {
    let long = format!("DESCRIPTION:{}", "x".repeat(100));
    let lines = vec![long.clone(), "B:2".to_string()];
    let expected = format!("{}\r\n {}\r\nB:2\r\n", &long[..75], &long[75..]);
    assert_eq!(fold_and_join(&lines), expected);
}

fn unfold_all(text: &str) -> Vec<String> {
    let mut unfold = Unfold::new(text.as_bytes().to_vec());
    let mut lines = Vec::new();
    while let Some(line) = unfold.next() {
        lines.push(line.unwrap());
    }
    lines
}

#[test]
fn unfold_of_fold_and_join_gives_the_lines_back() {
    let lines = vec![
        "BEGIN:VCALENDAR".to_string(),
        format!("DESCRIPTION:{}", "Grüße 🎉 ".repeat(40)),
        "X: leading and trailing spaces ".to_string(),
        format!("Y:{}", " ".repeat(200)),
        "END:VCALENDAR".to_string(),
    ];
    assert_eq!(unfold_all(&fold_and_join(&lines)), lines);
}

#[test]
fn unfold_fold_unfold_is_without_issue() {
    let text = format!(
        "BEGIN:VCALENDAR\r\nSUMMARY:{}\r\n {}\r\n\tand a tab\r\nEND:VCALENDAR\r\n",
        "a".repeat(70),
        "b".repeat(120)
    );
    let unfold_1 = unfold_all(&text);
    assert_eq!(unfold_1.len(), 3);
    let unfold_2 = unfold_all(&fold_and_join(&unfold_1));
    assert_eq!(unfold_1, unfold_2);
}
