use niho::dictionary::Dictionary;

fn collect_lines(text: &str) -> Vec<(usize, String)> {
    let mut dictionary = Dictionary::new(text);
    let mut lines = Vec::new();
    while let Some(line) = dictionary.next() {
        lines.push(line);
    }
    lines
}

#[test]
fn lines_are_numbered_from_one() {
    assert_eq!(
        collect_lines("a\n\nb"),
        vec![
            (1, "a".to_string()),
            (2, "".to_string()),
            (3, "b".to_string()),
        ]
    );
}

#[test]
fn a_trailing_line_feed_ends_the_last_line() {
    assert_eq!(collect_lines("a\n"), vec![(1, "a".to_string())]);
}

#[test]
fn empty_text_has_no_lines() {
    assert_eq!(collect_lines(""), Vec::<(usize, String)>::new());
}
