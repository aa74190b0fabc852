use hector::lines::split_lines;

#[test]
fn lines_end_at_line_feeds() {
    assert_eq!(split_lines("hello\nworld\n"), vec!["hello", "world"]);
}

#[test]
fn the_last_line_needs_no_line_feed() {
    assert_eq!(split_lines("hello\nworld"), vec!["hello", "world"]);
    assert_eq!(split_lines("hello"), vec!["hello"]);
}

#[test]
fn no_text_has_no_lines() {
    assert_eq!(split_lines(""), Vec::<String>::new());
}

#[test]
fn empty_lines_are_kept() {
    assert_eq!(split_lines("\n"), vec![""]);
    assert_eq!(split_lines("\n\n"), vec!["", ""]);
    assert_eq!(split_lines("a\n\nb\n"), vec!["a", "", "b"]);
    assert_eq!(split_lines("\na"), vec!["", "a"]);
}

#[test]
fn a_carriage_return_before_a_line_feed_is_dropped() {
    assert_eq!(split_lines("a\r\nb\r\n"), vec!["a", "b"]);
    assert_eq!(split_lines("\r\n"), vec![""]);
    assert_eq!(split_lines("a\r\r\nb"), vec!["a\r", "b"]);
}

#[test]
fn a_carriage_return_elsewhere_stays() {
    assert_eq!(split_lines("a\rb\n"), vec!["a\rb"]);
    assert_eq!(split_lines("a\r"), vec!["a\r"]);
    assert_eq!(split_lines("a\n\r"), vec!["a", "\r"]);
}

#[test]
fn lines_agree_with_the_standard_library() {
    let texts = [
        "",
        "\n",
        "\r",
        "\r\n",
        "a",
        "a\n",
        "a\r\n",
        "a\r",
        "a\n\rb\r\n\r\n",
        "one\ntwo\r\nthree",
        "\n\n\n",
        "x\r\r\n\ry",
        "e\u{301}\n\u{1F468}\u{200D}\u{1F469}\n",
    ];
    for text in texts {
        let expected: Vec<String> = text.lines().map(String::from).collect();
        assert_eq!(split_lines(text), expected);
    }
}
