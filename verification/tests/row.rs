use hector::{Highlighter, Row, SearchDirection, Style};
use unicode_segmentation::UnicodeSegmentation;

const DIGIT_ON: &str = "\x1b[38;2;220;163;163m";
const DIGIT_OFF: &str = "\x1b[39m";

struct EveryCluster(Style);

impl Highlighter for EveryCluster {
    fn annotate(&self, text: &str, _word: Option<&str>) -> Vec<Style> {
        vec![self.0; text.graphemes(true).count()]
    }

    fn name(&self) -> String {
        String::from("every")
    }
}

struct OneTooMany;

impl Highlighter for OneTooMany {
    fn annotate(&self, text: &str, _word: Option<&str>) -> Vec<Style> {
        vec![Style::Plain; text.graphemes(true).count() + 1]
    }

    fn name(&self) -> String {
        String::from("broken")
    }
}

fn text(row: &Row) -> String {
    String::from_utf8(row.as_bytes().to_vec()).unwrap()
}

#[test]
fn from_counts_clusters() {
    let row = Row::from("abc");
    assert_eq!(row.len(), 3);
    assert!(!row.is_empty());
    assert_eq!(text(&row), "abc");
    assert_eq!(row.as_str(), "abc");
}

#[test]
fn default_row_is_empty() {
    let row = Row::default();
    assert_eq!(row.len(), 0);
    assert!(row.is_empty());
    assert_eq!(text(&row), "");
}

#[test]
fn from_counts_a_combining_sequence_once() {
    let row = Row::from("e\u{301}a");
    assert_eq!(row.len(), 2);
    assert_eq!(row.as_bytes(), "e\u{301}a".as_bytes());
}

#[test]
fn insert_goes_before_the_cluster() {
    let mut row = Row::from("abc");
    row.insert(1, 'x');
    assert_eq!(text(&row), "axbc");
    assert_eq!(row.len(), 4);
}

#[test]
fn insert_at_zero_goes_first() {
    let mut row = Row::from("abc");
    row.insert(0, 'x');
    assert_eq!(text(&row), "xabc");
}

#[test]
fn insert_at_length_appends() {
    let mut row = Row::from("abc");
    row.insert(3, 'x');
    assert_eq!(text(&row), "abcx");
    assert_eq!(row.len(), 4);
}

#[test]
fn insert_beyond_length_appends() {
    let mut row = Row::from("abc");
    row.insert(100, 'x');
    assert_eq!(text(&row), "abcx");
    assert_eq!(row.len(), 4);
}

#[test]
fn insert_into_empty_row() {
    let mut row = Row::default();
    row.insert(0, 'q');
    assert_eq!(text(&row), "q");
    assert_eq!(row.len(), 1);
}

#[test]
fn insert_does_not_cut_a_cluster() {
    let mut row = Row::from("e\u{301}o\u{308}");
    row.insert(1, 'x');
    assert_eq!(text(&row), "e\u{301}xo\u{308}");
    assert_eq!(row.len(), 3);
}

#[test]
fn delete_takes_the_cluster() {
    let mut row = Row::from("abc");
    row.delete(1);
    assert_eq!(text(&row), "ac");
    assert_eq!(row.len(), 2);
}

#[test]
fn delete_beyond_the_end_does_nothing() {
    let mut row = Row::from("abc");
    row.delete(3);
    assert_eq!(text(&row), "abc");
    assert_eq!(row.len(), 3);
    row.delete(usize::MAX);
    assert_eq!(text(&row), "abc");
    assert_eq!(row.len(), 3);
}

#[test]
fn delete_takes_a_whole_emoji_sequence() {
    let family = "\u{1F468}\u{200D}\u{1F469}\u{200D}\u{1F467}";
    let mut row = Row::from(format!("a{}b", family).as_str());
    assert_eq!(row.len(), 3);
    row.delete(1);
    assert_eq!(text(&row), "ab");
    assert_eq!(row.len(), 2);
}

#[test]
fn delete_takes_base_and_combining_mark_together() {
    let mut row = Row::from("xe\u{301}y");
    assert_eq!(row.len(), 3);
    row.delete(1);
    assert_eq!(text(&row), "xy");
    assert_eq!(row.len(), 2);
}

#[test]
fn delete_leaves_neighbouring_clusters_whole() {
    let mut row = Row::from("e\u{301}zo\u{308}");
    row.delete(1);
    assert_eq!(text(&row), "e\u{301}o\u{308}");
    assert_eq!(row.len(), 2);
}

#[test]
fn insert_then_delete_restores_the_row() {
    let mut row = Row::from("he\u{301}llo");
    for at in 0..=row.len() {
        row.insert(at, 'Z');
        assert_eq!(row.len(), 6);
        row.delete(at);
        assert_eq!(text(&row), "he\u{301}llo");
        assert_eq!(row.len(), 5);
    }
}

#[test]
fn inserted_combining_mark_joins_the_cluster_before_it() {
    let mut row = Row::from("e");
    row.insert(1, '\u{301}');
    assert_eq!(text(&row), "e\u{301}");
    assert_eq!(row.len(), 1);
    row.delete(1);
    assert_eq!(text(&row), "e\u{301}");
    assert_eq!(row.len(), 1);
}

#[test]
fn append_joins_the_texts() {
    let mut row = Row::from("abc");
    let other = Row::from("de\u{301}");
    row.append(&other);
    assert_eq!(text(&row), "abcde\u{301}");
    assert_eq!(row.len(), 5);
    assert_eq!(text(&other), "de\u{301}");
    assert_eq!(other.len(), 2);
}

#[test]
fn split_cuts_at_the_cluster() {
    let mut row = Row::from("abcdef");
    let rest = row.split(2);
    assert_eq!(text(&row), "ab");
    assert_eq!(row.len(), 2);
    assert_eq!(text(&rest), "cdef");
    assert_eq!(rest.len(), 4);
}

#[test]
fn split_at_zero_moves_everything() {
    let mut row = Row::from("abc");
    let rest = row.split(0);
    assert_eq!(text(&row), "");
    assert!(row.is_empty());
    assert_eq!(text(&rest), "abc");
}

#[test]
fn split_at_or_beyond_the_end_moves_nothing() {
    let mut row = Row::from("abc");
    let rest = row.split(3);
    assert_eq!(text(&row), "abc");
    assert_eq!(text(&rest), "");
    assert_eq!(rest.len(), 0);
    let rest = row.split(17);
    assert_eq!(text(&row), "abc");
    assert_eq!(text(&rest), "");
}

#[test]
fn split_keeps_clusters_whole() {
    let flag = "\u{1F1F7}\u{1F1FA}";
    let mut row = Row::from(format!("a{}b", flag).as_str());
    assert_eq!(row.len(), 3);
    let rest = row.split(2);
    assert_eq!(text(&row), format!("a{}", flag));
    assert_eq!(text(&rest), "b");
}

#[test]
fn split_then_append_restores_the_text() {
    let whole = "he\u{301}llo \u{1F468}\u{200D}\u{1F469}\u{200D}\u{1F467} w\tor1d";
    let length = Row::from(whole).len();
    for at in 0..=length {
        let mut row = Row::from(whole);
        let rest = row.split(at);
        assert_eq!(row.len() + rest.len(), length);
        row.append(&rest);
        assert_eq!(row.as_bytes(), whole.as_bytes());
        assert_eq!(row.len(), length);
    }
}

#[test]
fn length_follows_every_edit() {
    let mut row = Row::from("ab");
    row.insert(1, '\u{301}');
    assert_eq!(row.len(), Row::from(text(&row).as_str()).len());
    row.insert(0, 'x');
    assert_eq!(row.len(), Row::from(text(&row).as_str()).len());
    row.delete(1);
    assert_eq!(row.len(), Row::from(text(&row).as_str()).len());
    let rest = row.split(1);
    assert_eq!(row.len(), Row::from(text(&row).as_str()).len());
    assert_eq!(rest.len(), Row::from(text(&rest).as_str()).len());
    row.append(&rest);
    assert_eq!(row.len(), Row::from(text(&row).as_str()).len());
}

#[test]
fn render_shows_plain_text_as_it_is() {
    let row = Row::from("hello");
    assert_eq!(row.render(0, 5), "hello");
    assert_eq!(row.render(1, 3), "el");
}

#[test]
fn render_turns_a_tab_into_one_space() {
    let row = Row::from("a\tb");
    assert_eq!(row.render(0, 3), "a b");
}

#[test]
fn render_brackets_each_digit() {
    let row = Row::from("a1\tb");
    assert_eq!(row.render(0, 4), format!("a{}1{} b", DIGIT_ON, DIGIT_OFF));
    let row = Row::from("42");
    assert_eq!(
        row.render(0, 2),
        format!("{}4{}{}2{}", DIGIT_ON, DIGIT_OFF, DIGIT_ON, DIGIT_OFF)
    );
}

#[test]
fn render_brackets_zero_and_nine() {
    let row = Row::from("09");
    assert_eq!(
        row.render(0, 2),
        format!("{}0{}{}9{}", DIGIT_ON, DIGIT_OFF, DIGIT_ON, DIGIT_OFF)
    );
    let row = Row::from("/:");
    assert_eq!(row.render(0, 2), "/:");
}

#[test]
fn render_keeps_a_cluster_whole() {
    let row = Row::from("e\u{301}x");
    assert_eq!(row.render(0, 2), "e\u{301}x");
    assert_eq!(row.render(0, 1), "e\u{301}");
}

#[test]
fn render_clamps_the_range() {
    let row = Row::from("abc");
    assert_eq!(row.render(0, 100), "abc");
    assert_eq!(row.render(1, 100), "bc");
    assert_eq!(row.render(5, 100), "");
    assert_eq!(row.render(2, 1), "");
    assert_eq!(row.render(3, 3), "");
}

#[test]
fn render_counts_clusters_not_bytes() {
    let row = Row::from("\u{e9}\u{e9}z");
    assert_eq!(row.render(0, 2), "\u{e9}\u{e9}");
    assert_eq!(row.render(2, 9), "z");
}

#[test]
fn find_forward_gives_the_leftmost() {
    let row = Row::from("abcabc");
    assert_eq!(row.find("bc", 0, SearchDirection::Forward), Some(1));
    assert_eq!(row.find("bc", 1, SearchDirection::Forward), Some(1));
    assert_eq!(row.find("bc", 2, SearchDirection::Forward), Some(4));
    assert_eq!(row.find("bc", 5, SearchDirection::Forward), None);
}

#[test]
fn find_backward_gives_the_rightmost_before() {
    let row = Row::from("abcabc");
    assert_eq!(row.find("bc", 6, SearchDirection::Backward), Some(4));
    assert_eq!(row.find("bc", 5, SearchDirection::Backward), Some(1));
    assert_eq!(row.find("bc", 3, SearchDirection::Backward), Some(1));
    assert_eq!(row.find("bc", 2, SearchDirection::Backward), None);
    assert_eq!(row.find("bc", 0, SearchDirection::Backward), None);
}

#[test]
fn find_of_an_absent_query_gives_nothing() {
    let row = Row::from("abcabc");
    assert_eq!(row.find("x", 0, SearchDirection::Forward), None);
    assert_eq!(row.find("x", 6, SearchDirection::Backward), None);
    assert_eq!(row.find("abcabca", 0, SearchDirection::Forward), None);
}

#[test]
fn find_beyond_the_end_gives_nothing() {
    let row = Row::from("abc");
    assert_eq!(row.find("a", 4, SearchDirection::Forward), None);
    assert_eq!(row.find("a", 4, SearchDirection::Backward), None);
    assert_eq!(row.find("c", 3, SearchDirection::Forward), None);
    assert_eq!(row.find("c", 3, SearchDirection::Backward), Some(2));
}

#[test]
fn find_counts_in_clusters() {
    let row = Row::from("e\u{301}e\u{301}xy");
    assert_eq!(row.find("x", 0, SearchDirection::Forward), Some(2));
    assert_eq!(row.find("y", 1, SearchDirection::Forward), Some(3));
    assert_eq!(row.find("e\u{301}", 1, SearchDirection::Forward), Some(1));
    assert_eq!(row.find("x", 4, SearchDirection::Backward), Some(2));
}

#[test]
fn find_inside_a_cluster_gives_nothing() {
    let row = Row::from("ae\u{301}");
    assert_eq!(row.find("\u{301}", 0, SearchDirection::Forward), None);
    let flags = Row::from("\u{1F1E6}\u{1F1E7}\u{1F1E7}");
    assert_eq!(flags.len(), 2);
    assert_eq!(flags.find("\u{1F1E7}", 0, SearchDirection::Forward), None);
    assert_eq!(flags.find("\u{1F1E7}", 1, SearchDirection::Forward), Some(1));
}

#[test]
fn find_of_the_empty_query() {
    let row = Row::from("abc");
    assert_eq!(row.find("", 0, SearchDirection::Forward), Some(0));
    assert_eq!(row.find("", 2, SearchDirection::Forward), Some(2));
    assert_eq!(row.find("", 3, SearchDirection::Forward), None);
    assert_eq!(row.find("", 3, SearchDirection::Backward), None);
    let empty = Row::default();
    assert_eq!(empty.find("", 0, SearchDirection::Forward), None);
}

#[test]
fn a_new_row_has_no_annotations() {
    let row = Row::from("abc");
    assert!(row.highlighting().is_empty());
}

#[test]
fn annotations_of_the_right_length_are_kept() {
    let mut row = Row::from("e\u{301}1");
    row.set_highlighting(vec![Style::Plain, Style::Number]);
    assert_eq!(row.highlighting(), &vec![Style::Plain, Style::Number]);
    assert_eq!(text(&row), "e\u{301}1");
}

#[test]
fn annotations_of_another_length_are_dropped() {
    let mut row = Row::from("e\u{301}1");
    row.set_highlighting(vec![Style::Plain, Style::Plain, Style::Number]);
    assert!(row.highlighting().is_empty());
    row.set_highlighting(vec![Style::Plain, Style::Number]);
    row.set_highlighting(vec![Style::Plain]);
    assert!(row.highlighting().is_empty());
}

#[test]
fn highlight_takes_one_style_per_cluster() {
    let mut row = Row::from("ab\u{301}c");
    row.highlight(&EveryCluster(Style::Comment), None);
    assert_eq!(row.highlighting(), &vec![Style::Comment; 3]);
    row.highlight(&OneTooMany, Some("b"));
    assert!(row.highlighting().is_empty());
    assert_eq!(text(&row), "ab\u{301}c");
}

#[test]
fn an_edit_drops_the_annotations() {
    let mut row = Row::from("abc");
    row.highlight(&EveryCluster(Style::Keyword), None);
    row.insert(1, 'x');
    assert!(row.highlighting().is_empty());
    row.highlight(&EveryCluster(Style::Keyword), None);
    row.delete(0);
    assert!(row.highlighting().is_empty());
    row.highlight(&EveryCluster(Style::Keyword), None);
    let rest = row.split(1);
    assert!(row.highlighting().is_empty());
    assert!(rest.highlighting().is_empty());
    row.highlight(&EveryCluster(Style::Keyword), None);
    row.append(&rest);
    assert!(row.highlighting().is_empty());
}

#[test]
fn a_delete_that_does_nothing_keeps_the_annotations() {
    let mut row = Row::from("abc");
    row.highlight(&EveryCluster(Style::Text), None);
    row.delete(3);
    assert_eq!(row.highlighting(), &vec![Style::Text; 3]);
}

#[test]
fn from_agrees_with_the_segmentation_of_the_text() {
    let texts = [
        "",
        "abc",
        "e\u{301}a",
        "a\r\nb",
        "\u{1F1F7}\u{1F1FA}\u{1F1F8}\u{1F1F9}",
        "\u{1F468}\u{200D}\u{1F469}\u{200D}\u{1F467}!",
        "\u{600}1 1",
    ];
    for text in texts {
        assert_eq!(Row::from(text).len(), text.graphemes(true).count());
    }
}

#[test]
fn split_gives_the_clusters_before_and_after() {
    let text = "a\u{1F1F7}\u{1F1FA}e\u{301}\tz";
    let clusters: Vec<&str> = text.graphemes(true).collect();
    for at in 0..=clusters.len() {
        let mut row = Row::from(text);
        let rest = row.split(at);
        assert_eq!(row.as_str(), clusters[..at].concat());
        assert_eq!(rest.as_str(), clusters[at..].concat());
    }
}
