use rtext::{FileType, HighLightingOptions, Row, SearchDirection, Type};

const N: Type = Type::Normal;
const D: Type = Type::Number;
const M: Type = Type::Match;

fn rust_options() -> HighLightingOptions {
    FileType::from("main.rs").highlighting_options()
}

#[test]
fn length_counts_ascii_graphemes() {
    assert_eq!(Row::from("hello").len(), 5);
    assert_eq!(Row::from("").len(), 0);
    assert!(Row::from("").is_empty());
}

#[test]
fn length_counts_multibyte_graphemes() {
    assert_eq!(Row::from("héllo").len(), 5);
    assert_eq!(Row::from("日本語").len(), 3);
}

#[test]
fn length_counts_combining_sequences_once() {
    assert_eq!(Row::from("e\u{301}a").len(), 2);
    assert_eq!(Row::from("a\u{310}e\u{301}o\u{308}\u{332}").len(), 3);
    assert_eq!(Row::from("🇷🇺🇸🇹").len(), 2);
}

#[test]
fn insert_in_the_middle() {
    let mut row = Row::from("ac");
    row.insert(1, 'b');
    assert_eq!(row.as_str(), "abc");
    assert_eq!(row.len(), 3);
}

#[test]
fn insert_at_or_past_end_appends() {
    let mut row = Row::from("ab");
    row.insert(2, 'c');
    row.insert(10, 'd');
    assert_eq!(row.as_str(), "abcd");
    assert_eq!(row.len(), 4);
}

#[test]
fn insert_goes_before_a_whole_cluster() {
    let mut row = Row::from("e\u{301}x");
    row.insert(1, 'y');
    assert_eq!(row.as_str(), "e\u{301}yx");
    assert_eq!(row.len(), 3);
}

#[test]
fn insert_of_combining_mark_keeps_true_length() {
    let mut row = Row::from("e");
    row.insert(1, '\u{301}');
    assert_eq!(row.as_str(), "e\u{301}");
    assert_eq!(row.len(), 1);
}

#[test]
fn delete_removes_one_cluster() {
    let mut row = Row::from("ae\u{301}b");
    row.delete(1);
    assert_eq!(row.as_str(), "ab");
    assert_eq!(row.len(), 2);
}

#[test]
fn delete_past_end_does_nothing() {
    let mut row = Row::from("ab");
    row.delete(2);
    row.delete(7);
    assert_eq!(row.as_str(), "ab");
    assert_eq!(row.len(), 2);
}

#[test]
fn insert_then_delete_restores_row() {
    for at in 0..=6 {
        let mut row = Row::from("añb日c!");
        row.insert(at, 'z');
        assert_eq!(row.len(), 7);
        row.delete(at);
        assert_eq!(row.as_str(), "añb日c!");
        assert_eq!(row.len(), 6);
    }
}

#[test]
fn append_concatenates_and_recounts() {
    let mut row = Row::from("ab");
    row.append(&Row::from("cd"));
    assert_eq!(row.as_str(), "abcd");
    assert_eq!(row.len(), 4);
    let mut seam = Row::from("e");
    seam.append(&Row::from("\u{301}"));
    assert_eq!(seam.len(), 1);
}

#[test]
fn split_keeps_the_cluster_at_the_index() {
    let mut row = Row::from("hello");
    let rest = row.split(1);
    assert_eq!(row.as_str(), "he");
    assert_eq!(row.len(), 2);
    assert_eq!(rest.as_str(), "llo");
    assert_eq!(rest.len(), 3);
}

#[test]
fn split_past_end_moves_nothing() {
    let mut row = Row::from("abc");
    let rest = row.split(9);
    assert_eq!(row.as_str(), "abc");
    assert_eq!(rest.as_str(), "");
    assert!(rest.is_empty());
}

#[test]
fn split_then_append_reconstructs() {
    let text = "aé日\u{301}bc";
    let len = Row::from(text).len();
    for at in 0..len {
        let mut row = Row::from(text);
        let rest = row.split(at);
        row.append(&rest);
        assert_eq!(row.as_str(), text);
        assert_eq!(row.len(), len);
    }
}

#[test]
fn find_forward_from_anchor() {
    let row = Row::from("abcabc");
    assert_eq!(row.find("bc", 0, SearchDirection::Forward), Some(1));
    assert_eq!(row.find("bc", 2, SearchDirection::Forward), Some(4));
    assert_eq!(row.find("bc", 5, SearchDirection::Forward), None);
}

#[test]
fn find_backward_up_to_anchor() {
    let row = Row::from("abcabc");
    assert_eq!(row.find("bc", 6, SearchDirection::Backward), Some(4));
    assert_eq!(row.find("bc", 5, SearchDirection::Backward), Some(1));
    assert_eq!(row.find("bc", 2, SearchDirection::Backward), None);
}

#[test]
fn find_rejects_empty_query_and_far_anchor() {
    let row = Row::from("abc");
    assert_eq!(row.find("", 0, SearchDirection::Forward), None);
    assert_eq!(row.find("a", 4, SearchDirection::Forward), None);
    assert_eq!(row.find("c", 3, SearchDirection::Backward), Some(2));
}

#[test]
fn find_reports_grapheme_index() {
    let row = Row::from("e\u{301}日bc");
    assert_eq!(row.find("bc", 0, SearchDirection::Forward), Some(2));
    assert_eq!(row.find("日", 4, SearchDirection::Backward), Some(1));
}

#[test]
fn find_inside_a_cluster_is_no_match() {
    let row = Row::from("e\u{301}");
    assert_eq!(row.find("\u{301}", 0, SearchDirection::Forward), None);
}

#[test]
fn find_single_match_agrees_in_both_directions() {
    let row = Row::from("hello world");
    let forward = row.find("wor", 0, SearchDirection::Forward);
    let backward = row.find("wor", row.len(), SearchDirection::Backward);
    assert_eq!(forward, Some(6));
    assert_eq!(forward, backward);
}

#[test]
fn highlight_number_runs() {
    let mut row = Row::from("x 12 a1 .5");
    row.highlight(rust_options(), None);
    assert_eq!(row.highlighting(), &vec![N, N, D, D, N, N, N, N, N, D]);
}

#[test]
fn highlight_dotted_digits_follow_the_algorithm() {
    let mut row = Row::from("12.34.56");
    row.highlight(rust_options(), None);
    assert_eq!(row.highlighting(), &vec![Type::Number; 8]);
}

#[test]
fn highlight_without_numbers_is_plain() {
    let mut row = Row::from("12.34");
    row.highlight(HighLightingOptions::default(), None);
    assert_eq!(row.highlighting(), &vec![Type::Normal; 5]);
}

#[test]
fn highlight_marks_search_matches() {
    let mut row = Row::from("abcabc1");
    row.highlight(rust_options(), Some("bc"));
    assert_eq!(row.highlighting(), &vec![N, M, M, N, M, M, N]);
}

#[test]
fn highlight_match_wins_over_number() {
    let mut row = Row::from(" 123");
    row.highlight(rust_options(), Some("2"));
    assert_eq!(
        row.highlighting(),
        &vec![Type::Normal, Type::Number, Type::Match, Type::Normal]
    );
}

#[test]
fn render_expands_tabs_and_resets_colour() {
    let row = Row::from("a\tb");
    assert_eq!(row.render(0, 3), "a    b\u{1b}[39m");
}

#[test]
fn render_clamps_to_row_length() {
    let row = Row::from("abc");
    assert_eq!(row.render(2, 100), "c\u{1b}[39m");
    assert_eq!(row.render(5, 9), "\u{1b}[39m");
}

#[test]
fn render_colours_tag_changes() {
    let mut row = Row::from("1a");
    row.highlight(rust_options(), None);
    assert_eq!(
        row.render(0, 2),
        "\u{1b}[38;2;220;163;163m1\u{1b}[38;2;255;255;255ma\u{1b}[39m"
    );
}

#[test]
fn render_shows_first_char_of_cluster() {
    let row = Row::from("e\u{301}x");
    assert_eq!(row.render(0, 2), "ex\u{1b}[39m");
}

#[test]
fn as_bytes_is_utf8() {
    assert_eq!(Row::from("é").as_bytes(), &[0xc3, 0xa9]);
}

#[test]
fn update_len_keeps_count() {
    let mut row = Row::from("ab");
    row.update_len();
    assert_eq!(row.len(), 2);
}

#[test]
fn highlight_gives_one_tag_per_character() {
    let mut row = Row::from("e\u{301} 1é");
    row.highlight(rust_options(), Some("1"));
    assert_eq!(row.highlighting().len(), "e\u{301} 1é".chars().count());
}
