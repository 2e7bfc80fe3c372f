use text_tools::line_stats::{count_lines_and_chars, format_counts};
use text_tools::text::{chars_of, contains, ends_with, split_lines, string_of};

#[test]
fn test_count_lines_and_chars() {
    let content = "Hello, world!\nThis is a test.\n";
    let (line_count, char_count) = count_lines_and_chars(content);
    assert_eq!(line_count, 2);
    assert_eq!(char_count, 28);
}

#[test]
fn counts_of_the_empty_text() {
    assert_eq!(count_lines_and_chars(""), (0, 0));
}

#[test]
fn a_last_line_without_line_feed_counts() {
    assert_eq!(count_lines_and_chars("Hello\nWorld"), (2, 10));
    assert_eq!(count_lines_and_chars("Hello\nWorld\n"), (2, 10));
    assert_eq!(count_lines_and_chars("Hello"), (1, 5));
}

#[test]
fn empty_lines_count_as_lines() {
    assert_eq!(count_lines_and_chars("\n"), (1, 0));
    assert_eq!(count_lines_and_chars("\n\n\n"), (3, 0));
    assert_eq!(count_lines_and_chars("a\n\nb"), (3, 2));
}

#[test]
fn carriage_returns_count_as_characters() {
    assert_eq!(count_lines_and_chars("a\r\nb\r\n"), (2, 4));
    assert_eq!(count_lines_and_chars("\r"), (1, 1));
}

#[test]
fn characters_are_counted_not_bytes() {
    assert_eq!(count_lines_and_chars("\u{4e0b}\u{8f7d}\n\u{e9}"), (2, 3));
}

#[test]
fn counts_agree_with_the_standard_library() {
    let texts = ["", "\n", "a", "a\n", "a\nb", "a\r\nb\r", "\r\n\r\n", "x\n\ny\n\n", "\n\r\n\rz"];
    for text in texts {
        let expected = (text.lines().count(), text.chars().filter(|&c| c != '\n').count());
        assert_eq!(count_lines_and_chars(text), expected, "{:?}", text);
    }
}

#[test]
fn counts_are_stated_on_two_lines() {
    let text = format_counts(2, 27);
    assert_eq!(text, "Line count: 2\nCharacter count (excluding newlines): 27\n");
    assert!(text.contains("Line count: 2"));
    assert!(text.contains("Character count (excluding newlines): 27"));
}

#[test]
fn counts_of_zero_and_of_the_largest_number() {
    assert_eq!(format_counts(0, 0), "Line count: 0\nCharacter count (excluding newlines): 0\n");
    assert_eq!(
        format_counts(10, usize::MAX),
        format!("Line count: 10\nCharacter count (excluding newlines): {}\n", usize::MAX)
    );
}

#[test]
fn lines_lose_their_line_ending() {
    assert_eq!(split_lines("a\nb\r\nc"), vec!["a".to_string(), "b".to_string(), "c".to_string()]);
    assert_eq!(split_lines("a\n"), vec!["a".to_string()]);
    assert_eq!(split_lines("\n\n"), vec!["".to_string(), "".to_string()]);
    assert_eq!(split_lines(""), Vec::<String>::new());
}

#[test]
fn only_a_carriage_return_before_a_line_feed_is_dropped() {
    assert_eq!(split_lines("a\r"), vec!["a\r".to_string()]);
    assert_eq!(split_lines("a\rb\n"), vec!["a\rb".to_string()]);
    assert_eq!(split_lines("a\r\r\n"), vec!["a\r".to_string()]);
    assert_eq!(split_lines("\r\n"), vec!["".to_string()]);
}

#[test]
fn lines_agree_with_the_standard_library() {
    let texts = ["", "\n", "a", "a\n", "a\nb", "a\r\nb\r", "\r\n\r\n", "x\n\ny\n\n", "\n\r\n\rz"];
    for text in texts {
        let expected: Vec<String> = text.lines().map(|line| line.to_string()).collect();
        assert_eq!(split_lines(text), expected, "{:?}", text);
    }
}

#[test]
fn a_text_and_its_characters_convert_both_ways() {
    assert_eq!(chars_of("a\u{e9}\u{1f600}"), vec!['a', '\u{e9}', '\u{1f600}']);
    assert_eq!(chars_of(""), Vec::<char>::new());
    assert_eq!(string_of(&vec!['a', '\u{e9}', '\u{1f600}']), "a\u{e9}\u{1f600}");
    assert_eq!(string_of(&Vec::new()), "");
}

#[test]
fn a_part_is_found_wherever_it_stands() {
    assert!(contains("hello world", "hello"));
    assert!(contains("hello world", "o w"));
    assert!(contains("hello world", "world"));
    assert!(contains("hello world", "hello world"));
    assert!(!contains("hello world", "worlds"));
    assert!(!contains("hello world", "hello world!"));
    assert!(!contains("aab", "aba"));
    assert!(contains("aaab", "aab"));
}

#[test]
fn the_empty_text_is_a_part_of_every_text() {
    assert!(contains("abc", ""));
    assert!(contains("", ""));
    assert!(!contains("", "a"));
}

#[test]
fn a_suffix_is_told_from_a_part() {
    assert!(ends_with("notes.txt", ".txt"));
    assert!(ends_with(".txt", ".txt"));
    assert!(ends_with("a", ""));
    assert!(!ends_with("notes.txt.bak", ".txt"));
    assert!(!ends_with("txt", ".txt"));
    assert!(!ends_with("notes.TXT", ".txt"));
}
