use text_tools::word_count::{deal_string, is_whitespace};

#[test]
fn test_question3() {
    let input = "apple banana pear banana apple banana";
    let result = deal_string(input);
    let expected = vec![
        ("banana".to_string(), 3),
        ("apple".to_string(), 2),
        ("pear".to_string(), 1),
    ];
    assert_eq!(result, expected);
}

#[test]
fn test_empty_input() {
    let input = "";
    let result = deal_string(input);
    let expected: Vec<(String, usize)> = vec![];
    assert_eq!(result, expected);
}

#[test]
fn test_single_word() {
    let input = "apple";
    let result = deal_string(input);
    let expected = vec![("apple".to_string(), 1)];
    assert_eq!(result, expected);
}

#[test]
fn test_multiple_words_with_same_count() {
    let input = "apple banana apple banana";
    let result = deal_string(input);
    let expected = vec![
        ("apple".to_string(), 2),
        ("banana".to_string(), 2),
    ];
    assert_eq!(result, expected);
}

#[test]
fn test_words_with_same_count_sorted_alphabetically() {
    let input = "banana apple pear";
    let result = deal_string(input);
    let expected = vec![
        ("apple".to_string(), 1),
        ("banana".to_string(), 1),
        ("pear".to_string(), 1),
    ];
    assert_eq!(result, expected);
}

#[test]
fn words_are_separated_by_any_run_of_white_space() {
    let result = deal_string("  a\t\tb\n a \r\n c\u{3000}b\u{a0}a  ");
    let expected = vec![
        ("a".to_string(), 3),
        ("b".to_string(), 2),
        ("c".to_string(), 1),
    ];
    assert_eq!(result, expected);
}

#[test]
fn only_white_space_has_no_words() {
    let expected: Vec<(String, usize)> = vec![];
    assert_eq!(deal_string(" \t\n\u{2028} "), expected);
}

#[test]
fn a_prefix_stands_before_the_longer_word() {
    let result = deal_string("apples apple app Apple");
    let expected = vec![
        ("Apple".to_string(), 1),
        ("app".to_string(), 1),
        ("apple".to_string(), 1),
        ("apples".to_string(), 1),
    ];
    assert_eq!(result, expected);
}

#[test]
fn dictionary_order_follows_the_order_of_strings() {
    let input = "z\u{e9} zebra \u{4e2d}\u{6587} \u{1f600} ~ z";
    let result = deal_string(input);
    let mut expected: Vec<(String, usize)> =
        input.split_whitespace().map(|word| (word.to_string(), 1)).collect();
    expected.sort();
    assert_eq!(result, expected);
}

#[test]
fn frequency_decides_before_the_dictionary() {
    let result = deal_string("b a c c b c a b c");
    let expected = vec![
        ("c".to_string(), 4),
        ("b".to_string(), 3),
        ("a".to_string(), 2),
    ];
    assert_eq!(result, expected);
}

#[test]
fn white_space_is_what_the_standard_library_calls_so() {
    let mut code: u32 = 0;
    while code <= 0x3100 {
        if let Some(c) = char::from_u32(code) {
            assert_eq!(is_whitespace(c), c.is_whitespace(), "U+{:04X}", code);
        }
        code += 1;
    }
    assert!(!is_whitespace('\u{feff}'));
    assert!(!is_whitespace('\u{10ffff}'));
}
