use text_tools::dictionary::comes_before;
use text_tools::downloads::{download_message, sort_messages, DONE};

fn finished(urls: &[&str]) -> Vec<String> {
    urls.iter().map(|url| download_message(url)).collect()
}

#[test]
fn test_question5() {
    let arrived = finished(&["http://example.com/3", "http://example.com/1", "http://example.com/2"]);
    let result = sort_messages(&arrived);
    assert_eq!(result.len(), 3);
    assert_eq!(result[0], "http://example.com/1 + \u{4e0b}\u{8f7d}\u{5b8c}\u{6210}");
    assert_eq!(result[1], "http://example.com/2 + \u{4e0b}\u{8f7d}\u{5b8c}\u{6210}");
    assert_eq!(result[2], "http://example.com/3 + \u{4e0b}\u{8f7d}\u{5b8c}\u{6210}");
}

#[test]
fn test_message_order() {
    let arrived = finished(&["http://example.com/2", "http://example.com/3", "http://example.com/1"]);
    let result = sort_messages(&arrived);
    let expected = vec![
        "http://example.com/1 + \u{4e0b}\u{8f7d}\u{5b8c}\u{6210}",
        "http://example.com/2 + \u{4e0b}\u{8f7d}\u{5b8c}\u{6210}",
        "http://example.com/3 + \u{4e0b}\u{8f7d}\u{5b8c}\u{6210}",
    ];
    assert_eq!(result, expected, "Messages should be sorted alphabetically");
}

#[test]
fn a_message_is_the_address_and_the_closing_words() {
    assert_eq!(DONE, " + \u{4e0b}\u{8f7d}\u{5b8c}\u{6210}");
    assert_eq!(download_message(""), " + \u{4e0b}\u{8f7d}\u{5b8c}\u{6210}");
    assert_eq!(download_message("x"), "x + \u{4e0b}\u{8f7d}\u{5b8c}\u{6210}");
}

#[test]
fn every_order_of_arrival_gives_the_same_result() {
    let urls = ["c", "a", "b"];
    let orders = [[0, 1, 2], [0, 2, 1], [1, 0, 2], [1, 2, 0], [2, 0, 1], [2, 1, 0]];
    let expected = finished(&["a", "b", "c"]);
    for order in orders {
        let arrived: Vec<String> = order.iter().map(|&at| download_message(urls[at])).collect();
        assert_eq!(sort_messages(&arrived), expected);
    }
}

#[test]
fn equal_messages_are_all_kept() {
    let arrived = vec!["b".to_string(), "a".to_string(), "b".to_string(), "".to_string()];
    assert_eq!(sort_messages(&arrived), vec!["", "a", "b", "b"]);
    assert_eq!(sort_messages(&Vec::new()), Vec::<String>::new());
}

#[test]
fn sorting_agrees_with_the_order_of_strings() {
    let arrived: Vec<String> = ["z\u{e9}", "zebra", "\u{4e2d}", "Z", "", "\u{1f600}", "~", "z", "zz", "a b"]
        .iter()
        .map(|text| text.to_string())
        .collect();
    let mut expected = arrived.clone();
    expected.sort();
    assert_eq!(sort_messages(&arrived), expected);
}

#[test]
fn dictionary_order_is_strict() {
    assert!(comes_before("", "a"));
    assert!(comes_before("a", "b"));
    assert!(comes_before("ab", "b"));
    assert!(comes_before("app", "apple"));
    assert!(comes_before("Z", "a"));
    assert!(!comes_before("a", "a"));
    assert!(!comes_before("", ""));
    assert!(!comes_before("apple", "app"));
    assert!(!comes_before("b", "a"));
    let texts = ["", "a", "A", "ab", "b", "\u{e9}", "\u{10000}", "\u{ffff}"];
    for left in texts {
        for right in texts {
            assert_eq!(comes_before(left, right), left < right, "{:?} {:?}", left, right);
        }
    }
}
