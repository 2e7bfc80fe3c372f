use text_tools::config::{Config, IGNORE_CASE, USAGE};
use text_tools::coordinator::{
    exit_status, is_eligible, search_directory, worker_output, DirectoryError, FileEntry,
};
use text_tools::matcher::{
    find_matches, format_record, format_records, line_matches, search_file, FileError, MatchRecord,
};

fn arguments(words: &[&str]) -> Vec<String> {
    words.iter().map(|word| word.to_string()).collect()
}

fn config(keyword: &str, case_insensitive: bool) -> Config {
    Config { keyword: keyword.to_string(), directory: "dir".to_string(), case_insensitive }
}

fn entry(path: &str, is_file: bool, content: Result<&str, FileError>) -> FileEntry {
    FileEntry { path: path.to_string(), is_file, content: content.map(|text| text.to_string()) }
}

fn two_files() -> Vec<FileEntry> {
    vec![
        entry("a.txt", true, Ok("Hello test\nno match")),
        entry("b.txt", true, Ok("TEST case")),
    ]
}

#[test]
fn test_search_file() {
    let path = "test.txt";
    let keyword = "test";
    let case_insensitive = true;
    let content = "This is a test line.\nAnother line without the keyword.\n";

    let results = search_file(path, Ok(content), keyword, case_insensitive).unwrap();
    assert_eq!(results.len(), 1);
    assert!(results[0].contains("This is a test line."));
}

#[test]
fn test_search_directory() {
    let config = Config {
        keyword: "test".to_string(),
        directory: ".".to_string(),
        case_insensitive: true,
    };
    let listing = vec![
        entry("./Cargo.toml", true, Ok("[package]\nname = \"test\"\n")),
        entry("./src", false, Err(FileError::Read)),
        entry("./notes.txt", true, Ok("a test\n")),
    ];
    assert!(search_directory(config, Ok(listing)).is_ok());
}

#[test]
fn test_search_file_case_insensitive() {
    let path = "test_case_insensitive.txt";
    let keyword = "TEST";
    let case_insensitive = true;
    let content = "This is a test line.\nAnother line without the keyword.\n";

    let results = search_file(path, Ok(content), keyword, case_insensitive).unwrap();
    assert_eq!(results.len(), 1);
    assert!(results[0].contains("This is a test line."));
}

#[test]
fn test_search_file_case_sensitive() {
    let path = "test_case_sensitive.txt";
    let keyword = "TEST";
    let case_insensitive = false;
    let content = "This is a test line.\nAnother line without the keyword.\n";

    let results = search_file(path, Ok(content), keyword, case_insensitive).unwrap();
    assert!(results.is_empty());
}

#[test]
fn test_search_file_no_matches() {
    let path = "test_no_matches.txt";
    let keyword = "nonexistent";
    let case_insensitive = true;
    let content = "This is a test line.\nAnother line without the keyword.\n";

    let results = search_file(path, Ok(content), keyword, case_insensitive).unwrap();
    assert!(results.is_empty());
}

#[test]
fn test_search_file_empty_file() {
    let path = "test_empty_file.txt";
    let keyword = "test";
    let case_insensitive = true;

    let results = search_file(path, Ok(""), keyword, case_insensitive).unwrap();
    assert!(results.is_empty());
}

#[test]
fn test_search_directory_with_no_txt_files() {
    let config = Config {
        keyword: "test".to_string(),
        directory: "test_no_txt_files".to_string(),
        case_insensitive: true,
    };

    let result = search_directory(config, Ok(Vec::new()));
    assert!(result.is_ok());
    assert_eq!(result, Ok(Vec::new()));
}

#[test]
fn config_needs_a_keyword_and_a_directory() {
    assert_eq!(Config::new(&arguments(&[])), Err(USAGE));
    assert_eq!(Config::new(&arguments(&["prog"])), Err(USAGE));
    assert_eq!(Config::new(&arguments(&["prog", "word"])), Err(USAGE));
    assert_eq!(
        Config::new(&arguments(&["prog", "word"])),
        Err("Not enough arguments. Usage: <keyword> <directory> [case_insensitive]")
    );
}

#[test]
fn config_takes_keyword_and_directory_in_order() {
    let config = Config::new(&arguments(&["prog", "word", "some/dir"])).unwrap();
    assert_eq!(config.keyword, "word");
    assert_eq!(config.directory, "some/dir");
    assert!(!config.case_insensitive);
}

#[test]
fn config_ignores_case_only_for_the_exact_flag() {
    let with_flag = Config::new(&arguments(&["prog", "word", "dir", "case_insensitive"])).unwrap();
    assert!(with_flag.case_insensitive);
    assert_eq!(IGNORE_CASE, "case_insensitive");
    for other in ["", "Case_Insensitive", "case_insensitive ", "-i", "true", "case-insensitive"] {
        let config = Config::new(&arguments(&["prog", "word", "dir", other])).unwrap();
        assert!(!config.case_insensitive, "{:?}", other);
        assert_eq!(config.keyword, "word");
        assert_eq!(config.directory, "dir");
    }
}

#[test]
fn config_ignores_what_follows_the_flag() {
    let config =
        Config::new(&arguments(&["prog", "word", "dir", "other", "case_insensitive"])).unwrap();
    assert!(!config.case_insensitive);
    let config =
        Config::new(&arguments(&["prog", "word", "dir", "case_insensitive", "more"])).unwrap();
    assert!(config.case_insensitive);
}

#[test]
fn case_decides_only_when_it_is_regarded() {
    assert!(line_matches("a line with test in it", "TEST", true));
    assert!(!line_matches("a line with test in it", "TEST", false));
    assert!(line_matches("a line with TEST in it", "TEST", false));
    assert!(line_matches("a line with TEST in it", "test", true));
    assert!(!line_matches("a line with TEST in it", "test", false));
    assert!(!line_matches("nothing here", "test", true));
}

#[test]
fn lowercase_forms_are_those_of_the_standard_library() {
    assert!(line_matches("STRASSE und Stra\u{df}e", "stra\u{df}e", true));
    assert!(line_matches("\u{c9}COLE", "\u{e9}cole", true));
    assert!(!line_matches("\u{c9}COLE", "\u{e9}cole", false));
    assert!(line_matches("\u{130}stanbul", "i\u{307}stanbul", true));
    assert!(line_matches("\u{39f}\u{394}\u{39f}\u{3a3}", "\u{3bf}\u{3b4}\u{3bf}\u{3c2}", true));
}

#[test]
fn the_empty_keyword_is_in_every_line() {
    let found = find_matches("f.txt", "one\n\nthree", "", false);
    assert_eq!(found.len(), 3);
    assert_eq!(found[1].line_number, 2);
    assert_eq!(found[1].line_content, "");
}

#[test]
fn records_keep_number_and_text_of_their_lines() {
    let content = "alpha\nbeta test\n\ngamma\nTest delta\r\ntest";
    let found = find_matches("dir/f.txt", content, "test", false);
    let expected = vec![
        MatchRecord {
            file_path: "dir/f.txt".to_string(),
            line_number: 2,
            line_content: "beta test".to_string(),
        },
        MatchRecord {
            file_path: "dir/f.txt".to_string(),
            line_number: 6,
            line_content: "test".to_string(),
        },
    ];
    assert_eq!(found, expected);
}

#[test]
fn line_numbers_increase_and_skip_no_matching_line() {
    let content = "x\ntest 1\n\n\ntest 2\ny\nTEST 3\n\ntest 4";
    let found = find_matches("f.txt", content, "test", true);
    let numbers: Vec<usize> = found.iter().map(|record| record.line_number).collect();
    assert_eq!(numbers, vec![2, 5, 7, 9]);
    let lines: Vec<&str> = content.lines().collect();
    for record in &found {
        assert_eq!(record.line_content, lines[record.line_number - 1]);
    }
    let matching = lines.iter().filter(|line| line.to_lowercase().contains("test")).count();
    assert_eq!(found.len(), matching);
}

#[test]
fn the_echoed_line_keeps_its_case() {
    let results = search_file("b.txt", Ok("TEST case"), "test", true).unwrap();
    assert_eq!(results, vec!["b.txt:1: TEST case".to_string()]);
}

#[test]
fn a_record_is_reported_as_path_number_and_line() {
    let record = MatchRecord {
        file_path: "some dir/a.txt".to_string(),
        line_number: 120,
        line_content: "  the line: as it was  ".to_string(),
    };
    assert_eq!(format_record(&record), "some dir/a.txt:120:   the line: as it was  ");
    let first = MatchRecord {
        file_path: "".to_string(),
        line_number: 1,
        line_content: "".to_string(),
    };
    assert_eq!(format_record(&first), ":1: ");
    assert_eq!(
        format_records(&vec![first, record]),
        vec![":1: ".to_string(), "some dir/a.txt:120:   the line: as it was  ".to_string()]
    );
}

#[test]
fn a_file_that_failed_gives_its_error_and_no_line() {
    assert_eq!(search_file("a.txt", Err(FileError::Open), "test", true), Err(FileError::Open));
    assert_eq!(search_file("a.txt", Err(FileError::Read), "test", false), Err(FileError::Read));
}

#[test]
fn a_worker_swallows_the_error_of_its_file() {
    assert_eq!(worker_output("a.txt", Err(FileError::Open), "test", true), Vec::<String>::new());
    assert_eq!(worker_output("a.txt", Err(FileError::Read), "test", true), Vec::<String>::new());
    assert_eq!(
        worker_output("a.txt", Ok("Hello test\nno match"), "test", true),
        vec!["a.txt:1: Hello test".to_string()]
    );
}

#[test]
fn only_regular_files_that_end_in_txt_are_searched() {
    assert!(is_eligible("dir/a.txt", true));
    assert!(is_eligible("dir/.txt", true));
    assert!(!is_eligible("dir/a.txt", false));
    assert!(!is_eligible("dir/c.md", true));
    assert!(!is_eligible("dir/a.TXT", true));
    assert!(!is_eligible("dir/a.txt.bak", true));
    assert!(!is_eligible("dir/atxt", true));
    assert!(!is_eligible("", true));
}

#[test]
fn two_files_searched_without_regard_to_case() {
    let outcome = search_directory(config("test", true), Ok(two_files()));
    let mut lines = outcome.clone().unwrap();
    lines.sort();
    assert_eq!(lines, vec!["a.txt:1: Hello test".to_string(), "b.txt:1: TEST case".to_string()]);
    assert_eq!(exit_status(&outcome), 0);
}

#[test]
fn two_files_searched_with_regard_to_case() {
    let outcome = search_directory(config("TEST", false), Ok(two_files()));
    assert_eq!(outcome, Ok(vec!["b.txt:1: TEST case".to_string()]));
    assert_eq!(exit_status(&outcome), 0);
}

#[test]
fn a_directory_without_text_files_reports_nothing() {
    let listing = vec![entry("c.md", true, Ok("a test in a file that is not searched"))];
    let outcome = search_directory(config("test", true), Ok(listing));
    assert_eq!(outcome, Ok(Vec::new()));
    assert_eq!(exit_status(&outcome), 0);
}

#[test]
fn a_directory_that_does_not_exist_is_an_error() {
    let outcome = search_directory(config("test", true), Err(DirectoryError {}));
    assert_eq!(outcome, Err(DirectoryError {}));
    assert_ne!(exit_status(&outcome), 0);
    assert_eq!(exit_status(&outcome), 1);
}

#[test]
fn entries_that_are_not_searched_do_not_count_whatever_they_hold() {
    let lines_with = |other: Result<&str, FileError>| {
        let listing = vec![
            entry("a.txt", true, Ok("Hello test")),
            entry("c.md", true, other),
            entry("sub.txt", false, other),
        ];
        search_directory(config("test", true), Ok(listing))
    };
    let expected = Ok(vec!["a.txt:1: Hello test".to_string()]);
    assert_eq!(lines_with(Ok("test test test")), expected);
    assert_eq!(lines_with(Ok("")), expected);
    assert_eq!(lines_with(Err(FileError::Open)), expected);
}

#[test]
fn a_file_that_cannot_be_read_does_not_end_the_run() {
    let listing = vec![
        entry("a.txt", true, Err(FileError::Open)),
        entry("b.txt", true, Ok("TEST case\nmore tests")),
        entry("c.txt", true, Err(FileError::Read)),
    ];
    let outcome = search_directory(config("test", true), Ok(listing));
    assert_eq!(
        outcome,
        Ok(vec!["b.txt:1: TEST case".to_string(), "b.txt:2: more tests".to_string()])
    );
    assert_eq!(exit_status(&outcome), 0);
}

#[test]
fn the_reported_set_is_that_of_the_matching_lines() {
    let listing = vec![
        entry("d/one.txt", true, Ok("test\nx\ntest\n")),
        entry("d/two.md", true, Ok("test\n")),
        entry("d/three.txt", true, Ok("x\nTeSt here\n")),
        entry("d/four.txt", true, Err(FileError::Read)),
    ];
    let mut lines = search_directory(config("test", true), Ok(listing)).unwrap();
    lines.sort();
    let mut expected = vec![
        "d/one.txt:1: test".to_string(),
        "d/one.txt:3: test".to_string(),
        "d/three.txt:2: TeSt here".to_string(),
    ];
    expected.sort();
    assert_eq!(lines, expected);
}
