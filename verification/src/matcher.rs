//! The search of one file's text for a keyword.

use vstd::prelude::*;
use vstd::string::*;
use crate::decimal::{decimal, push_digits};
use crate::text::{
    contains, lines_of, lowercase, occurs_in, split_lines, string_of, to_lowercase,
};

verus! {

/// Why a file's text could not be had.
#[derive(Debug, Clone, Copy, PartialEq, Eq)]
pub enum FileError {
    /// The file could not be opened.
    Open,
    /// Reading failed after the file was opened.
    Read,
}

/// One line of a file that holds the keyword.
#[derive(Debug, Clone, PartialEq, Eq)]
pub struct MatchRecord {
    /// The file's path, as the directory listing gave it.
    pub file_path: String,
    /// The line's number in the file; the first line has number 1.
    pub line_number: usize,
    /// The line as it stands in the file.
    pub line_content: String,
}

/// The mathematical content of a `MatchRecord`.
pub struct Match {
    pub file_path: Seq<char>,
    pub line_number: nat,
    pub line_content: Seq<char>,
}

impl View for MatchRecord {
    type V = Match;

    open spec fn view(&self) -> Match {
        Match {
            file_path: self.file_path@,
            line_number: self.line_number as nat,
            line_content: self.line_content@,
        }
    }
}

impl DeepView for MatchRecord {
    type V = Match;

    open spec fn deep_view(&self) -> Match {
        self@
    }
}

/// Whether a line holds the keyword. Without regard to case, the lowercase
/// form of the keyword must be a part of the lowercase form of the line;
/// otherwise the keyword itself must be a part of the line.
pub open spec fn is_match(line: Seq<char>, keyword: Seq<char>, case_insensitive: bool) -> bool {
    if case_insensitive {
        occurs_in(lowercase(line), lowercase(keyword))
    } else {
        occurs_in(line, keyword)
    }
}

/// The record of the line at index `n`, whose number is `n + 1`.
pub open spec fn line_record(path: Seq<char>, lines: Seq<Seq<char>>, n: int) -> Match {
    Match { file_path: path, line_number: (n + 1) as nat, line_content: lines[n] }
}

/// Every line with its number, as a record of the file at `path`.
pub open spec fn numbered(path: Seq<char>, lines: Seq<Seq<char>>) -> Seq<Match> {
    Seq::new(lines.len(), |n: int| line_record(path, lines, n))
}

/// The records whose line holds the keyword.
pub open spec fn selected(keyword: Seq<char>, case_insensitive: bool) -> spec_fn(Match) -> bool {
    |m: Match| is_match(m.line_content, keyword, case_insensitive)
}

/// The records of the lines that hold the keyword, in the order of the lines.
pub open spec fn matches_in(
    path: Seq<char>,
    lines: Seq<Seq<char>>,
    keyword: Seq<char>,
    case_insensitive: bool,
) -> Seq<Match> {
    numbered(path, lines).filter(selected(keyword, case_insensitive))
}

/// The records of a file with the given text.
pub open spec fn file_matches(
    path: Seq<char>,
    content: Seq<char>,
    keyword: Seq<char>,
    case_insensitive: bool,
) -> Seq<Match> {
    matches_in(path, lines_of(content), keyword, case_insensitive)
}

/// The line that reports a record: the path, a colon, the line number, a
/// colon and a space, and the line itself, unchanged.
pub open spec fn rendered(m: Match) -> Seq<char> {
    m.file_path + ":"@ + decimal(m.line_number as int) + ": "@ + m.line_content
}

/// The lines that report `records`, in the same order.
pub open spec fn report(records: Seq<Match>) -> Seq<Seq<char>> {
    records.map_values(|m: Match| rendered(m))
}

/// The lines that report the records of a file with the given text.
pub open spec fn file_report(
    path: Seq<char>,
    content: Seq<char>,
    keyword: Seq<char>,
    case_insensitive: bool,
) -> Seq<Seq<char>> {
    report(file_matches(path, content, keyword, case_insensitive))
}

/// Whether `line` holds `keyword`.
pub fn line_matches(line: &str, keyword: &str, case_insensitive: bool) -> (matched: bool)
    ensures
        matched == is_match(line@, keyword@, case_insensitive),
{
    if case_insensitive {
        let lowered_line = to_lowercase(line);
        let lowered_keyword = to_lowercase(keyword);
        contains(lowered_line.as_str(), lowered_keyword.as_str())
    } else {
        contains(line, keyword)
    }
}

/// The records of the lines of `content` that hold `keyword`, in the order of
/// the lines.
pub fn find_matches(file_path: &str, content: &str, keyword: &str, case_insensitive: bool) -> (found:
    Vec<MatchRecord>)
    ensures
        found.deep_view() == file_matches(file_path@, content@, keyword@, case_insensitive),
{
    let lines = split_lines(content);
    let ghost all = numbered(file_path@, lines_of(content@));
    let ghost keep = selected(keyword@, case_insensitive);
    let mut found: Vec<MatchRecord> = Vec::new();
    let mut n: usize = 0;
    proof {
        assert(all.take(0) == Seq::<Match>::empty());
        assert(found.deep_view() == Seq::<Match>::empty());
        reveal(Seq::filter);
    }
    while n < lines.len()
        invariant
            n <= lines.len(),
            lines.deep_view() == lines_of(content@),
            all == numbered(file_path@, lines_of(content@)),
            keep == selected(keyword@, case_insensitive),
            found.deep_view() == all.take(n as int).filter(keep),
        decreases lines.len() - n,
    {
        let ghost before = found.deep_view();
        proof {
            assert(lines.deep_view()[n as int] == lines[n as int]@);
            assert(all.take(n + 1) == all.take(n as int).push(all[n as int]));
            all.take(n as int).lemma_filter_push(all[n as int], keep);
        }
        if line_matches(lines[n].as_str(), keyword, case_insensitive) {
            let record = MatchRecord {
                file_path: file_path.to_owned(),
                line_number: n + 1,
                line_content: lines[n].clone(),
            };
            found.push(record);
            assert(found.deep_view() == before.push(all[n as int]));
        }
        n += 1;
    }
    assert(all.take(lines.len() as int) == all);
    found
}

/// The line that reports `record`.
pub fn format_record(record: &MatchRecord) -> (line: String)
    ensures
        line@ == rendered(record@),
{
    let mut number: Vec<char> = Vec::new();
    push_digits(&mut number, record.line_number as u64);
    let digits = string_of(&number);
    let mut line = record.file_path.clone();
    line.append(":");
    line.append(digits.as_str());
    line.append(": ");
    line.append(record.line_content.as_str());
    line
}

/// The lines that report `records`, in the same order.
pub fn format_records(records: &Vec<MatchRecord>) -> (lines: Vec<String>)
    ensures
        lines.deep_view() == report(records.deep_view()),
{
    let ghost all = records.deep_view();
    let mut lines: Vec<String> = Vec::new();
    let mut k: usize = 0;
    assert(lines.deep_view() == report(all.take(0)));
    while k < records.len()
        invariant
            k <= records.len(),
            all == records.deep_view(),
            lines.deep_view() == report(all.take(k as int)),
        decreases records.len() - k,
    {
        let ghost before = lines.deep_view();
        let line = format_record(&records[k]);
        lines.push(line);
        proof {
            assert(all[k as int] == records[k as int]@);
            assert(lines.deep_view() == before.push(rendered(all[k as int])));
            assert(report(all.take(k + 1)) == report(all.take(k as int)).push(
                rendered(all[k as int]),
            ));
        }
        k += 1;
    }
    assert(all.take(records.len() as int) == all);
    lines
}

/// What reading a file gave, with the text as a sequence of characters.
pub open spec fn read_view(content: Result<&str, FileError>) -> Result<Seq<char>, FileError> {
    match content {
        Ok(text) => Ok(text@),
        Err(error) => Err(error),
    }
}

/// What the search of one file gives: the report of its matching lines when
/// the whole text was read, the reading's own error otherwise. A file that
/// failed while it was read reports none of its lines.
pub open spec fn file_outcome(
    path: Seq<char>,
    content: Result<Seq<char>, FileError>,
    keyword: Seq<char>,
    case_insensitive: bool,
) -> Result<Seq<Seq<char>>, FileError> {
    match content {
        Ok(text) => Ok(file_report(path, text, keyword, case_insensitive)),
        Err(error) => Err(error),
    }
}

/// What a result of `search_file` holds, with each line as a sequence of
/// characters.
pub open spec fn outcome_view(outcome: Result<Vec<String>, FileError>) -> Result<
    Seq<Seq<char>>,
    FileError,
> {
    match outcome {
        Ok(lines) => Ok(lines.deep_view()),
        Err(error) => Err(error),
    }
}

/// Searches one file, given what reading it gave: either its whole text or
/// the error that ended the reading. Returns one report line for each line
/// that holds `keyword`, in the order of the lines, or the error.
pub fn search_file(
    file_path: &str,
    content: Result<&str, FileError>,
    keyword: &str,
    case_insensitive: bool,
) -> (outcome: Result<Vec<String>, FileError>)
    ensures
        outcome_view(outcome) == file_outcome(
            file_path@,
            read_view(content),
            keyword@,
            case_insensitive,
        ),
{
    match content {
        Ok(text) => {
            let found = find_matches(file_path, text, keyword, case_insensitive);
            Ok(format_records(&found))
        },
        Err(error) => Err(error),
    }
}

/// The records of the first `p` lines: their numbers increase strictly and
/// stay within `p`, each is a line that holds the keyword under its own
/// number, and each such line among the first `p` is there.
proof fn lemma_prefix_matches(
    path: Seq<char>,
    lines: Seq<Seq<char>>,
    keyword: Seq<char>,
    case_insensitive: bool,
    p: nat,
)
    requires
        p <= lines.len(),
    ensures
        ({
            let all = numbered(path, lines);
            let found = all.take(p as int).filter(selected(keyword, case_insensitive));
            &&& forall|k: int|
                0 <= k < found.len() ==> {
                    &&& 1 <= (#[trigger] found[k]).line_number <= p
                    &&& is_match(found[k].line_content, keyword, case_insensitive)
                    &&& found[k] == all[found[k].line_number - 1]
                }
            &&& forall|i: int, j: int|
                0 <= i < j < found.len() ==> (#[trigger] found[i]).line_number < (
                #[trigger] found[j]).line_number
            &&& forall|n: int|
                0 <= n < p && is_match(lines[n], keyword, case_insensitive) ==> found.contains(
                    #[trigger] all[n],
                )
        }),
    decreases p,
{
    let all = numbered(path, lines);
    let keep = selected(keyword, case_insensitive);
    let found = all.take(p as int).filter(keep);
    if p == 0 {
        reveal(Seq::filter);
        assert(all.take(0).len() == 0);
    } else {
        let q = (p - 1) as nat;
        let before = all.take(q as int).filter(keep);
        lemma_prefix_matches(path, lines, keyword, case_insensitive, q);
        assert(all.take(p as int) == all.take(q as int).push(all[q as int]));
        all.take(q as int).lemma_filter_push(all[q as int], keep);
        if keep(all[q as int]) {
            assert(found == before.push(all[q as int]));
            assert(found[found.len() - 1] == all[q as int]);
            assert forall|n: int|
                0 <= n < p && is_match(lines[n], keyword, case_insensitive) implies found.contains(
                #[trigger] all[n],
            ) by {
                if n < q {
                    assert(before.contains(all[n]));
                    let k = choose|k: int| 0 <= k < before.len() && before[k] == all[n];
                    assert(found[k] == all[n]);
                } else {
                    assert(found[found.len() - 1] == all[n]);
                }
            }
        } else {
            assert(found == before);
        }
    }
}

/// Within one file the reported line numbers increase strictly, every
/// record is a line that holds the keyword, under that line's own number and
/// with that line's own text, and every line that holds the keyword is
/// reported.
pub proof fn lemma_matches_follow_lines(
    path: Seq<char>,
    lines: Seq<Seq<char>>,
    keyword: Seq<char>,
    case_insensitive: bool,
)
    ensures
        ({
            let found = matches_in(path, lines, keyword, case_insensitive);
            &&& forall|i: int, j: int|
                0 <= i < j < found.len() ==> (#[trigger] found[i]).line_number < (
                #[trigger] found[j]).line_number
            &&& forall|k: int|
                0 <= k < found.len() ==> {
                    &&& 1 <= (#[trigger] found[k]).line_number <= lines.len()
                    &&& found[k].file_path == path
                    &&& found[k].line_content == lines[found[k].line_number - 1]
                    &&& is_match(found[k].line_content, keyword, case_insensitive)
                }
            &&& forall|n: int|
                0 <= n < lines.len() && is_match(lines[n], keyword, case_insensitive)
                    ==> found.contains(#[trigger] line_record(path, lines, n))
        }),
{
    let all = numbered(path, lines);
    lemma_prefix_matches(path, lines, keyword, case_insensitive, lines.len());
    assert(all.take(lines.len() as int) == all);
    let found = matches_in(path, lines, keyword, case_insensitive);
    assert forall|n: int|
        0 <= n < lines.len() && is_match(lines[n], keyword, case_insensitive) implies found.contains(
        #[trigger] line_record(path, lines, n),
    ) by {
        assert(found.contains(all[n]));
    }
}

/// A record is reported for a file exactly when it is one of the file's
/// lines, under that line's number, and the line holds the keyword.
pub proof fn lemma_match_membership(
    path: Seq<char>,
    lines: Seq<Seq<char>>,
    keyword: Seq<char>,
    case_insensitive: bool,
    m: Match,
)
    ensures
        matches_in(path, lines, keyword, case_insensitive).contains(m) <==> (exists|n: int|
            0 <= n < lines.len() && is_match(lines[n], keyword, case_insensitive) && m
                == #[trigger] line_record(path, lines, n)),
{
    let found = matches_in(path, lines, keyword, case_insensitive);
    lemma_matches_follow_lines(path, lines, keyword, case_insensitive);
    if found.contains(m) {
        let k = choose|k: int| 0 <= k < found.len() && found[k] == m;
        let n = found[k].line_number - 1;
        assert(m == line_record(path, lines, n));
    }
}

} // verus!
