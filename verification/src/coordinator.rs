//! The search of a directory: which entries are searched, what each file's
//! worker hands on, and what the whole run reports.

use vstd::prelude::*;
use crate::config::Config;
use crate::matcher::{
    file_matches, is_match, lemma_match_membership, line_record, read_view, report, search_file,
    FileError, Match,
};
use crate::text::{ends_with, lines_of};

verus! {

/// The end of the name of a file that is searched.
pub const TEXT_SUFFIX: &'static str = ".txt";

/// The directory could not be listed: it does not exist, is no directory, or
/// may not be read.
#[derive(Debug, Clone, Copy, PartialEq, Eq)]
pub struct DirectoryError {}

/// One entry of the directory's listing, with what reading it gives.
#[derive(Debug, PartialEq, Eq)]
pub struct FileEntry {
    /// The entry's path, as the listing gave it.
    pub path: String,
    /// Whether the entry is a regular file.
    pub is_file: bool,
    /// The file's whole text, or why it could not be had.
    pub content: Result<String, FileError>,
}

/// The mathematical content of a `FileEntry`.
pub struct Entry {
    pub path: Seq<char>,
    pub is_file: bool,
    pub content: Result<Seq<char>, FileError>,
}

impl View for FileEntry {
    type V = Entry;

    open spec fn view(&self) -> Entry {
        Entry {
            path: self.path@,
            is_file: self.is_file,
            content: match self.content {
                Ok(text) => Ok(text@),
                Err(error) => Err(error),
            },
        }
    }
}

impl DeepView for FileEntry {
    type V = Entry;

    open spec fn deep_view(&self) -> Entry {
        self@
    }
}

/// An entry is searched when it is a regular file whose path ends in `.txt`,
/// in exactly these letters.
pub open spec fn eligible(path: Seq<char>, is_file: bool) -> bool {
    is_file && TEXT_SUFFIX@.is_suffix_of(path)
}

/// Whether the entry at `path` is searched.
pub fn is_eligible(path: &str, is_file: bool) -> (yes: bool)
    ensures
        yes == eligible(path@, is_file),
{
    is_file && ends_with(path, TEXT_SUFFIX)
}

/// The records that the worker of one file contributes: those of its
/// matching lines when the whole text was read, none when the file could not
/// be opened or read to its end.
pub open spec fn worker_records(
    path: Seq<char>,
    content: Result<Seq<char>, FileError>,
    keyword: Seq<char>,
    case_insensitive: bool,
) -> Seq<Match> {
    match content {
        Ok(text) => file_matches(path, text, keyword, case_insensitive),
        Err(_) => Seq::empty(),
    }
}

/// The lines that the worker of one file sends to the coordinator, in the
/// order in which it sends them. A file that could not be opened or read
/// sends nothing, and its error goes no further.
pub fn worker_output(
    file_path: &str,
    content: Result<&str, FileError>,
    keyword: &str,
    case_insensitive: bool,
) -> (lines: Vec<String>)
    ensures
        lines.deep_view() == report(
            worker_records(file_path@, read_view(content), keyword@, case_insensitive),
        ),
{
    match search_file(file_path, content, keyword, case_insensitive) {
        Ok(lines) => lines,
        Err(_) => {
            let lines: Vec<String> = Vec::new();
            assert(lines.deep_view() == report(Seq::<Match>::empty()));
            lines
        },
    }
}

/// The records that one entry of the listing contributes: those of its worker
/// when the entry is searched, none otherwise.
pub open spec fn entry_records(entry: Entry, keyword: Seq<char>, case_insensitive: bool) -> Seq<
    Match,
> {
    if eligible(entry.path, entry.is_file) {
        worker_records(entry.path, entry.content, keyword, case_insensitive)
    } else {
        Seq::empty()
    }
}

/// The records of a whole listing, entry after entry.
pub open spec fn directory_records(
    entries: Seq<Entry>,
    keyword: Seq<char>,
    case_insensitive: bool,
) -> Seq<Match> {
    entries.map_values(|entry: Entry| entry_records(entry, keyword, case_insensitive)).flatten()
}

/// What a run reports, given what listing the directory gave: the report of
/// the listing's records, or the listing's error and no line at all.
pub open spec fn run_outcome(
    listing: Result<Seq<Entry>, DirectoryError>,
    keyword: Seq<char>,
    case_insensitive: bool,
) -> Result<Seq<Seq<char>>, DirectoryError> {
    match listing {
        Ok(entries) => Ok(report(directory_records(entries, keyword, case_insensitive))),
        Err(error) => Err(error),
    }
}

/// What listing a directory gave, with each entry as its mathematical
/// content.
pub open spec fn listing_view(listing: Result<Vec<FileEntry>, DirectoryError>) -> Result<
    Seq<Entry>,
    DirectoryError,
> {
    match listing {
        Ok(entries) => Ok(entries.deep_view()),
        Err(error) => Err(error),
    }
}

/// What a result of `search_directory` holds, with each line as a sequence of
/// characters.
pub open spec fn lines_view(outcome: Result<Vec<String>, DirectoryError>) -> Result<
    Seq<Seq<char>>,
    DirectoryError,
> {
    match outcome {
        Ok(lines) => Ok(lines.deep_view()),
        Err(error) => Err(error),
    }
}

/// The records of a listing with one more entry are those of the listing,
/// then those of the entry.
pub proof fn lemma_directory_records_push(
    entries: Seq<Entry>,
    entry: Entry,
    keyword: Seq<char>,
    case_insensitive: bool,
)
    ensures
        directory_records(entries.push(entry), keyword, case_insensitive) == directory_records(
            entries,
            keyword,
            case_insensitive,
        ) + entry_records(entry, keyword, case_insensitive),
{
    let each = |entry: Entry| entry_records(entry, keyword, case_insensitive);
    assert(entries.push(entry).map_values(each) == entries.map_values(each).push(each(entry)));
    entries.map_values(each).lemma_flatten_push(each(entry));
}

/// Searches a directory, given what listing it and reading its files gave.
/// A directory that could not be listed is an error, and nothing is
/// reported. Otherwise each regular file whose path ends in `.txt` is
/// searched, in the order of the listing; a file that could not be read
/// contributes nothing and is no error.
pub fn search_directory(config: Config, listing: Result<Vec<FileEntry>, DirectoryError>) -> (outcome:
    Result<Vec<String>, DirectoryError>)
    ensures
        lines_view(outcome) == run_outcome(
            listing_view(listing),
            config.keyword@,
            config.case_insensitive,
        ),
{
    let entries = match listing {
        Ok(entries) => entries,
        Err(error) => {
            return Err(error);
        },
    };
    let ghost all = entries.deep_view();
    let mut out: Vec<String> = Vec::new();
    let mut i: usize = 0;
    proof {
        assert(all.take(0) == Seq::<Entry>::empty());
        assert(out.deep_view() == report(Seq::<Match>::empty()));
        assert(directory_records(all.take(0), config.keyword@, config.case_insensitive)
            == Seq::<Match>::empty());
    }
    while i < entries.len()
        invariant
            i <= entries.len(),
            all == entries.deep_view(),
            out.deep_view() == report(
                directory_records(all.take(i as int), config.keyword@, config.case_insensitive),
            ),
        decreases entries.len() - i,
    {
        let ghost before = out.deep_view();
        let ghost done = directory_records(
            all.take(i as int),
            config.keyword@,
            config.case_insensitive,
        );
        let ghost more = entry_records(all[i as int], config.keyword@, config.case_insensitive);
        proof {
            assert(all[i as int] == entries[i as int]@);
            assert(all.take(i + 1) == all.take(i as int).push(all[i as int]));
            lemma_directory_records_push(
                all.take(i as int),
                all[i as int],
                config.keyword@,
                config.case_insensitive,
            );
            assert(report(done + more) == report(done) + report(more));
        }
        let entry = &entries[i];
        if is_eligible(entry.path.as_str(), entry.is_file) {
            let content: Result<&str, FileError> = match &entry.content {
                Ok(text) => Ok(text.as_str()),
                Err(error) => Err(*error),
            };
            let mut lines = worker_output(
                entry.path.as_str(),
                content,
                config.keyword.as_str(),
                config.case_insensitive,
            );
            let ghost sent = lines.deep_view();
            out.append(&mut lines);
            assert(out.deep_view() == before + sent);
        } else {
            assert(before + report(Seq::<Match>::empty()) == before);
        }
        i += 1;
    }
    assert(all.take(entries.len() as int) == all);
    Ok(out)
}

/// The status with which a run ends: zero when the directory was listed,
/// whether or not anything matched, and one when it could not be listed.
pub fn exit_status(outcome: &Result<Vec<String>, DirectoryError>) -> (status: i32)
    ensures
        status == 0 <==> outcome is Ok,
        status == 0 || status == 1,
{
    match outcome {
        Ok(_) => 0,
        Err(_) => 1,
    }
}

/// The line at index `n` of the entry at index `e` is reported: the entry is
/// searched, its text was read, and the line holds the keyword.
pub open spec fn is_hit(
    entries: Seq<Entry>,
    keyword: Seq<char>,
    case_insensitive: bool,
    e: int,
    n: int,
) -> bool {
    &&& 0 <= e < entries.len()
    &&& eligible(entries[e].path, entries[e].is_file)
    &&& entries[e].content is Ok
    &&& 0 <= n < lines_of(entries[e].content->Ok_0).len()
    &&& is_match(lines_of(entries[e].content->Ok_0)[n], keyword, case_insensitive)
}

/// The record of the line at index `n` of the entry at index `e`: the
/// entry's path, the line's number and the line's text.
pub open spec fn hit(entries: Seq<Entry>, e: int, n: int) -> Match {
    line_record(entries[e].path, lines_of(entries[e].content->Ok_0), n)
}

/// The records that a search of the listing owes: one for each line that
/// holds the keyword, in each searched file whose text was read.
pub open spec fn expected_records(
    entries: Seq<Entry>,
    keyword: Seq<char>,
    case_insensitive: bool,
) -> Set<Match> {
    Set::new(
        |m: Match|
            exists|e: int, n: int|
                #[trigger] is_hit(entries, keyword, case_insensitive, e, n) && m == hit(
                    entries,
                    e,
                    n,
                ),
    )
}

/// An entry with another outcome of reading it.
pub open spec fn with_content(entry: Entry, content: Result<Seq<char>, FileError>) -> Entry {
    Entry { path: entry.path, is_file: entry.is_file, content }
}

/// A record is among those of a listing exactly when it is among those of
/// one of its entries.
pub proof fn lemma_directory_membership(
    entries: Seq<Entry>,
    keyword: Seq<char>,
    case_insensitive: bool,
    m: Match,
)
    ensures
        directory_records(entries, keyword, case_insensitive).contains(m) <==> (exists|e: int|
            0 <= e < entries.len() && (#[trigger] entry_records(
                entries[e],
                keyword,
                case_insensitive,
            )).contains(m)),
    decreases entries.len(),
{
    let records = directory_records(entries, keyword, case_insensitive);
    if entries.len() == 0 {
        assert(records == Seq::<Match>::empty());
    } else {
        let init = entries.drop_last();
        let last = entries.last();
        let earlier = directory_records(init, keyword, case_insensitive);
        let latest = entry_records(last, keyword, case_insensitive);
        assert(entries == init.push(last));
        lemma_directory_records_push(init, last, keyword, case_insensitive);
        lemma_directory_membership(init, keyword, case_insensitive, m);
        if records.contains(m) {
            let k = choose|k: int| 0 <= k < records.len() && records[k] == m;
            if k < earlier.len() {
                assert(earlier[k] == m);
                let e = choose|e: int|
                    0 <= e < init.len() && (#[trigger] entry_records(
                        init[e],
                        keyword,
                        case_insensitive,
                    )).contains(m);
                assert(entries[e] == init[e]);
            } else {
                assert(latest[k - earlier.len()] == m);
                assert(entry_records(
                    entries[entries.len() - 1],
                    keyword,
                    case_insensitive,
                ).contains(m));
            }
        }
        if exists|e: int|
            0 <= e < entries.len() && (#[trigger] entry_records(
                entries[e],
                keyword,
                case_insensitive,
            )).contains(m) {
            let e = choose|e: int|
                0 <= e < entries.len() && (#[trigger] entry_records(
                    entries[e],
                    keyword,
                    case_insensitive,
                )).contains(m);
            if e < init.len() {
                assert(init[e] == entries[e]);
                assert(earlier.contains(m));
                let k = choose|k: int| 0 <= k < earlier.len() && earlier[k] == m;
                assert(records[k] == m);
            } else {
                let k = choose|k: int| 0 <= k < latest.len() && latest[k] == m;
                assert(records[earlier.len() + k] == m);
            }
        }
    }
}

/// The set of records that a run reports does not depend on the order in
/// which the workers' records arrive: for every sequence that holds the
/// records of the listing, each as often as it was produced, the records in
/// it are exactly those of the lines that hold the keyword in the searched
/// files whose text was read. None is lost, and none is made up.
pub proof fn lemma_reported_records(
    entries: Seq<Entry>,
    keyword: Seq<char>,
    case_insensitive: bool,
    reported: Seq<Match>,
)
    requires
        reported.to_multiset() == directory_records(
            entries,
            keyword,
            case_insensitive,
        ).to_multiset(),
    ensures
        reported.to_set() == expected_records(entries, keyword, case_insensitive),
{
    let records = directory_records(entries, keyword, case_insensitive);
    let expected = expected_records(entries, keyword, case_insensitive);
    reported.to_multiset_ensures();
    records.to_multiset_ensures();
    assert forall|m: Match| reported.to_set().contains(m) <==> expected.contains(m) by {
        assert(reported.contains(m) <==> records.contains(m)) by {
            assert(reported.to_multiset().count(m) == records.to_multiset().count(m));
        }
        lemma_directory_membership(entries, keyword, case_insensitive, m);
        if records.contains(m) {
            let e = choose|e: int|
                0 <= e < entries.len() && (#[trigger] entry_records(
                    entries[e],
                    keyword,
                    case_insensitive,
                )).contains(m);
            let lines = lines_of(entries[e].content->Ok_0);
            lemma_match_membership(entries[e].path, lines, keyword, case_insensitive, m);
            let n = choose|n: int|
                0 <= n < lines.len() && is_match(lines[n], keyword, case_insensitive) && m
                    == #[trigger] line_record(entries[e].path, lines, n);
            assert(is_hit(entries, keyword, case_insensitive, e, n));
        }
        if expected.contains(m) {
            let (e, n) = choose|e: int, n: int|
                #[trigger] is_hit(entries, keyword, case_insensitive, e, n) && m == hit(
                    entries,
                    e,
                    n,
                );
            let lines = lines_of(entries[e].content->Ok_0);
            lemma_match_membership(entries[e].path, lines, keyword, case_insensitive, m);
            assert(entry_records(entries[e], keyword, case_insensitive).contains(m));
        }
    }
    assert(reported.to_set() =~= expected);
}

/// An entry that is not searched has no part in the result, whatever reading
/// it would give: the records of the listing stay the same when that entry's
/// content is replaced by any other.
pub proof fn lemma_ineligible_entry_ignored(
    entries: Seq<Entry>,
    keyword: Seq<char>,
    case_insensitive: bool,
    e: int,
    content: Result<Seq<char>, FileError>,
)
    requires
        0 <= e < entries.len(),
        !eligible(entries[e].path, entries[e].is_file),
    ensures
        entry_records(entries[e], keyword, case_insensitive) == Seq::<Match>::empty(),
        directory_records(
            entries.update(e, with_content(entries[e], content)),
            keyword,
            case_insensitive,
        ) == directory_records(entries, keyword, case_insensitive),
{
    let each = |entry: Entry| entry_records(entry, keyword, case_insensitive);
    let changed = entries.update(e, with_content(entries[e], content));
    assert(changed.map_values(each) == entries.map_values(each));
}

/// A listing without an entry that is searched reports nothing, and that is
/// no error.
pub proof fn lemma_nothing_eligible(
    entries: Seq<Entry>,
    keyword: Seq<char>,
    case_insensitive: bool,
)
    requires
        forall|e: int|
            0 <= e < entries.len() ==> !eligible((#[trigger] entries[e]).path, entries[e].is_file),
    ensures
        directory_records(entries, keyword, case_insensitive) == Seq::<Match>::empty(),
        run_outcome(Ok(entries), keyword, case_insensitive) == Ok::<
            Seq<Seq<char>>,
            DirectoryError,
        >(Seq::empty()),
    decreases entries.len(),
{
    if entries.len() > 0 {
        let init = entries.drop_last();
        assert(entries == init.push(entries.last()));
        lemma_directory_records_push(init, entries.last(), keyword, case_insensitive);
        assert forall|e: int| 0 <= e < init.len() implies !eligible(
            (#[trigger] init[e]).path,
            init[e].is_file,
        ) by {
            assert(init[e] == entries[e]);
        }
        lemma_nothing_eligible(init, keyword, case_insensitive);
    }
    assert(report(Seq::<Match>::empty()) == Seq::<Seq<char>>::empty());
}

} // verus!
