//! How many lines and how many characters a text has.

use vstd::prelude::*;
use vstd::string::*;
use crate::decimal::{decimal, push_digits};
use crate::text::{chars_of, lemma_run_len, lines_of, string_of, within_line};

verus! {

/// The characters of a text that are not line feeds.
pub open spec fn counted_chars(s: Seq<char>) -> Seq<char> {
    s.filter(within_line())
}

/// The number of lines of `content` and the number of its characters that
/// are not line feeds. A carriage return counts as a character.
pub fn count_lines_and_chars(content: &str) -> (counts: (usize, usize))
    ensures
        counts.0 == lines_of(content@).len(),
        counts.1 == counted_chars(content@).len(),
{
    let chars = chars_of(content);
    let mut line_count: usize = 0;
    let mut char_count: usize = 0;
    let mut start: usize = 0;
    let mut i: usize = 0;
    proof {
        assert(chars@.skip(0) == chars@);
        assert(chars@.take(0) == Seq::<char>::empty());
        reveal(Seq::filter);
    }
    while i < chars.len()
        invariant
            start <= i <= chars.len(),
            line_count <= start,
            char_count <= i,
            forall|j: int| start <= j < i ==> chars@[j] != '\n',
            lines_of(chars@).len() == line_count + lines_of(chars@.skip(start as int)).len(),
            char_count == counted_chars(chars@.take(i as int)).len(),
        decreases chars.len() - i,
    {
        proof {
            assert(chars@.take(i + 1) == chars@.take(i as int).push(chars@[i as int]));
            chars@.take(i as int).lemma_filter_push(chars@[i as int], within_line());
        }
        if chars[i] == '\n' {
            proof {
                let rest = chars@.skip(start as int);
                assert forall|j: int| 0 <= j < i - start implies within_line()(#[trigger] rest[j]) by {
                    assert(rest[j] == chars@[start + j]);
                }
                lemma_run_len(rest, within_line(), i - start);
                assert(rest.skip(i - start + 1) == chars@.skip(i + 1));
            }
            line_count += 1;
            start = i + 1;
        } else {
            char_count += 1;
        }
        i += 1;
    }
    proof {
        let rest = chars@.skip(start as int);
        assert forall|j: int| 0 <= j < rest.len() implies within_line()(#[trigger] rest[j]) by {
            assert(rest[j] == chars@[start + j]);
        }
        lemma_run_len(rest, within_line(), rest.len() as int);
        assert(chars@.take(chars.len() as int) == chars@);
    }
    if start < chars.len() {
        line_count += 1;
    }
    (line_count, char_count)
}

/// The two lines that state the counts.
pub open spec fn summary(line_count: nat, char_count: nat) -> Seq<char> {
    "Line count: "@ + decimal(line_count as int) + "\n"@
        + "Character count (excluding newlines): "@ + decimal(char_count as int) + "\n"@
}

/// The two lines that state the counts, each ended by a line feed.
pub fn format_counts(line_count: usize, char_count: usize) -> (text: String)
    ensures
        text@ == summary(line_count as nat, char_count as nat),
{
    let mut lines: Vec<char> = Vec::new();
    push_digits(&mut lines, line_count as u64);
    let mut chars: Vec<char> = Vec::new();
    push_digits(&mut chars, char_count as u64);
    let mut text = "Line count: ".to_owned();
    text.append(string_of(&lines).as_str());
    text.append("\n");
    text.append("Character count (excluding newlines): ");
    text.append(string_of(&chars).as_str());
    text.append("\n");
    text
}

} // verus!
