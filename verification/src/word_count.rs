//! How often each word of a text occurs, most frequent words first.

use vstd::prelude::*;
use crate::dictionary::{
    chars_come_before, lemma_precedes_irreflexive, lemma_precedes_total,
    lemma_precedes_transitive, precedes,
};
use crate::text::{chars_of, lemma_run_len, run_len, string_of};

verus! {

/// The characters that separate words: those that Unicode calls white space.
pub open spec fn is_space(c: char) -> bool {
    ||| '\u{9}' <= c <= '\u{D}'
    ||| c == ' '
    ||| c == '\u{85}'
    ||| c == '\u{A0}'
    ||| c == '\u{1680}'
    ||| '\u{2000}' <= c <= '\u{200A}'
    ||| c == '\u{2028}'
    ||| c == '\u{2029}'
    ||| c == '\u{202F}'
    ||| c == '\u{205F}'
    ||| c == '\u{3000}'
}

/// Whether `c` separates words.
pub fn is_whitespace(c: char) -> (yes: bool)
    ensures
        yes == is_space(c),
{
    ('\u{9}' <= c && c <= '\u{D}') || c == ' ' || c == '\u{85}' || c == '\u{A0}' || c
        == '\u{1680}' || ('\u{2000}' <= c && c <= '\u{200A}') || c == '\u{2028}' || c
        == '\u{2029}' || c == '\u{202F}' || c == '\u{205F}' || c == '\u{3000}'
}

/// The characters that words are made of.
pub open spec fn within_word() -> spec_fn(char) -> bool {
    |c: char| !is_space(c)
}

/// The words of a text, in order: its longest runs of characters that are
/// not white space.
pub open spec fn words_of(s: Seq<char>) -> Seq<Seq<char>>
    decreases s.len(),
{
    let n = run_len(s, within_word()) as int;
    if s.len() == 0 {
        Seq::empty()
    } else if is_space(s[0]) {
        words_of(s.drop_first())
    } else if n < s.len() {
        seq![s.take(n)] + words_of(s.skip(n + 1))
    } else {
        seq![s]
    }
}

/// How often `word` occurs among `words`.
pub open spec fn occurrences(words: Seq<Seq<char>>, word: Seq<char>) -> nat {
    words.to_multiset().count(word)
}

/// The order of the result: the more frequent word first, and of two equally
/// frequent words the one that stands first in the dictionary.
pub open spec fn ranks_before(a: (Seq<char>, nat), b: (Seq<char>, nat)) -> bool {
    a.1 > b.1 || (a.1 == b.1 && precedes(a.0, b.0))
}

/// `ranking` lists the words of `words` with their frequencies: every entry
/// is a word that occurs, with the number of its occurrences; every word that
/// occurs has an entry; and the entries stand in the order of the result, so
/// that no word has two.
pub open spec fn is_ranking(ranking: Seq<(Seq<char>, nat)>, words: Seq<Seq<char>>) -> bool {
    &&& forall|i: int|
        0 <= i < ranking.len() ==> words.contains((#[trigger] ranking[i]).0) && ranking[i].1
            == occurrences(words, ranking[i].0)
    &&& forall|w: Seq<char>| #[trigger]
        words.contains(w) ==> exists|i: int|
            0 <= i < ranking.len() && (#[trigger] ranking[i]).0 == w
    &&& forall|i: int, j: int|
        0 <= i < j < ranking.len() ==> ranks_before(#[trigger] ranking[i], #[trigger] ranking[j])
}

/// Whether `a` and `b` hold the same characters.
fn same_word(a: &Vec<char>, b: &Vec<char>) -> (yes: bool)
    ensures
        yes == (a@ == b@),
{
    if a.len() != b.len() {
        return false;
    }
    let mut k: usize = 0;
    while k < a.len()
        invariant
            k <= a.len(),
            a.len() == b.len(),
            forall|j: int| 0 <= j < k ==> a@[j] == b@[j],
        decreases a.len() - k,
    {
        if a[k] != b[k] {
            return false;
        }
        k += 1;
    }
    assert(a@ =~= b@);
    true
}

/// The texts that a vector of words holds.
spec fn word_views(words: Seq<Vec<char>>) -> Seq<Seq<char>> {
    words.map_values(|w: Vec<char>| w@)
}

/// The words of `input`, in order.
fn tokens_of(input: &str) -> (tokens: Vec<Vec<char>>)
    ensures
        word_views(tokens@) == words_of(input@),
        tokens.len() <= input@.len(),
{
    let chars = chars_of(input);
    let mut tokens: Vec<Vec<char>> = Vec::new();
    let mut i: usize = 0;
    proof {
        assert(chars@.skip(0) == chars@);
        assert(word_views(tokens@) == Seq::<Seq<char>>::empty());
    }
    while i < chars.len()
        invariant
            i <= chars.len(),
            tokens.len() <= i,
            words_of(chars@) == word_views(tokens@) + words_of(chars@.skip(i as int)),
        decreases chars.len() - i,
    {
        let ghost rest = chars@.skip(i as int);
        let ghost done = word_views(tokens@);
        if is_whitespace(chars[i]) {
            proof {
                assert(rest.drop_first() == chars@.skip(i + 1));
            }
            i += 1;
        } else {
            let start: usize = i;
            let mut word: Vec<char> = Vec::new();
            while i < chars.len() && !is_whitespace(chars[i])
                invariant
                    start <= i <= chars.len(),
                    word@ == chars@.subrange(start as int, i as int),
                    forall|j: int| start <= j < i ==> !is_space(chars@[j]),
                decreases chars.len() - i,
            {
                word.push(chars[i]);
                i += 1;
            }
            proof {
                assert forall|j: int| 0 <= j < i - start implies within_word()(#[trigger] rest[j]) by {
                    assert(rest[j] == chars@[start + j]);
                }
                lemma_run_len(rest, within_word(), i - start);
                assert(rest.take(i - start) == word@);
                if i < chars.len() {
                    assert(rest.skip(i - start + 1) == chars@.skip(i + 1));
                } else {
                    assert(rest == word@);
                    assert(chars@.skip(i as int) == Seq::<char>::empty());
                }
            }
            tokens.push(word);
            proof {
                assert(word_views(tokens@) == done.push(word@));
            }
            if i < chars.len() {
                i += 1;
            }
        }
    }
    proof {
        assert(chars@.skip(chars.len() as int) == Seq::<char>::empty());
        assert(word_views(tokens@) + Seq::<Seq<char>>::empty() == word_views(tokens@));
    }
    tokens
}

/// One more word raises the number of its own occurrences by one and leaves
/// those of every other word as they were.
pub proof fn lemma_occurrences_push(words: Seq<Seq<char>>, word: Seq<char>, last: Seq<char>)
    ensures
        occurrences(words.push(last), word) == occurrences(words, word) + if word == last {
            1nat
        } else {
            0nat
        },
{
    broadcast use vstd::multiset::group_multiset_axioms;

    vstd::seq_lib::to_multiset_build(words, last);
}

/// Of two entries with different words one ranks before the other.
pub proof fn lemma_ranks_total(a: (Seq<char>, nat), b: (Seq<char>, nat))
    requires
        a.0 != b.0,
    ensures
        ranks_before(a, b) || ranks_before(b, a),
{
    lemma_precedes_total(a.0, b.0);
}

/// What ranks before an entry ranks before all that the entry ranks before.
pub proof fn lemma_ranks_transitive(a: (Seq<char>, nat), b: (Seq<char>, nat), c: (Seq<char>, nat))
    requires
        ranks_before(a, b),
        ranks_before(b, c),
    ensures
        ranks_before(a, c),
{
    if a.1 == b.1 && b.1 == c.1 {
        lemma_precedes_transitive(a.0, b.0, c.0);
    }
}

/// The word of the tally's entry at index `i`.
spec fn word_at(words: Seq<Seq<char>>, firsts: Seq<usize>, i: int) -> Seq<char> {
    words[firsts[i] as int]
}

/// The tally's entry at index `i`: its word and the number counted for it.
spec fn entry_at(
    words: Seq<Seq<char>>,
    firsts: Seq<usize>,
    counts: Seq<usize>,
    i: int,
) -> (Seq<char>, nat) {
    (word_at(words, firsts, i), counts[i] as nat)
}

/// `firsts` and `counts` tally the first `t` of `words`: each entry names a
/// place among them where its word stands and holds the number of that
/// word's occurrences among them, no two entries have the same word, and
/// every one of the first `t` words has an entry.
spec fn tallies(
    words: Seq<Seq<char>>,
    t: int,
    firsts: Seq<usize>,
    counts: Seq<usize>,
) -> bool {
    &&& firsts.len() == counts.len()
    &&& forall|i: int|
        0 <= i < firsts.len() ==> firsts[i] < t && counts[i] == occurrences(
            words.take(t),
            #[trigger] word_at(words, firsts, i),
        )
    &&& forall|i: int, j: int|
        0 <= i < j < firsts.len() ==> #[trigger] word_at(words, firsts, i) != #[trigger] word_at(
            words,
            firsts,
            j,
        )
    &&& forall|k: int|
        0 <= k < t ==> exists|i: int|
            0 <= i < firsts.len() && #[trigger] word_at(words, firsts, i) == #[trigger] words[k]
}

/// Counts the occurrences of each word of `tokens`.
fn tally(tokens: &Vec<Vec<char>>) -> (result: (Vec<usize>, Vec<usize>))
    ensures
        tallies(word_views(tokens@), tokens.len() as int, result.0@, result.1@),
        forall|i: int| 0 <= i < result.0.len() ==> result.0[i] < tokens.len(),
{
    let ghost words = word_views(tokens@);
    let mut firsts: Vec<usize> = Vec::new();
    let mut counts: Vec<usize> = Vec::new();
    let mut t: usize = 0;
    while t < tokens.len()
        invariant
            t <= tokens.len(),
            words == word_views(tokens@),
            tallies(words, t as int, firsts@, counts@),
            forall|i: int| 0 <= i < counts.len() ==> counts[i] <= t,
            forall|i: int| 0 <= i < firsts.len() ==> firsts[i] < t,
        decreases tokens.len() - t,
    {
        let ghost seen = words.take(t as int);
        let ghost old_firsts = firsts@;
        let ghost old_counts = counts@;
        let mut i: usize = 0;
        while i < firsts.len() && !same_word(&tokens[firsts[i]], &tokens[t])
            invariant
                i <= firsts.len(),
                t < tokens.len(),
                words == word_views(tokens@),
                forall|j: int| 0 <= j < firsts.len() ==> firsts[j] < t,
                forall|j: int| 0 <= j < i ==> word_at(words, firsts@, j) != words[t as int],
            decreases firsts.len() - i,
        {
            i += 1;
        }
        proof {
            assert(words.take(t + 1) == seen.push(words[t as int]));
            assert forall|j: int| 0 <= j < old_firsts.len() implies occurrences(
                words.take(t + 1),
                #[trigger] word_at(words, old_firsts, j),
            ) == old_counts[j] + if word_at(words, old_firsts, j) == words[t as int] {
                1nat
            } else {
                0nat
            } by {
                lemma_occurrences_push(seen, word_at(words, old_firsts, j), words[t as int]);
            }
        }
        if i < firsts.len() {
            let raised: usize = counts[i] + 1;
            counts.set(i, raised);
            proof {
                assert(word_at(words, old_firsts, i as int) == words[t as int]);
                assert forall|j: int| 0 <= j < firsts.len() implies counts[j] == occurrences(
                    words.take(t + 1),
                    #[trigger] word_at(words, firsts@, j),
                ) by {
                    if j != i {
                        assert(word_at(words, old_firsts, j) != word_at(words, old_firsts, i as int));
                    }
                }
                assert forall|k: int| 0 <= k < t + 1 implies exists|j: int|
                    0 <= j < firsts.len() && #[trigger] word_at(words, firsts@, j)
                        == #[trigger] words[k] by {
                    if k == t {
                        assert(word_at(words, firsts@, i as int) == words[k]);
                    }
                }
            }
        } else {
            proof {
                seen.to_multiset_ensures();
                if seen.contains(words[t as int]) {
                    let k = choose|k: int| 0 <= k < seen.len() && seen[k] == words[t as int];
                    assert(words[k] == words[t as int]);
                    let j = choose|j: int|
                        0 <= j < old_firsts.len() && #[trigger] word_at(words, old_firsts, j)
                            == words[k];
                    assert(false);
                }
                assert(occurrences(seen, words[t as int]) == 0);
                lemma_occurrences_push(seen, words[t as int], words[t as int]);
            }
            firsts.push(t);
            counts.push(1);
            proof {
                assert forall|j: int| 0 <= j < firsts.len() implies firsts[j] < t + 1 && counts[j]
                    == occurrences(words.take(t + 1), #[trigger] word_at(words, firsts@, j)) by {
                    if j < old_firsts.len() {
                        assert(word_at(words, firsts@, j) == word_at(words, old_firsts, j));
                    }
                }
                assert forall|a: int, b: int| 0 <= a < b < firsts.len() implies #[trigger] word_at(
                    words,
                    firsts@,
                    a,
                ) != #[trigger] word_at(words, firsts@, b) by {
                    assert(word_at(words, firsts@, a) == word_at(words, old_firsts, a));
                    if b < old_firsts.len() {
                        assert(word_at(words, firsts@, b) == word_at(words, old_firsts, b));
                    }
                }
                assert forall|k: int| 0 <= k < t + 1 implies exists|j: int|
                    0 <= j < firsts.len() && #[trigger] word_at(words, firsts@, j)
                        == #[trigger] words[k] by {
                    if k == t {
                        assert(word_at(words, firsts@, old_firsts.len() as int) == words[k]);
                    } else {
                        let j = choose|j: int|
                            0 <= j < old_firsts.len() && #[trigger] word_at(words, old_firsts, j)
                                == words[k];
                        assert(word_at(words, firsts@, j) == words[k]);
                    }
                }
            }
        }
        t += 1;
    }
    (firsts, counts)
}

/// The tally's entry that stands at place `j` of `order`.
spec fn ranked(
    words: Seq<Seq<char>>,
    firsts: Seq<usize>,
    counts: Seq<usize>,
    order: Seq<usize>,
    j: int,
) -> (Seq<char>, nat) {
    entry_at(words, firsts, counts, order[j] as int)
}

/// Whether the tally's entry at `a` ranks before its entry at `b`.
fn ranks_first(
    tokens: &Vec<Vec<char>>,
    firsts: &Vec<usize>,
    counts: &Vec<usize>,
    a: usize,
    b: usize,
) -> (yes: bool)
    requires
        firsts.len() == counts.len(),
        a < firsts.len(),
        b < firsts.len(),
        firsts[a as int] < tokens.len(),
        firsts[b as int] < tokens.len(),
    ensures
        yes == ranks_before(
            entry_at(word_views(tokens@), firsts@, counts@, a as int),
            entry_at(word_views(tokens@), firsts@, counts@, b as int),
        ),
{
    counts[a] > counts[b] || (counts[a] == counts[b] && chars_come_before(
        &tokens[firsts[a]],
        &tokens[firsts[b]],
    ))
}

/// The places of the tally's entries in the order of the result.
fn rank(tokens: &Vec<Vec<char>>, firsts: &Vec<usize>, counts: &Vec<usize>) -> (order: Vec<usize>)
    requires
        tallies(word_views(tokens@), tokens.len() as int, firsts@, counts@),
        forall|i: int| 0 <= i < firsts.len() ==> firsts[i] < tokens.len(),
    ensures
        forall|j: int| 0 <= j < order.len() ==> order[j] < firsts.len(),
        forall|i: usize| i < firsts.len() ==> #[trigger] order@.contains(i),
        forall|a: int, b: int|
            0 <= a < b < order.len() ==> ranks_before(
                #[trigger] ranked(word_views(tokens@), firsts@, counts@, order@, a),
                #[trigger] ranked(word_views(tokens@), firsts@, counts@, order@, b),
            ),
{
    let ghost words = word_views(tokens@);
    let mut order: Vec<usize> = Vec::new();
    let mut k: usize = 0;
    while k < firsts.len()
        invariant
            k <= firsts.len(),
            words == word_views(tokens@),
            tallies(words, tokens.len() as int, firsts@, counts@),
            forall|i: int| 0 <= i < firsts.len() ==> firsts[i] < tokens.len(),
            forall|j: int| 0 <= j < order.len() ==> order[j] < k,
            forall|i: usize| i < k ==> #[trigger] order@.contains(i),
            forall|a: int, b: int|
                0 <= a < b < order.len() ==> ranks_before(
                    #[trigger] ranked(words, firsts@, counts@, order@, a),
                    #[trigger] ranked(words, firsts@, counts@, order@, b),
                ),
        decreases firsts.len() - k,
    {
        let ghost entry = entry_at(words, firsts@, counts@, k as int);
        let mut p: usize = 0;
        while p < order.len() && !ranks_first(tokens, firsts, counts, k, order[p])
            invariant
                p <= order.len(),
                k < firsts.len(),
                firsts.len() == counts.len(),
                words == word_views(tokens@),
                entry == entry_at(words, firsts@, counts@, k as int),
                forall|i: int| 0 <= i < firsts.len() ==> firsts[i] < tokens.len(),
                forall|j: int| 0 <= j < order.len() ==> order[j] < k,
                forall|j: int|
                    0 <= j < p ==> !ranks_before(
                        entry,
                        #[trigger] ranked(words, firsts@, counts@, order@, j),
                    ),
            decreases order.len() - p,
        {
            p += 1;
        }
        let ghost before = order@;
        order.insert(p, k);
        proof {
            assert forall|i: usize| i < k + 1 implies #[trigger] order@.contains(i) by {
                if i == k {
                    assert(order@[p as int] == i);
                } else {
                    assert(before.contains(i));
                    let x = choose|x: int| 0 <= x < before.len() && before[x] == i;
                    if x < p {
                        assert(order@[x] == i);
                    } else {
                        assert(order@[x + 1] == i);
                    }
                }
            }
            assert forall|a: int, b: int| 0 <= a < b < order.len() implies ranks_before(
                #[trigger] ranked(words, firsts@, counts@, order@, a),
                #[trigger] ranked(words, firsts@, counts@, order@, b),
            ) by {
                let was_a = if a < p {
                    a
                } else {
                    a - 1
                };
                let was_b = if b < p {
                    b
                } else {
                    b - 1
                };
                if a != p && b != p {
                    assert(ranked(words, firsts@, counts@, order@, a) == ranked(
                        words,
                        firsts@,
                        counts@,
                        before,
                        was_a,
                    ));
                    assert(ranked(words, firsts@, counts@, order@, b) == ranked(
                        words,
                        firsts@,
                        counts@,
                        before,
                        was_b,
                    ));
                } else if b == p {
                    let earlier = ranked(words, firsts@, counts@, before, a);
                    assert(ranked(words, firsts@, counts@, order@, a) == earlier);
                    assert(ranked(words, firsts@, counts@, order@, b) == entry);
                    assert(!ranks_before(entry, earlier));
                    assert(before[a] < k);
                    assert(word_at(words, firsts@, before[a] as int) != word_at(
                        words,
                        firsts@,
                        k as int,
                    ));
                    lemma_ranks_total(earlier, entry);
                } else {
                    let next = ranked(words, firsts@, counts@, before, p as int);
                    let later = ranked(words, firsts@, counts@, before, was_b);
                    assert(ranked(words, firsts@, counts@, order@, a) == entry);
                    assert(ranked(words, firsts@, counts@, order@, b) == later);
                    assert(ranks_before(entry, next));
                    if was_b > p {
                        lemma_ranks_transitive(entry, next, later);
                    }
                }
            }
        }
        k += 1;
    }
    order
}

/// The entries of a result, each word as a sequence of characters.
pub open spec fn ranking_view(ranking: Seq<(String, usize)>) -> Seq<(Seq<char>, nat)> {
    ranking.map_values(|entry: (String, usize)| (entry.0@, entry.1 as nat))
}

/// The words of `input`, which white space separates, each with the number
/// of its occurrences: the most frequent first, and equally frequent words
/// in dictionary order.
pub fn deal_string(input: &str) -> (ranking: Vec<(String, usize)>)
    ensures
        is_ranking(ranking_view(ranking@), words_of(input@)),
{
    let tokens = tokens_of(input);
    let (firsts, counts) = tally(&tokens);
    let order = rank(&tokens, &firsts, &counts);
    let ghost words = word_views(tokens@);
    let mut ranking: Vec<(String, usize)> = Vec::new();
    let mut j: usize = 0;
    while j < order.len()
        invariant
            j <= order.len(),
            ranking.len() == j,
            words == word_views(tokens@),
            firsts.len() == counts.len(),
            forall|i: int| 0 <= i < firsts.len() ==> firsts[i] < tokens.len(),
            forall|x: int| 0 <= x < order.len() ==> order[x] < firsts.len(),
            forall|x: int|
                0 <= x < j ==> #[trigger] ranking_view(ranking@)[x] == ranked(
                    words,
                    firsts@,
                    counts@,
                    order@,
                    x,
                ),
        decreases order.len() - j,
    {
        let ghost before = ranking_view(ranking@);
        let i: usize = order[j];
        let word = string_of(&tokens[firsts[i]]);
        ranking.push((word, counts[i]));
        proof {
            assert(ranking_view(ranking@) == before.push(
                ranked(words, firsts@, counts@, order@, j as int),
            ));
        }
        j += 1;
    }
    proof {
        let result = ranking_view(ranking@);
        assert(words.take(tokens.len() as int) == words);
        assert forall|x: int| 0 <= x < result.len() implies words.contains(
            (#[trigger] result[x]).0,
        ) && result[x].1 == occurrences(words, result[x].0) by {
            let i = order[x] as int;
            assert(result[x] == ranked(words, firsts@, counts@, order@, x));
            assert(result[x].0 == word_at(words, firsts@, i));
            assert(words[firsts[i] as int] == result[x].0);
        }
        assert forall|w: Seq<char>| #[trigger] words.contains(w) implies exists|x: int|
            0 <= x < result.len() && (#[trigger] result[x]).0 == w by {
            let k = choose|k: int| 0 <= k < words.len() && words[k] == w;
            let i = choose|i: int|
                0 <= i < firsts.len() && #[trigger] word_at(words, firsts@, i) == words[k];
            assert(order@.contains(i as usize));
            let x = choose|x: int| 0 <= x < order.len() && order@[x] == i as usize;
            assert(result[x] == ranked(words, firsts@, counts@, order@, x));
        }
        assert forall|a: int, b: int| 0 <= a < b < result.len() implies ranks_before(
            #[trigger] result[a],
            #[trigger] result[b],
        ) by {
            assert(result[a] == ranked(words, firsts@, counts@, order@, a));
            assert(result[b] == ranked(words, firsts@, counts@, order@, b));
        }
    }
    ranking
}

/// Of two entries at most one ranks before the other, and none before itself.
pub proof fn lemma_ranks_asymmetric(a: (Seq<char>, nat), b: (Seq<char>, nat))
    requires
        ranks_before(a, b),
    ensures
        !ranks_before(b, a),
{
    if a.1 == b.1 && precedes(b.0, a.0) {
        lemma_precedes_transitive(a.0, b.0, a.0);
        lemma_precedes_irreflexive(a.0);
    }
}

/// The entries that a text with these words owes: each word that occurs,
/// with the number of its occurrences.
pub open spec fn owed_entries(words: Seq<Seq<char>>) -> Set<(Seq<char>, nat)> {
    Set::new(|e: (Seq<char>, nat)| words.contains(e.0) && e.1 == occurrences(words, e.0))
}

/// `listing` holds exactly the members of `entries`, in the order of the
/// result.
pub open spec fn lists(listing: Seq<(Seq<char>, nat)>, entries: Set<(Seq<char>, nat)>) -> bool {
    &&& forall|i: int| 0 <= i < listing.len() ==> entries.contains(#[trigger] listing[i])
    &&& forall|e: (Seq<char>, nat)| #[trigger] entries.contains(e) ==> listing.contains(e)
    &&& forall|i: int, j: int|
        0 <= i < j < listing.len() ==> ranks_before(#[trigger] listing[i], #[trigger] listing[j])
}

/// The rest of a listing lists what is left of the entries without its first.
proof fn lemma_lists_rest(listing: Seq<(Seq<char>, nat)>, entries: Set<(Seq<char>, nat)>)
    requires
        lists(listing, entries),
        listing.len() > 0,
    ensures
        lists(listing.drop_first(), entries.remove(listing[0])),
{
    let rest = listing.drop_first();
    let left = entries.remove(listing[0]);
    assert forall|i: int| 0 <= i < rest.len() implies left.contains(#[trigger] rest[i]) by {
        assert(rest[i] == listing[i + 1]);
        assert(ranks_before(listing[0], listing[i + 1]));
        lemma_ranks_asymmetric(listing[0], listing[i + 1]);
    }
    assert forall|e: (Seq<char>, nat)| #[trigger] left.contains(e) implies rest.contains(e) by {
        assert(entries.contains(e));
        let x = choose|x: int| 0 <= x < listing.len() && listing[x] == e;
        assert(rest[x - 1] == e);
    }
    assert forall|i: int, j: int| 0 <= i < j < rest.len() implies ranks_before(
        #[trigger] rest[i],
        #[trigger] rest[j],
    ) by {
        assert(rest[i] == listing[i + 1]);
        assert(rest[j] == listing[j + 1]);
    }
}

/// A set of entries has at most one listing in the order of the result.
pub proof fn lemma_listing_unique(
    a: Seq<(Seq<char>, nat)>,
    b: Seq<(Seq<char>, nat)>,
    entries: Set<(Seq<char>, nat)>,
)
    requires
        lists(a, entries),
        lists(b, entries),
    ensures
        a == b,
    decreases a.len(),
{
    if a.len() == 0 {
        if b.len() > 0 {
            assert(entries.contains(b[0]));
            assert(a.contains(b[0]));
        }
        assert(a =~= b);
    } else {
        assert(entries.contains(a[0]));
        assert(b.contains(a[0]));
        let j = choose|j: int| 0 <= j < b.len() && b[j] == a[0];
        assert(entries.contains(b[0]));
        assert(a.contains(b[0]));
        let i = choose|i: int| 0 <= i < a.len() && a[i] == b[0];
        if i > 0 && j > 0 {
            assert(ranks_before(a[0], a[i]));
            assert(ranks_before(b[0], b[j]));
            lemma_ranks_asymmetric(a[0], a[i]);
        }
        assert(a[0] == b[0]);
        lemma_lists_rest(a, entries);
        lemma_lists_rest(b, entries);
        lemma_listing_unique(a.drop_first(), b.drop_first(), entries.remove(a[0]));
        assert(a =~= seq![a[0]] + a.drop_first());
        assert(b =~= seq![b[0]] + b.drop_first());
    }
}

/// The words of a text have exactly one ranking: two results that both meet
/// the contract of `deal_string` for the same words are equal.
pub proof fn lemma_ranking_unique(
    a: Seq<(Seq<char>, nat)>,
    b: Seq<(Seq<char>, nat)>,
    words: Seq<Seq<char>>,
)
    requires
        is_ranking(a, words),
        is_ranking(b, words),
    ensures
        a == b,
{
    lemma_ranking_lists(a, words);
    lemma_ranking_lists(b, words);
    lemma_listing_unique(a, b, owed_entries(words));
}

/// A ranking of the words lists the entries that the words owe.
proof fn lemma_ranking_lists(ranking: Seq<(Seq<char>, nat)>, words: Seq<Seq<char>>)
    requires
        is_ranking(ranking, words),
    ensures
        lists(ranking, owed_entries(words)),
{
    let entries = owed_entries(words);
    assert forall|e: (Seq<char>, nat)| #[trigger] entries.contains(e) implies ranking.contains(
        e,
    ) by {
        assert(words.contains(e.0));
        let i = choose|i: int| 0 <= i < ranking.len() && (#[trigger] ranking[i]).0 == e.0;
        assert(ranking[i] == e);
    }
}

} // verus!
