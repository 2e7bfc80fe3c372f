//! The messages that report finished downloads.

use vstd::prelude::*;
use vstd::string::*;
use crate::dictionary::{
    comes_before, lemma_precedes_irreflexive, lemma_precedes_transitive, precedes,
};

verus! {

/// What follows the address in the message of a finished download.
pub const DONE: &'static str = " + \u{4e0b}\u{8f7d}\u{5b8c}\u{6210}";

/// The message that reports the download from `url` as finished.
pub open spec fn message(url: Seq<char>) -> Seq<char> {
    url + DONE@
}

/// The message that reports the download from `url` as finished.
pub fn download_message(url: &str) -> (text: String)
    ensures
        text@ == message(url@),
{
    let mut text = url.to_owned();
    text.append(DONE);
    text
}

/// The messages stand in dictionary order: none stands before one that
/// comes earlier.
pub open spec fn ordered(messages: Seq<Seq<char>>) -> bool {
    forall|i: int, j: int|
        0 <= i < j < messages.len() ==> !precedes(#[trigger] messages[j], #[trigger] messages[i])
}

/// The same messages in dictionary order, each as often as it was given.
/// Workers finish in no fixed order; the order of the result does not depend
/// on the order in which the messages arrived.
pub fn sort_messages(messages: &Vec<String>) -> (sorted: Vec<String>)
    ensures
        sorted.deep_view().to_multiset() == messages.deep_view().to_multiset(),
        ordered(sorted.deep_view()),
{
    let ghost all = messages.deep_view();
    let mut sorted: Vec<String> = Vec::new();
    let mut k: usize = 0;
    proof {
        assert(all.take(0) == Seq::<Seq<char>>::empty());
        assert(sorted.deep_view() == Seq::<Seq<char>>::empty());
    }
    while k < messages.len()
        invariant
            k <= messages.len(),
            all == messages.deep_view(),
            sorted.deep_view().to_multiset() == all.take(k as int).to_multiset(),
            ordered(sorted.deep_view()),
        decreases messages.len() - k,
    {
        let message = &messages[k];
        let ghost before = sorted.deep_view();
        let mut p: usize = 0;
        while p < sorted.len() && !comes_before(message.as_str(), sorted[p].as_str())
            invariant
                p <= sorted.len(),
                before == sorted.deep_view(),
                forall|j: int| 0 <= j < p ==> !precedes(message@, #[trigger] before[j]),
            decreases sorted.len() - p,
        {
            assert(before[p as int] == sorted[p as int]@);
            p += 1;
        }
        proof {
            if p < sorted.len() {
                assert(before[p as int] == sorted[p as int]@);
            }
        }
        sorted.insert(p, message.clone());
        proof {
            let after = sorted.deep_view();
            assert(all[k as int] == message@);
            assert(after == before.insert(p as int, message@));
            vstd::seq_lib::to_multiset_insert(before, p as int, message@);
            assert(all.take(k + 1) == all.take(k as int).push(message@));
            vstd::seq_lib::to_multiset_build(all.take(k as int), message@);
            assert forall|i: int, j: int| 0 <= i < j < after.len() implies !precedes(
                #[trigger] after[j],
                #[trigger] after[i],
            ) by {
                let was_i = if i < p {
                    i
                } else {
                    i - 1
                };
                let was_j = if j < p {
                    j
                } else {
                    j - 1
                };
                if i != p && j != p {
                    assert(after[i] == before[was_i]);
                    assert(after[j] == before[was_j]);
                } else if j == p {
                    assert(after[i] == before[i]);
                } else {
                    assert(after[j] == before[was_j]);
                    assert(precedes(message@, before[p as int]));
                    if precedes(before[was_j], message@) {
                        lemma_precedes_transitive(before[was_j], message@, before[p as int]);
                        if was_j == p {
                            lemma_precedes_irreflexive(before[p as int]);
                        }
                    }
                }
            }
        }
        k += 1;
    }
    assert(all.take(messages.len() as int) == all);
    sorted
}

} // verus!
