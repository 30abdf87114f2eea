//! Fuzzy search over history entries.

use crate::history::HistoryEntry;
use crate::recall::{lemma_equal_scores_rank_by_recency, newest_first, rank_scored, ranked};
use fuzzy_matcher::skim::SkimMatcherV2;
use fuzzy_matcher::FuzzyMatcher;
use vstd::prelude::*;
use vstd::string::StrSliceExecFns;

verus! {

/// The longest text, in characters, that is scored for a query that is not
/// empty. The matcher adds up its scores in 32 bits, at most 32 for each
/// character.
pub const MAX_SCORED_CHARS: usize = 0x100_0000;

/// The place of a character among the characters when the case of the
/// letters `A` to `Z` does not count: that of its lower-case letter.
pub open spec fn folded(c: char) -> int {
    if 'A' as int <= c as int <= 'Z' as int {
        c as int + 32
    } else {
        c as int
    }
}

/// The characters of `pattern` stand in `text` in their order, with any
/// characters between them, when the case of the letters `A` to `Z` does
/// not count.
pub open spec fn reads_in(pattern: Seq<char>, text: Seq<char>) -> bool
    decreases text.len(),
{
    if pattern.len() == 0 {
        true
    } else if text.len() == 0 {
        false
    } else if folded(pattern[0]) == folded(text[0]) {
        reads_in(pattern.skip(1), text.skip(1))
    } else {
        reads_in(pattern, text.skip(1))
    }
}

/// The score that a new skim matcher that ignores case gives to `choice`
/// for `pattern`, or `None` where `pattern` does not match.
pub uninterp spec fn skim_score(choice: Seq<char>, pattern: Seq<char>) -> Option<i64>;

/// Whether `query` matches `text`: the empty query matches every text, and
/// another query matches where it reads in the text and neither is
/// over-long.
pub open spec fn matches(query: Seq<char>, text: Seq<char>) -> bool {
    query.len() == 0 || (query.len() <= MAX_SCORED_CHARS && text.len() <= MAX_SCORED_CHARS
        && reads_in(query, text))
}

/// The score of `text` for `query`: 0 for the empty query, else that of the
/// skim matcher, and none for a text or a query of more than
/// `MAX_SCORED_CHARS` characters.
pub open spec fn match_score(query: Seq<char>, text: Seq<char>) -> Option<i64> {
    if query.len() == 0 {
        Some(0i64)
    } else if query.len() <= MAX_SCORED_CHARS && text.len() <= MAX_SCORED_CHARS {
        skim_score(text, query)
    } else {
        None
    }
}

/// The score of each entry's command for `query`.
pub open spec fn command_scores(query: Seq<char>, entries: Seq<HistoryEntry>) -> Seq<Option<i64>> {
    Seq::new(entries.len(), |i: int| match_score(query, entries[i].command@))
}

/// Each of `entries` has a score for `query` exactly when `query` matches
/// its command.
pub open spec fn scored_where_matched(query: Seq<char>, entries: Seq<HistoryEntry>) -> bool {
    forall|i: int|
        0 <= i < entries.len() ==> (#[trigger] command_scores(query, entries)[i]).is_some()
            == matches(query, entries[i].command@)
}

/// Scores commands against a query and ranks them.
pub struct FuzzySearcher {}

/// `FuzzyMatcher::fuzzy_match` of a `SkimMatcherV2` that is made for this
/// one call by `SkimMatcherV2::default` and set to ignore case by
/// `ignore_case`. Not proved, and read from the matcher's source: a new
/// matcher has an empty score table, so the score depends on the two texts
/// alone; an empty pattern gets the score 0 before the choice is looked at;
/// another pattern gets a score exactly when its characters are found in
/// the choice one after the other, compared without regard to ASCII case.
/// The lengths are bounded because the matcher adds scores in 32 bits.
#[verifier::external_body]
fn skim_match(choice: &str, pattern: &str) -> (r: Option<i64>)
    requires
        pattern@.len() == 0 || (choice@.len() <= MAX_SCORED_CHARS && pattern@.len()
            <= MAX_SCORED_CHARS),
    ensures
        r == skim_score(choice@, pattern@),
        pattern@.len() == 0 ==> r == Some(0i64),
        r.is_some() == reads_in(pattern@, choice@),
{
    SkimMatcherV2::default().ignore_case().fuzzy_match(choice, pattern)
}

impl FuzzySearcher {
    pub fn new() -> Self {
        FuzzySearcher {  }
    }

    /// The score of `text` for `query`, or `None` where `query` does not
    /// match it.
    pub fn score(&self, query: &str, text: &str) -> (r: Option<i64>)
        ensures
            r == match_score(query@, text@),
            r.is_some() == matches(query@, text@),
    {
        if query.is_empty() || (query.unicode_len() <= MAX_SCORED_CHARS && text.unicode_len()
            <= MAX_SCORED_CHARS) {
            skim_match(text, query)
        } else {
            None
        }
    }

    /// The score of each entry's command for `query`; an entry has one
    /// exactly when `query` matches its command.
    pub fn scores(&self, query: &str, entries: &[HistoryEntry]) -> (out: Vec<Option<i64>>)
        ensures
            out@ == command_scores(query@, entries@),
            forall|i: int|
                0 <= i < entries.len() ==> (#[trigger] out[i]).is_some() == matches(
                    query@,
                    entries[i].command@,
                ),
    {
        let mut out: Vec<Option<i64>> = Vec::new();
        let mut i: usize = 0;
        while i < entries.len()
            invariant
                i <= entries.len(),
                out@ == command_scores(query@, entries@).take(i as int),
                forall|k: int|
                    0 <= k < i ==> (#[trigger] out[k]).is_some() == matches(
                        query@,
                        entries[k].command@,
                    ),
            decreases entries.len() - i,
        {
            out.push(self.score(query, entries[i].command.as_str()));
            i = i + 1;
            assert(out@ =~= command_scores(query@, entries@).take(i as int));
        }
        assert(out@ =~= command_scores(query@, entries@));
        out
    }

    /// The `max_results` entries whose command matches `query` best, best
    /// first; of two with one score the more recent first. An entry has a
    /// score exactly when `query` matches its command.
    pub fn search(&self, query: &str, entries: &[HistoryEntry], max_results: usize) -> (out: Vec<
        HistoryEntry,
    >)
        ensures
            out@ == ranked(command_scores(query@, entries@), entries@, max_results as nat),
            scored_where_matched(query@, entries@),
    {
        let scores = self.scores(query, entries);
        rank_scored(&scores, entries, max_results)
    }
}

/// Under the empty query every entry has a score, as the empty query
/// matches every command.
pub proof fn lemma_empty_query_scores_all(entries: Seq<HistoryEntry>)
    ensures
        scored_where_matched(Seq::empty(), entries),
{
}

/// The empty query matches every entry, whatever its command: a search
/// with it returns the entries from the newest to the oldest, as many as
/// the limit lets through.
pub proof fn lemma_empty_query_matches_all(entries: Seq<HistoryEntry>, limit: nat)
    requires
        entries.len() <= usize::MAX,
    ensures
        ranked(command_scores(Seq::empty(), entries), entries, limit) == newest_first(
            entries,
        ).take(
            if entries.len() > limit {
                limit as int
            } else {
                entries.len() as int
            },
        ),
        ranked(command_scores(Seq::empty(), entries), entries, limit).len() == if entries.len()
            > limit {
            limit
        } else {
            entries.len()
        },
{
    lemma_equal_scores_rank_by_recency(command_scores(Seq::empty(), entries), entries, limit);
}

} // verus!
