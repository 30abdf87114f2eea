//! The recall engine: entries in chronological order, the most recent
//! entries, and entries ranked by a match score.

use crate::history::{HistoryEntry, Timestamp};
use crate::order::{
    arrange, is_stable_order, lemma_order_of_push, lemma_order_unique,
    lemma_sorted_order_is_stable, occurs, sorted_order, stable_order, stands_before, SortKey,
};
use crate::seqs::lemma_filter_contains_iff;
use vstd::prelude::*;

verus! {

/// The key that orders an entry by its instant alone.
pub open spec fn time_key(entry: HistoryEntry) -> SortKey {
    SortKey { major: 0, seconds: entry.timestamp.seconds, nanos: entry.timestamp.nanos }
}

/// The keys of `entries`, one for each.
pub open spec fn time_keys(entries: Seq<HistoryEntry>) -> Seq<SortKey> {
    Seq::new(entries.len(), |i: int| time_key(entries[i]))
}

/// `entries` from the oldest to the newest; entries of one instant keep the
/// order in which they stand in `entries`.
pub open spec fn chronological(entries: Seq<HistoryEntry>) -> Seq<HistoryEntry> {
    arrange(entries, sorted_order(time_keys(entries), false))
}

/// `entries` from the newest to the oldest; entries of one instant keep the
/// order in which they stand in `entries`.
pub open spec fn newest_first(entries: Seq<HistoryEntry>) -> Seq<HistoryEntry> {
    arrange(entries, sorted_order(time_keys(entries), true))
}

/// No entry of `entries` is older than one that stands before it.
pub open spec fn is_chronological(entries: Seq<HistoryEntry>) -> bool {
    forall|i: int, j: int|
        0 <= i < j < entries.len() ==> (#[trigger] entries[i]).timestamp.le(
            (#[trigger] entries[j]).timestamp,
        )
}

/// The last `limit` entries of `entries` in chronological order, oldest
/// first; all of them where there are no more than `limit`.
pub open spec fn recent(entries: Seq<HistoryEntry>, limit: nat) -> Seq<HistoryEntry> {
    let sorted = chronological(entries);
    if sorted.len() > limit {
        sorted.skip(sorted.len() - limit)
    } else {
        sorted
    }
}

/// The chronological order is non-decreasing by instant, and holds as many
/// entries as it was given.
pub proof fn lemma_chronological_is_sorted(entries: Seq<HistoryEntry>)
    requires
        entries.len() <= usize::MAX,
    ensures
        is_chronological(chronological(entries)),
        chronological(entries).len() == entries.len(),
{
    let keys = time_keys(entries);
    lemma_sorted_order_is_stable(keys, false);
    let order = sorted_order(keys, false);
    let sorted = chronological(entries);
    assert forall|i: int, j: int| 0 <= i < j < sorted.len() implies (#[trigger] sorted[i]).timestamp.le(
        (#[trigger] sorted[j]).timestamp,
    ) by {
        assert(stands_before(keys, order[i] as int, order[j] as int, false));
    }
}

/// The newest-first order is non-increasing by instant, and holds as many
/// entries as it was given.
pub proof fn lemma_newest_first_is_sorted(entries: Seq<HistoryEntry>)
    requires
        entries.len() <= usize::MAX,
    ensures
        forall|i: int, j: int|
            0 <= i < j < entries.len() ==> (#[trigger] newest_first(entries)[j]).timestamp.le(
                (#[trigger] newest_first(entries)[i]).timestamp,
            ),
        newest_first(entries).len() == entries.len(),
{
    let keys = time_keys(entries);
    lemma_sorted_order_is_stable(keys, true);
    let order = sorted_order(keys, true);
    let sorted = newest_first(entries);
    assert forall|i: int, j: int| 0 <= i < j < entries.len() implies (#[trigger] sorted[j]).timestamp.le(
        (#[trigger] sorted[i]).timestamp,
    ) by {
        assert(stands_before(keys, order[i] as int, order[j] as int, true));
    }
}

/// Ordering moves entries and neither adds nor drops one: each entry of
/// `entries` stands in both orders, and each entry of either order is one
/// of `entries`.
pub proof fn lemma_orders_keep_entries(entries: Seq<HistoryEntry>, descending: bool)
    requires
        entries.len() <= usize::MAX,
    ensures
        forall|i: int|
            0 <= i < entries.len() ==> arrange(
                entries,
                sorted_order(time_keys(entries), descending),
            ).contains(#[trigger] entries[i]),
        forall|p: int|
            0 <= p < entries.len() ==> entries.contains(
                #[trigger] arrange(entries, sorted_order(time_keys(entries), descending))[p],
            ),
{
    let keys = time_keys(entries);
    lemma_sorted_order_is_stable(keys, descending);
    let order = sorted_order(keys, descending);
    let sorted = arrange(entries, order);
    assert forall|i: int| 0 <= i < entries.len() implies sorted.contains(
        #[trigger] entries[i],
    ) by {
        assert(occurs(order, i));
        let p = choose|p: int| 0 <= p < order.len() && order[p] == i;
        assert(sorted[p] == entries[i]);
    }
    assert forall|p: int| 0 <= p < entries.len() implies entries.contains(
        #[trigger] sorted[p],
    ) by {
        assert(entries[order[p] as int] == sorted[p]);
    }
}

/// Entries that already stand in chronological order are left as they are.
pub proof fn lemma_chronological_fixes_sorted(entries: Seq<HistoryEntry>)
    requires
        entries.len() <= usize::MAX,
        is_chronological(entries),
    ensures
        chronological(entries) == entries,
{
    let keys = time_keys(entries);
    lemma_sorted_order_is_stable(keys, false);
    let order = sorted_order(keys, false);
    let same = Seq::new(entries.len(), |i: int| i as usize);
    assert forall|p: int, q: int| 0 <= p < q < same.len() implies stands_before(
        keys,
        #[trigger] same[p] as int,
        #[trigger] same[q] as int,
        false,
    ) by {
        assert(entries[p].timestamp.le(entries[q].timestamp));
    }
    assert forall|i: int| 0 <= i < keys.len() implies #[trigger] occurs(same, i) by {
        assert(same[i] == i);
    }
    assert(is_stable_order(same, keys, false));
    lemma_order_unique(order, same, keys, 0, keys.len() as int, false);
    assert(chronological(entries) =~= entries);
}

/// Where an entry of the instant `instant` goes into the chronological
/// `entries`: behind the last entry that is no later.
pub open spec fn slot(entries: Seq<HistoryEntry>, instant: Timestamp) -> int
    decreases entries.len(),
{
    if entries.len() == 0 {
        0
    } else if entries.last().timestamp.le(instant) {
        entries.len() as int
    } else {
        slot(entries.drop_last(), instant)
    }
}

/// The slot parts chronological entries into those that are no later than
/// the instant and those that are later.
pub proof fn lemma_slot(entries: Seq<HistoryEntry>, instant: Timestamp)
    requires
        is_chronological(entries),
    ensures
        0 <= slot(entries, instant) <= entries.len(),
        forall|p: int|
            0 <= p < slot(entries, instant) ==> (#[trigger] entries[p]).timestamp.le(instant),
        forall|p: int|
            slot(entries, instant) <= p < entries.len() ==> instant.lt(
                (#[trigger] entries[p]).timestamp,
            ),
    decreases entries.len(),
{
    if entries.len() > 0 {
        let last = entries.last();
        if last.timestamp.le(instant) {
            assert forall|p: int| 0 <= p < entries.len() implies (#[trigger] entries[p]).timestamp.le(
                instant,
            ) by {
                if p < entries.len() - 1 {
                    assert(entries[p].timestamp.le(entries[entries.len() - 1].timestamp));
                }
            }
        } else {
            let rest = entries.drop_last();
            assert forall|i: int, j: int| 0 <= i < j < rest.len() implies (#[trigger] rest[i]).timestamp.le(
                (#[trigger] rest[j]).timestamp,
            ) by {
                assert(rest[i] == entries[i] && rest[j] == entries[j]);
            }
            lemma_slot(rest, instant);
            let at = slot(rest, instant);
            assert forall|p: int| 0 <= p < at implies (#[trigger] entries[p]).timestamp.le(
                instant,
            ) by {
                assert(rest[p] == entries[p]);
            }
            assert forall|p: int| at <= p < entries.len() implies instant.lt(
                (#[trigger] entries[p]).timestamp,
            ) by {
                if p < rest.len() {
                    assert(rest[p] == entries[p]);
                }
            }
        }
    }
}

/// The chronological order of entries with one more behind them is the
/// chronological order of the entries with the new one put into its slot.
pub proof fn lemma_chronological_push(entries: Seq<HistoryEntry>, entry: HistoryEntry)
    requires
        entries.len() < usize::MAX,
    ensures
        chronological(entries.push(entry)) == chronological(entries).insert(
            slot(chronological(entries), entry.timestamp),
            entry,
        ),
{
    let keys = time_keys(entries);
    let sorted = chronological(entries);
    lemma_chronological_is_sorted(entries);
    lemma_sorted_order_is_stable(keys, false);
    lemma_slot(sorted, entry.timestamp);
    let at = slot(sorted, entry.timestamp);
    let order = sorted_order(keys, false);
    let longer = keys.push(time_key(entry));
    assert(time_keys(entries.push(entry)) =~= longer);
    assert forall|p: int| 0 <= p < at implies stands_before(
        longer,
        #[trigger] order[p] as int,
        keys.len() as int,
        false,
    ) by {
        assert(sorted[p].timestamp.le(entry.timestamp));
        assert(longer[order[p] as int] == time_key(entries[order[p] as int]));
    }
    assert forall|p: int| at <= p < keys.len() implies stands_before(
        longer,
        keys.len() as int,
        #[trigger] order[p] as int,
        false,
    ) by {
        assert(entry.timestamp.lt(sorted[p].timestamp));
        assert(longer[order[p] as int] == time_key(entries[order[p] as int]));
    }
    lemma_order_of_push(keys, time_key(entry), at, false);
    assert(chronological(entries.push(entry)) =~= sorted.insert(at, entry));
}

/// Picking entries by a test and putting them in chronological order can
/// be done in either order: the entries that pass the test stand in the
/// chronological order of all entries as they stand in their own.
pub proof fn lemma_chronological_of_filter(
    entries: Seq<HistoryEntry>,
    pred: spec_fn(HistoryEntry) -> bool,
)
    requires
        entries.len() <= usize::MAX,
    ensures
        chronological(entries.filter(pred)) == chronological(entries).filter(pred),
    decreases entries.len(),
{
    broadcast use Seq::lemma_filter_len;

    reveal(Seq::filter);
    if entries.len() == 0 {
        lemma_chronological_is_sorted(entries);
        lemma_chronological_is_sorted(entries.filter(pred));
        assert(chronological(entries.filter(pred)) =~= chronological(entries).filter(pred));
    } else {
        let rest = entries.drop_last();
        let entry = entries.last();
        assert(rest.push(entry) =~= entries);
        lemma_chronological_of_filter(rest, pred);
        lemma_chronological_is_sorted(rest);
        let sorted = chronological(rest);
        lemma_slot(sorted, entry.timestamp);
        let at = slot(sorted, entry.timestamp);
        lemma_chronological_push(rest, entry);
        let front = sorted.take(at);
        let back = sorted.skip(at);
        let one = seq![entry];
        assert(sorted.insert(at, entry) =~= front + one + back);
        assert(sorted =~= front + back);
        Seq::filter_distributes_over_add(front + one, back, pred);
        Seq::filter_distributes_over_add(front, one, pred);
        Seq::filter_distributes_over_add(front, back, pred);
        assert(one.drop_last() =~= Seq::<HistoryEntry>::empty());
        assert(one.drop_last().filter(pred) =~= Seq::<HistoryEntry>::empty());
        assert(one.last() == entry);
        if pred(entry) {
            assert(one.filter(pred) =~= one);
            let picked = rest.filter(pred);
            assert(entries.filter(pred) == picked.push(entry));
            let shown = chronological(picked);
            assert(shown == front.filter(pred) + back.filter(pred));
            lemma_chronological_is_sorted(picked);
            let place = front.filter(pred).len() as int;
            assert forall|p: int| 0 <= p < place implies (#[trigger] shown[p]).timestamp.le(
                entry.timestamp,
            ) by {
                assert(shown[p] == front.filter(pred)[p]);
                lemma_filter_contains_iff(front, pred, shown[p]);
                assert(front.filter(pred).contains(shown[p]));
                let k = choose|k: int| 0 <= k < front.len() && front[k] == shown[p];
                assert(sorted[k] == shown[p]);
            }
            assert forall|p: int| place <= p < shown.len() implies entry.timestamp.lt(
                (#[trigger] shown[p]).timestamp,
            ) by {
                assert(shown[p] == back.filter(pred)[p - place]);
                lemma_filter_contains_iff(back, pred, shown[p]);
                assert(back.filter(pred).contains(shown[p]));
                let k = choose|k: int| 0 <= k < back.len() && back[k] == shown[p];
                assert(sorted[at + k] == shown[p]);
            }
            lemma_slot_is_the_parting(shown, entry.timestamp, place);
            lemma_chronological_push(picked, entry);
            assert(shown.insert(place, entry) =~= front.filter(pred) + one + back.filter(pred));
        } else {
            assert(one.filter(pred) =~= Seq::<HistoryEntry>::empty());
            assert(entries.filter(pred) == rest.filter(pred));
            assert(front.filter(pred) + one.filter(pred) + back.filter(pred) =~= front.filter(pred)
                + back.filter(pred));
        }
    }
}

/// The slot is the one place that parts chronological entries into those
/// that are no later than the instant and those that are later.
pub proof fn lemma_slot_is_the_parting(entries: Seq<HistoryEntry>, instant: Timestamp, at: int)
    requires
        is_chronological(entries),
        0 <= at <= entries.len(),
        forall|p: int| 0 <= p < at ==> (#[trigger] entries[p]).timestamp.le(instant),
        forall|p: int| at <= p < entries.len() ==> instant.lt((#[trigger] entries[p]).timestamp),
    ensures
        slot(entries, instant) == at,
{
    lemma_slot(entries, instant);
    let found = slot(entries, instant);
    if found < at {
        assert(entries[found].timestamp.le(instant));
        assert(instant.lt(entries[found].timestamp));
    } else if at < found {
        assert(entries[at].timestamp.le(instant));
        assert(instant.lt(entries[at].timestamp));
    }
}

/// Copies out the entries at the positions that `order` lists from `from`
/// on.
fn gather(entries: &Vec<HistoryEntry>, order: &Vec<usize>, from: usize) -> (out: Vec<HistoryEntry>)
    requires
        from <= order.len(),
        forall|p: int| 0 <= p < order.len() ==> #[trigger] order[p] < entries.len(),
    ensures
        out@ == arrange(entries@, order@).skip(from as int),
{
    let mut out: Vec<HistoryEntry> = Vec::new();
    let mut p: usize = from;
    while p < order.len()
        invariant
            from <= p <= order.len(),
            forall|p: int| 0 <= p < order.len() ==> #[trigger] order[p] < entries.len(),
            out@ == arrange(entries@, order@).subrange(from as int, p as int),
        decreases order.len() - p,
    {
        out.push(entries[order[p]].clone());
        p = p + 1;
        assert(out@ =~= arrange(entries@, order@).subrange(from as int, p as int));
    }
    assert(out@ =~= arrange(entries@, order@).skip(from as int));
    out
}

/// The keys of `entries`, computed.
fn keys_by_time(entries: &Vec<HistoryEntry>) -> (keys: Vec<SortKey>)
    ensures
        keys@ == time_keys(entries@),
{
    let mut keys: Vec<SortKey> = Vec::new();
    let mut i: usize = 0;
    while i < entries.len()
        invariant
            i <= entries.len(),
            keys@ == time_keys(entries@).take(i as int),
        decreases entries.len() - i,
    {
        keys.push(
            SortKey {
                major: 0,
                seconds: entries[i].timestamp.seconds,
                nanos: entries[i].timestamp.nanos,
            },
        );
        i = i + 1;
        assert(keys@ =~= time_keys(entries@).take(i as int));
    }
    assert(keys@ =~= time_keys(entries@));
    keys
}

/// Puts `entries` in chronological order.
pub fn sort_chronological(entries: &Vec<HistoryEntry>) -> (out: Vec<HistoryEntry>)
    ensures
        out@ == chronological(entries@),
        is_chronological(out@),
        out.len() == entries.len(),
{
    let keys = keys_by_time(entries);
    let order = stable_order(&keys, false);
    proof {
        lemma_chronological_is_sorted(entries@);
    }
    gather(entries, &order, 0)
}

/// Puts `entries` in order from the newest to the oldest.
pub fn sort_newest_first(entries: &Vec<HistoryEntry>) -> (out: Vec<HistoryEntry>)
    ensures
        out@ == newest_first(entries@),
        out.len() == entries.len(),
{
    let keys = keys_by_time(entries);
    let order = stable_order(&keys, true);
    proof {
        lemma_newest_first_is_sorted(entries@);
    }
    gather(entries, &order, 0)
}

/// The most recent `limit` entries of `entries`, oldest first.
pub fn most_recent(entries: &Vec<HistoryEntry>, limit: usize) -> (out: Vec<HistoryEntry>)
    ensures
        out@ == recent(entries@, limit as nat),
        is_chronological(out@),
        out.len() == if entries.len() > limit {
            limit
        } else {
            entries.len()
        },
{
    let keys = keys_by_time(entries);
    let order = stable_order(&keys, false);
    proof {
        lemma_chronological_is_sorted(entries@);
    }
    let from: usize = if order.len() > limit {
        order.len() - limit
    } else {
        0
    };
    gather(entries, &order, from)
}

/// The entries that have a score, each behind its score, in the order of
/// `entries`. The score of an entry is the one at its position in `scores`.
pub open spec fn matched(scores: Seq<Option<i64>>, entries: Seq<HistoryEntry>) -> Seq<
    (i64, HistoryEntry),
>
    decreases entries.len(),
{
    if entries.len() == 0 || scores.len() == 0 {
        Seq::empty()
    } else {
        let rest = matched(scores.drop_last(), entries.drop_last());
        match scores.last() {
            Some(score) => rest.push((score, entries.last())),
            None => rest,
        }
    }
}

/// The key that orders a scored entry: by its score, then by its instant.
pub open spec fn rank_key(scored: (i64, HistoryEntry)) -> SortKey {
    SortKey { major: scored.0, seconds: scored.1.timestamp.seconds, nanos: scored.1.timestamp.nanos }
}

/// The keys of `scored`, one for each.
pub open spec fn rank_keys(scored: Seq<(i64, HistoryEntry)>) -> Seq<SortKey> {
    Seq::new(scored.len(), |i: int| rank_key(scored[i]))
}

/// The scored entries from the best score to the worst; of two entries
/// with one score the more recent stands first, and entries that agree in
/// both keep the order of `entries`.
pub open spec fn ranking(scores: Seq<Option<i64>>, entries: Seq<HistoryEntry>) -> Seq<
    (i64, HistoryEntry),
> {
    let scored = matched(scores, entries);
    arrange(scored, sorted_order(rank_keys(scored), true))
}

/// The first `limit` entries of the ranking, best first.
pub open spec fn ranked(scores: Seq<Option<i64>>, entries: Seq<HistoryEntry>, limit: nat) -> Seq<
    HistoryEntry,
> {
    let all = ranking(scores, entries);
    Seq::new(
        if all.len() > limit {
            limit
        } else {
            all.len()
        },
        |p: int| all[p].1,
    )
}

/// There are no more scored entries than entries.
pub proof fn lemma_matched_len(scores: Seq<Option<i64>>, entries: Seq<HistoryEntry>)
    ensures
        matched(scores, entries).len() <= entries.len(),
    decreases entries.len(),
{
    if entries.len() > 0 && scores.len() > 0 {
        lemma_matched_len(scores.drop_last(), entries.drop_last());
    }
}

/// The ranking holds each scored entry once. A better score stands first;
/// with equal scores the later instant stands first.
pub proof fn lemma_ranking_is_sorted(scores: Seq<Option<i64>>, entries: Seq<HistoryEntry>)
    requires
        entries.len() <= usize::MAX,
    ensures
        ranking(scores, entries).len() == matched(scores, entries).len(),
        forall|p: int, q: int|
            0 <= p < q < ranking(scores, entries).len() ==> {
                let first = #[trigger] ranking(scores, entries)[p];
                let second = #[trigger] ranking(scores, entries)[q];
                first.0 > second.0 || (first.0 == second.0 && second.1.timestamp.le(
                    first.1.timestamp,
                ))
            },
{
    let scored = matched(scores, entries);
    lemma_matched_len(scores, entries);
    let keys = rank_keys(scored);
    lemma_sorted_order_is_stable(keys, true);
    let order = sorted_order(keys, true);
    let all = ranking(scores, entries);
    assert forall|p: int, q: int| 0 <= p < q < all.len() implies {
        let first = #[trigger] all[p];
        let second = #[trigger] all[q];
        first.0 > second.0 || (first.0 == second.0 && second.1.timestamp.le(first.1.timestamp))
    } by {
        assert(stands_before(keys, order[p] as int, order[q] as int, true));
    }
}

/// Of two ranked entries with one score, the more recent stands first.
pub proof fn lemma_ranking_breaks_ties_by_recency(
    scores: Seq<Option<i64>>,
    entries: Seq<HistoryEntry>,
    p: int,
    q: int,
)
    requires
        entries.len() <= usize::MAX,
        0 <= p < ranking(scores, entries).len(),
        0 <= q < ranking(scores, entries).len(),
        ranking(scores, entries)[p].0 == ranking(scores, entries)[q].0,
        ranking(scores, entries)[p].1.timestamp.lt(ranking(scores, entries)[q].1.timestamp),
    ensures
        q < p,
{
    lemma_ranking_is_sorted(scores, entries);
    if p < q {
        let first = ranking(scores, entries)[p];
        let second = ranking(scores, entries)[q];
        assert(second.1.timestamp.le(first.1.timestamp));
    }
}

/// Where every entry has a score, every entry is ranked: the scored
/// entries are the entries, each behind its score.
pub proof fn lemma_all_scored(scores: Seq<Option<i64>>, entries: Seq<HistoryEntry>)
    requires
        scores.len() == entries.len(),
        forall|i: int| 0 <= i < scores.len() ==> (#[trigger] scores[i]).is_some(),
    ensures
        matched(scores, entries) == Seq::new(
            entries.len(),
            |i: int| (scores[i].unwrap(), entries[i]),
        ),
    decreases entries.len(),
{
    let all = Seq::new(entries.len(), |i: int| (scores[i].unwrap(), entries[i]));
    if entries.len() > 0 {
        let shorter_scores = scores.drop_last();
        let shorter = entries.drop_last();
        assert forall|i: int| 0 <= i < shorter_scores.len() implies (#[trigger] shorter_scores[i]).is_some() by {
            assert(shorter_scores[i] == scores[i]);
        }
        lemma_all_scored(shorter_scores, shorter);
        assert(scores.last().is_some());
        assert(matched(scores, entries) =~= all);
    } else {
        assert(matched(scores, entries) =~= all);
    }
}

/// Where every entry has the same score, the ranking is the order from the
/// newest to the oldest, cut at the limit.
pub proof fn lemma_equal_scores_rank_by_recency(
    scores: Seq<Option<i64>>,
    entries: Seq<HistoryEntry>,
    limit: nat,
)
    requires
        entries.len() <= usize::MAX,
        scores.len() == entries.len(),
        forall|i: int| 0 <= i < scores.len() ==> #[trigger] scores[i] == Some(0i64),
    ensures
        ranked(scores, entries, limit) == newest_first(entries).take(
            if entries.len() > limit {
                limit as int
            } else {
                entries.len() as int
            },
        ),
        ranked(scores, entries, limit).len() == if entries.len() > limit {
            limit
        } else {
            entries.len()
        },
{
    lemma_all_scored(scores, entries);
    let scored = matched(scores, entries);
    assert(rank_keys(scored) =~= time_keys(entries));
    lemma_sorted_order_is_stable(time_keys(entries), true);
    let order = sorted_order(time_keys(entries), true);
    let count = if entries.len() > limit {
        limit as int
    } else {
        entries.len() as int
    };
    assert(ranked(scores, entries, limit) =~= newest_first(entries).take(count));
}

/// Ranks the entries that have a score and returns the best `max_results`
/// of them, best first. `scores` holds the score of each entry of
/// `entries`, or `None` where the entry does not match.
pub fn rank_scored(
    scores: &Vec<Option<i64>>,
    entries: &[HistoryEntry],
    max_results: usize,
) -> (out: Vec<HistoryEntry>)
    requires
        scores.len() == entries.len(),
    ensures
        out@ == ranked(scores@, entries@, max_results as nat),
{
    let mut keys: Vec<SortKey> = Vec::new();
    let mut picked: Vec<usize> = Vec::new();
    let mut i: usize = 0;
    while i < entries.len()
        invariant
            i <= entries.len(),
            scores.len() == entries.len(),
            picked.len() == keys.len(),
            keys@ == rank_keys(matched(scores@.take(i as int), entries@.take(i as int))),
            forall|k: int|
                0 <= k < picked.len() ==> #[trigger] picked[k] < i && matched(
                    scores@.take(i as int),
                    entries@.take(i as int),
                )[k].1 == entries[picked[k] as int],
        decreases entries.len() - i,
    {
        let ghost before = matched(scores@.take(i as int), entries@.take(i as int));
        proof {
            assert(scores@.take(i + 1).drop_last() =~= scores@.take(i as int));
            assert(entries@.take(i + 1).drop_last() =~= entries@.take(i as int));
            assert(scores@.take(i + 1).last() == scores@[i as int]);
            assert(entries@.take(i + 1).last() == entries@[i as int]);
        }
        match scores[i] {
            Some(score) => {
                keys.push(
                    SortKey {
                        major: score,
                        seconds: entries[i].timestamp.seconds,
                        nanos: entries[i].timestamp.nanos,
                    },
                );
                picked.push(i);
                proof {
                    let after = matched(scores@.take(i + 1), entries@.take(i + 1));
                    assert(after == before.push((score, entries@[i as int])));
                    assert(keys@ =~= rank_keys(after));
                }
            },
            None => {},
        }
        i = i + 1;
    }
    proof {
        assert(scores@.take(i as int) =~= scores@);
        assert(entries@.take(i as int) =~= entries@);
    }
    let order = stable_order(&keys, true);
    let ghost all = ranking(scores@, entries@);
    let count: usize = if order.len() > max_results {
        max_results
    } else {
        order.len()
    };
    let mut out: Vec<HistoryEntry> = Vec::new();
    let mut p: usize = 0;
    while p < count
        invariant
            p <= count <= order.len(),
            order.len() == picked.len(),
            all.len() == order.len(),
            forall|q: int| 0 <= q < order.len() ==> #[trigger] order[q] < picked.len(),
            forall|k: int| 0 <= k < picked.len() ==> #[trigger] picked[k] < entries.len(),
            forall|q: int|
                0 <= q < order.len() ==> (#[trigger] all[q]).1 == entries[picked[order[q] as int] as int],
            out@ == Seq::new(p as nat, |q: int| all[q].1),
        decreases count - p,
    {
        out.push(entries[picked[order[p]]].clone());
        p = p + 1;
        assert(out@ =~= Seq::new(p as nat, |q: int| all[q].1));
    }
    out
}

} // verus!
