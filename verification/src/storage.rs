//! The log store: one primary log that is written, and further logs that
//! are only read. The store holds the logs as they were read, one record
//! for each line; writing them back is left to the caller.

use crate::history::{HistoryEntry, SearchScope};
use crate::recall::{
    chronological, is_chronological, lemma_chronological_fixes_sorted,
    lemma_chronological_is_sorted, lemma_chronological_of_filter, lemma_newest_first_is_sorted,
    newest_first, sort_chronological, sort_newest_first,
};
use crate::scope::{lemma_global_shows_all, select, select_entries, selects};
use vstd::prelude::*;

verus! {

/// The entries among `records`, in their order. A record that could not be
/// read as an entry is `None`, and is passed over.
pub open spec fn decoded(records: Seq<Option<HistoryEntry>>) -> Seq<HistoryEntry>
    decreases records.len(),
{
    if records.len() == 0 {
        Seq::empty()
    } else {
        match records.last() {
            Some(entry) => decoded(records.drop_last()).push(entry),
            None => decoded(records.drop_last()),
        }
    }
}

/// The entries of one log. A log that is not there has none.
pub open spec fn log_entries(log: Option<Seq<Option<HistoryEntry>>>) -> Seq<HistoryEntry> {
    match log {
        Some(records) => decoded(records),
        None => Seq::empty(),
    }
}

/// The entries of `logs`, log after log.
pub open spec fn merged(logs: Seq<Option<Seq<Option<HistoryEntry>>>>) -> Seq<HistoryEntry>
    decreases logs.len(),
{
    if logs.len() == 0 {
        Seq::empty()
    } else {
        merged(logs.drop_last()) + log_entries(logs.last())
    }
}

/// `entries` as the records of a log that holds nothing else.
pub open spec fn encoded(entries: Seq<HistoryEntry>) -> Seq<Option<HistoryEntry>> {
    Seq::new(entries.len(), |i: int| Some(entries[i]))
}

/// What a store holds: the records of the primary log, or `None` where
/// there is no such log yet, and those of each log that is only read, or
/// `None` where that log could not be opened.
pub struct StoreView {
    pub primary: Option<Seq<Option<HistoryEntry>>>,
    pub shared: Seq<Option<Seq<Option<HistoryEntry>>>>,
}

impl StoreView {
    /// Every entry of the store: those of the primary log, then those of
    /// the other logs.
    pub open spec fn entries(self) -> Seq<HistoryEntry> {
        log_entries(self.primary) + merged(self.shared)
    }

    /// What a read of the whole store returns.
    pub open spec fn read_all(self) -> Seq<HistoryEntry> {
        chronological(self.entries())
    }

    /// What a read through `scope` returns.
    pub open spec fn read(self, scope: SearchScope, dir: Seq<char>, session: Seq<char>) -> Seq<
        HistoryEntry,
    > {
        chronological(select(self.entries(), scope, dir, session, true))
    }

    /// The store after `entry` was appended to the primary log.
    pub open spec fn appended(self, entry: HistoryEntry) -> StoreView {
        StoreView {
            primary: Some(
                match self.primary {
                    Some(records) => records.push(Some(entry)),
                    None => seq![Some(entry)],
                },
            ),
            shared: self.shared,
        }
    }

    /// The store after the primary log was deleted.
    pub open spec fn cleared(self) -> StoreView {
        StoreView { primary: None, shared: self.shared }
    }

    /// The store after the primary log was deleted and `kept` appended to
    /// it, entry by entry.
    pub open spec fn rewritten(self, kept: Seq<HistoryEntry>) -> StoreView {
        StoreView {
            primary: if kept.len() == 0 {
                None
            } else {
                Some(encoded(kept))
            },
            shared: self.shared,
        }
    }

    /// The store after the entries that `scope` shows were cleared.
    pub open spec fn without(self, scope: SearchScope, dir: Seq<char>, session: Seq<char>) -> StoreView {
        self.rewritten(select(self.read_all(), scope, dir, session, false))
    }

    /// The entries that a compaction to `max_entries` keeps: the most
    /// recent ones, newest first.
    pub open spec fn most_recent(self, max_entries: nat) -> Seq<HistoryEntry> {
        newest_first(self.read_all()).take(max_entries as int)
    }

    /// The store after a compaction to `max_entries`.
    pub open spec fn compacted(self, max_entries: nat) -> StoreView {
        if self.read_all().len() <= max_entries {
            self
        } else {
            self.rewritten(self.most_recent(max_entries))
        }
    }
}

/// The store. A log is a sequence of records in the order of its lines; a
/// record is an entry, or `None` for a line that is no entry.
pub struct Storage {
    primary: Option<Vec<Option<HistoryEntry>>>,
    read_sources: Vec<Option<Vec<Option<HistoryEntry>>>>,
}

/// A log by its records.
pub open spec fn log_view(log: Option<Vec<Option<HistoryEntry>>>) -> Option<
    Seq<Option<HistoryEntry>>,
> {
    match log {
        Some(records) => Some(records@),
        None => None,
    }
}

impl View for Storage {
    type V = StoreView;

    closed spec fn view(&self) -> StoreView {
        StoreView {
            primary: log_view(self.primary),
            shared: Seq::new(self.read_sources.len() as nat, |i: int| log_view(self.read_sources[i])),
        }
    }
}

/// Appends the entries among `records` to `out`.
fn decode_into(records: &Vec<Option<HistoryEntry>>, out: &mut Vec<HistoryEntry>)
    ensures
        final(out)@ == old(out)@ + decoded(records@),
{
    let ghost start = out@;
    let mut i: usize = 0;
    while i < records.len()
        invariant
            i <= records.len(),
            out@ == start + decoded(records@.take(i as int)),
        decreases records.len() - i,
    {
        proof {
            assert(records@.take(i + 1).drop_last() =~= records@.take(i as int));
            assert(records@.take(i + 1).last() == records@[i as int]);
        }
        match &records[i] {
            Some(entry) => {
                out.push(entry.clone());
                assert(out@ =~= start + decoded(records@.take(i + 1)));
            },
            None => {},
        }
        i = i + 1;
    }
    assert(records@.take(i as int) =~= records@);
}

impl Storage {
    /// A store over the logs as they were read: `primary` is the log that
    /// is written, `additional` are the logs that are only read.
    pub fn new(
        primary: Option<Vec<Option<HistoryEntry>>>,
        additional: Vec<Option<Vec<Option<HistoryEntry>>>>,
    ) -> (store: Storage)
        ensures
            store@.primary == log_view(primary),
            store@.shared.len() == additional.len(),
            forall|i: int|
                0 <= i < additional.len() ==> #[trigger] store@.shared[i] == log_view(additional[i]),
    {
        Storage { primary, read_sources: additional }
    }

    /// The records of the primary log, or `None` where there is none.
    pub fn primary(&self) -> (log: &Option<Vec<Option<HistoryEntry>>>)
        ensures
            log_view(*log) == self@.primary,
    {
        &self.primary
    }

    /// Every entry of the store, log after log.
    fn collect(&self) -> (out: Vec<HistoryEntry>)
        ensures
            out@ == self@.entries(),
    {
        let mut out: Vec<HistoryEntry> = Vec::new();
        match &self.primary {
            Some(records) => {
                decode_into(records, &mut out);
            },
            None => {},
        }
        assert(out@ =~= log_entries(self@.primary));
        let mut i: usize = 0;
        while i < self.read_sources.len()
            invariant
                i <= self.read_sources.len(),
                out@ == log_entries(self@.primary) + merged(self@.shared.take(i as int)),
            decreases self.read_sources.len() - i,
        {
            proof {
                assert(self@.shared.take(i + 1).drop_last() =~= self@.shared.take(i as int));
                assert(self@.shared.take(i + 1).last() == log_view(self.read_sources[i as int]));
            }
            match &self.read_sources[i] {
                Some(records) => {
                    decode_into(records, &mut out);
                },
                None => {},
            }
            assert(out@ =~= log_entries(self@.primary) + merged(self@.shared.take(i + 1)));
            i = i + 1;
        }
        assert(self@.shared.take(i as int) =~= self@.shared);
        out
    }

    /// Appends `entry` to the primary log, which is begun where there was
    /// none.
    pub fn add_entry(&mut self, entry: HistoryEntry)
        ensures
            final(self)@ == old(self)@.appended(entry),
    {
        let mut records = match self.primary.take() {
            Some(records) => records,
            None => Vec::new(),
        };
        records.push(Some(entry));
        self.primary = Some(records);
        assert(self@.shared =~= old(self)@.shared);
    }

    /// Every entry of every log, in chronological order.
    pub fn get_all_entries(&self) -> (out: Vec<HistoryEntry>)
        ensures
            out@ == self@.read_all(),
            is_chronological(out@),
            out.len() == self@.entries().len(),
    {
        let all = self.collect();
        sort_chronological(&all)
    }

    /// The entries that `scope` shows, in chronological order.
    pub fn read_entries(&self, scope: SearchScope, directory: &str, session_id: &str) -> (out: Vec<
        HistoryEntry,
    >)
        ensures
            out@ == self@.read(scope, directory@, session_id@),
            is_chronological(out@),
    {
        let all = self.collect();
        let shown = select_entries(&all, scope, directory, session_id, true);
        sort_chronological(&shown)
    }

    /// The entries of `directory` and of the directories below it, in
    /// chronological order.
    pub fn get_local_entries(&self, directory: &str) -> (out: Vec<HistoryEntry>)
        ensures
            out@ == self@.read(SearchScope::Local, directory@, Seq::<char>::empty()),
            is_chronological(out@),
    {
        proof {
            reveal_strlit("");
            assert(""@ =~= Seq::<char>::empty());
        }
        self.read_entries(SearchScope::Local, directory, "")
    }

    /// The entries of the session `session_id`, in chronological order.
    pub fn get_session_entries(&self, session_id: &str) -> (out: Vec<HistoryEntry>)
        ensures
            out@ == self@.read(SearchScope::Session, Seq::<char>::empty(), session_id@),
            is_chronological(out@),
    {
        proof {
            reveal_strlit("");
            assert(""@ =~= Seq::<char>::empty());
        }
        self.read_entries(SearchScope::Session, "", session_id)
    }

    /// Deletes the primary log. The other logs are left as they are.
    pub fn clear_all_history(&mut self)
        ensures
            final(self)@ == old(self)@.cleared(),
    {
        self.primary = None;
        assert(self@.shared =~= old(self)@.shared);
    }

    /// Deletes the primary log and appends `kept` to it, entry by entry.
    fn rewrite(&mut self, kept: Vec<HistoryEntry>)
        ensures
            final(self)@ == old(self)@.rewritten(kept@),
    {
        self.clear_all_history();
        let mut i: usize = 0;
        while i < kept.len()
            invariant
                i <= kept.len(),
                self@ == old(self)@.rewritten(kept@.take(i as int)),
            decreases kept.len() - i,
        {
            self.add_entry(kept[i].clone());
            proof {
                let before = kept@.take(i as int);
                let after = kept@.take(i + 1);
                assert(encoded(after) =~= encoded(before).push(Some(kept@[i as int])));
                if i == 0 {
                    assert(encoded(after) =~= seq![Some(kept@[i as int])]);
                }
            }
            i = i + 1;
        }
        assert(kept@.take(i as int) =~= kept@);
    }

    /// Clears the entries of `directory` and of the directories below it:
    /// reads the whole store, deletes the primary log, and appends every
    /// other entry to it again.
    pub fn clear_local_history(&mut self, directory: &str)
        ensures
            final(self)@ == old(self)@.without(
                SearchScope::Local,
                directory@,
                Seq::<char>::empty(),
            ),
    {
        proof {
            reveal_strlit("");
            assert(""@ =~= Seq::<char>::empty());
        }
        let entries = self.get_all_entries();
        let kept = select_entries(&entries, SearchScope::Local, directory, "", false);
        self.rewrite(kept);
    }

    /// Clears the entries of the session `session_id`: reads the whole
    /// store, deletes the primary log, and appends every other entry to it
    /// again.
    pub fn clear_session_history(&mut self, session_id: &str)
        ensures
            final(self)@ == old(self)@.without(
                SearchScope::Session,
                Seq::<char>::empty(),
                session_id@,
            ),
    {
        proof {
            reveal_strlit("");
            assert(""@ =~= Seq::<char>::empty());
        }
        let entries = self.get_all_entries();
        let kept = select_entries(&entries, SearchScope::Session, "", session_id, false);
        self.rewrite(kept);
    }

    /// Keeps the `max_entries` most recent entries where the store holds
    /// more: deletes the primary log and appends them to it, newest first.
    /// Returns whether the primary log was written anew.
    pub fn compact_history(&mut self, max_entries: usize) -> (rewritten: bool)
        ensures
            final(self)@ == old(self)@.compacted(max_entries as nat),
            rewritten == (old(self)@.read_all().len() > max_entries),
    {
        let entries = self.get_all_entries();
        if entries.len() <= max_entries {
            return false;
        }
        let mut kept = sort_newest_first(&entries);
        kept.truncate(max_entries);
        self.rewrite(kept);
        true
    }
}

/// The records of `records` that are entries.
pub open spec fn readable(records: Seq<Option<HistoryEntry>>) -> Seq<Option<HistoryEntry>> {
    records.filter(|record: Option<HistoryEntry>| record.is_some())
}

/// A log yields one entry for each record that is one, however many
/// records that are none stand between them.
pub proof fn lemma_decoded_len(records: Seq<Option<HistoryEntry>>)
    ensures
        decoded(records).len() == readable(records).len(),
        decoded(records).len() <= records.len(),
    decreases records.len(),
{
    reveal(Seq::filter);
    if records.len() > 0 {
        lemma_decoded_len(records.drop_last());
    }
}

/// Decoding goes through a log piece by piece.
pub proof fn lemma_decoded_concat(
    front: Seq<Option<HistoryEntry>>,
    back: Seq<Option<HistoryEntry>>,
)
    ensures
        decoded(front + back) == decoded(front) + decoded(back),
    decreases back.len(),
{
    if back.len() == 0 {
        assert(front + back =~= front);
        assert(decoded(front) + decoded(back) =~= decoded(front));
    } else {
        lemma_decoded_concat(front, back.drop_last());
        assert((front + back).drop_last() =~= front + back.drop_last());
        assert((front + back).last() == back.last());
        match back.last() {
            Some(entry) => {
                assert(decoded(front + back) =~= decoded(front) + decoded(back));
            },
            None => {},
        }
    }
}

/// A record that is no entry, wherever it stands in a log, changes nothing
/// of what the log yields.
pub proof fn lemma_malformed_is_skipped(records: Seq<Option<HistoryEntry>>, at: int)
    requires
        0 <= at <= records.len(),
    ensures
        decoded(records.insert(at, None)) == decoded(records),
{
    let front = records.take(at);
    let back = records.skip(at);
    let bad = seq![None::<HistoryEntry>];
    assert(records.insert(at, None) =~= front + bad + back);
    assert(records =~= front + back);
    lemma_decoded_concat(front + bad, back);
    lemma_decoded_concat(front, bad);
    lemma_decoded_concat(front, back);
    assert(bad.drop_last() =~= Seq::<Option<HistoryEntry>>::empty());
    assert(decoded(bad.drop_last()) =~= Seq::<HistoryEntry>::empty());
    assert(bad.last().is_none());
    assert(decoded(bad) =~= Seq::<HistoryEntry>::empty());
    assert(decoded(front) + decoded(bad) =~= decoded(front));
}

/// A log that was written from entries yields these entries.
pub proof fn lemma_decoded_encoded(entries: Seq<HistoryEntry>)
    ensures
        decoded(encoded(entries)) == entries,
    decreases entries.len(),
{
    if entries.len() > 0 {
        lemma_decoded_encoded(entries.drop_last());
        assert(encoded(entries).drop_last() =~= encoded(entries.drop_last()));
        assert(decoded(encoded(entries)) =~= entries);
    } else {
        assert(decoded(encoded(entries)) =~= entries);
    }
}

/// A read returns its entries from the oldest to the newest, whatever the
/// logs hold and however many there are; a read of the whole store returns
/// as many entries as the logs hold.
pub proof fn lemma_reads_are_chronological(
    store: StoreView,
    scope: SearchScope,
    dir: Seq<char>,
    session: Seq<char>,
)
    requires
        store.entries().len() <= usize::MAX,
    ensures
        is_chronological(store.read_all()),
        store.read_all().len() == store.entries().len(),
        is_chronological(store.read(scope, dir, session)),
{
    broadcast use Seq::lemma_filter_len;

    lemma_chronological_is_sorted(store.entries());
    lemma_chronological_is_sorted(select(store.entries(), scope, dir, session, true));
}

/// An appended entry is the newest record of the primary log: the store
/// then holds it behind the entries that the primary log held, and before
/// those of the other logs.
pub proof fn lemma_append_adds_entry(store: StoreView, entry: HistoryEntry)
    ensures
        store.appended(entry).entries() == log_entries(store.primary).push(entry) + merged(
            store.shared,
        ),
        store.appended(entry).entries().len() == store.entries().len() + 1,
{
    match store.primary {
        Some(records) => {
            assert(records.push(Some(entry)).drop_last() =~= records);
        },
        None => {
            let only = seq![Some(entry)];
            assert(only.drop_last() =~= Seq::<Option<HistoryEntry>>::empty());
            assert(decoded(only.drop_last()) =~= Seq::<HistoryEntry>::empty());
            assert(only.last() == Some(entry));
            assert(decoded(only) =~= seq![entry]);
            assert(log_entries(store.primary).push(entry) =~= seq![entry]);
        },
    }
}

/// After an entry was appended to a store without entries, a read of the
/// whole store returns that entry and nothing else.
pub proof fn lemma_append_then_read(store: StoreView, entry: HistoryEntry)
    requires
        store.entries().len() == 0,
    ensures
        store.appended(entry).read_all() == seq![entry],
{
    lemma_append_adds_entry(store, entry);
    assert(store.appended(entry).entries() =~= seq![entry]);
    lemma_chronological_fixes_sorted(seq![entry]);
}

/// A compaction leaves no more entries in the primary log than it was asked
/// to keep, and no more than the store held.
pub proof fn lemma_compaction_bounds_primary(store: StoreView, max_entries: nat)
    requires
        store.entries().len() <= usize::MAX,
    ensures
        store.read_all().len() > max_entries ==> log_entries(
            store.compacted(max_entries).primary,
        ).len() == max_entries,
        store.compacted(max_entries).shared == store.shared,
{
    lemma_chronological_is_sorted(store.entries());
    if store.read_all().len() > max_entries {
        lemma_newest_first_is_sorted(store.read_all());
        let kept = store.most_recent(max_entries);
        assert(kept.len() == max_entries);
        lemma_decoded_encoded(kept);
    }
}

/// Where the logs that are only read hold no entry, or the store holds no
/// more entries than are to be kept, a second compaction changes nothing,
/// and after the first the store holds at most `max_entries` entries and
/// no more than before.
pub proof fn lemma_compaction_is_idempotent(store: StoreView, max_entries: nat)
    requires
        store.entries().len() <= usize::MAX,
        merged(store.shared).len() == 0 || store.entries().len() <= max_entries,
    ensures
        store.compacted(max_entries).compacted(max_entries) == store.compacted(max_entries),
        store.compacted(max_entries).read_all().len() <= max_entries,
        store.compacted(max_entries).read_all().len() <= store.read_all().len(),
        store.read_all().len() > max_entries ==> store.compacted(max_entries).read_all().len()
            == max_entries,
        store.read_all().len() <= max_entries ==> store.compacted(max_entries) == store,
{
    lemma_chronological_is_sorted(store.entries());
    if store.read_all().len() > max_entries {
        lemma_compaction_bounds_primary(store, max_entries);
        let after = store.compacted(max_entries);
        assert(after.entries() =~= log_entries(after.primary));
        lemma_chronological_is_sorted(after.entries());
    }
}

/// A compaction keeps the most recent entries: none that it drops is more
/// recent than one that it keeps.
pub proof fn lemma_compaction_keeps_newest(store: StoreView, max_entries: nat, kept: int, dropped: int)
    requires
        store.entries().len() <= usize::MAX,
        0 <= kept < max_entries <= dropped < store.read_all().len(),
    ensures
        store.most_recent(max_entries)[kept] == newest_first(store.read_all())[kept],
        newest_first(store.read_all())[dropped].timestamp.le(
            store.most_recent(max_entries)[kept].timestamp,
        ),
{
    lemma_chronological_is_sorted(store.entries());
    lemma_newest_first_is_sorted(store.read_all());
    let all = newest_first(store.read_all());
    assert(all[dropped].timestamp.le(all[kept].timestamp));
}

/// Merging goes through the logs group by group.
pub proof fn lemma_merged_concat(
    front: Seq<Option<Seq<Option<HistoryEntry>>>>,
    back: Seq<Option<Seq<Option<HistoryEntry>>>>,
)
    ensures
        merged(front + back) == merged(front) + merged(back),
    decreases back.len(),
{
    if back.len() == 0 {
        assert(front + back =~= front);
        assert(merged(front) + merged(back) =~= merged(front));
    } else {
        lemma_merged_concat(front, back.drop_last());
        assert((front + back).drop_last() =~= front + back.drop_last());
        assert((front + back).last() == back.last());
        assert(merged(front + back) =~= merged(front) + merged(back));
    }
}

/// A log that cannot be opened, wherever it stands among the logs that are
/// only read, changes nothing of what the store holds.
pub proof fn lemma_unavailable_log_is_empty(store: StoreView, at: int)
    requires
        0 <= at <= store.shared.len(),
    ensures
        (StoreView { primary: store.primary, shared: store.shared.insert(at, None) }).entries()
            == store.entries(),
{
    let front = store.shared.take(at);
    let back = store.shared.skip(at);
    let missing = seq![None::<Seq<Option<HistoryEntry>>>];
    assert(store.shared.insert(at, None) =~= front + missing + back);
    assert(store.shared =~= front + back);
    lemma_merged_concat(front + missing, back);
    lemma_merged_concat(front, missing);
    lemma_merged_concat(front, back);
    assert(missing.drop_last() =~= Seq::<Option<Seq<Option<HistoryEntry>>>>::empty());
    assert(merged(missing.drop_last()) =~= Seq::<HistoryEntry>::empty());
    assert(missing.last().is_none());
    assert(merged(missing) =~= Seq::<HistoryEntry>::empty());
    assert(merged(front) + merged(missing) =~= merged(front));
}

/// A read through a scope returns what a read of the whole store returns,
/// cut down to the entries that the scope shows: their order is kept, none
/// is added, and the global scope cuts nothing.
pub proof fn lemma_scoped_read_is_cut_of_whole_read(
    store: StoreView,
    scope: SearchScope,
    dir: Seq<char>,
    session: Seq<char>,
)
    requires
        store.entries().len() <= usize::MAX,
    ensures
        store.read(scope, dir, session) == select(store.read_all(), scope, dir, session, true),
        store.read(scope, dir, session).len() <= store.read_all().len(),
        store.read(SearchScope::Global, dir, session) == store.read_all(),
{
    broadcast use Seq::lemma_filter_len;

    lemma_chronological_of_filter(store.entries(), selects(scope, dir, session, true));
    lemma_global_shows_all(store.entries(), dir, session);
}

} // verus!
