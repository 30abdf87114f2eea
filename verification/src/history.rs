//! The facts that the store keeps: entries, instants and scopes.

use crate::recall::{is_chronological, most_recent, ranked, recent};
use crate::search::{command_scores, scored_where_matched, FuzzySearcher};
use crate::session::{InteractiveSearcher, SessionView};
use crate::storage::{Storage, StoreView};
use vstd::hash_set::StringHashSet;
use vstd::prelude::*;

verus! {

/// The axis that restricts which entries are visible.
#[derive(Debug, Clone, Copy, PartialEq, Eq, Structural)]
pub enum SearchScope {
    /// Every entry, whatever its directory and session.
    Global,
    /// The entries of the active session.
    Session,
    /// The entries of the active directory and of the directories below it.
    Local,
}

/// A UTC instant: whole seconds since the epoch, and the nanoseconds into
/// that second. Instants are ordered by seconds, then by nanoseconds.
#[derive(Debug, Clone, Copy, PartialEq, Eq, Structural)]
pub struct Timestamp {
    pub seconds: i64,
    pub nanos: u32,
}

impl Timestamp {
    /// `self` is no later than `other`.
    pub open spec fn le(self, other: Timestamp) -> bool {
        self.seconds < other.seconds || (self.seconds == other.seconds && self.nanos
            <= other.nanos)
    }

    /// `self` is strictly earlier than `other`.
    pub open spec fn lt(self, other: Timestamp) -> bool {
        self.seconds < other.seconds || (self.seconds == other.seconds && self.nanos
            < other.nanos)
    }

    pub fn new(seconds: i64, nanos: u32) -> (t: Timestamp)
        ensures
            t.seconds == seconds,
            t.nanos == nanos,
    {
        Timestamp { seconds, nanos }
    }
}

/// One executed command, as it was logged. An entry is never changed.
#[derive(Debug)]
pub struct HistoryEntry {
    pub command: String,
    pub timestamp: Timestamp,
    pub directory: String,
    pub exit_code: i32,
    pub session_id: String,
}

impl Clone for HistoryEntry {
    fn clone(&self) -> (r: Self)
        ensures
            r == *self,
    {
        HistoryEntry {
            command: self.command.clone(),
            timestamp: self.timestamp,
            directory: self.directory.clone(),
            exit_code: self.exit_code,
            session_id: self.session_id.clone(),
        }
    }
}

/// Counts over the store.
#[derive(Debug)]
pub struct HistoryStats {
    pub total_commands: usize,
    pub unique_commands: usize,
    pub local_commands: usize,
}

/// The commands of `entries`, one for each.
pub open spec fn commands(entries: Seq<HistoryEntry>) -> Seq<Seq<char>> {
    Seq::new(entries.len(), |i: int| entries[i].command@)
}

/// How many different commands `entries` hold.
pub open spec fn distinct_commands(entries: Seq<HistoryEntry>) -> nat {
    commands(entries).to_set().len()
}

/// What a read through `scope` returns, as the manager makes it: the whole
/// store for the global scope, and for the others the entries of the
/// active session or directory.
pub open spec fn scoped_read(
    store: StoreView,
    scope: SearchScope,
    dir: Seq<char>,
    session: Seq<char>,
) -> Seq<HistoryEntry> {
    match scope {
        SearchScope::Global => store.read_all(),
        SearchScope::Session => store.read(SearchScope::Session, Seq::empty(), session),
        SearchScope::Local => store.read(SearchScope::Local, dir, Seq::empty()),
    }
}

/// How many different commands `entries` hold.
pub fn count_distinct_commands(entries: &Vec<HistoryEntry>) -> (count: usize)
    ensures
        count == distinct_commands(entries@),
{
    let mut seen = StringHashSet::new();
    let mut i: usize = 0;
    proof {
        assert(commands(entries@.take(0)).to_set() =~= Set::<Seq<char>>::empty());
    }
    while i < entries.len()
        invariant
            i <= entries.len(),
            seen@ == commands(entries@.take(i as int)).to_set(),
        decreases entries.len() - i,
    {
        proof {
            let before = commands(entries@.take(i as int));
            let after = commands(entries@.take(i + 1));
            assert(after =~= before.push(entries[i as int].command@));
            before.lemma_push_to_set_commute(entries[i as int].command@);
        }
        seen.insert(entries[i].command.clone());
        i = i + 1;
    }
    assert(entries@.take(i as int) =~= entries@);
    seen.len()
}

/// The history of one shell session in one directory: the store, and the
/// session and directory that new entries are logged with.
pub struct HistoryManager {
    storage: Storage,
    searcher: FuzzySearcher,
    current_dir: String,
    session_id: String,
}

impl HistoryManager {
    /// What the store holds.
    pub closed spec fn store(&self) -> StoreView {
        self.storage@
    }

    /// The active directory.
    pub closed spec fn current_dir(&self) -> Seq<char> {
        self.current_dir@
    }

    /// The active session.
    pub closed spec fn session_id(&self) -> Seq<char> {
        self.session_id@
    }

    /// A manager over `storage` for the session `session_id` in the
    /// directory `current_dir`.
    pub fn new(storage: Storage, current_dir: String, session_id: String) -> (manager: Self)
        ensures
            manager.store() == storage@,
            manager.current_dir() == current_dir@,
            manager.session_id() == session_id@,
    {
        HistoryManager { storage, searcher: FuzzySearcher::new(), current_dir, session_id }
    }

    /// The store.
    pub fn storage(&self) -> (storage: &Storage)
        ensures
            storage@ == self.store(),
    {
        &self.storage
    }

    /// Logs `command` as run at `timestamp` in the active directory and
    /// session, and returns the entry that was appended to the primary
    /// log. The instant is the caller's to read from its clock.
    pub fn add_command(&mut self, command: &str, exit_code: i32, timestamp: Timestamp) -> (entry:
        HistoryEntry)
        ensures
            entry.command@ == command@,
            entry.timestamp == timestamp,
            entry.directory@ == old(self).current_dir(),
            entry.exit_code == exit_code,
            entry.session_id@ == old(self).session_id(),
            final(self).store() == old(self).store().appended(entry),
            final(self).current_dir() == old(self).current_dir(),
            final(self).session_id() == old(self).session_id(),
    {
        let entry = HistoryEntry {
            command: command.to_owned(),
            timestamp,
            directory: self.current_dir.clone(),
            exit_code,
            session_id: self.session_id.clone(),
        };
        self.storage.add_entry(entry.clone());
        entry
    }

    /// The entries that `scope` shows, from the oldest to the newest.
    fn get_entries_by_scope(&self, scope: SearchScope) -> (out: Vec<HistoryEntry>)
        ensures
            out@ == scoped_read(self.store(), scope, self.current_dir(), self.session_id()),
            is_chronological(out@),
    {
        match scope {
            SearchScope::Global => self.storage.get_all_entries(),
            SearchScope::Session => self.storage.get_session_entries(self.session_id.as_str()),
            SearchScope::Local => self.storage.get_local_entries(self.current_dir.as_str()),
        }
    }

    /// The `max_results` entries of `scope` whose command matches `query`
    /// best, best first; of two with one score the more recent first.
    pub fn search(&self, query: &str, scope: SearchScope, max_results: usize) -> (out: Vec<
        HistoryEntry,
    >)
        ensures
            out@ == ranked(
                command_scores(
                    query@,
                    scoped_read(self.store(), scope, self.current_dir(), self.session_id()),
                ),
                scoped_read(self.store(), scope, self.current_dir(), self.session_id()),
                max_results as nat,
            ),
            scored_where_matched(
                query@,
                scoped_read(self.store(), scope, self.current_dir(), self.session_id()),
            ),
    {
        let entries = self.get_entries_by_scope(scope);
        self.searcher.search(query, entries.as_slice(), max_results)
    }

    /// The `max_results` most recent entries of `scope`, oldest first.
    pub fn list_recent(&self, scope: SearchScope, max_results: usize) -> (out: Vec<HistoryEntry>)
        ensures
            out@ == recent(
                scoped_read(self.store(), scope, self.current_dir(), self.session_id()),
                max_results as nat,
            ),
            is_chronological(out@),
    {
        let entries = self.get_entries_by_scope(scope);
        most_recent(&entries, max_results)
    }

    /// A picker over the whole store that begins in `initial_scope` with
    /// an empty query, drawn on a terminal of `rows` lines.
    pub fn interactive_search(&self, initial_scope: SearchScope, rows: u16) -> (picker:
        InteractiveSearcher)
        ensures
            picker@ == (SessionView {
                all_entries: self.store().read_all(),
                current_dir: self.current_dir(),
                session_id: self.session_id(),
                query: Seq::<char>::empty(),
                scope: initial_scope,
                filtered: Seq::<HistoryEntry>::empty(),
                selected: 0,
                scroll: 0,
            }).refreshed(rows),
            picker@.wf(),
            picker@.newest_selected(),
            picker@.scored_where_matched(),
    {
        self.interactive_search_with_prefix(initial_scope, None, rows)
    }

    /// A picker over the whole store that begins in `initial_scope` with
    /// the query `prefix`, drawn on a terminal of `rows` lines.
    pub fn interactive_search_with_prefix(
        &self,
        initial_scope: SearchScope,
        prefix: Option<String>,
        rows: u16,
    ) -> (picker: InteractiveSearcher)
        ensures
            picker@ == (SessionView {
                all_entries: self.store().read_all(),
                current_dir: self.current_dir(),
                session_id: self.session_id(),
                query: match prefix {
                    Some(text) => text@,
                    None => Seq::<char>::empty(),
                },
                scope: initial_scope,
                filtered: Seq::<HistoryEntry>::empty(),
                selected: 0,
                scroll: 0,
            }).refreshed(rows),
            picker@.wf(),
            picker@.newest_selected(),
            picker@.scored_where_matched(),
    {
        let all_entries = self.storage.get_all_entries();
        InteractiveSearcher::new_with_prefix(
            all_entries,
            initial_scope,
            self.current_dir.as_str(),
            self.session_id.as_str(),
            prefix,
            rows,
        )
    }

    /// The counts of the store: all entries, the different commands among
    /// them, and the entries of the active directory.
    pub fn get_stats(&self) -> (stats: HistoryStats)
        ensures
            stats.total_commands == self.store().read_all().len(),
            stats.unique_commands == distinct_commands(self.store().read_all()),
            stats.local_commands == self.store().read(
                SearchScope::Local,
                self.current_dir(),
                Seq::<char>::empty(),
            ).len(),
    {
        let all_entries = self.storage.get_all_entries();
        let local_entries = self.storage.get_local_entries(self.current_dir.as_str());
        HistoryStats {
            total_commands: all_entries.len(),
            unique_commands: count_distinct_commands(&all_entries),
            local_commands: local_entries.len(),
        }
    }

    /// Clears what `scope` shows: the whole primary log for the global
    /// scope, and for the others the entries of the active session or
    /// directory. The logs that are only read stay as they are.
    pub fn clear_history(&mut self, scope: SearchScope)
        ensures
            final(self).store() == match scope {
                SearchScope::Global => old(self).store().cleared(),
                SearchScope::Session => old(self).store().without(
                    SearchScope::Session,
                    Seq::<char>::empty(),
                    old(self).session_id(),
                ),
                SearchScope::Local => old(self).store().without(
                    SearchScope::Local,
                    old(self).current_dir(),
                    Seq::<char>::empty(),
                ),
            },
            final(self).current_dir() == old(self).current_dir(),
            final(self).session_id() == old(self).session_id(),
    {
        match scope {
            SearchScope::Global => self.storage.clear_all_history(),
            SearchScope::Session => self.storage.clear_session_history(self.session_id.as_str()),
            SearchScope::Local => self.storage.clear_local_history(self.current_dir.as_str()),
        }
    }
}

} // verus!
