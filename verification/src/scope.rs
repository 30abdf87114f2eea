//! Which entries a scope shows.

use crate::history::{HistoryEntry, SearchScope};
use crate::seqs::{lemma_filter_contains_iff, lemma_filter_step};
use crate::text::starts_with;
use vstd::prelude::*;
use vstd::string::StringExecFns;

verus! {

/// An entry's directory is `dir` itself or lies below it: it equals `dir`,
/// or it begins with `dir` followed by a slash. The paths are compared as
/// they are written, with no normalisation.
pub open spec fn in_directory(entry_dir: Seq<char>, dir: Seq<char>) -> bool {
    entry_dir == dir || dir.push('/').is_prefix_of(entry_dir)
}

/// Whether `scope` shows `entry` when the active directory is `dir` and the
/// active session is `session`.
pub open spec fn matches_scope(
    entry: HistoryEntry,
    scope: SearchScope,
    dir: Seq<char>,
    session: Seq<char>,
) -> bool {
    match scope {
        SearchScope::Global => true,
        SearchScope::Session => entry.session_id@ == session,
        SearchScope::Local => in_directory(entry.directory@, dir),
    }
}

/// The test that `select` applies to each entry.
pub open spec fn selects(
    scope: SearchScope,
    dir: Seq<char>,
    session: Seq<char>,
    wanted: bool,
) -> spec_fn(HistoryEntry) -> bool {
    |e: HistoryEntry| matches_scope(e, scope, dir, session) == wanted
}

/// The entries of `entries` that `scope` shows (`wanted`), or those that it
/// does not show (`!wanted`), in their order.
pub open spec fn select(
    entries: Seq<HistoryEntry>,
    scope: SearchScope,
    dir: Seq<char>,
    session: Seq<char>,
    wanted: bool,
) -> Seq<HistoryEntry> {
    entries.filter(selects(scope, dir, session, wanted))
}

/// What a scope is matched against: the active session, the active
/// directory, and that directory followed by a slash.
pub struct ScopeMatcher {
    scope: SearchScope,
    session: String,
    directory: String,
    below: String,
}

impl ScopeMatcher {
    pub closed spec fn scope(&self) -> SearchScope {
        self.scope
    }

    pub closed spec fn session(&self) -> Seq<char> {
        self.session@
    }

    pub closed spec fn directory(&self) -> Seq<char> {
        self.directory@
    }

    #[verifier::type_invariant]
    spec fn wf(&self) -> bool {
        self.below@ == self.directory@.push('/')
    }

    pub fn new(scope: SearchScope, dir: &str, session: &str) -> (m: ScopeMatcher)
        ensures
            m.scope() == scope,
            m.directory() == dir@,
            m.session() == session@,
    {
        let mut below = dir.to_owned();
        below.append("/");
        proof {
            reveal_strlit("/");
            assert("/"@ =~= seq!['/']);
            assert(below@ =~= dir@.push('/'));
        }
        ScopeMatcher { scope, session: session.to_owned(), directory: dir.to_owned(), below }
    }

    /// Whether the scope shows `entry`.
    pub fn matches(&self, entry: &HistoryEntry) -> (r: bool)
        ensures
            r == matches_scope(*entry, self.scope(), self.directory(), self.session()),
    {
        proof {
            use_type_invariant(self);
        }
        match self.scope {
            SearchScope::Global => true,
            SearchScope::Session => entry.session_id == self.session,
            SearchScope::Local => entry.directory == self.directory || starts_with(
                entry.directory.as_str(),
                self.below.as_str(),
            ),
        }
    }
}

/// Picks from `entries` those that `scope` shows (`wanted`), or those that
/// it does not show (`!wanted`), keeping their order.
pub fn select_entries(
    entries: &Vec<HistoryEntry>,
    scope: SearchScope,
    dir: &str,
    session: &str,
    wanted: bool,
) -> (out: Vec<HistoryEntry>)
    ensures
        out@ == select(entries@, scope, dir@, session@, wanted),
{
    let matcher = ScopeMatcher::new(scope, dir, session);
    let mut out: Vec<HistoryEntry> = Vec::new();
    let ghost pred = selects(scope, dir@, session@, wanted);
    let mut i: usize = 0;
    while i < entries.len()
        invariant
            i <= entries.len(),
            matcher.scope() == scope,
            matcher.directory() == dir@,
            matcher.session() == session@,
            pred == selects(scope, dir@, session@, wanted),
            out@ == entries@.take(i as int).filter(pred),
        decreases entries.len() - i,
    {
        proof {
            lemma_filter_step(entries@, pred, i as int);
        }
        if matcher.matches(&entries[i]) == wanted {
            out.push(entries[i].clone());
        }
        i = i + 1;
    }
    proof {
        assert(entries@.take(i as int) =~= entries@);
    }
    out
}

/// The global scope shows every entry.
pub proof fn lemma_global_shows_all(entries: Seq<HistoryEntry>, dir: Seq<char>, session: Seq<char>)
    ensures
        select(entries, SearchScope::Global, dir, session, true) == entries,
        select(entries, SearchScope::Global, dir, session, false).len() == 0,
    decreases entries.len(),
{
    reveal(Seq::filter);
    if entries.len() > 0 {
        lemma_global_shows_all(entries.drop_last(), dir, session);
        assert(entries.drop_last().push(entries.last()) =~= entries);
    }
}

/// A scope shows an entry of `entries` exactly when the scope's rule holds
/// of it, and what it shows is part of `entries`: the session scope by the
/// entry's session alone, the local scope by its directory alone. So one
/// entry may be shown by both, by one or by neither, and by the global
/// scope always.
pub proof fn lemma_scope_membership(
    entries: Seq<HistoryEntry>,
    scope: SearchScope,
    dir: Seq<char>,
    session: Seq<char>,
    entry: HistoryEntry,
)
    ensures
        select(entries, scope, dir, session, true).contains(entry) <==> entries.contains(entry)
            && matches_scope(entry, scope, dir, session),
        select(entries, scope, dir, session, false).contains(entry) <==> entries.contains(entry)
            && !matches_scope(entry, scope, dir, session),
        select(entries, SearchScope::Global, dir, session, true).contains(entry)
            <==> entries.contains(entry),
{
    lemma_filter_contains_iff(entries, selects(scope, dir, session, true), entry);
    lemma_filter_contains_iff(entries, selects(scope, dir, session, false), entry);
    lemma_global_shows_all(entries, dir, session);
}

/// Every entry is either shown by a scope or not: the entries that it
/// shows and those that it does not are as many as there are entries.
pub proof fn lemma_scope_partitions(
    entries: Seq<HistoryEntry>,
    scope: SearchScope,
    dir: Seq<char>,
    session: Seq<char>,
)
    ensures
        select(entries, scope, dir, session, true).len() + select(
            entries,
            scope,
            dir,
            session,
            false,
        ).len() == entries.len(),
    decreases entries.len(),
{
    reveal(Seq::filter);
    if entries.len() > 0 {
        lemma_scope_partitions(entries.drop_last(), scope, dir, session);
    }
}

} // verus!
