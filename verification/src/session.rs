//! The interactive picker: a query, a scope, the entries that both let
//! through, a selected entry and a scroll position. Every key press is one
//! step of a state machine; reading keys and painting are the caller's.

use crate::history::{HistoryEntry, SearchScope};
use crate::recall::{
    chronological, is_chronological, lemma_chronological_is_sorted, ranked, sort_chronological,
};
use crate::scope::{select, select_entries};
use crate::search::{
    command_scores, lemma_empty_query_scores_all, scored_where_matched, FuzzySearcher,
};
use crate::text::{pop_char, push_char};
use vstd::prelude::*;
use vstd::string::StrSliceExecFns;

verus! {

/// How many matches of a query the picker shows at most.
pub const MATCH_LIMIT: usize = 50;

/// The lines of the terminal that hold no entry: the header and the prompt.
pub const FIXED_LINES: u16 = 2;

/// A key, as the terminal reports it.
#[derive(Debug, Clone, Copy, PartialEq, Eq, Structural)]
pub enum KeyCode {
    Char(char),
    Backspace,
    Enter,
    Esc,
    Up,
    Down,
    Tab,
    /// A function key, by its number.
    F(u8),
    /// Any other key.
    Other,
}

/// What follows a key press.
#[derive(Debug)]
pub enum Step {
    /// The picker goes on.
    Continue,
    /// The picker ends, with the chosen command or with none.
    Finish(Option<String>),
}

/// The entries that the picker lists for `query` in `scope`: those that the
/// scope shows, all of them for an empty query and else the `MATCH_LIMIT`
/// best matches, always from the oldest to the newest.
pub open spec fn listed(
    all_entries: Seq<HistoryEntry>,
    scope: SearchScope,
    dir: Seq<char>,
    session: Seq<char>,
    query: Seq<char>,
) -> Seq<HistoryEntry> {
    let scoped = select(all_entries, scope, dir, session, true);
    if query.len() == 0 {
        chronological(scoped)
    } else {
        chronological(ranked(command_scores(query, scoped), scoped, MATCH_LIMIT as nat))
    }
}

/// The rows that can hold an entry on a terminal of `rows` lines.
pub open spec fn available_rows(rows: u16) -> nat {
    if rows >= FIXED_LINES {
        (rows - FIXED_LINES) as nat
    } else {
        0
    }
}

/// How near to an edge of the window the selection may come before the
/// window moves: 35% of the window's rows, rounded down, and at least one.
pub open spec fn scroll_threshold(window: nat) -> nat {
    if window * 35 / 100 >= 1 {
        window * 35 / 100
    } else {
        1
    }
}

/// The first visible row after the window of `window` rows, which began at
/// `scroll`, has followed the selection over `len` entries. The window moves
/// by one row when the selection is within the threshold of its top, or of
/// its bottom while entries are left below; then it is moved as far as it
/// takes to hold the selection. A window of no rows stays where it is.
pub open spec fn scrolled(selected: nat, scroll: nat, len: nat, window: nat) -> nat {
    if window == 0 {
        scroll
    } else {
        let threshold = scroll_threshold(window);
        let position = if selected >= scroll {
            selected - scroll
        } else {
            0
        };
        let last_start = if len >= window {
            len - window
        } else {
            0
        };
        let moved: int = if position < threshold && scroll > 0 {
            scroll - 1
        } else if position >= window - threshold && scroll < last_start {
            scroll as int + 1
        } else {
            scroll as int
        };
        if selected < moved {
            selected
        } else if selected >= moved + window {
            (selected - (window - 1)) as nat
        } else {
            moved as nat
        }
    }
}

/// The scope that follows `scope` when the scopes are cycled through.
pub open spec fn next_scope(scope: SearchScope) -> SearchScope {
    match scope {
        SearchScope::Global => SearchScope::Session,
        SearchScope::Session => SearchScope::Local,
        SearchScope::Local => SearchScope::Global,
    }
}

/// The state of a picker.
pub struct SessionView {
    pub all_entries: Seq<HistoryEntry>,
    pub current_dir: Seq<char>,
    pub session_id: Seq<char>,
    pub query: Seq<char>,
    pub scope: SearchScope,
    pub filtered: Seq<HistoryEntry>,
    pub selected: nat,
    pub scroll: nat,
}

impl SessionView {
    /// The list is the one that belongs to the query and the scope, it
    /// runs from the oldest entry to the newest, and the selection lies in
    /// it.
    pub open spec fn wf(self) -> bool {
        &&& self.filtered == listed(
            self.all_entries,
            self.scope,
            self.current_dir,
            self.session_id,
            self.query,
        )
        &&& (self.selected < self.filtered.len() || (self.selected == 0 && self.filtered.len()
            == 0))
        &&& self.all_entries.len() <= usize::MAX
        &&& is_chronological(self.filtered)
    }

    /// The selected entry is the last of the list, and no listed entry is
    /// more recent.
    pub open spec fn newest_selected(self) -> bool {
        &&& self.filtered.len() > 0 ==> self.selected == self.filtered.len() - 1
        &&& forall|i: int|
            0 <= i < self.filtered.len() ==> (#[trigger] self.filtered[i]).timestamp.le(
                self.filtered[self.selected as int].timestamp,
            )
    }

    /// Whether the key `code` has the list computed anew: a character, but
    /// for `c` with the control key, Backspace, Tab and the first three
    /// function keys.
    pub open spec fn recomputes(code: KeyCode, control: bool) -> bool {
        match code {
            KeyCode::Char(c) => !(c == 'c' && control),
            KeyCode::Backspace => true,
            KeyCode::Tab => true,
            KeyCode::F(n) => 1 <= n <= 3,
            _ => false,
        }
    }

    /// Of the entries that the scope shows, those have a score for the
    /// query that the query matches, and no others.
    pub open spec fn scored_where_matched(self) -> bool {
        scored_where_matched(
            self.query,
            select(self.all_entries, self.scope, self.current_dir, self.session_id, true),
        )
    }

    /// The state after the list was computed anew: the newest listed entry
    /// is selected, and the window has followed it from the top.
    pub open spec fn refreshed(self, rows: u16) -> SessionView {
        let filtered = listed(
            self.all_entries,
            self.scope,
            self.current_dir,
            self.session_id,
            self.query,
        );
        let selected: nat = if filtered.len() > 0 {
            (filtered.len() - 1) as nat
        } else {
            0
        };
        SessionView {
            filtered,
            selected,
            scroll: scrolled(selected, 0, filtered.len(), available_rows(rows)),
            ..self
        }
    }

    /// The state after the window has followed the selection once more.
    pub open spec fn rescrolled(self, rows: u16) -> SessionView {
        SessionView {
            scroll: scrolled(self.selected, self.scroll, self.filtered.len(), available_rows(rows)),
            ..self
        }
    }

    /// The state after the query or the scope was changed to `query` and
    /// `scope`.
    pub open spec fn changed(self, query: Seq<char>, scope: SearchScope, rows: u16) -> SessionView {
        (SessionView { query, scope, ..self }).refreshed(rows)
    }

    /// Whether `code` ends the picker: Enter, Escape, and `c` with the
    /// control key.
    pub open spec fn ends(code: KeyCode, control: bool) -> bool {
        code == KeyCode::Enter || code == KeyCode::Esc || (code == KeyCode::Char('c') && control)
    }

    /// The state after the key `code` was pressed on a terminal of `rows`
    /// lines.
    pub open spec fn after_key(self, code: KeyCode, control: bool, rows: u16) -> SessionView {
        match code {
            KeyCode::Char(c) => if c == 'c' && control {
                self
            } else {
                self.changed(self.query.push(c), self.scope, rows)
            },
            KeyCode::Backspace => self.changed(
                if self.query.len() > 0 {
                    self.query.drop_last()
                } else {
                    self.query
                },
                self.scope,
                rows,
            ),
            KeyCode::Up => if self.selected > 0 {
                (SessionView { selected: (self.selected - 1) as nat, ..self }).rescrolled(rows)
            } else {
                self
            },
            KeyCode::Down => if self.selected + 1 < self.filtered.len() {
                (SessionView { selected: self.selected + 1, ..self }).rescrolled(rows)
            } else {
                self
            },
            KeyCode::F(n) => if n == 1 {
                self.changed(self.query, SearchScope::Global, rows)
            } else if n == 2 {
                self.changed(self.query, SearchScope::Session, rows)
            } else if n == 3 {
                self.changed(self.query, SearchScope::Local, rows)
            } else {
                self
            },
            KeyCode::Tab => self.changed(self.query, next_scope(self.scope), rows),
            _ => self,
        }
    }

    /// What the picker ends with on Enter: the selected command, or none
    /// where nothing is listed.
    pub open spec fn selection(self) -> Option<String> {
        if self.selected < self.filtered.len() {
            Some(self.filtered[self.selected as int].command)
        } else {
            None
        }
    }
}

/// The picker.
pub struct InteractiveSearcher {
    all_entries: Vec<HistoryEntry>,
    filtered_entries: Vec<HistoryEntry>,
    query: String,
    selected_index: usize,
    scroll_offset: usize,
    searcher: FuzzySearcher,
    current_scope: SearchScope,
    current_dir: String,
    session_id: String,
}

impl View for InteractiveSearcher {
    type V = SessionView;

    closed spec fn view(&self) -> SessionView {
        SessionView {
            all_entries: self.all_entries@,
            current_dir: self.current_dir@,
            session_id: self.session_id@,
            query: self.query@,
            scope: self.current_scope,
            filtered: self.filtered_entries@,
            selected: self.selected_index as nat,
            scroll: self.scroll_offset as nat,
        }
    }
}

/// The rows that can hold an entry on a terminal of `rows` lines.
pub fn window_rows(rows: u16) -> (window: usize)
    ensures
        window == available_rows(rows),
{
    if rows >= FIXED_LINES {
        (rows - FIXED_LINES) as usize
    } else {
        0
    }
}

impl InteractiveSearcher {
    /// A picker over `all_entries` with an empty query, drawn on a
    /// terminal of `rows` lines.
    pub fn new(
        all_entries: Vec<HistoryEntry>,
        initial_scope: SearchScope,
        current_dir: &str,
        session_id: &str,
        rows: u16,
    ) -> (picker: Self)
        ensures
            picker@ == (SessionView {
                all_entries: all_entries@,
                current_dir: current_dir@,
                session_id: session_id@,
                query: Seq::<char>::empty(),
                scope: initial_scope,
                filtered: Seq::<HistoryEntry>::empty(),
                selected: 0,
                scroll: 0,
            }).refreshed(rows),
            picker@.wf(),
            picker@.newest_selected(),
            picker@.scored_where_matched(),
    {
        Self::new_with_prefix(all_entries, initial_scope, current_dir, session_id, None, rows)
    }

    /// A picker over `all_entries` whose query begins as `prefix`, drawn
    /// on a terminal of `rows` lines.
    pub fn new_with_prefix(
        all_entries: Vec<HistoryEntry>,
        initial_scope: SearchScope,
        current_dir: &str,
        session_id: &str,
        prefix: Option<String>,
        rows: u16,
    ) -> (picker: Self)
        ensures
            picker@ == (SessionView {
                all_entries: all_entries@,
                current_dir: current_dir@,
                session_id: session_id@,
                query: match prefix {
                    Some(text) => text@,
                    None => Seq::<char>::empty(),
                },
                scope: initial_scope,
                filtered: Seq::<HistoryEntry>::empty(),
                selected: 0,
                scroll: 0,
            }).refreshed(rows),
            picker@.wf(),
            picker@.newest_selected(),
            picker@.scored_where_matched(),
    {
        let query = match prefix {
            Some(text) => text,
            None => String::new(),
        };
        let mut picker = InteractiveSearcher {
            all_entries,
            filtered_entries: Vec::new(),
            query,
            selected_index: 0,
            scroll_offset: 0,
            searcher: FuzzySearcher::new(),
            current_scope: initial_scope,
            current_dir: current_dir.to_owned(),
            session_id: session_id.to_owned(),
        };
        picker.update_filter(rows);
        picker
    }

    /// The query as it stands.
    pub fn query(&self) -> (text: &str)
        ensures
            text@ == self@.query,
    {
        self.query.as_str()
    }

    /// The scope as it stands.
    pub fn scope(&self) -> (scope: SearchScope)
        ensures
            scope == self@.scope,
    {
        self.current_scope
    }

    /// The listed entries, oldest first.
    pub fn filtered_entries(&self) -> (entries: &Vec<HistoryEntry>)
        ensures
            entries@ == self@.filtered,
    {
        &self.filtered_entries
    }

    /// The position of the selected entry in the list.
    pub fn selected_index(&self) -> (index: usize)
        ensures
            index == self@.selected,
    {
        self.selected_index
    }

    /// The position of the first visible entry in the list.
    pub fn scroll_offset(&self) -> (offset: usize)
        ensures
            offset == self@.scroll,
    {
        self.scroll_offset
    }

    /// The entries of `all_entries` that the scope shows.
    fn filter_by_scope(&self) -> (out: Vec<HistoryEntry>)
        ensures
            out@ == select(
                self@.all_entries,
                self@.scope,
                self@.current_dir,
                self@.session_id,
                true,
            ),
    {
        select_entries(
            &self.all_entries,
            self.current_scope,
            self.current_dir.as_str(),
            self.session_id.as_str(),
            true,
        )
    }

    /// Computes the list anew, selects its newest entry and lets the
    /// window follow from the top.
    fn update_filter(&mut self, rows: u16)
        ensures
            final(self)@ == old(self)@.refreshed(rows),
            final(self)@.wf(),
            final(self)@.newest_selected(),
            final(self)@.scored_where_matched(),
    {
        proof {
            assert(old(self)@.all_entries.len() == old(self).all_entries.len());
            lemma_refresh_selects_newest(old(self)@, rows);
        }
        let scoped = self.filter_by_scope();
        if self.query.as_str().is_empty() {
            proof {
                lemma_empty_query_scores_all(scoped@);
                assert(self.query@ =~= Seq::<char>::empty());
            }
            self.filtered_entries = sort_chronological(&scoped);
        } else {
            let best = self.searcher.search(self.query.as_str(), scoped.as_slice(), MATCH_LIMIT);
            self.filtered_entries = sort_chronological(&best);
        }
        self.selected_index = if self.filtered_entries.len() > 0 {
            self.filtered_entries.len() - 1
        } else {
            0
        };
        self.scroll_offset = 0;
        self.update_scroll(rows);
    }

    /// Lets the window follow the selection.
    fn update_scroll(&mut self, rows: u16)
        ensures
            final(self)@ == old(self)@.rescrolled(rows),
    {
        let window = window_rows(rows);
        if window == 0 {
            return ;
        }
        let scaled: usize = window * 35 / 100;
        let threshold: usize = if scaled >= 1 {
            scaled
        } else {
            1
        };
        let position: usize = if self.selected_index >= self.scroll_offset {
            self.selected_index - self.scroll_offset
        } else {
            0
        };
        if position < threshold && self.scroll_offset > 0 {
            self.scroll_offset = self.scroll_offset - 1;
        } else if position >= window - threshold {
            let last_start: usize = if self.filtered_entries.len() >= window {
                self.filtered_entries.len() - window
            } else {
                0
            };
            if self.scroll_offset < last_start {
                self.scroll_offset = self.scroll_offset + 1;
            }
        }
        if self.selected_index < self.scroll_offset {
            self.scroll_offset = self.selected_index;
        } else if self.selected_index - self.scroll_offset >= window {
            self.scroll_offset = self.selected_index - (window - 1);
        }
    }

    /// Sets the scope and computes the list anew.
    fn change_scope(&mut self, scope: SearchScope, rows: u16)
        ensures
            final(self)@ == old(self)@.changed(old(self)@.query, scope, rows),
            final(self)@.wf(),
            final(self)@.newest_selected(),
            final(self)@.scored_where_matched(),
    {
        self.current_scope = scope;
        self.update_filter(rows);
    }

    /// Takes one key press on a terminal of `rows` lines: changes the
    /// picker as the key asks, and says whether the picker goes on or what
    /// it ends with.
    pub fn handle_key(&mut self, code: KeyCode, control: bool, rows: u16) -> (step: Step)
        ensures
            final(self)@ == old(self)@.after_key(code, control, rows),
            old(self)@.wf() || SessionView::recomputes(code, control) ==> final(self)@.wf(),
            SessionView::recomputes(code, control) ==> final(self)@.newest_selected(),
            old(self)@.scored_where_matched() || SessionView::recomputes(code, control)
                ==> final(self)@.scored_where_matched(),
            step == if !SessionView::ends(code, control) {
                Step::Continue
            } else if code == KeyCode::Enter {
                Step::Finish(old(self)@.selection())
            } else {
                Step::Finish(None)
            },
    {
        match code {
            KeyCode::Char(c) => {
                if c == 'c' && control {
                    return Step::Finish(None);
                }
                push_char(&mut self.query, c);
                self.update_filter(rows);
            },
            KeyCode::Esc => {
                return Step::Finish(None);
            },
            KeyCode::Enter => {
                if self.selected_index < self.filtered_entries.len() {
                    return Step::Finish(
                        Some(self.filtered_entries[self.selected_index].command.clone()),
                    );
                }
                return Step::Finish(None);
            },
            KeyCode::Up => {
                if self.selected_index > 0 {
                    self.selected_index = self.selected_index - 1;
                    self.update_scroll(rows);
                }
            },
            KeyCode::Down => {
                if self.filtered_entries.len() > 0 && self.selected_index
                    < self.filtered_entries.len() - 1 {
                    self.selected_index = self.selected_index + 1;
                    self.update_scroll(rows);
                }
            },
            KeyCode::F(n) => {
                if n == 1 {
                    self.change_scope(SearchScope::Global, rows);
                } else if n == 2 {
                    self.change_scope(SearchScope::Session, rows);
                } else if n == 3 {
                    self.change_scope(SearchScope::Local, rows);
                }
            },
            KeyCode::Tab => {
                let next = match self.current_scope {
                    SearchScope::Global => SearchScope::Session,
                    SearchScope::Session => SearchScope::Local,
                    SearchScope::Local => SearchScope::Global,
                };
                self.change_scope(next, rows);
            },
            KeyCode::Backspace => {
                let _ = pop_char(&mut self.query);
                self.update_filter(rows);
            },
            KeyCode::Other => {},
        }
        Step::Continue
    }
}

/// The header's words for a scope.
pub open spec fn scope_label(scope: SearchScope) -> Seq<char> {
    match scope {
        SearchScope::Global => "[ GLOBAL ]"@,
        SearchScope::Session => "[ SESSION ]"@,
        SearchScope::Local => "[ DIRECTORY ]"@,
    }
}

/// The width of the header's words for a scope.
pub open spec fn scope_label_width(scope: SearchScope) -> nat {
    match scope {
        SearchScope::Global => 10,
        SearchScope::Session => 11,
        SearchScope::Local => 13,
    }
}

/// The width of the help text and the title, which stand at the right of
/// the header.
pub const HEADER_RIGHT_WIDTH: usize = 33;

/// The blanks between the scope and the right part of a header of `cols`
/// columns: what the two leave free, and one where they leave nothing.
pub open spec fn header_padding(scope: SearchScope, cols: u16) -> nat {
    if cols > scope_label_width(scope) + HEADER_RIGHT_WIDTH {
        (cols - scope_label_width(scope) - HEADER_RIGHT_WIDTH) as nat
    } else {
        1
    }
}

/// The columns of a row that stand before the command: the time, and the
/// blanks around it.
pub const TIME_COLUMNS: u16 = 12;

/// The columns that a command may fill on a terminal of `cols` columns.
pub open spec fn command_columns(cols: u16) -> nat {
    if cols >= TIME_COLUMNS {
        (cols - TIME_COLUMNS) as nat
    } else {
        0
    }
}

/// The sign that stands for what was cut off a command.
pub const ELLIPSIS: char = '\u{2026}';

/// `command` as it is shown in `width` columns: as it is where it has no
/// more characters than that, and else its first `width - 1` characters
/// and the ellipsis behind them.
pub open spec fn shortened(command: Seq<char>, width: nat) -> Seq<char> {
    if command.len() > width {
        command.take(
            if width >= 1 {
                width - 1
            } else {
                0
            },
        ).push(ELLIPSIS)
    } else {
        command
    }
}

/// `command` as it is shown in `width` columns.
pub fn shorten_command(command: &str, width: usize) -> (shown: String)
    ensures
        shown@ == shortened(command@, width as nat),
{
    if command.unicode_len() > width {
        let kept: usize = if width >= 1 {
            width - 1
        } else {
            0
        };
        let mut shown = command.substring_char(0, kept).to_owned();
        push_char(&mut shown, ELLIPSIS);
        assert(command@.subrange(0, kept as int) =~= command@.take(kept as int));
        shown
    } else {
        command.to_owned()
    }
}

/// One visible entry.
#[derive(Debug)]
pub struct FrameRow {
    pub entry: HistoryEntry,
    pub is_selected: bool,
}

/// What is to be painted: the header's parts, the visible entries from the
/// top row down, and the prompt.
#[derive(Debug)]
pub struct Frame {
    pub scope_label: String,
    pub padding: usize,
    pub rows: Vec<FrameRow>,
    pub command_width: usize,
    pub query_text: String,
    pub prompt_row: u16,
    pub columns: u16,
    pub lines: u16,
}

impl SessionView {
    /// The visible entries on a terminal of `rows` lines: those from the
    /// scroll position on, as many as the window holds; the selected one is
    /// marked.
    pub open spec fn visible(self, rows: u16) -> Seq<FrameRow> {
        let end = if self.scroll + available_rows(rows) < self.filtered.len() {
            self.scroll + available_rows(rows)
        } else {
            self.filtered.len()
        };
        if self.scroll < end {
            Seq::new(
                (end - self.scroll) as nat,
                |k: int|
                    FrameRow {
                        entry: self.filtered[self.scroll + k],
                        is_selected: self.scroll + k == self.selected,
                    },
            )
        } else {
            Seq::empty()
        }
    }
}

/// The widths that the header is laid out with are those of its words.
pub proof fn lemma_scope_label_width(scope: SearchScope)
    ensures
        scope_label(scope).len() == scope_label_width(scope),
{
    reveal_strlit("[ GLOBAL ]");
    reveal_strlit("[ SESSION ]");
    reveal_strlit("[ DIRECTORY ]");
}

/// A window with rows holds the selection once it has followed it.
pub proof fn lemma_window_holds_selection(selected: nat, scroll: nat, len: nat, window: nat)
    requires
        window > 0,
    ensures
        scrolled(selected, scroll, len, window) <= selected < scrolled(
            selected,
            scroll,
            len,
            window,
        ) + window,
{
}

/// A window that has followed the newest entry from the top stays where it
/// is when it follows once more.
pub proof fn lemma_follow_from_top_is_settled(len: nat, window: nat)
    ensures
        ({
            let selected: nat = if len > 0 {
                (len - 1) as nat
            } else {
                0
            };
            let first = scrolled(selected, 0, len, window);
            scrolled(selected, first, len, window) == first
        }),
{
}

/// The picker lists its entries from the oldest to the newest.
pub proof fn lemma_listed_is_chronological(
    all_entries: Seq<HistoryEntry>,
    scope: SearchScope,
    dir: Seq<char>,
    session: Seq<char>,
    query: Seq<char>,
)
    requires
        all_entries.len() <= usize::MAX,
    ensures
        is_chronological(listed(all_entries, scope, dir, session, query)),
{
    broadcast use Seq::lemma_filter_len;

    let scoped = select(all_entries, scope, dir, session, true);
    assert(scoped.len() <= all_entries.len());
    if query.len() == 0 {
        lemma_chronological_is_sorted(scoped);
    } else {
        lemma_chronological_is_sorted(
            ranked(command_scores(query, scoped), scoped, MATCH_LIMIT as nat),
        );
    }
}

/// After the list was computed anew, whatever was selected before, the
/// selected entry is the last one, and no listed entry is more recent.
pub proof fn lemma_refresh_selects_newest(state: SessionView, rows: u16)
    requires
        state.all_entries.len() <= usize::MAX,
    ensures
        state.refreshed(rows).wf(),
        state.refreshed(rows).newest_selected(),
{
    lemma_listed_is_chronological(
        state.all_entries,
        state.scope,
        state.current_dir,
        state.session_id,
        state.query,
    );
    let after = state.refreshed(rows);
    assert forall|i: int| 0 <= i < after.filtered.len() implies (#[trigger] after.filtered[i]).timestamp.le(
        after.filtered[after.selected as int].timestamp,
    ) by {
        if i < after.selected {
            assert(after.filtered[i].timestamp.le(after.filtered[after.selected as int].timestamp));
        }
    }
}

/// A key that has the list computed anew leaves the newest listed entry
/// selected, whatever was selected before.
pub proof fn lemma_key_selects_newest(state: SessionView, code: KeyCode, control: bool, rows: u16)
    requires
        state.all_entries.len() <= usize::MAX,
        SessionView::recomputes(code, control),
    ensures
        state.after_key(code, control, rows).wf(),
        state.after_key(code, control, rows).newest_selected(),
{
    let query = match code {
        KeyCode::Char(c) => state.query.push(c),
        KeyCode::Backspace => if state.query.len() > 0 {
            state.query.drop_last()
        } else {
            state.query
        },
        _ => state.query,
    };
    let scope = match code {
        KeyCode::Tab => next_scope(state.scope),
        KeyCode::F(n) => if n == 1 {
            SearchScope::Global
        } else if n == 2 {
            SearchScope::Session
        } else {
            SearchScope::Local
        },
        _ => state.scope,
    };
    lemma_refresh_selects_newest(SessionView { query, scope, ..state }, rows);
}

impl InteractiveSearcher {
    /// What is to be painted on a terminal of `cols` columns and `rows`
    /// lines.
    pub fn render(&self, cols: u16, rows: u16) -> (frame: Frame)
        ensures
            frame.scope_label@ == scope_label(self@.scope),
            frame.padding == header_padding(self@.scope, cols),
            frame.rows@ == self@.visible(rows),
            frame.command_width == command_columns(cols),
            frame.query_text@ == self@.query,
            frame.prompt_row == if rows >= 1 {
                (rows - 1) as int
            } else {
                0
            },
            frame.columns == cols,
            frame.lines == rows,
    {
        let window = window_rows(rows);
        let (label, width): (&str, usize) = match self.current_scope {
            SearchScope::Global => ("[ GLOBAL ]", 10),
            SearchScope::Session => ("[ SESSION ]", 11),
            SearchScope::Local => ("[ DIRECTORY ]", 13),
        };
        let padding: usize = if cols as usize > width + HEADER_RIGHT_WIDTH {
            cols as usize - width - HEADER_RIGHT_WIDTH
        } else {
            1
        };
        let len = self.filtered_entries.len();
        let end: usize = if self.scroll_offset < len && window < len - self.scroll_offset {
            self.scroll_offset + window
        } else {
            len
        };
        let mut visible: Vec<FrameRow> = Vec::new();
        let mut index: usize = self.scroll_offset;
        while index < end
            invariant
                end <= self.filtered_entries.len(),
                self.scroll_offset <= index,
                index <= end || index == self.scroll_offset,
                visible.len() == index - self.scroll_offset,
                forall|k: int|
                    0 <= k < visible.len() ==> #[trigger] visible[k] == (FrameRow {
                        entry: self.filtered_entries[self.scroll_offset + k],
                        is_selected: self.scroll_offset + k == self.selected_index,
                    }),
            decreases end - index,
        {
            visible.push(
                FrameRow {
                    entry: self.filtered_entries[index].clone(),
                    is_selected: index == self.selected_index,
                },
            );
            index = index + 1;
        }
        assert(visible@ =~= self@.visible(rows));
        Frame {
            scope_label: label.to_owned(),
            padding,
            rows: visible,
            command_width: if cols >= TIME_COLUMNS {
                (cols - TIME_COLUMNS) as usize
            } else {
                0
            },
            query_text: self.query.clone(),
            prompt_row: if rows >= 1 {
                rows - 1
            } else {
                0
            },
            columns: cols,
            lines: rows,
        }
    }
}

} // verus!
