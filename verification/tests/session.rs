use rehash::history::{HistoryEntry, SearchScope, Timestamp};
use rehash::session::{shorten_command, window_rows, InteractiveSearcher, KeyCode, Step};

fn entry(command: &str, seconds: i64, directory: &str, session: &str) -> HistoryEntry {
    HistoryEntry {
        command: command.to_string(),
        timestamp: Timestamp::new(seconds, 0),
        directory: directory.to_string(),
        exit_code: 0,
        session_id: session.to_string(),
    }
}

fn numbered(count: i64) -> Vec<HistoryEntry> {
    (0..count).map(|i| entry(&format!("cmd {}", i), i, "/a", "s")).collect()
}

fn listed(picker: &InteractiveSearcher) -> Vec<String> {
    picker.filtered_entries().iter().map(|e| e.command.clone()).collect()
}

fn press(picker: &mut InteractiveSearcher, code: KeyCode, rows: u16) {
    assert!(matches!(picker.handle_key(code, false, rows), Step::Continue));
}

fn mixed() -> Vec<HistoryEntry> {
    vec![
        entry("git push", 30, "/a", "s1"),
        entry("ls -la", 10, "/a/b", "s2"),
        entry("git status", 20, "/c", "s1"),
        entry("cargo build", 40, "/c", "s2"),
    ]
}

#[test]
fn window_rows_leaves_out_header_and_prompt() {
    assert_eq!(window_rows(24), 22);
    assert_eq!(window_rows(3), 1);
    assert_eq!(window_rows(2), 0);
    assert_eq!(window_rows(1), 0);
    assert_eq!(window_rows(0), 0);
    assert_eq!(window_rows(u16::MAX), 65533);
}

#[test]
fn new_picker_lists_everything_oldest_first_and_selects_the_newest() {
    let picker = InteractiveSearcher::new(mixed(), SearchScope::Global, "/a", "s1", 24);
    assert_eq!(listed(&picker), vec!["ls -la", "git status", "git push", "cargo build"]);
    assert_eq!(picker.selected_index(), 3);
    assert_eq!(picker.scroll_offset(), 0);
    assert_eq!(picker.query(), "");
    assert_eq!(picker.scope(), SearchScope::Global);
}

#[test]
fn recompute_selects_the_most_recent_entry() {
    let entries = vec![
        entry("git b", 2, "/a", "s"),
        entry("git c", 3, "/a", "s"),
        entry("git a", 1, "/a", "s"),
    ];
    let mut picker = InteractiveSearcher::new(entries, SearchScope::Global, "/a", "s", 24);
    assert_eq!(picker.selected_index(), 2);
    assert_eq!(picker.filtered_entries()[2].timestamp, Timestamp::new(3, 0));
    press(&mut picker, KeyCode::Up, 24);
    assert_eq!(picker.selected_index(), 1);
    press(&mut picker, KeyCode::Char('g'), 24);
    assert_eq!(picker.selected_index(), 2);
    assert_eq!(picker.filtered_entries()[2].timestamp, Timestamp::new(3, 0));
}

#[test]
fn new_picker_with_prefix_filters_by_it() {
    let picker = InteractiveSearcher::new_with_prefix(
        mixed(),
        SearchScope::Global,
        "/a",
        "s1",
        Some("git".to_string()),
        24,
    );
    assert_eq!(picker.query(), "git");
    assert_eq!(listed(&picker), vec!["git status", "git push"]);
    assert_eq!(picker.selected_index(), 1);
}

#[test]
fn new_picker_over_nothing_selects_position_zero() {
    let mut picker = InteractiveSearcher::new(Vec::new(), SearchScope::Global, "/a", "s1", 24);
    assert!(picker.filtered_entries().is_empty());
    assert_eq!(picker.selected_index(), 0);
    assert_eq!(picker.scroll_offset(), 0);
    press(&mut picker, KeyCode::Up, 24);
    press(&mut picker, KeyCode::Down, 24);
    assert_eq!(picker.selected_index(), 0);
    assert!(matches!(picker.handle_key(KeyCode::Enter, false, 24), Step::Finish(None)));
}

#[test]
fn typing_filters_and_lists_matches_oldest_first() {
    let mut picker = InteractiveSearcher::new(mixed(), SearchScope::Global, "/a", "s1", 24);
    press(&mut picker, KeyCode::Char('g'), 24);
    press(&mut picker, KeyCode::Char('i'), 24);
    press(&mut picker, KeyCode::Char('t'), 24);
    assert_eq!(picker.query(), "git");
    assert_eq!(listed(&picker), vec!["git status", "git push"]);
    assert_eq!(picker.selected_index(), 1);
    press(&mut picker, KeyCode::Char('x'), 24);
    assert_eq!(picker.query(), "gitx");
    assert!(listed(&picker).is_empty());
    assert_eq!(picker.selected_index(), 0);
}

#[test]
fn backspace_removes_the_last_character() {
    let mut picker = InteractiveSearcher::new_with_prefix(
        mixed(),
        SearchScope::Global,
        "/a",
        "s1",
        Some("gitx".to_string()),
        24,
    );
    assert!(listed(&picker).is_empty());
    press(&mut picker, KeyCode::Backspace, 24);
    assert_eq!(picker.query(), "git");
    assert_eq!(listed(&picker), vec!["git status", "git push"]);
    press(&mut picker, KeyCode::Backspace, 24);
    press(&mut picker, KeyCode::Backspace, 24);
    press(&mut picker, KeyCode::Backspace, 24);
    assert_eq!(picker.query(), "");
    press(&mut picker, KeyCode::Backspace, 24);
    assert_eq!(picker.query(), "");
    assert_eq!(listed(&picker).len(), 4);
    assert_eq!(picker.selected_index(), 3);
}

#[test]
fn backspace_resets_the_selection() {
    let mut picker = InteractiveSearcher::new(mixed(), SearchScope::Global, "/a", "s1", 24);
    press(&mut picker, KeyCode::Up, 24);
    press(&mut picker, KeyCode::Up, 24);
    assert_eq!(picker.selected_index(), 1);
    press(&mut picker, KeyCode::Backspace, 24);
    assert_eq!(picker.selected_index(), 3);
}

#[test]
fn arrows_move_the_selection_within_the_list() {
    let mut picker = InteractiveSearcher::new(mixed(), SearchScope::Global, "/a", "s1", 24);
    press(&mut picker, KeyCode::Down, 24);
    assert_eq!(picker.selected_index(), 3);
    press(&mut picker, KeyCode::Up, 24);
    press(&mut picker, KeyCode::Up, 24);
    press(&mut picker, KeyCode::Up, 24);
    assert_eq!(picker.selected_index(), 0);
    press(&mut picker, KeyCode::Up, 24);
    assert_eq!(picker.selected_index(), 0);
    press(&mut picker, KeyCode::Down, 24);
    assert_eq!(picker.selected_index(), 1);
    assert_eq!(listed(&picker).len(), 4);
}

#[test]
fn function_keys_set_the_scope() {
    let mut picker = InteractiveSearcher::new(mixed(), SearchScope::Global, "/a", "s1", 24);
    press(&mut picker, KeyCode::F(2), 24);
    assert_eq!(picker.scope(), SearchScope::Session);
    assert_eq!(listed(&picker), vec!["git status", "git push"]);
    assert_eq!(picker.selected_index(), 1);
    press(&mut picker, KeyCode::F(3), 24);
    assert_eq!(picker.scope(), SearchScope::Local);
    assert_eq!(listed(&picker), vec!["ls -la", "git push"]);
    press(&mut picker, KeyCode::F(1), 24);
    assert_eq!(picker.scope(), SearchScope::Global);
    assert_eq!(listed(&picker).len(), 4);
    press(&mut picker, KeyCode::Up, 24);
    press(&mut picker, KeyCode::F(4), 24);
    assert_eq!(picker.scope(), SearchScope::Global);
    assert_eq!(picker.selected_index(), 2);
}

#[test]
fn tab_cycles_through_the_scopes() {
    let mut picker = InteractiveSearcher::new(mixed(), SearchScope::Global, "/a", "s1", 24);
    press(&mut picker, KeyCode::Tab, 24);
    assert_eq!(picker.scope(), SearchScope::Session);
    press(&mut picker, KeyCode::Tab, 24);
    assert_eq!(picker.scope(), SearchScope::Local);
    assert_eq!(listed(&picker), vec!["ls -la", "git push"]);
    press(&mut picker, KeyCode::Tab, 24);
    assert_eq!(picker.scope(), SearchScope::Global);
}

#[test]
fn scope_and_query_filter_together() {
    let mut picker = InteractiveSearcher::new_with_prefix(
        mixed(),
        SearchScope::Local,
        "/c",
        "s1",
        Some("git".to_string()),
        24,
    );
    assert_eq!(listed(&picker), vec!["git status"]);
    press(&mut picker, KeyCode::F(2), 24);
    assert_eq!(listed(&picker), vec!["git status", "git push"]);
}

#[test]
fn enter_returns_the_selected_command() {
    let mut picker = InteractiveSearcher::new(mixed(), SearchScope::Global, "/a", "s1", 24);
    press(&mut picker, KeyCode::Up, 24);
    match picker.handle_key(KeyCode::Enter, false, 24) {
        Step::Finish(Some(command)) => assert_eq!(command, "git push"),
        other => panic!("unexpected step {:?}", other),
    }
}

#[test]
fn escape_and_control_c_end_without_a_selection() {
    let mut picker = InteractiveSearcher::new(mixed(), SearchScope::Global, "/a", "s1", 24);
    assert!(matches!(picker.handle_key(KeyCode::Esc, false, 24), Step::Finish(None)));
    assert!(matches!(picker.handle_key(KeyCode::Char('c'), true, 24), Step::Finish(None)));
    assert_eq!(picker.query(), "");
    assert!(matches!(picker.handle_key(KeyCode::Char('c'), false, 24), Step::Continue));
    assert_eq!(picker.query(), "c");
}

#[test]
fn control_with_another_character_types_it() {
    let mut picker = InteractiveSearcher::new(mixed(), SearchScope::Global, "/a", "s1", 24);
    assert!(matches!(picker.handle_key(KeyCode::Char('g'), true, 24), Step::Continue));
    assert_eq!(picker.query(), "g");
}

#[test]
fn other_keys_change_nothing() {
    let mut picker = InteractiveSearcher::new(mixed(), SearchScope::Global, "/a", "s1", 24);
    press(&mut picker, KeyCode::Up, 24);
    press(&mut picker, KeyCode::Other, 24);
    assert_eq!(picker.selected_index(), 2);
    assert_eq!(picker.query(), "");
    assert_eq!(listed(&picker).len(), 4);
}

#[test]
fn a_query_lists_at_most_fifty_matches() {
    let picker = InteractiveSearcher::new_with_prefix(
        numbered(80),
        SearchScope::Global,
        "/a",
        "s",
        Some("cmd".to_string()),
        24,
    );
    let shown = listed(&picker);
    assert_eq!(shown.len(), 50);
    assert_eq!(shown[0], "cmd 30");
    assert_eq!(shown[49], "cmd 79");
    assert_eq!(picker.selected_index(), 49);
    let all = InteractiveSearcher::new(numbered(80), SearchScope::Global, "/a", "s", 24);
    assert_eq!(all.filtered_entries().len(), 80);
}

#[test]
fn window_starts_where_the_newest_entry_is_its_last_row() {
    let picker = InteractiveSearcher::new(numbered(100), SearchScope::Global, "/a", "s", 12);
    assert_eq!(picker.selected_index(), 99);
    assert_eq!(picker.scroll_offset(), 90);
    let short = InteractiveSearcher::new(numbered(5), SearchScope::Global, "/a", "s", 12);
    assert_eq!(short.scroll_offset(), 0);
    let exact = InteractiveSearcher::new(numbered(10), SearchScope::Global, "/a", "s", 12);
    assert_eq!(exact.scroll_offset(), 0);
}

#[test]
fn window_moves_up_by_one_row_near_its_top() {
    let mut picker = InteractiveSearcher::new(numbered(100), SearchScope::Global, "/a", "s", 12);
    for _ in 0..6 {
        press(&mut picker, KeyCode::Up, 12);
        assert_eq!(picker.scroll_offset(), 90);
    }
    assert_eq!(picker.selected_index(), 93);
    press(&mut picker, KeyCode::Up, 12);
    assert_eq!(picker.selected_index(), 92);
    assert_eq!(picker.scroll_offset(), 89);
    press(&mut picker, KeyCode::Up, 12);
    assert_eq!(picker.selected_index(), 91);
    assert_eq!(picker.scroll_offset(), 88);
}

#[test]
fn window_moves_down_by_one_row_near_its_bottom() {
    let mut picker = InteractiveSearcher::new(numbered(100), SearchScope::Global, "/a", "s", 12);
    for _ in 0..20 {
        press(&mut picker, KeyCode::Up, 12);
    }
    assert_eq!(picker.selected_index(), 79);
    assert_eq!(picker.scroll_offset(), 76);
    for expected in 80..83 {
        press(&mut picker, KeyCode::Down, 12);
        assert_eq!(picker.selected_index(), expected);
        assert_eq!(picker.scroll_offset(), 76);
    }
    press(&mut picker, KeyCode::Down, 12);
    assert_eq!(picker.selected_index(), 83);
    assert_eq!(picker.scroll_offset(), 77);
    press(&mut picker, KeyCode::Down, 12);
    assert_eq!(picker.selected_index(), 84);
    assert_eq!(picker.scroll_offset(), 78);
}

#[test]
fn window_stops_at_the_top_and_at_the_end_of_the_list() {
    let mut picker = InteractiveSearcher::new(numbered(12), SearchScope::Global, "/a", "s", 12);
    assert_eq!(picker.scroll_offset(), 2);
    for _ in 0..11 {
        press(&mut picker, KeyCode::Up, 12);
    }
    assert_eq!(picker.selected_index(), 0);
    assert_eq!(picker.scroll_offset(), 0);
    for _ in 0..11 {
        press(&mut picker, KeyCode::Down, 12);
    }
    assert_eq!(picker.selected_index(), 11);
    assert_eq!(picker.scroll_offset(), 2);
}

#[test]
fn threshold_is_at_least_one_row() {
    let mut picker = InteractiveSearcher::new(numbered(10), SearchScope::Global, "/a", "s", 4);
    assert_eq!(picker.scroll_offset(), 8);
    press(&mut picker, KeyCode::Up, 4);
    assert_eq!(picker.selected_index(), 8);
    assert_eq!(picker.scroll_offset(), 7);
    press(&mut picker, KeyCode::Down, 4);
    assert_eq!(picker.selected_index(), 9);
    assert_eq!(picker.scroll_offset(), 8);
}

#[test]
fn window_of_one_row_shows_the_selection() {
    let mut picker = InteractiveSearcher::new(numbered(10), SearchScope::Global, "/a", "s", 3);
    assert_eq!(picker.scroll_offset(), 9);
    press(&mut picker, KeyCode::Up, 3);
    assert_eq!(picker.selected_index(), 8);
    assert_eq!(picker.scroll_offset(), 8);
}

#[test]
fn window_without_rows_stays_where_it_is() {
    let mut picker = InteractiveSearcher::new(numbered(100), SearchScope::Global, "/a", "s", 2);
    assert_eq!(picker.selected_index(), 99);
    assert_eq!(picker.scroll_offset(), 0);
    press(&mut picker, KeyCode::Up, 0);
    assert_eq!(picker.selected_index(), 98);
    assert_eq!(picker.scroll_offset(), 0);
}

#[test]
fn window_follows_the_selection_after_a_resize() {
    let mut picker = InteractiveSearcher::new(numbered(100), SearchScope::Global, "/a", "s", 12);
    assert_eq!(picker.scroll_offset(), 90);
    press(&mut picker, KeyCode::Up, 5);
    assert_eq!(picker.selected_index(), 98);
    assert_eq!(picker.scroll_offset(), 96);
    press(&mut picker, KeyCode::Up, 2);
    assert_eq!(picker.selected_index(), 97);
    assert_eq!(picker.scroll_offset(), 96);
    press(&mut picker, KeyCode::Up, 12);
    assert_eq!(picker.selected_index(), 96);
    assert_eq!(picker.scroll_offset(), 95);
}

#[test]
fn render_marks_the_selected_row() {
    let mut picker = InteractiveSearcher::new(numbered(100), SearchScope::Global, "/a", "s", 12);
    press(&mut picker, KeyCode::Up, 12);
    let frame = picker.render(80, 12);
    assert_eq!(frame.scope_label, "[ GLOBAL ]");
    assert_eq!(frame.padding, 80 - 10 - 33);
    assert_eq!(frame.query_text, "");
    assert_eq!(frame.prompt_row, 11);
    assert_eq!(frame.columns, 80);
    assert_eq!(frame.lines, 12);
    assert_eq!(frame.rows.len(), 10);
    assert_eq!(frame.rows[0].entry.command, "cmd 90");
    assert_eq!(frame.rows[9].entry.command, "cmd 99");
    let selected: Vec<bool> = frame.rows.iter().map(|r| r.is_selected).collect();
    assert_eq!(
        selected,
        vec![false, false, false, false, false, false, false, false, true, false]
    );
}

#[test]
fn render_shows_what_the_list_holds_when_it_is_short() {
    let picker = InteractiveSearcher::new_with_prefix(
        mixed(),
        SearchScope::Session,
        "/a",
        "s1",
        Some("git".to_string()),
        24,
    );
    let frame = picker.render(40, 24);
    assert_eq!(frame.scope_label, "[ SESSION ]");
    assert_eq!(frame.padding, 1);
    assert_eq!(frame.query_text, "git");
    assert_eq!(frame.rows.len(), 2);
    assert!(!frame.rows[0].is_selected);
    assert!(frame.rows[1].is_selected);
    assert_eq!(frame.prompt_row, 23);
}

#[test]
fn render_header_padding_fills_the_line() {
    let picker = InteractiveSearcher::new(Vec::new(), SearchScope::Local, "/a", "s1", 24);
    assert_eq!(picker.render(46, 24).padding, 1);
    assert_eq!(picker.render(47, 24).padding, 1);
    assert_eq!(picker.render(48, 24).padding, 2);
    let frame = picker.render(u16::MAX, 0);
    assert_eq!(frame.scope_label, "[ DIRECTORY ]");
    assert_eq!(frame.padding, 65535 - 13 - 33);
    assert_eq!(frame.prompt_row, 0);
    assert!(frame.rows.is_empty());
}

#[test]
fn render_on_a_terminal_without_rows_shows_no_entry() {
    let picker = InteractiveSearcher::new(numbered(5), SearchScope::Global, "/a", "s", 2);
    assert!(picker.render(80, 2).rows.is_empty());
    assert_eq!(picker.render(80, 3).rows.len(), 1);
    assert_eq!(picker.render(80, 3).rows[0].entry.command, "cmd 0");
}

#[test]
fn a_command_that_fits_is_shown_whole() {
    assert_eq!(shorten_command("git status", 10), "git status");
    assert_eq!(shorten_command("git status", 80), "git status");
    assert_eq!(shorten_command("", 0), "");
}

#[test]
fn a_long_command_is_cut_and_marked() {
    assert_eq!(shorten_command("git status", 9), "git stat\u{2026}");
    assert_eq!(shorten_command("git status", 2), "g\u{2026}");
    assert_eq!(shorten_command("git status", 1), "\u{2026}");
    assert_eq!(shorten_command("git status", 0), "\u{2026}");
}

#[test]
fn a_command_is_cut_by_characters() {
    assert_eq!(shorten_command("\u{e9}t\u{e9} \u{e0} vous", 11), "\u{e9}t\u{e9} \u{e0} vous");
    assert_eq!(shorten_command("\u{e9}t\u{e9} \u{e0} vous", 4), "\u{e9}t\u{e9}\u{2026}");
}

#[test]
fn render_leaves_the_time_columns_free() {
    let picker = InteractiveSearcher::new(Vec::new(), SearchScope::Global, "/a", "s", 24);
    assert_eq!(picker.render(80, 24).command_width, 68);
    assert_eq!(picker.render(12, 24).command_width, 0);
    assert_eq!(picker.render(5, 24).command_width, 0);
    assert_eq!(picker.render(u16::MAX, 24).command_width, 65523);
}

#[test]
fn typing_upper_case_finds_lower_case_commands() {
    let mut picker = InteractiveSearcher::new(mixed(), SearchScope::Global, "/a", "s1", 24);
    press(&mut picker, KeyCode::Char('G'), 24);
    press(&mut picker, KeyCode::Char('I'), 24);
    press(&mut picker, KeyCode::Char('T'), 24);
    assert_eq!(picker.query(), "GIT");
    assert_eq!(listed(&picker), vec!["git status", "git push"]);
}
