use rehash::history::{HistoryEntry, SearchScope, Timestamp};
use rehash::storage::Storage;

fn entry(command: &str, seconds: i64, directory: &str, session: &str) -> HistoryEntry {
    HistoryEntry {
        command: command.to_string(),
        timestamp: Timestamp::new(seconds, 0),
        directory: directory.to_string(),
        exit_code: 0,
        session_id: session.to_string(),
    }
}

fn commands(entries: &[HistoryEntry]) -> Vec<String> {
    entries.iter().map(|e| e.command.clone()).collect()
}

fn primary_commands(store: &Storage) -> Option<Vec<Option<String>>> {
    store
        .primary()
        .as_ref()
        .map(|records| records.iter().map(|r| r.as_ref().map(|e| e.command.clone())).collect())
}

#[test]
fn append_then_read_returns_the_entry_once() {
    let mut store = Storage::new(None, Vec::new());
    assert!(store.get_all_entries().is_empty());
    store.add_entry(entry("ls -la", 5, "/a", "s1"));
    let all = store.get_all_entries();
    assert_eq!(all.len(), 1);
    assert_eq!(all[0].command, "ls -la");
    assert_eq!(all[0].timestamp, Timestamp::new(5, 0));
    assert_eq!(all[0].directory, "/a");
    assert_eq!(all[0].exit_code, 0);
    assert_eq!(all[0].session_id, "s1");
}

#[test]
fn append_begins_the_primary_log_and_extends_it() {
    let mut store = Storage::new(None, Vec::new());
    assert!(store.primary().is_none());
    store.add_entry(entry("one", 2, "/a", "s"));
    store.add_entry(entry("two", 1, "/a", "s"));
    assert_eq!(
        primary_commands(&store),
        Some(vec![Some("one".to_string()), Some("two".to_string())])
    );
}

#[test]
fn reads_merge_all_logs_in_chronological_order() {
    let primary = vec![Some(entry("p30", 30, "/a", "s")), Some(entry("p10", 10, "/a", "s"))];
    let shared = vec![
        Some(vec![Some(entry("r20", 20, "/a", "s")), Some(entry("r40", 40, "/a", "s"))]),
        None,
        Some(vec![Some(entry("q05", 5, "/a", "s"))]),
    ];
    let store = Storage::new(Some(primary), shared);
    let all = store.get_all_entries();
    assert_eq!(commands(&all), vec!["q05", "p10", "r20", "p30", "r40"]);
    for pair in all.windows(2) {
        assert!(pair[0].timestamp.seconds <= pair[1].timestamp.seconds);
    }
}

#[test]
fn entries_of_one_instant_keep_the_order_of_the_logs() {
    let primary = vec![Some(entry("first", 7, "/a", "s")), Some(entry("second", 7, "/a", "s"))];
    let shared = vec![Some(vec![Some(entry("third", 7, "/a", "s"))])];
    let store = Storage::new(Some(primary), shared);
    assert_eq!(commands(&store.get_all_entries()), vec!["first", "second", "third"]);
}

#[test]
fn nanoseconds_order_entries_of_one_second() {
    let mut late = entry("late", 7, "/a", "s");
    late.timestamp = Timestamp::new(7, 900);
    let mut early = entry("early", 7, "/a", "s");
    early.timestamp = Timestamp::new(7, 100);
    let store = Storage::new(Some(vec![Some(late), Some(early)]), Vec::new());
    assert_eq!(commands(&store.get_all_entries()), vec!["early", "late"]);
}

#[test]
fn malformed_records_are_skipped() {
    let primary = vec![
        None,
        Some(entry("a", 1, "/a", "s")),
        None,
        None,
        Some(entry("b", 2, "/a", "s")),
        Some(entry("c", 3, "/a", "s")),
        None,
    ];
    let shared = vec![Some(vec![None, Some(entry("d", 4, "/a", "s")), None])];
    let store = Storage::new(Some(primary), shared);
    assert_eq!(commands(&store.get_all_entries()), vec!["a", "b", "c", "d"]);
}

#[test]
fn a_log_of_malformed_records_only_reads_as_empty() {
    let store = Storage::new(Some(vec![None, None]), vec![Some(vec![None]), None]);
    assert!(store.get_all_entries().is_empty());
    assert!(store.get_local_entries("/a").is_empty());
    assert!(store.get_session_entries("s").is_empty());
}

#[test]
fn local_scope_shows_the_directory_and_what_lies_below() {
    let primary = vec![
        Some(entry("in a", 1, "/a", "s")),
        Some(entry("in a/b", 2, "/a/b", "s")),
        Some(entry("in c", 3, "/c", "s")),
    ];
    let store = Storage::new(Some(primary), Vec::new());
    assert_eq!(commands(&store.get_local_entries("/a")), vec!["in a", "in a/b"]);
    assert_eq!(commands(&store.get_local_entries("/c")), vec!["in c"]);
    assert!(store.get_local_entries("/d").is_empty());
}

#[test]
fn local_scope_compares_paths_as_written() {
    let primary = vec![
        Some(entry("sibling", 1, "/ab", "s")),
        Some(entry("exact", 2, "/a", "s")),
        Some(entry("slash", 3, "/a/", "s")),
        Some(entry("upper", 4, "/A", "s")),
        Some(entry("deep", 5, "/a/b/c", "s")),
    ];
    let store = Storage::new(Some(primary), Vec::new());
    assert_eq!(commands(&store.get_local_entries("/a")), vec!["exact", "slash", "deep"]);
    assert_eq!(commands(&store.get_local_entries("/a/")), vec!["slash"]);
    assert_eq!(
        commands(&store.get_local_entries("")),
        vec!["sibling", "exact", "slash", "upper", "deep"]
    );
}

#[test]
fn session_scope_shows_the_entries_of_the_session() {
    let primary = vec![
        Some(entry("mine", 1, "/a", "s1")),
        Some(entry("other", 2, "/a", "s2")),
        Some(entry("mine too", 3, "/c", "s1")),
    ];
    let store = Storage::new(Some(primary), Vec::new());
    assert_eq!(commands(&store.get_session_entries("s1")), vec!["mine", "mine too"]);
    assert!(store.get_session_entries("s").is_empty());
}

#[test]
fn read_entries_follows_the_scope() {
    let primary = vec![
        Some(entry("a1", 3, "/a", "s1")),
        Some(entry("c2", 2, "/c", "s2")),
        Some(entry("ab2", 1, "/a/b", "s2")),
    ];
    let store = Storage::new(Some(primary), Vec::new());
    assert_eq!(
        commands(&store.read_entries(SearchScope::Global, "/a", "s2")),
        vec!["ab2", "c2", "a1"]
    );
    assert_eq!(commands(&store.read_entries(SearchScope::Session, "/a", "s2")), vec!["ab2", "c2"]);
    assert_eq!(commands(&store.read_entries(SearchScope::Local, "/a", "s2")), vec!["ab2", "a1"]);
}

#[test]
fn clear_all_deletes_the_primary_log_only() {
    let primary = vec![Some(entry("p", 1, "/a", "s"))];
    let shared = vec![Some(vec![Some(entry("r", 2, "/a", "s"))])];
    let mut store = Storage::new(Some(primary), shared);
    store.clear_all_history();
    assert!(store.primary().is_none());
    assert_eq!(commands(&store.get_all_entries()), vec!["r"]);
}

#[test]
fn clear_local_rewrites_the_primary_log_without_the_directory() {
    let primary = vec![
        Some(entry("c", 3, "/c", "s")),
        None,
        Some(entry("a", 1, "/a", "s")),
        Some(entry("ab", 2, "/a/b", "s")),
        Some(entry("d", 4, "/d", "s")),
    ];
    let mut store = Storage::new(Some(primary), Vec::new());
    store.clear_local_history("/a");
    assert_eq!(
        primary_commands(&store),
        Some(vec![Some("c".to_string()), Some("d".to_string())])
    );
    assert_eq!(commands(&store.get_all_entries()), vec!["c", "d"]);
}

#[test]
fn clear_session_rewrites_the_primary_log_without_the_session() {
    let primary = vec![
        Some(entry("mine", 1, "/a", "s1")),
        Some(entry("other", 2, "/a", "s2")),
    ];
    let mut store = Storage::new(Some(primary), Vec::new());
    store.clear_session_history("s1");
    assert_eq!(primary_commands(&store), Some(vec![Some("other".to_string())]));
}

#[test]
fn clear_that_keeps_nothing_leaves_no_primary_log() {
    let primary = vec![Some(entry("mine", 1, "/a", "s1"))];
    let mut store = Storage::new(Some(primary), Vec::new());
    store.clear_session_history("s1");
    assert!(store.primary().is_none());
    assert!(store.get_all_entries().is_empty());
}

#[test]
fn clear_reads_every_log_and_writes_the_primary_log_only() {
    let primary = vec![Some(entry("p1", 1, "/a", "s1")), Some(entry("p2", 3, "/a", "s2"))];
    let shared = vec![Some(vec![Some(entry("r1", 2, "/a", "s2")), Some(entry("r2", 4, "/a", "s1"))])];
    let mut store = Storage::new(Some(primary), shared);
    store.clear_session_history("s1");
    assert_eq!(
        primary_commands(&store),
        Some(vec![Some("r1".to_string()), Some("p2".to_string())])
    );
    assert_eq!(commands(&store.get_all_entries()), vec!["r1", "r1", "p2", "r2"]);
}

#[test]
fn compact_keeps_the_most_recent_entries() {
    let primary = vec![
        Some(entry("t3", 3, "/a", "s")),
        Some(entry("t1", 1, "/a", "s")),
        None,
        Some(entry("t4", 4, "/a", "s")),
        Some(entry("t2", 2, "/a", "s")),
    ];
    let mut store = Storage::new(Some(primary), Vec::new());
    assert!(store.compact_history(2));
    assert_eq!(
        primary_commands(&store),
        Some(vec![Some("t4".to_string()), Some("t3".to_string())])
    );
    assert_eq!(commands(&store.get_all_entries()), vec!["t3", "t4"]);
}

#[test]
fn compact_is_idempotent() {
    let primary = vec![
        Some(entry("t1", 1, "/a", "s")),
        Some(entry("t2", 2, "/a", "s")),
        Some(entry("t3", 3, "/a", "s")),
    ];
    let mut store = Storage::new(Some(primary), Vec::new());
    assert!(store.compact_history(2));
    let once = primary_commands(&store);
    assert!(!store.compact_history(2));
    assert_eq!(primary_commands(&store), once);
    assert_eq!(store.get_all_entries().len(), 2);
}

#[test]
fn compact_leaves_a_small_store_untouched() {
    let primary = vec![None, Some(entry("t2", 2, "/a", "s")), Some(entry("t1", 1, "/a", "s"))];
    let mut store = Storage::new(Some(primary), Vec::new());
    assert!(!store.compact_history(2));
    assert_eq!(
        primary_commands(&store),
        Some(vec![None, Some("t2".to_string()), Some("t1".to_string())])
    );
    assert!(!store.compact_history(5));
}

#[test]
fn compact_to_nothing_leaves_no_primary_log() {
    let primary = vec![Some(entry("t1", 1, "/a", "s"))];
    let mut store = Storage::new(Some(primary), Vec::new());
    assert!(store.compact_history(0));
    assert!(store.primary().is_none());
    assert!(!store.compact_history(0));
}

#[test]
fn compact_among_equal_instants_keeps_the_earlier_records() {
    let primary = vec![
        Some(entry("x", 5, "/a", "s")),
        Some(entry("y", 5, "/a", "s")),
        Some(entry("z", 5, "/a", "s")),
    ];
    let mut store = Storage::new(Some(primary), Vec::new());
    assert!(store.compact_history(2));
    assert_eq!(
        primary_commands(&store),
        Some(vec![Some("x".to_string()), Some("y".to_string())])
    );
}

#[test]
fn compact_counts_the_entries_of_every_log() {
    let primary = vec![Some(entry("p1", 1, "/a", "s")), Some(entry("p3", 3, "/a", "s"))];
    let shared = vec![Some(vec![Some(entry("r2", 2, "/a", "s"))])];
    let mut store = Storage::new(Some(primary), shared);
    assert!(store.compact_history(2));
    assert_eq!(
        primary_commands(&store),
        Some(vec![Some("p3".to_string()), Some("r2".to_string())])
    );
    assert_eq!(commands(&store.get_all_entries()), vec!["r2", "r2", "p3"]);
}

#[test]
fn a_scoped_read_is_the_whole_read_cut_down() {
    let primary = vec![
        Some(entry("p3", 3, "/a", "s1")),
        None,
        Some(entry("p1", 1, "/c", "s2")),
        Some(entry("p5", 5, "/a/b", "s1")),
        Some(entry("p5b", 5, "/a", "s2")),
    ];
    let shared = vec![
        Some(vec![Some(entry("r2", 2, "/a", "s1")), Some(entry("r5", 5, "/c", "s1"))]),
        None,
        Some(vec![Some(entry("q4", 4, "/ab", "s2"))]),
    ];
    let store = Storage::new(Some(primary), shared);
    let all = store.get_all_entries();
    assert_eq!(commands(&all), vec!["p1", "r2", "p3", "q4", "p5", "p5b", "r5"]);
    let of_session: Vec<String> =
        all.iter().filter(|e| e.session_id == "s1").map(|e| e.command.clone()).collect();
    assert_eq!(commands(&store.get_session_entries("s1")), of_session);
    assert_eq!(of_session, vec!["r2", "p3", "p5", "r5"]);
    let of_directory: Vec<String> = all
        .iter()
        .filter(|e| e.directory == "/a" || e.directory.starts_with("/a/"))
        .map(|e| e.command.clone())
        .collect();
    assert_eq!(commands(&store.get_local_entries("/a")), of_directory);
    assert_eq!(of_directory, vec!["r2", "p3", "p5", "p5b"]);
    assert_eq!(commands(&store.read_entries(SearchScope::Global, "/a", "s1")), commands(&all));
    assert!(store.get_session_entries("nobody").is_empty());
}
