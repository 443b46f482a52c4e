use std::collections::BTreeMap;

use fim::comparator::{compare_hashes, ComparisonResult, FileChange, FileStatus};
use fim::report::{
    decimal_string, deleted_file_message, modified_file_message, new_file_message, report_lines,
    summary_line,
};
use fim::sync::{plan_sync, SyncAction};

fn pairs(items: &[(&str, &str)]) -> Vec<(String, String)> {
    items.iter().map(|(p, h)| (p.to_string(), h.to_string())).collect()
}

/// A table keyed by path, written to as a keyed SQL table is.
fn apply(table: &mut BTreeMap<String, String>, actions: &[SyncAction]) {
    for action in actions {
        match action {
            SyncAction::Insert { path, hash } => {
                if !table.contains_key(path) {
                    table.insert(path.clone(), hash.clone());
                }
            }
            SyncAction::Update { path, hash } => {
                if let Some(h) = table.get_mut(path) {
                    *h = hash.clone();
                }
            }
            SyncAction::Delete { path } => {
                table.remove(path);
            }
        }
    }
}

#[test]
fn plan_orders_inserts_updates_deletes() {
    let current = pairs(&[("a", "1"), ("c", "3")]);
    let database = pairs(&[("b", "2"), ("c", "0")]);
    let result = compare_hashes(&current, &database);
    let actions = plan_sync(&result);
    assert_eq!(actions.len(), 3);
    assert!(matches!(&actions[0], SyncAction::Insert { path, hash } if path == "a" && hash == "1"));
    assert!(matches!(&actions[1], SyncAction::Update { path, hash } if path == "c" && hash == "3"));
    assert!(matches!(&actions[2], SyncAction::Delete { path } if path == "b"));
}

#[test]
fn sync_brings_records_to_the_scan() {
    let current = pairs(&[("a", "1"), ("b", "22"), ("c", "3"), ("e", "5")]);
    let database = pairs(&[("b", "2"), ("c", "3"), ("d", "4")]);
    let result = compare_hashes(&current, &database);
    let mut table: BTreeMap<String, String> = database.iter().cloned().collect();
    apply(&mut table, &plan_sync(&result));
    let expected: BTreeMap<String, String> = current.iter().cloned().collect();
    assert_eq!(table, expected);
}

#[test]
fn no_writes_when_nothing_changed() {
    let listing = pairs(&[("a", "1"), ("b", "2")]);
    let result = compare_hashes(&listing, &listing);
    assert!(plan_sync(&result).is_empty());
    assert!(report_lines(&result).is_empty());
}

#[test]
fn report_lines_match_the_log_format() {
    let current = pairs(&[("new.txt", "n1"), ("mod.txt", "m2")]);
    let database = pairs(&[("mod.txt", "m1"), ("gone.txt", "g1")]);
    let result = compare_hashes(&current, &database);
    let lines = report_lines(&result);
    assert_eq!(
        lines,
        vec![
            "[NEW] new.txt".to_string(),
            "[MODIFIED] mod.txt (old: m1, new: m2)".to_string(),
            "[DELETED] gone.txt".to_string(),
        ]
    );
}

#[test]
fn message_of_each_kind() {
    let new = FileChange {
        path: "/x".to_string(),
        status: FileStatus::New,
        old_hash: None,
        new_hash: Some("h".to_string()),
    };
    assert_eq!(new_file_message(&new), "[NEW] /x");
    let deleted = FileChange {
        path: "/y".to_string(),
        status: FileStatus::Deleted,
        old_hash: Some("h".to_string()),
        new_hash: None,
    };
    assert_eq!(deleted_file_message(&deleted), "[DELETED] /y");
    let modified = FileChange {
        path: "/z".to_string(),
        status: FileStatus::Modified,
        old_hash: Some("aa".to_string()),
        new_hash: Some("bb".to_string()),
    };
    assert_eq!(modified_file_message(&modified), "[MODIFIED] /z (old: aa, new: bb)");
}

#[test]
fn summary_line_counts_each_kind() {
    let current = pairs(&[("a", "1"), ("b", "2"), ("c", "3")]);
    let database = pairs(&[("a", "1"), ("b", "0"), ("d", "4"), ("e", "5")]);
    let result = compare_hashes(&current, &database);
    assert_eq!(
        summary_line(&result),
        "\n[SUMMARY] Unchanged: 1, New: 1, Modified: 1, Deleted: 2"
    );
}

#[test]
fn decimal_string_of_counts() {
    assert_eq!(decimal_string(0), "0");
    assert_eq!(decimal_string(7), "7");
    assert_eq!(decimal_string(10), "10");
    assert_eq!(decimal_string(1200), "1200");
    assert_eq!(decimal_string(usize::MAX), usize::MAX.to_string());
}

#[test]
fn changes_reported_exactly_when_states_differ() {
    let current = pairs(&[("a", "1"), ("b", "2")]);
    // Same state, other order of records: no change.
    let same = pairs(&[("b", "2"), ("a", "1")]);
    assert_eq!(compare_hashes(&current, &same).total_changes(), 0);
    // One hash differs: a change.
    let differ = pairs(&[("b", "2"), ("a", "0")]);
    assert_eq!(compare_hashes(&current, &differ).total_changes(), 1);
    // One extra record: a change.
    let extra = pairs(&[("b", "2"), ("a", "1"), ("c", "3")]);
    assert_eq!(compare_hashes(&current, &extra).total_changes(), 1);
}

#[test]
fn duplicate_scan_paths_keep_the_first_inserted_hash() {
    // A scan that lists a path twice: the second insert fails on the key,
    // so the records keep the first hash.
    let current = pairs(&[("a", "1"), ("a", "2")]);
    let database: Vec<(String, String)> = vec![];
    let result = compare_hashes(&current, &database);
    assert_eq!(result.new_files.len(), 2);
    let mut table: BTreeMap<String, String> = BTreeMap::new();
    apply(&mut table, &plan_sync(&result));
    assert_eq!(table.get("a"), Some(&"1".to_string()));
}

#[test]
fn hand_built_result_is_planned_and_reported_by_list() {
    let change = |p: &str, status: FileStatus, old: Option<&str>, new: Option<&str>| FileChange {
        path: p.to_string(),
        status,
        old_hash: old.map(|h| h.to_string()),
        new_hash: new.map(|h| h.to_string()),
    };
    // Hashes the same and statuses that do not match their lists: the lines
    // and writes follow the list a change sits in.
    let result = ComparisonResult {
        new_files: vec![change("a", FileStatus::Unchanged, None, Some("1"))],
        modified_files: vec![change("b", FileStatus::New, Some("2"), Some("2"))],
        deleted_files: vec![change("c", FileStatus::New, None, None)],
        unchanged_count: 0,
    };
    assert_eq!(
        report_lines(&result),
        vec![
            "[NEW] a".to_string(),
            "[MODIFIED] b (old: 2, new: 2)".to_string(),
            "[DELETED] c".to_string(),
        ]
    );
    let actions = plan_sync(&result);
    assert!(matches!(&actions[0], SyncAction::Insert { path, hash } if path == "a" && hash == "1"));
    assert!(matches!(&actions[1], SyncAction::Update { path, hash } if path == "b" && hash == "2"));
    assert!(matches!(&actions[2], SyncAction::Delete { path } if path == "c"));
}
