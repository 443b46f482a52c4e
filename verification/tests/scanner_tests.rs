use std::path::PathBuf;

use fim::db::{record_pairs, FileRecord};
use fim::scanner::{check_scan_root, collect_scanned_files, ScanError, WalkEntry};

fn entry(p: &str, is_file: bool, metadata_is_file: Option<bool>) -> WalkEntry {
    WalkEntry { path: PathBuf::from(p), is_file, metadata_is_file }
}

#[test]
fn scan_root_must_exist_and_be_a_directory() {
    assert_eq!(check_scan_root(false, false), Err(ScanError::NotFound));
    assert_eq!(check_scan_root(false, true), Err(ScanError::NotFound));
    assert_eq!(check_scan_root(true, false), Err(ScanError::NotADirectory));
    assert_eq!(check_scan_root(true, true), Ok(()));
}

#[test]
fn only_confirmed_files_are_kept_in_walk_order() {
    let entries = vec![
        entry("/root", false, Some(false)),
        entry("/root/a.txt", true, Some(true)),
        entry("/root/sub", false, Some(false)),
        entry("/root/sub/b.txt", true, Some(true)),
        entry("/root/unreadable", true, None),
        entry("/root/raced", true, Some(false)),
        entry("/root/c.txt", true, Some(true)),
    ];
    let files = collect_scanned_files(entries);
    let paths: Vec<PathBuf> = files.into_iter().map(|f| f.path).collect();
    assert_eq!(
        paths,
        vec![
            PathBuf::from("/root/a.txt"),
            PathBuf::from("/root/sub/b.txt"),
            PathBuf::from("/root/c.txt"),
        ]
    );
}

#[test]
fn empty_walk_gives_no_files() {
    assert!(collect_scanned_files(vec![]).is_empty());
}

#[test]
fn record_pairs_keep_path_and_hash() {
    let records = vec![
        FileRecord {
            path: "/a".to_string(),
            hash: "h1".to_string(),
            last_checked: "2024-01-01 00:00:00".to_string(),
        },
        FileRecord {
            path: "/b".to_string(),
            hash: "h2".to_string(),
            last_checked: "2024-01-02 00:00:00".to_string(),
        },
    ];
    assert_eq!(
        record_pairs(records),
        vec![("/a".to_string(), "h1".to_string()), ("/b".to_string(), "h2".to_string())]
    );
}
