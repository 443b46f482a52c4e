use fim::comparator::{compare_hashes, ComparisonResult, FileChange, FileStatus};

fn pairs(items: &[(&str, &str)]) -> Vec<(String, String)> {
    items.iter().map(|(p, h)| (p.to_string(), h.to_string())).collect()
}

#[test]
fn test_new_file_detection() {
    let current = vec![
        ("file1.txt".to_string(), "hash1".to_string()),
        ("file2.txt".to_string(), "hash2".to_string()),
    ];
    let database = vec![("file1.txt".to_string(), "hash1".to_string())];

    let result = compare_hashes(&current, &database);

    assert_eq!(result.new_files.len(), 1);
    assert_eq!(result.new_files[0].path, "file2.txt");
    assert_eq!(result.modified_files.len(), 0);
    assert_eq!(result.deleted_files.len(), 0);
}

#[test]
fn test_modified_file_detection() {
    let current = vec![("file1.txt".to_string(), "newhash".to_string())];
    let database = vec![("file1.txt".to_string(), "oldhash".to_string())];

    let result = compare_hashes(&current, &database);

    assert_eq!(result.modified_files.len(), 1);
    assert_eq!(result.modified_files[0].path, "file1.txt");
    assert_eq!(result.new_files.len(), 0);
    assert_eq!(result.deleted_files.len(), 0);
}

#[test]
fn test_deleted_file_detection() {
    let current = vec![];
    let database = vec![("file1.txt".to_string(), "hash1".to_string())];

    let result = compare_hashes(&current, &database);

    assert_eq!(result.deleted_files.len(), 1);
    assert_eq!(result.deleted_files[0].path, "file1.txt");
    assert_eq!(result.new_files.len(), 0);
    assert_eq!(result.modified_files.len(), 0);
}

#[test]
fn test_unchanged_file() {
    let current = vec![("file1.txt".to_string(), "hash1".to_string())];
    let database = vec![("file1.txt".to_string(), "hash1".to_string())];

    let result = compare_hashes(&current, &database);

    assert_eq!(result.unchanged_count, 1);
    assert_eq!(result.new_files.len(), 0);
    assert_eq!(result.modified_files.len(), 0);
    assert_eq!(result.deleted_files.len(), 0);
}

#[test]
fn compare_reports_hashes_of_each_kind() {
    let current = pairs(&[("a", "1"), ("b", "2"), ("c", "3")]);
    let database = pairs(&[("b", "2"), ("c", "9"), ("d", "4")]);
    let result = compare_hashes(&current, &database);

    assert_eq!(result.new_files.len(), 1);
    assert_eq!(result.new_files[0].path, "a");
    assert_eq!(result.new_files[0].status, FileStatus::New);
    assert_eq!(result.new_files[0].old_hash, None);
    assert_eq!(result.new_files[0].new_hash, Some("1".to_string()));

    assert_eq!(result.modified_files.len(), 1);
    assert_eq!(result.modified_files[0].path, "c");
    assert_eq!(result.modified_files[0].status, FileStatus::Modified);
    assert_eq!(result.modified_files[0].old_hash, Some("9".to_string()));
    assert_eq!(result.modified_files[0].new_hash, Some("3".to_string()));

    assert_eq!(result.deleted_files.len(), 1);
    assert_eq!(result.deleted_files[0].path, "d");
    assert_eq!(result.deleted_files[0].status, FileStatus::Deleted);
    assert_eq!(result.deleted_files[0].old_hash, Some("4".to_string()));
    assert_eq!(result.deleted_files[0].new_hash, None);

    assert_eq!(result.unchanged_count, 1);
    assert_eq!(result.total_changes(), 3);
}

#[test]
fn compare_keeps_scan_order() {
    let current = pairs(&[("z", "1"), ("y", "2"), ("x", "3")]);
    let database = pairs(&[("q", "1"), ("p", "2")]);
    let result = compare_hashes(&current, &database);
    let new_paths: Vec<&str> = result.new_files.iter().map(|c| c.path.as_str()).collect();
    assert_eq!(new_paths, vec!["z", "y", "x"]);
    let deleted_paths: Vec<&str> = result.deleted_files.iter().map(|c| c.path.as_str()).collect();
    assert_eq!(deleted_paths, vec!["q", "p"]);
}

#[test]
fn compare_uses_last_record_of_a_path() {
    // A later record of the same path replaces an earlier one.
    let current = pairs(&[("a", "2")]);
    let database = pairs(&[("a", "1"), ("a", "2")]);
    let result = compare_hashes(&current, &database);
    assert_eq!(result.unchanged_count, 1);
    assert_eq!(result.modified_files.len(), 0);

    let database = pairs(&[("a", "2"), ("a", "1")]);
    let result = compare_hashes(&current, &database);
    assert_eq!(result.unchanged_count, 0);
    assert_eq!(result.modified_files.len(), 1);
    assert_eq!(result.modified_files[0].old_hash, Some("1".to_string()));
}

#[test]
fn compare_empty_inputs() {
    let result = compare_hashes(&[], &[]);
    assert_eq!(result.total_changes(), 0);
    assert_eq!(result.unchanged_count, 0);
}

#[test]
fn compare_with_itself_reports_nothing() {
    let listing = pairs(&[("a", "1"), ("b", "2"), ("c", "3")]);
    let result = compare_hashes(&listing, &listing);
    assert_eq!(result.total_changes(), 0);
    assert_eq!(result.unchanged_count, 3);
}

#[test]
fn compare_counts_every_scanned_file_once() {
    let current = pairs(&[("a", "1"), ("b", "2"), ("c", "3"), ("d", "4")]);
    let database = pairs(&[("a", "1"), ("c", "0"), ("e", "5")]);
    let result = compare_hashes(&current, &database);
    assert_eq!(
        result.new_files.len() + result.modified_files.len() + result.unchanged_count,
        current.len()
    );
}

#[test]
fn total_changes_sums_the_three_lists() {
    let change = |p: &str, status: FileStatus| FileChange {
        path: p.to_string(),
        status,
        old_hash: None,
        new_hash: None,
    };
    let result = ComparisonResult {
        new_files: vec![change("a", FileStatus::New), change("b", FileStatus::New)],
        modified_files: vec![change("c", FileStatus::Modified)],
        deleted_files: vec![
            change("d", FileStatus::Deleted),
            change("e", FileStatus::Deleted),
            change("f", FileStatus::Deleted),
        ],
        unchanged_count: 7,
    };
    assert_eq!(result.total_changes(), 6);
}

#[test]
fn swapping_the_sides_swaps_new_and_deleted() {
    let a = pairs(&[("a", "1"), ("b", "2"), ("c", "3"), ("e", "7")]);
    let b = pairs(&[("d", "4"), ("c", "30"), ("b", "2"), ("e", "70")]);
    let r1 = compare_hashes(&a, &b);
    let r2 = compare_hashes(&b, &a);
    let new1: Vec<(String, Option<String>)> =
        r1.new_files.iter().map(|c| (c.path.clone(), c.new_hash.clone())).collect();
    let del2: Vec<(String, Option<String>)> =
        r2.deleted_files.iter().map(|c| (c.path.clone(), c.old_hash.clone())).collect();
    assert_eq!(new1, del2);
    let del1: Vec<(String, Option<String>)> =
        r1.deleted_files.iter().map(|c| (c.path.clone(), c.old_hash.clone())).collect();
    let new2: Vec<(String, Option<String>)> =
        r2.new_files.iter().map(|c| (c.path.clone(), c.new_hash.clone())).collect();
    assert_eq!(del1, new2);
    assert_eq!(r1.unchanged_count, r2.unchanged_count);
    let mut mod1: Vec<(String, Option<String>, Option<String>)> = r1
        .modified_files
        .iter()
        .map(|c| (c.path.clone(), c.old_hash.clone(), c.new_hash.clone()))
        .collect();
    let mut mod2: Vec<(String, Option<String>, Option<String>)> = r2
        .modified_files
        .iter()
        .map(|c| (c.path.clone(), c.new_hash.clone(), c.old_hash.clone()))
        .collect();
    mod1.sort();
    mod2.sort();
    assert_eq!(mod1, mod2);
    assert_eq!(mod1.len(), 2);
}

#[test]
fn no_change_exactly_when_scan_matches_last_records() {
    // Duplicate scan paths with the recorded hash: no change.
    let current = pairs(&[("a", "1"), ("a", "1")]);
    let database = pairs(&[("a", "0"), ("a", "1")]);
    assert_eq!(compare_hashes(&current, &database).total_changes(), 0);
    // A duplicate scan path with another hash: a change.
    let current = pairs(&[("a", "2"), ("a", "1")]);
    let result = compare_hashes(&current, &database);
    assert_eq!(result.total_changes(), 1);
    assert_eq!(
        result.total_changes(),
        current.len() - result.unchanged_count + result.deleted_files.len()
    );
}
