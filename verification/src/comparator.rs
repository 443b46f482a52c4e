//! Classification of the files of a scan against the records kept from the
//! previous scan.
use vstd::prelude::*;

use vstd::hash_map::StringHashMap;

verus! {

/// A (path, hash) pair, by the views of its two strings.
pub type PathHash = (Seq<char>, Seq<char>);

/// How a file's state differs from what was recorded for it.
#[derive(Debug, Clone, PartialEq, Eq, Structural)]
pub enum FileStatus {
    New,
    Modified,
    Unchanged,
    Deleted,
}

/// One detected change of one file.
#[derive(Debug, Clone)]
pub struct FileChange {
    pub path: String,
    pub status: FileStatus,
    pub old_hash: Option<String>,
    pub new_hash: Option<String>,
}

/// The mathematical value of a [`FileChange`].
pub struct FileChangeView {
    pub path: Seq<char>,
    pub status: FileStatus,
    pub old_hash: Option<Seq<char>>,
    pub new_hash: Option<Seq<char>>,
}

/// The view of an optional string.
pub open spec fn opt_view(o: Option<String>) -> Option<Seq<char>> {
    match o {
        Some(s) => Some(s@),
        None => None,
    }
}

impl View for FileChange {
    type V = FileChangeView;

    open spec fn view(&self) -> FileChangeView {
        FileChangeView {
            path: self.path@,
            status: self.status,
            old_hash: opt_view(self.old_hash),
            new_hash: opt_view(self.new_hash),
        }
    }
}

/// Result of a complete file integrity check
#[derive(Debug)]
pub struct ComparisonResult {
    pub new_files: Vec<FileChange>,
    pub modified_files: Vec<FileChange>,
    pub deleted_files: Vec<FileChange>,
    pub unchanged_count: usize,
}

/// The mathematical value of a [`ComparisonResult`].
pub struct ComparisonView {
    pub new_files: Seq<FileChangeView>,
    pub modified_files: Seq<FileChangeView>,
    pub deleted_files: Seq<FileChangeView>,
    pub unchanged_count: nat,
}

/// The views of a list of changes.
pub open spec fn changes_view(v: Seq<FileChange>) -> Seq<FileChangeView> {
    v.map_values(|c: FileChange| c@)
}

impl View for ComparisonResult {
    type V = ComparisonView;

    open spec fn view(&self) -> ComparisonView {
        ComparisonView {
            new_files: changes_view(self.new_files@),
            modified_files: changes_view(self.modified_files@),
            deleted_files: changes_view(self.deleted_files@),
            unchanged_count: self.unchanged_count as nat,
        }
    }
}

/// A change reports a new file: no old hash, a new one.
pub open spec fn is_new_change(c: FileChangeView) -> bool {
    &&& c.status == FileStatus::New
    &&& c.old_hash is None
    &&& c.new_hash is Some
}

/// A change reports a modified file: both hashes, and they differ.
pub open spec fn is_modified_change(c: FileChangeView) -> bool {
    &&& c.status == FileStatus::Modified
    &&& c.old_hash is Some
    &&& c.new_hash is Some
    &&& c.old_hash != c.new_hash
}

/// A change reports a deleted file: an old hash, no new one.
pub open spec fn is_deleted_change(c: FileChangeView) -> bool {
    &&& c.status == FileStatus::Deleted
    &&& c.old_hash is Some
    &&& c.new_hash is None
}

impl ComparisonView {
    /// Every change sits in the list of its status and carries the hashes
    /// that this status implies.
    pub open spec fn well_formed(self) -> bool {
        &&& forall|i: int| 0 <= i < self.new_files.len() ==> is_new_change(#[trigger] self.new_files[i])
        &&& forall|i: int|
            0 <= i < self.modified_files.len() ==> is_modified_change(#[trigger] self.modified_files[i])
        &&& forall|i: int|
            0 <= i < self.deleted_files.len() ==> is_deleted_change(#[trigger] self.deleted_files[i])
    }

    /// How many changes the comparison reports.
    pub open spec fn total_changes(self) -> nat {
        self.new_files.len() + self.modified_files.len() + self.deleted_files.len()
    }
}

/// The view of a listing of (path, hash) pairs of strings.
pub open spec fn listing_view(s: Seq<(String, String)>) -> Seq<PathHash> {
    s.map_values(|e: (String, String)| (e.0@, e.1@))
}

/// The hash that a listing records for `path`: that of its last entry with
/// this path, as when the listing is collected into a map.
pub open spec fn recorded_hash(listing: Seq<PathHash>, path: Seq<char>) -> Option<Seq<char>>
    decreases listing.len(),
{
    if listing.len() == 0 {
        None
    } else if listing.last().0 == path {
        Some(listing.last().1)
    } else {
        recorded_hash(listing.drop_last(), path)
    }
}

/// Some entry of the listing has this path.
pub open spec fn lists_path(listing: Seq<PathHash>, path: Seq<char>) -> bool {
    exists|i: int| 0 <= i < listing.len() && #[trigger] listing[i].0 == path
}

/// The changes reporting the entries of `current` that `database` has no record of,
/// in the order of `current`.
pub open spec fn spec_new_files(current: Seq<PathHash>, database: Seq<PathHash>) -> Seq<FileChangeView>
    decreases current.len(),
{
    if current.len() == 0 {
        Seq::empty()
    } else {
        let prev = spec_new_files(current.drop_last(), database);
        let e = current.last();
        if recorded_hash(database, e.0) is None {
            prev.push(
                FileChangeView {
                    path: e.0,
                    status: FileStatus::New,
                    old_hash: None,
                    new_hash: Some(e.1),
                },
            )
        } else {
            prev
        }
    }
}

/// The changes reporting the entries of `current` whose hash differs from the
/// one that `database` records, in the order of `current`.
pub open spec fn spec_modified_files(current: Seq<PathHash>, database: Seq<PathHash>) -> Seq<
    FileChangeView,
>
    decreases current.len(),
{
    if current.len() == 0 {
        Seq::empty()
    } else {
        let prev = spec_modified_files(current.drop_last(), database);
        let e = current.last();
        match recorded_hash(database, e.0) {
            Some(old) => if old != e.1 {
                prev.push(
                    FileChangeView {
                        path: e.0,
                        status: FileStatus::Modified,
                        old_hash: Some(old),
                        new_hash: Some(e.1),
                    },
                )
            } else {
                prev
            },
            None => prev,
        }
    }
}

/// How many entries of `current` carry exactly the hash that `database` records.
pub open spec fn spec_unchanged_count(current: Seq<PathHash>, database: Seq<PathHash>) -> nat
    decreases current.len(),
{
    if current.len() == 0 {
        0
    } else {
        let prev = spec_unchanged_count(current.drop_last(), database);
        let e = current.last();
        if recorded_hash(database, e.0) == Some(e.1) {
            prev + 1
        } else {
            prev
        }
    }
}

/// The changes reporting the entries of `database` whose path `current` does
/// not list, in the order of `database`.
pub open spec fn spec_deleted_files(current: Seq<PathHash>, database: Seq<PathHash>) -> Seq<
    FileChangeView,
>
    decreases database.len(),
{
    if database.len() == 0 {
        Seq::empty()
    } else {
        let prev = spec_deleted_files(current, database.drop_last());
        let e = database.last();
        if !lists_path(current, e.0) {
            prev.push(
                FileChangeView {
                    path: e.0,
                    status: FileStatus::Deleted,
                    old_hash: Some(e.1),
                    new_hash: None,
                },
            )
        } else {
            prev
        }
    }
}

/// The outcome of comparing a scan with the recorded state.
pub open spec fn spec_compare(current: Seq<PathHash>, database: Seq<PathHash>) -> ComparisonView {
    ComparisonView {
        new_files: spec_new_files(current, database),
        modified_files: spec_modified_files(current, database),
        deleted_files: spec_deleted_files(current, database),
        unchanged_count: spec_unchanged_count(current, database),
    }
}

impl ComparisonResult {
    /// How many files are new, modified or deleted.
    pub fn total_changes(&self) -> (n: usize)
        requires
            self.new_files.len() + self.modified_files.len() + self.deleted_files.len()
                <= usize::MAX,
        ensures
            n == self.new_files.len() + self.modified_files.len() + self.deleted_files.len(),
            n == self@.total_changes(),
    {
        self.new_files.len() + self.modified_files.len() + self.deleted_files.len()
    }
}

fn check_new_change(c: &FileChange) -> (b: bool)
    ensures
        b == is_new_change(c@),
{
    c.status == FileStatus::New && c.old_hash.is_none() && c.new_hash.is_some()
}

fn check_modified_change(c: &FileChange) -> (b: bool)
    ensures
        b == is_modified_change(c@),
{
    if c.status != FileStatus::Modified {
        return false;
    }
    match (&c.old_hash, &c.new_hash) {
        (Some(old), Some(new)) => *old != *new,
        _ => false,
    }
}

fn check_deleted_change(c: &FileChange) -> (b: bool)
    ensures
        b == is_deleted_change(c@),
{
    c.status == FileStatus::Deleted && c.old_hash.is_some() && c.new_hash.is_none()
}

impl ComparisonResult {
    /// Whether every change sits in the list of its status and carries the
    /// hashes that this status implies.
    pub fn is_well_formed(&self) -> (b: bool)
        ensures
            b == self@.well_formed(),
    {
        let ghost v = self@;
        let mut i: usize = 0;
        while i < self.new_files.len()
            invariant
                v == self@,
                i <= self.new_files@.len(),
                forall|k: int| 0 <= k < i ==> is_new_change(#[trigger] v.new_files[k]),
            decreases self.new_files@.len() - i,
        {
            assert(v.new_files[i as int] == self.new_files@[i as int]@);
            if !check_new_change(&self.new_files[i]) {
                return false;
            }
            i = i + 1;
        }
        let mut i: usize = 0;
        while i < self.modified_files.len()
            invariant
                v == self@,
                i <= self.modified_files@.len(),
                forall|k: int| 0 <= k < v.new_files.len() ==> is_new_change(#[trigger] v.new_files[k]),
                forall|k: int| 0 <= k < i ==> is_modified_change(#[trigger] v.modified_files[k]),
            decreases self.modified_files@.len() - i,
        {
            assert(v.modified_files[i as int] == self.modified_files@[i as int]@);
            if !check_modified_change(&self.modified_files[i]) {
                return false;
            }
            i = i + 1;
        }
        let mut i: usize = 0;
        while i < self.deleted_files.len()
            invariant
                v == self@,
                i <= self.deleted_files@.len(),
                forall|k: int| 0 <= k < v.new_files.len() ==> is_new_change(#[trigger] v.new_files[k]),
                forall|k: int|
                    0 <= k < v.modified_files.len() ==> is_modified_change(#[trigger] v.modified_files[k]),
                forall|k: int| 0 <= k < i ==> is_deleted_change(#[trigger] v.deleted_files[k]),
            decreases self.deleted_files@.len() - i,
        {
            assert(v.deleted_files[i as int] == self.deleted_files@[i as int]@);
            if !check_deleted_change(&self.deleted_files[i]) {
                return false;
            }
            i = i + 1;
        }
        true
    }
}

/// The records of a listing, in a map from path to hash; a later entry
/// replaces an earlier one with the same path.
fn record_map(listing: &[(String, String)]) -> (m: StringHashMap<String>)
    ensures
        forall|k: Seq<char>|
            #[trigger] m@.contains_key(k) == (recorded_hash(listing_view(listing@), k) is Some),
        forall|k: Seq<char>|
            m@.contains_key(k) ==> Some(#[trigger] m@[k]@) == recorded_hash(
                listing_view(listing@),
                k,
            ),
{
    let ghost lv = listing_view(listing@);
    let mut m: StringHashMap<String> = StringHashMap::new();
    let mut j: usize = 0;
    while j < listing.len()
        invariant
            j <= listing@.len(),
            lv == listing_view(listing@),
            forall|k: Seq<char>|
                #[trigger] m@.contains_key(k) == (recorded_hash(lv.take(j as int), k) is Some),
            forall|k: Seq<char>|
                m@.contains_key(k) ==> Some(#[trigger] m@[k]@) == recorded_hash(
                    lv.take(j as int),
                    k,
                ),
        decreases listing@.len() - j,
    {
        assert(lv.take(j + 1).drop_last() =~= lv.take(j as int));
        assert(lv.take(j + 1).last() == lv[j as int]);
        m.insert(listing[j].0.clone(), listing[j].1.clone());
        j = j + 1;
    }
    assert(lv.take(j as int) =~= lv);
    m
}

/// The paths of a listing, as the keys of a map.
fn path_set(listing: &[(String, String)]) -> (m: StringHashMap<()>)
    ensures
        forall|k: Seq<char>| #[trigger] m@.contains_key(k) == lists_path(listing_view(listing@), k),
{
    let ghost lv = listing_view(listing@);
    let mut m: StringHashMap<()> = StringHashMap::new();
    let mut j: usize = 0;
    while j < listing.len()
        invariant
            j <= listing@.len(),
            lv == listing_view(listing@),
            forall|k: Seq<char>| #[trigger] m@.contains_key(k) == lists_path(lv.take(j as int), k),
        decreases listing@.len() - j,
    {
        let ghost before = lv.take(j as int);
        let ghost after = lv.take(j + 1);
        m.insert(listing[j].0.clone(), ());
        assert forall|k: Seq<char>| #[trigger] m@.contains_key(k) == lists_path(after, k) by {
            if lists_path(after, k) {
                let i = choose|i: int| 0 <= i < after.len() && #[trigger] after[i].0 == k;
                if i < j {
                    assert(before[i].0 == k);
                }
            }
            if lists_path(before, k) {
                let i = choose|i: int| 0 <= i < before.len() && #[trigger] before[i].0 == k;
                assert(after[i].0 == k);
            }
            if k == lv[j as int].0 {
                assert(after[j as int].0 == k);
            }
        }
        j = j + 1;
    }
    assert(lv.take(j as int) =~= lv);
    m
}

/// Compares current file state with database records
pub fn compare_hashes(current_files: &[(String, String)], database_files: &[(String, String)]) -> (r:
    ComparisonResult)
    ensures
        r@ == spec_compare(listing_view(current_files@), listing_view(database_files@)),
        r@.well_formed(),
        r@.new_files.len() + r@.modified_files.len() + r@.unchanged_count == current_files@.len(),
        r@.deleted_files.len() <= database_files@.len(),
{
    let ghost cur = listing_view(current_files@);
    let ghost db = listing_view(database_files@);
    let mut new_files: Vec<FileChange> = Vec::new();
    let mut modified_files: Vec<FileChange> = Vec::new();
    let mut deleted_files: Vec<FileChange> = Vec::new();
    let mut unchanged_count: usize = 0;

    // Collect the records into a map for O(1) lookups
    let db_map = record_map(database_files);
    let current_set = path_set(current_files);

    // Check current files against the records
    let mut i: usize = 0;
    while i < current_files.len()
        invariant
            i <= current_files@.len(),
            cur == listing_view(current_files@),
            db == listing_view(database_files@),
            forall|k: Seq<char>| #[trigger] db_map@.contains_key(k) == (recorded_hash(db, k) is Some),
            forall|k: Seq<char>| db_map@.contains_key(k) ==> Some(#[trigger] db_map@[k]@) == recorded_hash(db, k),
            changes_view(new_files@) == spec_new_files(cur.take(i as int), db),
            changes_view(modified_files@) == spec_modified_files(cur.take(i as int), db),
            unchanged_count == spec_unchanged_count(cur.take(i as int), db),
            unchanged_count <= i,
        decreases current_files@.len() - i,
    {
        let path = &current_files[i].0;
        let new_hash = &current_files[i].1;
        assert(cur.take(i + 1).drop_last() =~= cur.take(i as int));
        assert(cur.take(i + 1).last() == cur[i as int]);
        match db_map.get(path.as_str()) {
            Some(old_hash) => {
                if *new_hash == *old_hash {
                    unchanged_count = unchanged_count + 1;
                } else {
                    let change = FileChange {
                        path: path.clone(),
                        status: FileStatus::Modified,
                        old_hash: Some(old_hash.clone()),
                        new_hash: Some(new_hash.clone()),
                    };
                    modified_files.push(change);
                }
            },
            None => {
                let change = FileChange {
                    path: path.clone(),
                    status: FileStatus::New,
                    old_hash: None,
                    new_hash: Some(new_hash.clone()),
                };
                new_files.push(change);
            },
        }
        assert(changes_view(new_files@) =~= spec_new_files(cur.take(i + 1), db));
        assert(changes_view(modified_files@) =~= spec_modified_files(cur.take(i + 1), db));
        i = i + 1;
    }
    assert(cur.take(current_files@.len() as int) =~= cur);

    // Check for deleted files (recorded but not in the current scan)
    let mut j: usize = 0;
    while j < database_files.len()
        invariant
            j <= database_files@.len(),
            cur == listing_view(current_files@),
            db == listing_view(database_files@),
            forall|k: Seq<char>| #[trigger] current_set@.contains_key(k) == lists_path(cur, k),
            changes_view(deleted_files@) == spec_deleted_files(cur, db.take(j as int)),
        decreases database_files@.len() - j,
    {
        let path = &database_files[j].0;
        let hash = &database_files[j].1;
        assert(db.take(j + 1).drop_last() =~= db.take(j as int));
        assert(db.take(j + 1).last() == db[j as int]);
        if !current_set.contains_key(path.as_str()) {
            let change = FileChange {
                path: path.clone(),
                status: FileStatus::Deleted,
                old_hash: Some(hash.clone()),
                new_hash: None,
            };
            deleted_files.push(change);
        }
        assert(changes_view(deleted_files@) =~= spec_deleted_files(cur, db.take(j + 1)));
        j = j + 1;
    }
    assert(db.take(database_files@.len() as int) =~= db);
    proof {
        lemma_compare_well_formed(cur, db);
        lemma_current_partition(cur, db);
        lemma_deleted_bounded(cur, db);
    }

    ComparisonResult { new_files, modified_files, deleted_files, unchanged_count }
}

/// The paths of a listing are pairwise distinct.
pub open spec fn unique_paths(listing: Seq<PathHash>) -> bool {
    forall|i: int, j: int| 0 <= i < j < listing.len() ==> listing[i].0 != listing[j].0
}

/// A listing records a hash for a path exactly when it lists that path, and
/// the recorded hash is that of one of its entries with this path.
pub proof fn lemma_recorded_iff_listed(listing: Seq<PathHash>, path: Seq<char>)
    ensures
        recorded_hash(listing, path) is Some <==> lists_path(listing, path),
        recorded_hash(listing, path) matches Some(h) ==> listing.contains((path, h)),
    decreases listing.len(),
{
    if listing.len() > 0 {
        let prefix = listing.drop_last();
        lemma_recorded_iff_listed(prefix, path);
        if listing.last().0 == path {
            assert(listing[listing.len() - 1].0 == path);
            assert(listing[listing.len() - 1] == (path, listing.last().1));
        } else {
            if lists_path(listing, path) {
                let i = choose|i: int| 0 <= i < listing.len() && #[trigger] listing[i].0 == path;
                assert(prefix[i].0 == path);
            }
            if lists_path(prefix, path) {
                let i = choose|i: int| 0 <= i < prefix.len() && #[trigger] prefix[i].0 == path;
                assert(listing[i].0 == path);
            }
            if recorded_hash(prefix, path) is Some {
                let h = recorded_hash(prefix, path)->0;
                let i = choose|i: int| 0 <= i < prefix.len() && prefix[i] == (path, h);
                assert(listing[i] == (path, h));
            }
        }
    }
}

/// In a listing whose paths are distinct, the hash recorded for the path of
/// an entry is the hash of that entry.
pub proof fn lemma_recorded_unique(listing: Seq<PathHash>, i: int)
    requires
        unique_paths(listing),
        0 <= i < listing.len(),
    ensures
        recorded_hash(listing, listing[i].0) == Some(listing[i].1),
    decreases listing.len(),
{
    if i < listing.len() - 1 {
        let prefix = listing.drop_last();
        assert(listing[i].0 != listing[listing.len() - 1].0);
        assert(prefix[i] == listing[i]);
        lemma_recorded_unique(prefix, i);
    }
}

/// Every change of a comparison sits in the list of its status and carries
/// the hashes that this status implies: a new file has only a new hash, a
/// deleted file only an old one, and a modified file two that differ.
pub proof fn lemma_compare_well_formed(current: Seq<PathHash>, database: Seq<PathHash>)
    ensures
        spec_compare(current, database).well_formed(),
{
    lemma_new_well_formed(current, database);
    lemma_modified_well_formed(current, database);
    lemma_deleted_well_formed(current, database);
}

proof fn lemma_new_well_formed(current: Seq<PathHash>, database: Seq<PathHash>)
    ensures
        forall|i: int|
            0 <= i < spec_new_files(current, database).len() ==> is_new_change(
                #[trigger] spec_new_files(current, database)[i],
            ),
    decreases current.len(),
{
    if current.len() > 0 {
        lemma_new_well_formed(current.drop_last(), database);
        let prev = spec_new_files(current.drop_last(), database);
        let res = spec_new_files(current, database);
        assert forall|i: int| 0 <= i < res.len() implies is_new_change(#[trigger] res[i]) by {
            if i < prev.len() {
                assert(res[i] == prev[i]);
            }
        }
    }
}

proof fn lemma_modified_well_formed(current: Seq<PathHash>, database: Seq<PathHash>)
    ensures
        forall|i: int|
            0 <= i < spec_modified_files(current, database).len() ==> is_modified_change(
                #[trigger] spec_modified_files(current, database)[i],
            ),
    decreases current.len(),
{
    if current.len() > 0 {
        lemma_modified_well_formed(current.drop_last(), database);
        let prev = spec_modified_files(current.drop_last(), database);
        let res = spec_modified_files(current, database);
        assert forall|i: int| 0 <= i < res.len() implies is_modified_change(#[trigger] res[i]) by {
            if i < prev.len() {
                assert(res[i] == prev[i]);
            }
        }
    }
}

proof fn lemma_deleted_well_formed(current: Seq<PathHash>, database: Seq<PathHash>)
    ensures
        forall|i: int|
            0 <= i < spec_deleted_files(current, database).len() ==> is_deleted_change(
                #[trigger] spec_deleted_files(current, database)[i],
            ),
    decreases database.len(),
{
    if database.len() > 0 {
        lemma_deleted_well_formed(current, database.drop_last());
        let prev = spec_deleted_files(current, database.drop_last());
        let res = spec_deleted_files(current, database);
        assert forall|i: int| 0 <= i < res.len() implies is_deleted_change(#[trigger] res[i]) by {
            if i < prev.len() {
                assert(res[i] == prev[i]);
            }
        }
    }
}

/// Every file of the current scan is counted exactly once: as new, as
/// modified, or as unchanged.
pub proof fn lemma_current_partition(current: Seq<PathHash>, database: Seq<PathHash>)
    ensures
        spec_new_files(current, database).len() + spec_modified_files(current, database).len()
            + spec_unchanged_count(current, database) == current.len(),
    decreases current.len(),
{
    if current.len() > 0 {
        lemma_current_partition(current.drop_last(), database);
    }
}

/// A record is reported deleted at most once, so there are no more deleted
/// files than records.
pub proof fn lemma_deleted_bounded(current: Seq<PathHash>, database: Seq<PathHash>)
    ensures
        spec_deleted_files(current, database).len() <= database.len(),
    decreases database.len(),
{
    if database.len() > 0 {
        lemma_deleted_bounded(current, database.drop_last());
    }
}

pub(crate) proof fn lemma_no_new_when_all_recorded(current: Seq<PathHash>, database: Seq<PathHash>)
    requires
        forall|i: int| 0 <= i < current.len() ==> lists_path(database, #[trigger] current[i].0),
    ensures
        spec_new_files(current, database) == Seq::<FileChangeView>::empty(),
    decreases current.len(),
{
    if current.len() > 0 {
        let prefix = current.drop_last();
        assert forall|i: int| 0 <= i < prefix.len() implies lists_path(database, #[trigger] prefix[i].0) by {
            assert(prefix[i] == current[i]);
        }
        lemma_no_new_when_all_recorded(prefix, database);
        assert(lists_path(database, current[current.len() - 1].0));
        lemma_recorded_iff_listed(database, current.last().0);
    }
}

pub(crate) proof fn lemma_no_deleted_when_all_listed(current: Seq<PathHash>, database: Seq<PathHash>)
    requires
        forall|i: int| 0 <= i < database.len() ==> lists_path(current, #[trigger] database[i].0),
    ensures
        spec_deleted_files(current, database) == Seq::<FileChangeView>::empty(),
    decreases database.len(),
{
    if database.len() > 0 {
        let prefix = database.drop_last();
        assert forall|i: int| 0 <= i < prefix.len() implies lists_path(current, #[trigger] prefix[i].0) by {
            assert(prefix[i] == database[i]);
        }
        lemma_no_deleted_when_all_listed(current, prefix);
        assert(lists_path(current, database[database.len() - 1].0));
    }
}

pub(crate) proof fn lemma_all_unchanged(current: Seq<PathHash>, database: Seq<PathHash>)
    requires
        forall|i: int|
            0 <= i < current.len() ==> recorded_hash(database, #[trigger] current[i].0) == Some(
                current[i].1,
            ),
    ensures
        spec_modified_files(current, database) == Seq::<FileChangeView>::empty(),
        spec_unchanged_count(current, database) == current.len(),
    decreases current.len(),
{
    if current.len() > 0 {
        let prefix = current.drop_last();
        assert forall|i: int| 0 <= i < prefix.len() implies recorded_hash(database, #[trigger] prefix[i].0)
            == Some(prefix[i].1) by {
            assert(prefix[i] == current[i]);
        }
        lemma_all_unchanged(prefix, database);
        assert(recorded_hash(database, current[current.len() - 1].0) == Some(
            current[current.len() - 1].1,
        ));
    }
}

/// Comparing a listing with itself reports no new and no deleted file; when
/// its paths are distinct it reports no change at all and counts every file
/// as unchanged.
pub proof fn lemma_compare_with_itself(listing: Seq<PathHash>)
    ensures
        spec_compare(listing, listing).new_files.len() == 0,
        spec_compare(listing, listing).deleted_files.len() == 0,
        unique_paths(listing) ==> spec_compare(listing, listing).modified_files.len() == 0,
        unique_paths(listing) ==> spec_compare(listing, listing).total_changes() == 0,
        unique_paths(listing) ==> spec_compare(listing, listing).unchanged_count == listing.len(),
{
    assert forall|i: int| 0 <= i < listing.len() implies lists_path(listing, #[trigger] listing[i].0) by {
        assert(listing[i].0 == listing[i].0);
    }
    lemma_no_new_when_all_recorded(listing, listing);
    lemma_no_deleted_when_all_listed(listing, listing);
    if unique_paths(listing) {
        assert forall|i: int| 0 <= i < listing.len() implies recorded_hash(listing, #[trigger] listing[i].0)
            == Some(listing[i].1) by {
            lemma_recorded_unique(listing, i);
        }
        lemma_all_unchanged(listing, listing);
    }
}

proof fn lemma_nothing_new_or_modified(current: Seq<PathHash>, database: Seq<PathHash>)
    requires
        spec_new_files(current, database).len() == 0,
        spec_modified_files(current, database).len() == 0,
    ensures
        forall|i: int|
            0 <= i < current.len() ==> recorded_hash(database, #[trigger] current[i].0) == Some(
                current[i].1,
            ),
    decreases current.len(),
{
    if current.len() > 0 {
        let prefix = current.drop_last();
        lemma_nothing_new_or_modified(prefix, database);
        assert forall|i: int| 0 <= i < current.len() implies recorded_hash(
            database,
            #[trigger] current[i].0,
        ) == Some(current[i].1) by {
            if i < prefix.len() {
                assert(prefix[i] == current[i]);
            }
        }
    }
}

proof fn lemma_nothing_deleted(current: Seq<PathHash>, database: Seq<PathHash>)
    requires
        spec_deleted_files(current, database).len() == 0,
    ensures
        forall|i: int| 0 <= i < database.len() ==> lists_path(current, #[trigger] database[i].0),
    decreases database.len(),
{
    if database.len() > 0 {
        let prefix = database.drop_last();
        lemma_nothing_deleted(current, prefix);
        assert forall|i: int| 0 <= i < database.len() implies lists_path(
            current,
            #[trigger] database[i].0,
        ) by {
            if i < prefix.len() {
                assert(prefix[i] == database[i]);
            }
        }
    }
}

/// The number of changes is the number of scanned files that are not
/// unchanged plus the number of deleted files; and a comparison reports no
/// change exactly when every recorded path is scanned and every scanned file
/// carries exactly the hash recorded for its path (the last record of it).
pub proof fn lemma_no_changes_iff(current: Seq<PathHash>, database: Seq<PathHash>)
    ensures
        spec_compare(current, database).total_changes() == current.len() - spec_compare(
            current,
            database,
        ).unchanged_count + spec_compare(current, database).deleted_files.len(),
        spec_compare(current, database).total_changes() == 0 <==> {
            &&& forall|i: int|
                0 <= i < database.len() ==> lists_path(current, #[trigger] database[i].0)
            &&& forall|i: int|
                0 <= i < current.len() ==> recorded_hash(database, #[trigger] current[i].0)
                    == Some(current[i].1)
        },
{
    lemma_current_partition(current, database);
    let all_listed = forall|i: int|
        0 <= i < database.len() ==> lists_path(current, #[trigger] database[i].0);
    let all_same = forall|i: int|
        0 <= i < current.len() ==> recorded_hash(database, #[trigger] current[i].0) == Some(
            current[i].1,
        );
    if spec_compare(current, database).total_changes() == 0 {
        lemma_nothing_new_or_modified(current, database);
        lemma_nothing_deleted(current, database);
    }
    if all_listed && all_same {
        assert forall|i: int| 0 <= i < current.len() implies lists_path(
            database,
            #[trigger] current[i].0,
        ) by {
            assert(recorded_hash(database, current[i].0) == Some(current[i].1));
            lemma_recorded_iff_listed(database, current[i].0);
        }
        lemma_no_new_when_all_recorded(current, database);
        lemma_all_unchanged(current, database);
        lemma_no_deleted_when_all_listed(current, database);
    }
}

/// The hash recorded for a path is none exactly when no entry has this path,
/// and otherwise the hash of an entry with this path that no later entry
/// with this path follows.
pub proof fn lemma_recorded_is_last(listing: Seq<PathHash>, path: Seq<char>)
    ensures
        recorded_hash(listing, path) is None <==> (forall|i: int|
            0 <= i < listing.len() ==> (#[trigger] listing[i]).0 != path),
        recorded_hash(listing, path) matches Some(h) ==> exists|i: int|
            #![trigger listing[i]]
            0 <= i < listing.len() && listing[i] == (path, h) && forall|j: int|
                i < j < listing.len() ==> (#[trigger] listing[j]).0 != path,
    decreases listing.len(),
{
    if listing.len() > 0 {
        let pre = listing.drop_last();
        let n = listing.len() - 1;
        lemma_recorded_is_last(pre, path);
        assert(listing[n] == listing.last());
        assert forall|i: int| 0 <= i < pre.len() implies pre[i] == listing[i] by {}
        if listing.last().0 != path {
            if recorded_hash(pre, path) is Some {
                let h = recorded_hash(pre, path)->0;
                let i = choose|i: int|
                    #![trigger pre[i]]
                    0 <= i < pre.len() && pre[i] == (path, h) && forall|j: int|
                        i < j < pre.len() ==> (#[trigger] pre[j]).0 != path;
                assert(listing[i] == pre[i]);
                assert forall|j: int| i < j < listing.len() implies (#[trigger] listing[j]).0
                    != path by {
                    if j < n {
                        assert(listing[j] == pre[j]);
                    }
                }
            } else {
                assert forall|i: int| 0 <= i < listing.len() implies (#[trigger] listing[i]).0
                    != path by {
                    if i < n {
                        assert(listing[i] == pre[i]);
                    }
                }
            }
        }
    }
}

/// The new files are the scanned entries that no record has the path of, the
/// modified files those whose path has a recorded hash other than their own,
/// each with that recorded hash as the old one, and the deleted files the
/// records whose path the scan does not list, each in the order of its
/// listing; the unchanged files are the scanned entries whose hash is the one
/// recorded for their path.
pub proof fn lemma_compare_selects(current: Seq<PathHash>, database: Seq<PathHash>)
    ensures
        spec_new_files(current, database) == current.filter_map(
            |e: PathHash|
                if recorded_hash(database, e.0) is None {
                    Some(
                        FileChangeView {
                            path: e.0,
                            status: FileStatus::New,
                            old_hash: None,
                            new_hash: Some(e.1),
                        },
                    )
                } else {
                    None
                },
        ),
        spec_modified_files(current, database) == current.filter_map(
            |e: PathHash|
                match recorded_hash(database, e.0) {
                    Some(old) => if old != e.1 {
                        Some(
                            FileChangeView {
                                path: e.0,
                                status: FileStatus::Modified,
                                old_hash: Some(old),
                                new_hash: Some(e.1),
                            },
                        )
                    } else {
                        None
                    },
                    None => None,
                },
        ),
        spec_deleted_files(current, database) == database.filter_map(
            |e: PathHash|
                if !(exists|i: int| 0 <= i < current.len() && #[trigger] current[i].0 == e.0) {
                    Some(
                        FileChangeView {
                            path: e.0,
                            status: FileStatus::Deleted,
                            old_hash: Some(e.1),
                            new_hash: None,
                        },
                    )
                } else {
                    None
                },
        ),
        spec_unchanged_count(current, database) == current.filter_map(
            |e: PathHash|
                if recorded_hash(database, e.0) == Some(e.1) {
                    Some(e)
                } else {
                    None
                },
        ).len(),
    decreases current.len() + database.len(),
{
    if current.len() > 0 {
        lemma_compare_selects(current.drop_last(), database);
        let pn = spec_new_files(current.drop_last(), database);
        let pm = spec_modified_files(current.drop_last(), database);
        assert forall|x: FileChangeView| pn + seq![x] =~= pn.push(x) by {}
        assert forall|x: FileChangeView| pm + seq![x] =~= pm.push(x) by {}
        assert forall|s: Seq<PathHash>, x: PathHash| (s + seq![x]).len() == s.len() + 1 by {}
    } else {
        assert(spec_new_files(current, database) =~= Seq::<FileChangeView>::empty());
        assert(spec_modified_files(current, database) =~= Seq::<FileChangeView>::empty());
    }
    lemma_deleted_selects(current, database);
}

proof fn lemma_deleted_selects(current: Seq<PathHash>, database: Seq<PathHash>)
    ensures
        spec_deleted_files(current, database) == database.filter_map(
            |e: PathHash|
                if !(exists|i: int| 0 <= i < current.len() && #[trigger] current[i].0 == e.0) {
                    Some(
                        FileChangeView {
                            path: e.0,
                            status: FileStatus::Deleted,
                            old_hash: Some(e.1),
                            new_hash: None,
                        },
                    )
                } else {
                    None
                },
        ),
    decreases database.len(),
{
    if database.len() > 0 {
        lemma_deleted_selects(current, database.drop_last());
        let pd = spec_deleted_files(current, database.drop_last());
        assert forall|x: FileChangeView| pd + seq![x] =~= pd.push(x) by {}
    } else {
        assert(spec_deleted_files(current, database) =~= Seq::<FileChangeView>::empty());
    }
}

/// A comparison is well formed exactly when every new file has status `New`,
/// no old hash and a new hash; every modified file has status `Modified` and
/// two hashes that differ; and every deleted file has status `Deleted`, an old
/// hash and no new hash.
pub proof fn lemma_well_formed_means(r: ComparisonView)
    ensures
        r.well_formed() <==> {
            &&& forall|i: int|
                0 <= i < r.new_files.len() ==> (#[trigger] r.new_files[i]).status == FileStatus::New
                    && r.new_files[i].old_hash is None && r.new_files[i].new_hash is Some
            &&& forall|i: int|
                0 <= i < r.modified_files.len() ==> (#[trigger] r.modified_files[i]).status
                    == FileStatus::Modified && r.modified_files[i].old_hash is Some
                    && r.modified_files[i].new_hash is Some && r.modified_files[i].old_hash
                    != r.modified_files[i].new_hash
            &&& forall|i: int|
                0 <= i < r.deleted_files.len() ==> (#[trigger] r.deleted_files[i]).status
                    == FileStatus::Deleted && r.deleted_files[i].old_hash is Some
                    && r.deleted_files[i].new_hash is None
        },
{
}

} // verus!
