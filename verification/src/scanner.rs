//! The choice of which entries of a directory walk are files to monitor.
use vstd::prelude::*;

use std::path::PathBuf;

verus! {

/// `std::path::PathBuf`, carried through unopened.
#[verifier::external_type_specification]
#[verifier::external_body]
pub struct ExPathBuf(PathBuf);

/// `<PathBuf as Clone>::clone`, which the derived `Clone` of [`ScannedFile`]
/// calls; nothing is claimed of the copy.
pub assume_specification[ <PathBuf as Clone>::clone ](p: &PathBuf) -> PathBuf;

/// Represents a file found during scanning
#[derive(Debug, Clone)]
pub struct ScannedFile {
    pub path: PathBuf,
}

/// Why a directory cannot be scanned.
#[derive(Debug, Clone, Copy, PartialEq, Eq, Structural)]
pub enum ScanError {
    /// Nothing exists at the root path.
    NotFound,
    /// The root path exists but is not a directory.
    NotADirectory,
}

/// What a directory walk reports of one entry it could read.
#[derive(Debug)]
pub struct WalkEntry {
    pub path: PathBuf,
    /// The entry's file type, as the walk saw it, is a regular file.
    pub is_file: bool,
    /// Whether the entry's metadata, if it could be read, describes a regular file.
    pub metadata_is_file: Option<bool>,
}

/// An entry names a file to monitor: the walk saw a regular file and its
/// metadata, read again, confirms it.
pub open spec fn is_monitored(e: WalkEntry) -> bool {
    e.is_file && e.metadata_is_file == Some(true)
}

/// The monitored entries of a walk, in walk order.
pub open spec fn spec_monitored(entries: Seq<WalkEntry>) -> Seq<PathBuf>
    decreases entries.len(),
{
    if entries.len() == 0 {
        Seq::empty()
    } else {
        let prev = spec_monitored(entries.drop_last());
        if is_monitored(entries.last()) {
            prev.push(entries.last().path)
        } else {
            prev
        }
    }
}

pub open spec fn scanned_paths(files: Seq<ScannedFile>) -> Seq<PathBuf> {
    files.map_values(|f: ScannedFile| f.path)
}

/// The paths that a scan keeps are exactly those of the entries whose walk
/// type is a regular file and whose metadata, read again, confirms a regular
/// file, in walk order: directories, entries whose metadata could not be read
/// and entries whose metadata says otherwise are never kept.
pub proof fn lemma_monitored_entries(entries: Seq<WalkEntry>)
    ensures
        spec_monitored(entries) == entries.filter_map(
            |e: WalkEntry|
                if e.is_file && e.metadata_is_file == Some(true) {
                    Some(e.path)
                } else {
                    None
                },
        ),
    decreases entries.len(),
{
    let f = |e: WalkEntry|
        if e.is_file && e.metadata_is_file == Some(true) {
            Some(e.path)
        } else {
            None
        };
    if entries.len() > 0 {
        let pre = entries.drop_last();
        lemma_monitored_entries(pre);
        if f(entries.last()) is Some {
            assert(spec_monitored(pre) + seq![entries.last().path] =~= spec_monitored(pre).push(
                entries.last().path,
            ));
        }
    } else {
        assert(spec_monitored(entries) =~= entries.filter_map(f));
    }
}

/// Every path that a scan keeps is the path of an entry whose walk type is a
/// regular file and whose metadata confirms a regular file; an entry that is
/// not a regular file is never kept.
pub proof fn lemma_monitored_only_files(entries: Seq<WalkEntry>, k: int)
    requires
        0 <= k < spec_monitored(entries).len(),
    ensures
        exists|i: int|
            0 <= i < entries.len() && (#[trigger] entries[i]).path == spec_monitored(entries)[k]
                && entries[i].is_file && entries[i].metadata_is_file == Some(true),
    decreases entries.len(),
{
    let pre = entries.drop_last();
    let n = entries.len() - 1;
    if k < spec_monitored(pre).len() {
        lemma_monitored_only_files(pre, k);
        let i = choose|i: int|
            0 <= i < pre.len() && (#[trigger] pre[i]).path == spec_monitored(pre)[k]
                && pre[i].is_file && pre[i].metadata_is_file == Some(true);
        assert(entries[i] == pre[i]);
    } else {
        assert(entries[n] == entries.last());
    }
}

/// Every entry whose walk type is a regular file and whose metadata confirms
/// a regular file has its path kept.
pub proof fn lemma_monitored_all_files(entries: Seq<WalkEntry>, i: int)
    requires
        0 <= i < entries.len(),
        entries[i].is_file,
        entries[i].metadata_is_file == Some(true),
    ensures
        exists|k: int|
            0 <= k < spec_monitored(entries).len() && #[trigger] spec_monitored(entries)[k]
                == entries[i].path,
    decreases entries.len(),
{
    let pre = entries.drop_last();
    let n = entries.len() - 1;
    if i < n {
        assert(pre[i] == entries[i]);
        lemma_monitored_all_files(pre, i);
        let k = choose|k: int|
            0 <= k < spec_monitored(pre).len() && #[trigger] spec_monitored(pre)[k] == pre[i].path;
        assert(spec_monitored(entries)[k] == spec_monitored(pre)[k]);
    } else {
        assert(entries[n] == entries.last());
        assert(spec_monitored(entries)[spec_monitored(pre).len() as int] == entries[i].path);
    }
}

/// Whether a root path can be scanned, from whether it exists and whether
/// it is a directory.
pub fn check_scan_root(exists: bool, is_dir: bool) -> (r: Result<(), ScanError>)
    ensures
        !exists ==> r == Err::<(), ScanError>(ScanError::NotFound),
        exists && !is_dir ==> r == Err::<(), ScanError>(ScanError::NotADirectory),
        exists && is_dir ==> r == Ok::<(), ScanError>(()),
{
    if !exists {
        Err(ScanError::NotFound)
    } else if !is_dir {
        Err(ScanError::NotADirectory)
    } else {
        Ok(())
    }
}

/// The files to monitor among the entries of a walk, in walk order;
/// directories and entries whose metadata could not be read are skipped.
pub fn collect_scanned_files(entries: Vec<WalkEntry>) -> (files: Vec<ScannedFile>)
    ensures
        scanned_paths(files@) == spec_monitored(entries@),
        scanned_paths(files@) == entries@.filter_map(
            |e: WalkEntry|
                if e.is_file && e.metadata_is_file == Some(true) {
                    Some(e.path)
                } else {
                    None
                },
        ),
        forall|i: int|
            0 <= i < entries@.len() && (#[trigger] entries@[i]).is_file
                && entries@[i].metadata_is_file == Some(true) ==> exists|k: int|
                0 <= k < files@.len() && files@[k].path == entries@[i].path,
{
    let ghost all = entries@;
    let mut files: Vec<ScannedFile> = Vec::new();
    for entry in it: entries.into_iter()
        invariant
            it.seq() == all,
            scanned_paths(files@) == spec_monitored(all.take(it.index() as int)),
    {
        let ghost n = it.index() as int;
        assert(all.take(n + 1).drop_last() =~= all.take(n));
        assert(all.take(n + 1).last() == all[n]);
        if entry.is_file && entry.metadata_is_file == Some(true) {
            let ghost old_files = files@;
            files.push(ScannedFile { path: entry.path });
            assert(scanned_paths(files@) =~= scanned_paths(old_files).push(all[n].path));
        }
    }
    assert(all.take(all.len() as int) =~= all);
    proof {
        lemma_monitored_entries(all);
        assert forall|i: int|
            0 <= i < all.len() && (#[trigger] all[i]).is_file && all[i].metadata_is_file == Some(
                true,
            ) implies exists|k: int| 0 <= k < files@.len() && files@[k].path == all[i].path by {
            lemma_monitored_all_files(all, i);
            let k = choose|k: int|
                0 <= k < spec_monitored(all).len() && #[trigger] spec_monitored(all)[k] == all[i].path;
            assert(scanned_paths(files@)[k] == files@[k].path);
        }
    }
    files
}

} // verus!
