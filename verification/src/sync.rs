//! The writes that bring the file records up to date after a comparison,
//! and what they do to a table of records keyed by path.
use vstd::prelude::*;

use crate::comparator::{
    ComparisonResult, ComparisonView, FileChangeView, FileStatus, PathHash, lemma_all_unchanged, lemma_no_deleted_when_all_listed,
    lemma_no_new_when_all_recorded, lemma_recorded_iff_listed, lemma_recorded_unique, lists_path,
    recorded_hash, spec_compare, spec_deleted_files, spec_modified_files, spec_new_files,
    unique_paths,
};

verus! {

/// One write to the table of file records, which is keyed by path.
#[derive(Debug, Clone)]
pub enum SyncAction {
    /// Record a file that had no record.
    Insert { path: String, hash: String },
    /// Replace the hash recorded for a file.
    Update { path: String, hash: String },
    /// Remove the record of a file.
    Delete { path: String },
}

/// The mathematical value of a [`SyncAction`].
pub enum SyncActionView {
    Insert { path: Seq<char>, hash: Seq<char> },
    Update { path: Seq<char>, hash: Seq<char> },
    Delete { path: Seq<char> },
}

impl View for SyncAction {
    type V = SyncActionView;

    open spec fn view(&self) -> SyncActionView {
        match self {
            SyncAction::Insert { path, hash } => SyncActionView::Insert { path: path@, hash: hash@ },
            SyncAction::Update { path, hash } => SyncActionView::Update { path: path@, hash: hash@ },
            SyncAction::Delete { path } => SyncActionView::Delete { path: path@ },
        }
    }
}

/// The views of a list of writes.
pub open spec fn actions_view(v: Seq<SyncAction>) -> Seq<SyncActionView> {
    v.map_values(|a: SyncAction| a@)
}

/// The write that records a new file.
pub open spec fn insert_action(c: FileChangeView) -> SyncActionView {
    SyncActionView::Insert { path: c.path, hash: c.new_hash.unwrap() }
}

/// The write that stores a modified file's new hash.
pub open spec fn update_action(c: FileChangeView) -> SyncActionView {
    SyncActionView::Update { path: c.path, hash: c.new_hash.unwrap() }
}

/// The write that removes a deleted file's record.
pub open spec fn delete_action(c: FileChangeView) -> SyncActionView {
    SyncActionView::Delete { path: c.path }
}

/// The writes that record a list of new files.
pub open spec fn insert_actions(s: Seq<FileChangeView>) -> Seq<SyncActionView> {
    s.map_values(|c: FileChangeView| insert_action(c))
}

/// The writes that store the new hashes of a list of modified files.
pub open spec fn update_actions(s: Seq<FileChangeView>) -> Seq<SyncActionView> {
    s.map_values(|c: FileChangeView| update_action(c))
}

/// The writes that remove the records of a list of deleted files.
pub open spec fn delete_actions(s: Seq<FileChangeView>) -> Seq<SyncActionView> {
    s.map_values(|c: FileChangeView| delete_action(c))
}

/// The writes that follow a comparison, in order: record every new file,
/// store the new hash of every modified file, remove every deleted file.
pub open spec fn spec_plan(r: ComparisonView) -> Seq<SyncActionView> {
    insert_actions(r.new_files) + update_actions(r.modified_files) + delete_actions(
        r.deleted_files,
    )
}

/// Every new and every modified file carries the new hash that its write stores.
pub open spec fn has_written_hashes(r: ComparisonView) -> bool {
    &&& forall|i: int| 0 <= i < r.new_files.len() ==> (#[trigger] r.new_files[i]).new_hash is Some
    &&& forall|i: int|
        0 <= i < r.modified_files.len() ==> (#[trigger] r.modified_files[i]).new_hash is Some
}

/// The writes that bring the file records up to date after a comparison.
pub fn plan_sync(result: &ComparisonResult) -> (actions: Vec<SyncAction>)
    requires
        has_written_hashes(result@),
    ensures
        actions_view(actions@) == spec_plan(result@),
        actions@.len() == result.new_files@.len() + result.modified_files@.len()
            + result.deleted_files@.len(),
{
    let ghost r = result@;
    let mut actions: Vec<SyncAction> = Vec::new();
    let mut i: usize = 0;
    while i < result.new_files.len()
        invariant
            r == result@,
            has_written_hashes(r),
            i <= result.new_files@.len(),
            actions_view(actions@) == insert_actions(r.new_files.take(i as int)),
        decreases result.new_files@.len() - i,
    {
        let change = &result.new_files[i];
        assert(r.new_files[i as int] == change@);
        let hash = match &change.new_hash {
            Some(h) => h.clone(),
            None => String::new(),
        };
        let ghost old_actions = actions@;
        actions.push(SyncAction::Insert { path: change.path.clone(), hash });
        assert(actions@ =~= old_actions.push(actions@.last()));
        assert(actions_view(actions@) =~= actions_view(old_actions).push(insert_action(r.new_files[i as int])));
        assert(insert_actions(r.new_files.take(i + 1)) =~= insert_actions(r.new_files.take(i as int)).push(insert_action(r.new_files[i as int])));
        assert(r.new_files.take(i + 1) =~= r.new_files.take(i as int).push(r.new_files[i as int]));
        assert(actions_view(actions@) =~= insert_actions(r.new_files.take(i + 1)));
        i = i + 1;
    }
    assert(r.new_files.take(i as int) =~= r.new_files);
    let ghost after_new = actions_view(actions@);
    let mut i: usize = 0;
    while i < result.modified_files.len()
        invariant
            r == result@,
            has_written_hashes(r),
            i <= result.modified_files@.len(),
            after_new == insert_actions(r.new_files),
            actions_view(actions@) == after_new + update_actions(r.modified_files.take(i as int)),
        decreases result.modified_files@.len() - i,
    {
        let change = &result.modified_files[i];
        assert(r.modified_files[i as int] == change@);
        let hash = match &change.new_hash {
            Some(h) => h.clone(),
            None => String::new(),
        };
        let ghost old_actions = actions@;
        actions.push(SyncAction::Update { path: change.path.clone(), hash });
        assert(actions@ =~= old_actions.push(actions@.last()));
        assert(actions_view(actions@) =~= actions_view(old_actions).push(update_action(r.modified_files[i as int])));
        assert(update_actions(r.modified_files.take(i + 1)) =~= update_actions(r.modified_files.take(i as int)).push(update_action(r.modified_files[i as int])));
        assert(r.modified_files.take(i + 1) =~= r.modified_files.take(i as int).push(
            r.modified_files[i as int],
        ));
        assert(actions_view(actions@) =~= after_new + update_actions(
            r.modified_files.take(i + 1),
        ));
        i = i + 1;
    }
    assert(r.modified_files.take(i as int) =~= r.modified_files);
    let ghost after_update = actions_view(actions@);
    let mut i: usize = 0;
    while i < result.deleted_files.len()
        invariant
            r == result@,
            i <= result.deleted_files@.len(),
            after_update == insert_actions(r.new_files) + update_actions(r.modified_files),
            actions_view(actions@) == after_update + delete_actions(r.deleted_files.take(i as int)),
        decreases result.deleted_files@.len() - i,
    {
        let change = &result.deleted_files[i];
        assert(r.deleted_files[i as int] == change@);
        let ghost old_actions = actions@;
        actions.push(SyncAction::Delete { path: change.path.clone() });
        assert(actions@ =~= old_actions.push(actions@.last()));
        assert(actions_view(actions@) =~= actions_view(old_actions).push(delete_action(r.deleted_files[i as int])));
        assert(delete_actions(r.deleted_files.take(i + 1)) =~= delete_actions(r.deleted_files.take(i as int)).push(delete_action(r.deleted_files[i as int])));
        assert(r.deleted_files.take(i + 1) =~= r.deleted_files.take(i as int).push(
            r.deleted_files[i as int],
        ));
        assert(actions_view(actions@) =~= after_update + delete_actions(
            r.deleted_files.take(i + 1),
        ));
        i = i + 1;
    }
    assert(r.deleted_files.take(i as int) =~= r.deleted_files);
    actions
}

// ---------------------------------------------------------------------------
// The table of file records, keyed by path, and the effect of the writes on it.
/// The table that holds one record per path; a later entry of the listing
/// replaces an earlier one with the same path.
pub open spec fn listing_table(listing: Seq<PathHash>) -> Map<Seq<char>, Seq<char>>
    decreases listing.len(),
{
    if listing.len() == 0 {
        Map::empty()
    } else {
        listing_table(listing.drop_last()).insert(listing.last().0, listing.last().1)
    }
}

/// The path whose record a write touches.
pub open spec fn action_path(a: SyncActionView) -> Seq<char> {
    match a {
        SyncActionView::Insert { path, .. } => path,
        SyncActionView::Update { path, .. } => path,
        SyncActionView::Delete { path } => path,
    }
}

/// The effect of one write on a table keyed by path: an insert of a path
/// that has a record fails and changes nothing, an update of a path that has
/// none changes nothing, and a delete removes the record if there is one.
pub open spec fn apply_action(table: Map<Seq<char>, Seq<char>>, a: SyncActionView) -> Map<
    Seq<char>,
    Seq<char>,
> {
    match a {
        SyncActionView::Insert { path, hash } => if table.dom().contains(path) {
            table
        } else {
            table.insert(path, hash)
        },
        SyncActionView::Update { path, hash } => if table.dom().contains(path) {
            table.insert(path, hash)
        } else {
            table
        },
        SyncActionView::Delete { path } => table.remove(path),
    }
}

/// The effect of a sequence of writes, performed in order.
pub open spec fn apply_plan(table: Map<Seq<char>, Seq<char>>, actions: Seq<SyncActionView>) -> Map<
    Seq<char>,
    Seq<char>,
>
    decreases actions.len(),
{
    if actions.len() == 0 {
        table
    } else {
        apply_action(apply_plan(table, actions.drop_last()), actions.last())
    }
}

/// The hash that a table holds for a path, if any.
pub open spec fn key_state(table: Map<Seq<char>, Seq<char>>, k: Seq<char>) -> Option<Seq<char>> {
    if table.dom().contains(k) {
        Some(table[k])
    } else {
        None
    }
}

/// The effect of one write on the record of its own path.
pub open spec fn action_effect(o: Option<Seq<char>>, a: SyncActionView) -> Option<Seq<char>> {
    match a {
        SyncActionView::Insert { hash, .. } => if o is Some {
            o
        } else {
            Some(hash)
        },
        SyncActionView::Update { hash, .. } => if o is Some {
            Some(hash)
        } else {
            None
        },
        SyncActionView::Delete { .. } => None,
    }
}

/// The effect of a sequence of writes on the record of path `k`.
pub open spec fn effects(o: Option<Seq<char>>, actions: Seq<SyncActionView>, k: Seq<char>) -> Option<
    Seq<char>,
>
    decreases actions.len(),
{
    if actions.len() == 0 {
        o
    } else {
        let prev = effects(o, actions.drop_last(), k);
        if action_path(actions.last()) == k {
            action_effect(prev, actions.last())
        } else {
            prev
        }
    }
}

proof fn lemma_apply_plan_effects(
    table: Map<Seq<char>, Seq<char>>,
    actions: Seq<SyncActionView>,
    k: Seq<char>,
)
    ensures
        key_state(apply_plan(table, actions), k) == effects(key_state(table, k), actions, k),
    decreases actions.len(),
{
    if actions.len() > 0 {
        lemma_apply_plan_effects(table, actions.drop_last(), k);
    }
}

proof fn lemma_effects_push(
    o: Option<Seq<char>>,
    actions: Seq<SyncActionView>,
    a: SyncActionView,
    k: Seq<char>,
)
    ensures
        effects(o, actions.push(a), k) == if action_path(a) == k {
            action_effect(effects(o, actions, k), a)
        } else {
            effects(o, actions, k)
        },
{
    assert(actions.push(a).drop_last() =~= actions);
}

proof fn lemma_effects_concat(
    o: Option<Seq<char>>,
    a: Seq<SyncActionView>,
    b: Seq<SyncActionView>,
    k: Seq<char>,
)
    ensures
        effects(o, a + b, k) == effects(effects(o, a, k), b, k),
    decreases b.len(),
{
    if b.len() == 0 {
        assert(a + b =~= a);
    } else {
        assert((a + b).drop_last() =~= a + b.drop_last());
        lemma_effects_concat(o, a, b.drop_last(), k);
    }
}

proof fn lemma_listing_table(listing: Seq<PathHash>, k: Seq<char>)
    ensures
        key_state(listing_table(listing), k) == recorded_hash(listing, k),
    decreases listing.len(),
{
    if listing.len() > 0 {
        lemma_listing_table(listing.drop_last(), k);
    }
}

proof fn lemma_lists_path_last(listing: Seq<PathHash>, k: Seq<char>)
    requires
        listing.len() > 0,
    ensures
        lists_path(listing, k) <==> (lists_path(listing.drop_last(), k) || listing.last().0 == k),
        unique_paths(listing) ==> unique_paths(listing.drop_last()),
        unique_paths(listing) && listing.last().0 == k ==> !lists_path(listing.drop_last(), k),
{
    let prefix = listing.drop_last();
    if lists_path(listing, k) {
        let i = choose|i: int| 0 <= i < listing.len() && #[trigger] listing[i].0 == k;
        if i < prefix.len() {
            assert(prefix[i].0 == k);
        }
    }
    if lists_path(prefix, k) {
        let i = choose|i: int| 0 <= i < prefix.len() && #[trigger] prefix[i].0 == k;
        assert(listing[i].0 == k);
        if unique_paths(listing) {
            assert(listing[i].0 != listing[listing.len() - 1].0);
        }
    }
    if listing.last().0 == k {
        assert(listing[listing.len() - 1].0 == k);
    }
    if unique_paths(listing) {
        assert forall|i: int, j: int| 0 <= i < j < prefix.len() implies prefix[i].0 != prefix[j].0 by {
            assert(prefix[i] == listing[i] && prefix[j] == listing[j]);
        }
    }
}

proof fn lemma_insert_effects(
    current: Seq<PathHash>,
    database: Seq<PathHash>,
    o: Option<Seq<char>>,
    k: Seq<char>,
)
    requires
        unique_paths(current),
    ensures
        effects(o, insert_actions(spec_new_files(current, database)), k) == if lists_path(current, k)
            && recorded_hash(database, k) is None {
            action_effect(
                o,
                SyncActionView::Insert { path: k, hash: recorded_hash(current, k).unwrap() },
            )
        } else {
            o
        },
    decreases current.len(),
{
    if current.len() == 0 {
        assert(insert_actions(spec_new_files(current, database)) =~= Seq::<SyncActionView>::empty());
    } else {
        let prefix = current.drop_last();
        let e = current.last();
        lemma_lists_path_last(current, k);
        lemma_insert_effects(prefix, database, o, k);
        let prev = spec_new_files(prefix, database);
        if recorded_hash(database, e.0) is None {
            let x = FileChangeView {
                path: e.0,
                status: FileStatus::New,
                old_hash: None,
                new_hash: Some(e.1),
            };
            assert(insert_actions(prev.push(x)) =~= insert_actions(prev).push(insert_action(x)));
            lemma_effects_push(o, insert_actions(prev), insert_action(x), k);
        }
    }
}

proof fn lemma_update_effects(
    current: Seq<PathHash>,
    database: Seq<PathHash>,
    o: Option<Seq<char>>,
    k: Seq<char>,
)
    requires
        unique_paths(current),
    ensures
        effects(o, update_actions(spec_modified_files(current, database)), k) == if lists_path(
            current,
            k,
        ) && recorded_hash(database, k) is Some && recorded_hash(database, k) != recorded_hash(
            current,
            k,
        ) {
            action_effect(
                o,
                SyncActionView::Update { path: k, hash: recorded_hash(current, k).unwrap() },
            )
        } else {
            o
        },
    decreases current.len(),
{
    lemma_recorded_iff_listed(current, k);
    if current.len() == 0 {
        assert(update_actions(spec_modified_files(current, database)) =~= Seq::<
            SyncActionView,
        >::empty());
    } else {
        let prefix = current.drop_last();
        let e = current.last();
        lemma_lists_path_last(current, k);
        lemma_recorded_iff_listed(prefix, k);
        lemma_update_effects(prefix, database, o, k);
        let prev = spec_modified_files(prefix, database);
        match recorded_hash(database, e.0) {
            Some(old) => {
                if old != e.1 {
                    let x = FileChangeView {
                        path: e.0,
                        status: FileStatus::Modified,
                        old_hash: Some(old),
                        new_hash: Some(e.1),
                    };
                    assert(update_actions(prev.push(x)) =~= update_actions(prev).push(
                        update_action(x),
                    ));
                    lemma_effects_push(o, update_actions(prev), update_action(x), k);
                }
            },
            None => {},
        }
    }
}

proof fn lemma_delete_effects(
    current: Seq<PathHash>,
    database: Seq<PathHash>,
    o: Option<Seq<char>>,
    k: Seq<char>,
)
    ensures
        effects(o, delete_actions(spec_deleted_files(current, database)), k) == if lists_path(
            database,
            k,
        ) && !lists_path(current, k) {
            None
        } else {
            o
        },
    decreases database.len(),
{
    if database.len() == 0 {
        assert(delete_actions(spec_deleted_files(current, database)) =~= Seq::<
            SyncActionView,
        >::empty());
    } else {
        let prefix = database.drop_last();
        let e = database.last();
        lemma_lists_path_last(database, k);
        lemma_delete_effects(current, prefix, o, k);
        let prev = spec_deleted_files(current, prefix);
        if !lists_path(current, e.0) {
            let x = FileChangeView {
                path: e.0,
                status: FileStatus::Deleted,
                old_hash: Some(e.1),
                new_hash: None,
            };
            assert(delete_actions(prev.push(x)) =~= delete_actions(prev).push(delete_action(x)));
            lemma_effects_push(o, delete_actions(prev), delete_action(x), k);
        }
    }
}

/// Performing the writes that a comparison of a scan with the records calls
/// for leaves the records equal to the scan: every scanned file recorded with
/// its current hash, and nothing else. This holds whenever the scan lists
/// each path once.
pub proof fn lemma_sync_reaches_current(current: Seq<PathHash>, database: Seq<PathHash>)
    requires
        unique_paths(current),
    ensures
        apply_plan(listing_table(database), spec_plan(spec_compare(current, database)))
            == listing_table(current),
{
    let r = spec_compare(current, database);
    let ins = insert_actions(r.new_files);
    let upd = update_actions(r.modified_files);
    let del = delete_actions(r.deleted_files);
    let before = listing_table(database);
    let after = apply_plan(before, spec_plan(r));
    let target = listing_table(current);
    assert forall|k: Seq<char>| #[trigger] key_state(after, k) == key_state(target, k) by {
        lemma_apply_plan_effects(before, spec_plan(r), k);
        lemma_effects_concat(key_state(before, k), ins + upd, del, k);
        lemma_effects_concat(key_state(before, k), ins, upd, k);
        lemma_listing_table(database, k);
        lemma_listing_table(current, k);
        lemma_recorded_iff_listed(current, k);
        lemma_recorded_iff_listed(database, k);
        let o0 = key_state(before, k);
        lemma_insert_effects(current, database, o0, k);
        let o1 = effects(o0, ins, k);
        lemma_update_effects(current, database, o1, k);
        let o2 = effects(o1, upd, k);
        lemma_delete_effects(current, database, o2, k);
    }
    assert forall|k: Seq<char>| after.dom().contains(k) <==> target.dom().contains(k) by {
        assert(key_state(after, k) == key_state(target, k));
    }
    assert forall|k: Seq<char>| after.dom().contains(k) implies after[k] == target[k] by {
        assert(key_state(after, k) == key_state(target, k));
    }
    assert(after =~= target);
}

/// A comparison reports no change exactly when the records, taken as a table
/// keyed by path, already hold every scanned file with its current hash and
/// nothing else. This holds whenever the scan lists each path once.
pub proof fn lemma_no_changes_iff_same_state(current: Seq<PathHash>, database: Seq<PathHash>)
    requires
        unique_paths(current),
    ensures
        spec_compare(current, database).total_changes() == 0 <==> listing_table(current)
            == listing_table(database),
{
    let r = spec_compare(current, database);
    if r.total_changes() == 0 {
        lemma_sync_reaches_current(current, database);
        assert(spec_plan(r) =~= Seq::<SyncActionView>::empty());
    }
    if listing_table(current) == listing_table(database) {
        assert forall|i: int| 0 <= i < current.len() implies recorded_hash(
            database,
            #[trigger] current[i].0,
        ) == Some(current[i].1) by {
            lemma_listing_table(current, current[i].0);
            lemma_listing_table(database, current[i].0);
            lemma_recorded_unique(current, i);
        }
        assert forall|i: int| 0 <= i < current.len() implies lists_path(
            database,
            #[trigger] current[i].0,
        ) by {
            assert(recorded_hash(database, current[i].0) == Some(current[i].1));
            lemma_recorded_iff_listed(database, current[i].0);
        }
        assert forall|i: int| 0 <= i < database.len() implies lists_path(
            current,
            #[trigger] database[i].0,
        ) by {
            let k = database[i].0;
            assert(lists_path(database, k));
            lemma_recorded_iff_listed(database, k);
            lemma_listing_table(current, k);
            lemma_listing_table(database, k);
            lemma_recorded_iff_listed(current, k);
        }
        lemma_no_new_when_all_recorded(current, database);
        lemma_all_unchanged(current, database);
        lemma_no_deleted_when_all_listed(current, database);
    }
}

/// The writes hold exactly one write per change, in order: an insert of its
/// path with its new hash for each new file, then an update of its path to its
/// new hash for each modified file, then a delete of its path for each deleted
/// file.
pub proof fn lemma_plan_positions(r: ComparisonView)
    ensures
        spec_plan(r).len() == r.new_files.len() + r.modified_files.len() + r.deleted_files.len(),
        forall|i: int|
            0 <= i < r.new_files.len() ==> #[trigger] spec_plan(r)[i] == (SyncActionView::Insert {
                path: r.new_files[i].path,
                hash: r.new_files[i].new_hash.unwrap(),
            }),
        forall|i: int|
            0 <= i < r.modified_files.len() ==> #[trigger] spec_plan(r)[r.new_files.len() + i]
                == (SyncActionView::Update {
                path: r.modified_files[i].path,
                hash: r.modified_files[i].new_hash.unwrap(),
            }),
        forall|i: int|
            0 <= i < r.deleted_files.len() ==> #[trigger] spec_plan(r)[r.new_files.len()
                + r.modified_files.len() + i] == (SyncActionView::Delete {
                path: r.deleted_files[i].path,
            }),
{
    let a = insert_actions(r.new_files);
    let b = update_actions(r.modified_files);
    assert forall|i: int| 0 <= i < r.new_files.len() implies #[trigger] spec_plan(r)[i]
        == (SyncActionView::Insert {
        path: r.new_files[i].path,
        hash: r.new_files[i].new_hash.unwrap(),
    }) by {
        assert((a + b)[i] == a[i]);
    }
    assert forall|i: int| 0 <= i < r.modified_files.len() implies #[trigger] spec_plan(r)[r.new_files.len()
        + i] == (SyncActionView::Update {
        path: r.modified_files[i].path,
        hash: r.modified_files[i].new_hash.unwrap(),
    }) by {
        assert((a + b)[a.len() + i] == b[i]);
    }
}

} // verus!
