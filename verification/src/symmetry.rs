//! Comparing a listing `a` with `b` and comparing `b` with `a` report the
//! same differences, seen from the other side.
use vstd::prelude::*;

use crate::comparator::{
    FileChangeView, PathHash, lemma_recorded_iff_listed, lemma_recorded_unique, lists_path,
    recorded_hash, spec_compare, spec_deleted_files, spec_modified_files, spec_new_files,
    spec_unchanged_count, unique_paths,
};

verus! {

/// The (path, new hash) pairs of a list of changes.
pub open spec fn new_pairs(s: Seq<FileChangeView>) -> Seq<(Seq<char>, Option<Seq<char>>)> {
    s.map_values(|c: FileChangeView| (c.path, c.new_hash))
}

/// The (path, old hash) pairs of a list of changes.
pub open spec fn old_pairs(s: Seq<FileChangeView>) -> Seq<(Seq<char>, Option<Seq<char>>)> {
    s.map_values(|c: FileChangeView| (c.path, c.old_hash))
}

/// A change as (path, old hash, new hash).
pub type HashTriple = (Seq<char>, Option<Seq<char>>, Option<Seq<char>>);

/// The (path, old hash, new hash) triples of a list of changes, in no order.
pub open spec fn change_triples(s: Seq<FileChangeView>) -> Set<HashTriple> {
    Set::new(
        |t: HashTriple|
            exists|k: int| 0 <= k < s.len() && (#[trigger] s[k]).path == t.0 && s[k].old_hash == t.1 && s[k].new_hash == t.2,
    )
}

/// A triple with its old and new hash exchanged.
pub open spec fn swap_hashes(t: HashTriple) -> HashTriple {
    (t.0, t.2, t.1)
}

/// How many entries of a listing satisfy `q`.
pub open spec fn count_where(s: Seq<PathHash>, q: spec_fn(PathHash) -> bool) -> nat
    decreases s.len(),
{
    if s.len() == 0 {
        0
    } else {
        count_where(s.drop_last(), q) + if q(s.last()) {
            1nat
        } else {
            0nat
        }
    }
}

/// The paths of the entries of a listing that satisfy `q`.
pub open spec fn paths_where(s: Seq<PathHash>, q: spec_fn(PathHash) -> bool) -> Set<Seq<char>> {
    Set::new(|p: Seq<char>| exists|i: int| 0 <= i < s.len() && (#[trigger] s[i]).0 == p && q(s[i]))
}

/// An entry carries exactly the hash that `other` records for its path.
pub open spec fn same_hash_in(other: Seq<PathHash>) -> spec_fn(PathHash) -> bool {
    |e: PathHash| recorded_hash(other, e.0) == Some(e.1)
}

/// `other` records a hash for the entry's path, and not the entry's hash.
pub open spec fn other_hash_in(other: Seq<PathHash>) -> spec_fn(PathHash) -> bool {
    |e: PathHash| recorded_hash(other, e.0) is Some && recorded_hash(other, e.0) != Some(e.1)
}

/// The triple that comparing entry `i` of `a` with `b` reports as modified.
pub open spec fn modified_at(a: Seq<PathHash>, b: Seq<PathHash>, t: HashTriple) -> bool {
    exists|i: int|
        0 <= i < a.len() && #[trigger] a[i].0 == t.0 && t.1 == recorded_hash(b, a[i].0) && t.2
            == Some(a[i].1) && other_hash_in(b)(a[i])
}

proof fn lemma_unique_prefix(s: Seq<PathHash>)
    requires
        unique_paths(s),
        s.len() > 0,
    ensures
        unique_paths(s.drop_last()),
        forall|i: int| 0 <= i < s.len() - 1 ==> (#[trigger] s[i]).0 != s.last().0,
{
    let pre = s.drop_last();
    assert forall|i: int, j: int| 0 <= i < j < pre.len() implies pre[i].0 != pre[j].0 by {
        assert(pre[i] == s[i] && pre[j] == s[j]);
    }
    assert forall|i: int| 0 <= i < s.len() - 1 implies (#[trigger] s[i]).0 != s.last().0 by {
        assert(s.last() == s[s.len() - 1]);
    }
}

/// Counting the entries of a listing with distinct paths counts their paths.
proof fn lemma_count_where(s: Seq<PathHash>, q: spec_fn(PathHash) -> bool)
    requires
        unique_paths(s),
    ensures
        paths_where(s, q).finite(),
        paths_where(s, q).len() == count_where(s, q),
    decreases s.len(),
{
    if s.len() == 0 {
        assert(paths_where(s, q) =~= Set::<Seq<char>>::empty());
    } else {
        let pre = s.drop_last();
        let e = s.last();
        let n = s.len() - 1;
        lemma_unique_prefix(s);
        lemma_count_where(pre, q);
        let sp = paths_where(pre, q);
        assert(s[n] == e);
        if q(e) {
            assert forall|p: Seq<char>| #[trigger] paths_where(s, q).contains(p) <==> sp.insert(
                e.0,
            ).contains(p) by {
                if paths_where(s, q).contains(p) {
                    let i = choose|i: int| 0 <= i < s.len() && (#[trigger] s[i]).0 == p && q(s[i]);
                    if i < n {
                        assert(pre[i] == s[i]);
                    }
                }
                if sp.contains(p) {
                    let i = choose|i: int| 0 <= i < pre.len() && (#[trigger] pre[i]).0 == p && q(pre[i]);
                    assert(s[i] == pre[i]);
                }
            }
            assert(paths_where(s, q) =~= sp.insert(e.0));
            if sp.contains(e.0) {
                let i = choose|i: int| 0 <= i < pre.len() && (#[trigger] pre[i]).0 == e.0 && q(pre[i]);
                assert(s[i] == pre[i]);
            }
        } else {
            assert forall|p: Seq<char>| #[trigger] paths_where(s, q).contains(p) <==> sp.contains(
                p,
            ) by {
                if paths_where(s, q).contains(p) {
                    let i = choose|i: int| 0 <= i < s.len() && (#[trigger] s[i]).0 == p && q(s[i]);
                    if i < n {
                        assert(pre[i] == s[i]);
                    }
                }
                if sp.contains(p) {
                    let i = choose|i: int| 0 <= i < pre.len() && (#[trigger] pre[i]).0 == p && q(pre[i]);
                    assert(s[i] == pre[i]);
                }
            }
            assert(paths_where(s, q) =~= sp);
        }
    }
}

proof fn lemma_unchanged_count(a: Seq<PathHash>, b: Seq<PathHash>)
    ensures
        spec_unchanged_count(a, b) == count_where(a, same_hash_in(b)),
    decreases a.len(),
{
    if a.len() > 0 {
        lemma_unchanged_count(a.drop_last(), b);
    }
}

proof fn lemma_modified_count(a: Seq<PathHash>, b: Seq<PathHash>)
    ensures
        spec_modified_files(a, b).len() == count_where(a, other_hash_in(b)),
    decreases a.len(),
{
    if a.len() > 0 {
        lemma_modified_count(a.drop_last(), b);
    }
}

/// An entry of `b` with path `p`, when `b` records a hash for `p`.
proof fn lemma_entry_of(b: Seq<PathHash>, p: Seq<char>) -> (j: int)
    requires
        unique_paths(b),
        recorded_hash(b, p) is Some,
    ensures
        0 <= j < b.len(),
        b[j].0 == p,
        recorded_hash(b, p) == Some(b[j].1),
{
    lemma_recorded_iff_listed(b, p);
    let j = choose|j: int| 0 <= j < b.len() && #[trigger] b[j].0 == p;
    lemma_recorded_unique(b, j);
    j
}

proof fn lemma_same_side(a: Seq<PathHash>, b: Seq<PathHash>, p: Seq<char>)
    requires
        unique_paths(a),
        unique_paths(b),
        paths_where(a, same_hash_in(b)).contains(p),
    ensures
        paths_where(b, same_hash_in(a)).contains(p),
{
    let i = choose|i: int| 0 <= i < a.len() && (#[trigger] a[i]).0 == p && same_hash_in(b)(a[i]);
    lemma_recorded_unique(a, i);
    let j = lemma_entry_of(b, p);
    assert(same_hash_in(a)(b[j]));
}

proof fn lemma_other_side(a: Seq<PathHash>, b: Seq<PathHash>, p: Seq<char>)
    requires
        unique_paths(a),
        unique_paths(b),
        paths_where(a, other_hash_in(b)).contains(p),
    ensures
        paths_where(b, other_hash_in(a)).contains(p),
{
    let i = choose|i: int| 0 <= i < a.len() && (#[trigger] a[i]).0 == p && other_hash_in(b)(a[i]);
    lemma_recorded_unique(a, i);
    let j = lemma_entry_of(b, p);
    assert(other_hash_in(a)(b[j]));
}

proof fn lemma_modified_side(a: Seq<PathHash>, b: Seq<PathHash>, t: HashTriple)
    requires
        unique_paths(a),
        unique_paths(b),
        modified_at(a, b, t),
    ensures
        modified_at(b, a, swap_hashes(t)),
{
    let i = choose|i: int|
        0 <= i < a.len() && #[trigger] a[i].0 == t.0 && t.1 == recorded_hash(b, a[i].0) && t.2
            == Some(a[i].1) && other_hash_in(b)(a[i]);
    lemma_recorded_unique(a, i);
    let j = lemma_entry_of(b, t.0);
    assert(b[j].0 == swap_hashes(t).0);
}

/// The modified triples of comparing `a` with `b` are the triples that
/// `modified_at` describes.
proof fn lemma_modified_triples(a: Seq<PathHash>, b: Seq<PathHash>)
    ensures
        forall|t: HashTriple| #[trigger]
            change_triples(spec_modified_files(a, b)).contains(t) <==> modified_at(a, b, t),
    decreases a.len(),
{
    if a.len() > 0 {
        let pre = a.drop_last();
        let e = a.last();
        let n = a.len() - 1;
        lemma_modified_triples(pre, b);
        let prev = spec_modified_files(pre, b);
        let cur = spec_modified_files(a, b);
        assert(a[n] == e);
        assert forall|t: HashTriple| #[trigger]
            change_triples(cur).contains(t) <==> modified_at(a, b, t) by {
            if change_triples(cur).contains(t) {
                let k = choose|k: int|
                    0 <= k < cur.len() && (#[trigger] cur[k]).path == t.0 && cur[k].old_hash == t.1
                        && cur[k].new_hash == t.2;
                if k < prev.len() {
                    assert(cur[k] == prev[k]);
                    assert(change_triples(prev).contains(t));
                    let i = choose|i: int|
                        0 <= i < pre.len() && #[trigger] pre[i].0 == t.0 && t.1 == recorded_hash(
                            b,
                            pre[i].0,
                        ) && t.2 == Some(pre[i].1) && other_hash_in(b)(pre[i]);
                    assert(a[i] == pre[i]);
                } else {
                    assert(a[n].0 == t.0);
                }
            }
            if modified_at(a, b, t) {
                let i = choose|i: int|
                    0 <= i < a.len() && #[trigger] a[i].0 == t.0 && t.1 == recorded_hash(b, a[i].0)
                        && t.2 == Some(a[i].1) && other_hash_in(b)(a[i]);
                if i < n {
                    assert(pre[i] == a[i]);
                    assert(modified_at(pre, b, t));
                    assert(change_triples(prev).contains(t));
                    let k = choose|k: int|
                        0 <= k < prev.len() && (#[trigger] prev[k]).path == t.0 && prev[k].old_hash
                            == t.1 && prev[k].new_hash == t.2;
                    assert(cur[k] == prev[k]);
                } else {
                    assert(cur[prev.len() as int].path == t.0);
                }
            }
        }
    } else {
        assert forall|t: HashTriple| #[trigger]
            change_triples(spec_modified_files(a, b)).contains(t) <==> modified_at(a, b, t) by {}
    }
}

proof fn lemma_new_deleted_swapped(a: Seq<PathHash>, b: Seq<PathHash>)
    ensures
        new_pairs(spec_new_files(a, b)) == old_pairs(spec_deleted_files(b, a)),
    decreases a.len(),
{
    if a.len() == 0 {
        assert(new_pairs(spec_new_files(a, b)) =~= old_pairs(spec_deleted_files(b, a)));
    } else {
        let pre = a.drop_last();
        let e = a.last();
        lemma_new_deleted_swapped(pre, b);
        lemma_recorded_iff_listed(b, e.0);
        let pn = spec_new_files(pre, b);
        let pd = spec_deleted_files(b, pre);
        if recorded_hash(b, e.0) is None {
            assert(new_pairs(spec_new_files(a, b)) =~= new_pairs(pn).push((e.0, Some(e.1))));
            assert(old_pairs(spec_deleted_files(b, a)) =~= old_pairs(pd).push((e.0, Some(e.1))));
        }
    }
}

/// Comparing `a` with `b` and comparing `b` with `a` report the same
/// differences from the other side: the new files of the one are the deleted
/// files of the other, in the same order and with the same hashes; both count
/// the same unchanged files; and they report the same modified files, with
/// old and new hash exchanged (in their own orders). This holds whenever each
/// listing lists each path once.
pub proof fn lemma_compare_swapped(a: Seq<PathHash>, b: Seq<PathHash>)
    requires
        unique_paths(a),
        unique_paths(b),
    ensures
        new_pairs(spec_compare(a, b).new_files) == old_pairs(spec_compare(b, a).deleted_files),
        old_pairs(spec_compare(a, b).deleted_files) == new_pairs(spec_compare(b, a).new_files),
        spec_compare(a, b).unchanged_count == spec_compare(b, a).unchanged_count,
        spec_compare(a, b).modified_files.len() == spec_compare(b, a).modified_files.len(),
        forall|t: HashTriple| #[trigger]
            change_triples(spec_compare(a, b).modified_files).contains(t) <==> change_triples(
                spec_compare(b, a).modified_files,
            ).contains(swap_hashes(t)),
{
    lemma_new_deleted_swapped(a, b);
    lemma_new_deleted_swapped(b, a);

    lemma_unchanged_count(a, b);
    lemma_unchanged_count(b, a);
    lemma_count_where(a, same_hash_in(b));
    lemma_count_where(b, same_hash_in(a));
    assert forall|p: Seq<char>| #[trigger] paths_where(a, same_hash_in(b)).contains(p)
        <==> paths_where(b, same_hash_in(a)).contains(p) by {
        if paths_where(a, same_hash_in(b)).contains(p) {
            lemma_same_side(a, b, p);
        }
        if paths_where(b, same_hash_in(a)).contains(p) {
            lemma_same_side(b, a, p);
        }
    }
    assert(paths_where(a, same_hash_in(b)) =~= paths_where(b, same_hash_in(a)));

    lemma_modified_count(a, b);
    lemma_modified_count(b, a);
    lemma_count_where(a, other_hash_in(b));
    lemma_count_where(b, other_hash_in(a));
    assert forall|p: Seq<char>| #[trigger] paths_where(a, other_hash_in(b)).contains(p)
        <==> paths_where(b, other_hash_in(a)).contains(p) by {
        if paths_where(a, other_hash_in(b)).contains(p) {
            lemma_other_side(a, b, p);
        }
        if paths_where(b, other_hash_in(a)).contains(p) {
            lemma_other_side(b, a, p);
        }
    }
    assert(paths_where(a, other_hash_in(b)) =~= paths_where(b, other_hash_in(a)));

    lemma_modified_triples(a, b);
    lemma_modified_triples(b, a);
    assert forall|t: HashTriple| #[trigger]
        change_triples(spec_compare(a, b).modified_files).contains(t) <==> change_triples(
            spec_compare(b, a).modified_files,
        ).contains(swap_hashes(t)) by {
        assert(change_triples(spec_modified_files(b, a)).contains(swap_hashes(t)) <==> modified_at(
            b,
            a,
            swap_hashes(t),
        ));
        if modified_at(a, b, t) {
            lemma_modified_side(a, b, t);
        }
        if modified_at(b, a, swap_hashes(t)) {
            lemma_modified_side(b, a, swap_hashes(t));
            assert(swap_hashes(swap_hashes(t)) == t);
        }
    }
}

} // verus!
