//! The records kept of monitored files.
use vstd::prelude::*;

use crate::comparator::{PathHash, listing_view};

verus! {

/// One stored record: a file's path, its hash, and when it was last checked.
#[derive(Debug, Clone)]
pub struct FileRecord {
    pub path: String,
    pub hash: String,
    pub last_checked: String,
}

/// The (path, hash) pairs of a list of records, in order.
pub open spec fn records_listing(records: Seq<FileRecord>) -> Seq<PathHash> {
    records.map_values(|r: FileRecord| (r.path@, r.hash@))
}

/// The (path, hash) pairs of the stored records, in order, for comparison
/// with a scan.
pub fn record_pairs(records: Vec<FileRecord>) -> (pairs: Vec<(String, String)>)
    ensures
        listing_view(pairs@) == records_listing(records@),
        pairs@.len() == records@.len(),
        forall|i: int|
            0 <= i < pairs@.len() ==> (#[trigger] pairs@[i]).0@ == records@[i].path@ && pairs@[i].1@
                == records@[i].hash@,
{
    let ghost all = records@;
    let mut pairs: Vec<(String, String)> = Vec::new();
    for record in it: records.into_iter()
        invariant
            it.seq() == all,
            listing_view(pairs@) == records_listing(all.take(it.index() as int)),
    {
        let ghost n = it.index() as int;
        let ghost old_pairs = pairs@;
        pairs.push((record.path, record.hash));
        assert(listing_view(pairs@) =~= listing_view(old_pairs).push((all[n].path@, all[n].hash@)));
        assert(records_listing(all.take(n + 1)) =~= records_listing(all.take(n)).push(
            (all[n].path@, all[n].hash@),
        ));
    }
    assert(all.take(all.len() as int) =~= all);
    assert forall|i: int| 0 <= i < pairs@.len() implies (#[trigger] pairs@[i]).0@ == all[i].path@
        && pairs@[i].1@ == all[i].hash@ by {
        assert(listing_view(pairs@)[i] == records_listing(all)[i]);
    }
    pairs
}

} // verus!
