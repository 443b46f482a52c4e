//! The lines that report a comparison: one per change, and a summary.
use vstd::prelude::*;

use crate::comparator::{ComparisonResult, ComparisonView, FileChange, FileChangeView};

verus! {

/// The report line of a new file: `[NEW] <path>`.
pub open spec fn spec_new_message(c: FileChangeView) -> Seq<char> {
    "[NEW] "@ + c.path
}

/// The report line of a modified file:
/// `[MODIFIED] <path> (old: <old hash>, new: <new hash>)`.
pub open spec fn spec_modified_message(c: FileChangeView) -> Seq<char> {
    "[MODIFIED] "@ + c.path + " (old: "@ + c.old_hash.unwrap() + ", new: "@ + c.new_hash.unwrap()
        + ")"@
}

/// The report line of a deleted file: `[DELETED] <path>`.
pub open spec fn spec_deleted_message(c: FileChangeView) -> Seq<char> {
    "[DELETED] "@ + c.path
}

/// The report lines of a list of new files.
pub open spec fn new_messages(s: Seq<FileChangeView>) -> Seq<Seq<char>> {
    s.map_values(|c: FileChangeView| spec_new_message(c))
}

/// The report lines of a list of modified files.
pub open spec fn modified_messages(s: Seq<FileChangeView>) -> Seq<Seq<char>> {
    s.map_values(|c: FileChangeView| spec_modified_message(c))
}

/// The report lines of a list of deleted files.
pub open spec fn deleted_messages(s: Seq<FileChangeView>) -> Seq<Seq<char>> {
    s.map_values(|c: FileChangeView| spec_deleted_message(c))
}

/// The report lines of a comparison, in order: new, modified, deleted files.
pub open spec fn spec_report(r: ComparisonView) -> Seq<Seq<char>> {
    new_messages(r.new_files) + modified_messages(r.modified_files) + deleted_messages(
        r.deleted_files,
    )
}

/// Every modified file carries both of the hashes that its report line shows.
pub open spec fn has_reported_hashes(r: ComparisonView) -> bool {
    forall|i: int|
        0 <= i < r.modified_files.len() ==> (#[trigger] r.modified_files[i]).old_hash is Some
            && r.modified_files[i].new_hash is Some
}

/// The views of a list of lines.
pub open spec fn lines_view(v: Seq<String>) -> Seq<Seq<char>> {
    v.map_values(|s: String| s@)
}

/// The report line of a file in the list of new files.
pub fn new_file_message(change: &FileChange) -> (line: String)
    ensures
        line@ == spec_new_message(change@),
        line@ == "[NEW] "@ + change.path@,
{
    let mut line = String::from_str("[NEW] ");
    line.append(change.path.as_str());
    line
}

/// The report line of a file in the list of deleted files.
pub fn deleted_file_message(change: &FileChange) -> (line: String)
    ensures
        line@ == spec_deleted_message(change@),
        line@ == "[DELETED] "@ + change.path@,
{
    let mut line = String::from_str("[DELETED] ");
    line.append(change.path.as_str());
    line
}

/// The report line of a file in the list of modified files, which shows its
/// old and its new hash.
pub fn modified_file_message(change: &FileChange) -> (line: String)
    requires
        change@.old_hash is Some,
        change@.new_hash is Some,
    ensures
        line@ == spec_modified_message(change@),
        line@ == "[MODIFIED] "@ + change.path@ + " (old: "@ + change@.old_hash.unwrap() + ", new: "@
            + change@.new_hash.unwrap() + ")"@,
{
    let old = match &change.old_hash {
        Some(h) => h.as_str(),
        None => "",
    };
    let new = match &change.new_hash {
        Some(h) => h.as_str(),
        None => "",
    };
    let mut line = String::from_str("[MODIFIED] ");
    line.append(change.path.as_str());
    line.append(" (old: ");
    line.append(old);
    line.append(", new: ");
    line.append(new);
    line.append(")");
    line
}

/// The report lines of a comparison: one per change, new files first, then
/// modified, then deleted files.
pub fn report_lines(result: &ComparisonResult) -> (lines: Vec<String>)
    requires
        has_reported_hashes(result@),
    ensures
        lines_view(lines@) == spec_report(result@),
        lines@.len() == result.new_files@.len() + result.modified_files@.len()
            + result.deleted_files@.len(),
        forall|i: int|
            0 <= i < result.new_files@.len() ==> (#[trigger] lines@[i])@ == "[NEW] "@
                + result.new_files@[i].path@,
        forall|i: int|
            0 <= i < result.modified_files@.len() ==> (#[trigger] lines@[result.new_files@.len()
                + i])@ == "[MODIFIED] "@ + result.modified_files@[i].path@ + " (old: "@
                + result.modified_files@[i]@.old_hash.unwrap() + ", new: "@
                + result.modified_files@[i]@.new_hash.unwrap() + ")"@,
        forall|i: int|
            0 <= i < result.deleted_files@.len() ==> (#[trigger] lines@[result.new_files@.len()
                + result.modified_files@.len() + i])@ == "[DELETED] "@
                + result.deleted_files@[i].path@,
{
    let ghost r = result@;
    let mut lines: Vec<String> = Vec::new();
    let mut i: usize = 0;
    while i < result.new_files.len()
        invariant
            r == result@,
            i <= result.new_files@.len(),
            lines_view(lines@) == new_messages(r.new_files.take(i as int)),
        decreases result.new_files@.len() - i,
    {
        assert(r.new_files[i as int] == result.new_files@[i as int]@);
        let line = new_file_message(&result.new_files[i]);
        let ghost old_lines = lines@;
        lines.push(line);
        assert(lines@ =~= old_lines.push(line));
        assert(lines_view(lines@) =~= lines_view(old_lines).push(line@));
        assert(new_messages(r.new_files.take(i + 1)) =~= new_messages(
            r.new_files.take(i as int),
        ).push(spec_new_message(r.new_files[i as int])));
        i = i + 1;
    }
    assert(r.new_files.take(i as int) =~= r.new_files);
    let ghost after_new = lines_view(lines@);
    let mut i: usize = 0;
    while i < result.modified_files.len()
        invariant
            r == result@,
            has_reported_hashes(r),
            i <= result.modified_files@.len(),
            after_new == new_messages(r.new_files),
            lines_view(lines@) == after_new + modified_messages(r.modified_files.take(i as int)),
        decreases result.modified_files@.len() - i,
    {
        assert(r.modified_files[i as int] == result.modified_files@[i as int]@);
        let line = modified_file_message(&result.modified_files[i]);
        let ghost old_lines = lines@;
        lines.push(line);
        assert(lines@ =~= old_lines.push(line));
        assert(lines_view(lines@) =~= lines_view(old_lines).push(line@));
        assert(modified_messages(r.modified_files.take(i + 1)) =~= modified_messages(
            r.modified_files.take(i as int),
        ).push(spec_modified_message(r.modified_files[i as int])));
        i = i + 1;
    }
    assert(r.modified_files.take(i as int) =~= r.modified_files);
    let ghost after_modified = lines_view(lines@);
    let mut i: usize = 0;
    while i < result.deleted_files.len()
        invariant
            r == result@,
            i <= result.deleted_files@.len(),
            after_modified == new_messages(r.new_files) + modified_messages(r.modified_files),
            lines_view(lines@) == after_modified + deleted_messages(r.deleted_files.take(i as int)),
        decreases result.deleted_files@.len() - i,
    {
        assert(r.deleted_files[i as int] == result.deleted_files@[i as int]@);
        let line = deleted_file_message(&result.deleted_files[i]);
        let ghost old_lines = lines@;
        lines.push(line);
        assert(lines@ =~= old_lines.push(line));
        assert(lines_view(lines@) =~= lines_view(old_lines).push(line@));
        assert(deleted_messages(r.deleted_files.take(i + 1)) =~= deleted_messages(
            r.deleted_files.take(i as int),
        ).push(spec_deleted_message(r.deleted_files[i as int])));
        i = i + 1;
    }
    assert(r.deleted_files.take(i as int) =~= r.deleted_files);
    proof {
        lemma_report_lines(r);
        assert forall|k: int| 0 <= k < lines@.len() implies (#[trigger] lines@[k])@ == spec_report(
            r,
        )[k] by {
            assert(lines_view(lines@)[k] == lines@[k]@);
        }
    }
    lines
}

/// The report holds exactly one line per change, in order: `[NEW] <path>` for
/// each new file, then `[MODIFIED] <path> (old: <old>, new: <new>)` for each
/// modified file, then `[DELETED] <path>` for each deleted file.
pub proof fn lemma_report_lines(r: ComparisonView)
    ensures
        spec_report(r).len() == r.new_files.len() + r.modified_files.len() + r.deleted_files.len(),
        forall|i: int|
            0 <= i < r.new_files.len() ==> #[trigger] spec_report(r)[i] == "[NEW] "@
                + r.new_files[i].path,
        forall|i: int|
            0 <= i < r.modified_files.len() ==> #[trigger] spec_report(r)[r.new_files.len() + i]
                == "[MODIFIED] "@ + r.modified_files[i].path + " (old: "@
                + r.modified_files[i].old_hash.unwrap() + ", new: "@
                + r.modified_files[i].new_hash.unwrap() + ")"@,
        forall|i: int|
            0 <= i < r.deleted_files.len() ==> #[trigger] spec_report(r)[r.new_files.len()
                + r.modified_files.len() + i] == "[DELETED] "@ + r.deleted_files[i].path,
{
    let a = new_messages(r.new_files);
    let b = modified_messages(r.modified_files);
    let c = deleted_messages(r.deleted_files);
    assert forall|i: int| 0 <= i < r.new_files.len() implies #[trigger] spec_report(r)[i] == "[NEW] "@
        + r.new_files[i].path by {
        assert((a + b)[i] == a[i]);
    }
    assert forall|i: int| 0 <= i < r.modified_files.len() implies #[trigger] spec_report(r)[r.new_files.len()
        + i] == "[MODIFIED] "@ + r.modified_files[i].path + " (old: "@
        + r.modified_files[i].old_hash.unwrap() + ", new: "@ + r.modified_files[i].new_hash.unwrap()
        + ")"@ by {
        assert((a + b)[a.len() + i] == b[i]);
    }
}

/// The character of a decimal digit.
pub open spec fn decimal_digit(d: nat) -> char {
    (48 + d) as char
}

/// The decimal notation of a natural number, without leading zeros.
pub open spec fn decimal(n: nat) -> Seq<char>
    decreases n,
{
    if n < 10 {
        seq![decimal_digit(n)]
    } else {
        decimal(n / 10).push(decimal_digit(n % 10))
    }
}

/// The one-character string of a decimal digit.
fn digit_str(d: usize) -> (s: &'static str)
    requires
        d < 10,
    ensures
        s@ == seq![decimal_digit(d as nat)],
{
    proof {
        reveal_strlit("0");
        reveal_strlit("1");
        reveal_strlit("2");
        reveal_strlit("3");
        reveal_strlit("4");
        reveal_strlit("5");
        reveal_strlit("6");
        reveal_strlit("7");
        reveal_strlit("8");
        reveal_strlit("9");
    }
    if d == 0 {
        "0"
    } else if d == 1 {
        "1"
    } else if d == 2 {
        "2"
    } else if d == 3 {
        "3"
    } else if d == 4 {
        "4"
    } else if d == 5 {
        "5"
    } else if d == 6 {
        "6"
    } else if d == 7 {
        "7"
    } else if d == 8 {
        "8"
    } else {
        "9"
    }
}

/// The number that a string of decimal digits denotes.
pub open spec fn digits_value(s: Seq<char>) -> int
    decreases s.len(),
{
    if s.len() == 0 {
        0
    } else {
        digits_value(s.drop_last()) * 10 + (s.last() as int - 48)
    }
}

/// `s` is a numeral for `v`: one or more decimal digits, without a leading
/// zero unless it is `0` itself, denoting `v`.
pub open spec fn is_numeral_of(s: Seq<char>, v: int) -> bool {
    &&& s.len() > 0
    &&& forall|i: int| 0 <= i < s.len() ==> 48 <= #[trigger] s[i] as int && s[i] as int <= 57
    &&& (s[0] as int != 48 || s.len() == 1)
    &&& digits_value(s) == v
}

/// The decimal notation of a number is a numeral for it.
pub proof fn lemma_decimal_numeral(n: nat)
    ensures
        is_numeral_of(decimal(n), n as int),
    decreases n,
{
    if n < 10 {
        let s = decimal(n);
        assert(s[0] as int == 48 + n);
        assert(s.drop_last().len() == 0);
        assert(digits_value(s.drop_last()) == 0);
        assert(digits_value(s) == n);
    } else {
        let q = n / 10;
        let r = n % 10;
        lemma_decimal_numeral(q);
        let s = decimal(n);
        assert(s.drop_last() =~= decimal(q));
        assert(q * 10 + r == n) by (nonlinear_arith)
            requires
                q == n / 10,
                r == n % 10,
        ;
        assert(s[0] == decimal(q)[0]);
        if decimal(q).len() == 1 {
            assert(digits_value(decimal(q)) == digits_value(decimal(q).drop_last()) * 10 + (
            decimal(q).last() as int - 48));
            assert(decimal(q).drop_last().len() == 0);
        }
        assert forall|i: int| 0 <= i < s.len() implies 48 <= #[trigger] s[i] as int && s[i] as int
            <= 57 by {
            if i < decimal(q).len() {
                assert(s[i] == decimal(q)[i]);
            }
        }
    }
}

/// The decimal notation of a count.
pub fn decimal_string(n: usize) -> (s: String)
    ensures
        s@ == decimal(n as nat),
        is_numeral_of(s@, n as int),
    decreases n,
{
    proof {
        lemma_decimal_numeral(n as nat);
    }
    if n < 10 {
        String::from_str(digit_str(n))
    } else {
        let mut s = decimal_string(n / 10);
        s.append(digit_str(n % 10));
        s
    }
}

/// The summary line of a comparison.
pub open spec fn spec_summary(r: ComparisonView) -> Seq<char> {
    "\n[SUMMARY] Unchanged: "@ + decimal(r.unchanged_count) + ", New: "@ + decimal(
        r.new_files.len(),
    ) + ", Modified: "@ + decimal(r.modified_files.len()) + ", Deleted: "@ + decimal(
        r.deleted_files.len(),
    )
}

/// The summary line of a comparison: how many files are unchanged, new,
/// modified and deleted.
pub fn summary_line(result: &ComparisonResult) -> (line: String)
    ensures
        line@ == spec_summary(result@),
        line@ == "\n[SUMMARY] Unchanged: "@ + decimal(result.unchanged_count as nat) + ", New: "@
            + decimal(result.new_files@.len()) + ", Modified: "@ + decimal(
            result.modified_files@.len(),
        ) + ", Deleted: "@ + decimal(result.deleted_files@.len()),
{
    let mut line = String::from_str("\n[SUMMARY] Unchanged: ");
    line.append(decimal_string(result.unchanged_count).as_str());
    line.append(", New: ");
    line.append(decimal_string(result.new_files.len()).as_str());
    line.append(", Modified: ");
    line.append(decimal_string(result.modified_files.len()).as_str());
    line.append(", Deleted: ");
    line.append(decimal_string(result.deleted_files.len()).as_str());
    line
}

/// The summary line reads `Unchanged: `, `New: `, `Modified: ` and `Deleted: `,
/// each followed by a numeral for the number of unchanged files, of new
/// files, of modified files and of deleted files, in that order.
pub proof fn lemma_summary_counts(r: ComparisonView)
    ensures
        exists|u: Seq<char>, n: Seq<char>, m: Seq<char>, d: Seq<char>|
            #![trigger is_numeral_of(u, r.unchanged_count as int), is_numeral_of(n, r.new_files.len() as int), is_numeral_of(m, r.modified_files.len() as int), is_numeral_of(d, r.deleted_files.len() as int)]
            spec_summary(r) == "\n[SUMMARY] Unchanged: "@ + u + ", New: "@ + n + ", Modified: "@ + m
                + ", Deleted: "@ + d && is_numeral_of(u, r.unchanged_count as int) && is_numeral_of(
                n,
                r.new_files.len() as int,
            ) && is_numeral_of(m, r.modified_files.len() as int) && is_numeral_of(
                d,
                r.deleted_files.len() as int,
            ),
{
    lemma_decimal_numeral(r.unchanged_count);
    lemma_decimal_numeral(r.new_files.len());
    lemma_decimal_numeral(r.modified_files.len());
    lemma_decimal_numeral(r.deleted_files.len());
}

} // verus!
