//! The report in the terminal: what would be removed, and what that frees.

use vstd::prelude::*;
use crate::duplicates::concat;
use crate::entry::FileEntry;
use crate::grouping::contents;
use crate::keep::{
    first_path_order, keep_order, law_first_file_is_the_one_to_keep,
    law_presenting_keeps_every_file, lemma_keep_comparable, presented, Keep,
};
use crate::order::{
    arranges, law_stable_sort_sorts, lemma_sorted_holds, lemma_sorted_sum, stable_sort, sum,
};
use crate::size::{format_size, size_text};
use crate::text::{decimal, push_decimal};

verus! {

/// How many files of a group are to be removed: all but the first.
pub open spec fn group_removals(group: Seq<FileEntry>) -> nat {
    if group.len() == 0 {
        0
    } else {
        (group.len() - 1) as nat
    }
}

/// The bytes of the files of a group that are to be removed.
pub open spec fn group_bytes(group: Seq<FileEntry>) -> nat
    decreases group.len(),
{
    if group.len() <= 1 {
        0
    } else {
        group_bytes(group.drop_last()) + group.last().size as nat
    }
}

/// How many files are to be removed.
pub open spec fn total_removals(groups: Seq<Seq<FileEntry>>) -> nat
    decreases groups.len(),
{
    if groups.len() == 0 {
        0
    } else {
        total_removals(groups.drop_last()) + group_removals(groups.last())
    }
}

/// The bytes of the files that are to be removed.
pub open spec fn total_bytes(groups: Seq<Seq<FileEntry>>) -> nat
    decreases groups.len(),
{
    if groups.len() == 0 {
        0
    } else {
        total_bytes(groups.drop_last()) + group_bytes(groups.last())
    }
}

proof fn lemma_group_bytes_monotone(group: Seq<FileEntry>, k: int)
    requires
        0 <= k <= group.len(),
    ensures
        group_bytes(group.take(k)) <= group_bytes(group),
    decreases group.len() - k,
{
    if k == group.len() {
        assert(group.take(k) =~= group);
    } else {
        lemma_group_bytes_monotone(group, k + 1);
        assert(group.take(k + 1).drop_last() =~= group.take(k));
    }
}

proof fn lemma_totals_monotone(groups: Seq<Seq<FileEntry>>, k: int)
    requires
        0 <= k <= groups.len(),
    ensures
        total_bytes(groups.take(k)) <= total_bytes(groups),
        total_removals(groups.take(k)) <= total_removals(groups),
    decreases groups.len() - k,
{
    if k == groups.len() {
        assert(groups.take(k) =~= groups);
    } else {
        lemma_totals_monotone(groups, k + 1);
        assert(groups.take(k + 1).drop_last() =~= groups.take(k));
    }
}

fn checked_group_bytes(group: &Vec<FileEntry>, start: u64) -> (r: Option<u64>)
    ensures
        match r {
            Some(sum) => sum == start + group_bytes(group@),
            None => start + group_bytes(group@) > u64::MAX,
        },
{
    let mut sum: u64 = start;
    if group.len() == 0 {
        return Some(sum);
    }
    let mut i: usize = 1;
    while i < group.len()
        invariant
            1 <= i <= group@.len(),
            sum == start + group_bytes(group@.take(i as int)),
        decreases group@.len() - i,
    {
        assert(group@.take(i + 1).drop_last() =~= group@.take(i as int));
        match sum.checked_add(group[i].size) {
            Some(next) => {
                sum = next;
            },
            None => {
                proof {
                    lemma_group_bytes_monotone(group@, i + 1);
                }
                return None;
            },
        }
        i += 1;
    }
    assert(group@.take(group@.len() as int) =~= group@);
    Some(sum)
}

/// How many files are to be removed and how many bytes they hold; nothing where the counts do not
/// fit into a `usize` and a `u64`.
pub fn checked_totals(groups: &Vec<Vec<FileEntry>>) -> (r: Option<(usize, u64)>)
    ensures
        match r {
            Some(totals) => totals.0 == total_removals(contents(groups@)) && totals.1
                == total_bytes(contents(groups@)),
            None => total_removals(contents(groups@)) > usize::MAX || total_bytes(
                contents(groups@),
            ) > u64::MAX,
        },
{
    let ghost all = contents(groups@);
    let mut removals: usize = 0;
    let mut bytes: u64 = 0;
    let mut i: usize = 0;
    assert(all.take(0) =~= Seq::<Seq<FileEntry>>::empty());
    while i < groups.len()
        invariant
            all == contents(groups@),
            i <= groups@.len(),
            removals == total_removals(all.take(i as int)),
            bytes == total_bytes(all.take(i as int)),
        decreases groups@.len() - i,
    {
        let group = &groups[i];
        proof {
            assert(all.take(i + 1).drop_last() =~= all.take(i as int));
            assert(all.take(i + 1).last() == group@);
            lemma_totals_monotone(all, i + 1);
        }
        if group.len() > 0 {
            match removals.checked_add(group.len() - 1) {
                Some(next) => {
                    removals = next;
                },
                None => return None,
            }
        }
        match checked_group_bytes(group, bytes) {
            Some(next) => {
                bytes = next;
            },
            None => return None,
        }
        i += 1;
    }
    assert(all.take(groups@.len() as int) =~= all);
    Some((removals, bytes))
}

/// How many files are to be removed, and how many bytes they hold.
pub fn compute_totals(groups: &Vec<Vec<FileEntry>>) -> (r: (usize, u64))
    requires
        total_removals(contents(groups@)) <= usize::MAX,
        total_bytes(contents(groups@)) <= u64::MAX,
    ensures
        r.0 == total_removals(contents(groups@)),
        r.1 == total_bytes(contents(groups@)),
{
    match checked_totals(groups) {
        Some(totals) => totals,
        None => (0, 0),
    }
}

/// The line of one file: the first of a group is kept, the others are removed.
pub open spec fn entry_line(entry: FileEntry, at: int) -> Seq<char> {
    if at == 0 {
        "  [KEEP] "@ + entry.display_path@ + "\n"@
    } else {
        "  [DEL]  "@ + entry.display_path@ + " ("@ + size_text(entry.size) + ")\n"@
    }
}

/// The lines of the files of a group.
pub open spec fn entry_lines(group: Seq<FileEntry>) -> Seq<char>
    decreases group.len(),
{
    if group.len() == 0 {
        Seq::empty()
    } else {
        entry_lines(group.drop_last()) + entry_line(group.last(), group.len() - 1)
    }
}

/// The part of the report on the group at place `at`.
pub open spec fn group_text(group: Seq<FileEntry>, at: int) -> Seq<char> {
    "Group "@ + decimal((at + 1) as nat) + " ("@ + decimal(group.len()) + " copies):\n"@ + entry_lines(
        group,
    )
}

/// The part of the report on the groups.
pub open spec fn groups_text(groups: Seq<Seq<FileEntry>>) -> Seq<char>
    decreases groups.len(),
{
    if groups.len() == 0 {
        Seq::empty()
    } else {
        groups_text(groups.drop_last()) + group_text(groups.last(), groups.len() - 1)
    }
}

/// The part of the report below the groups.
pub open spec fn summary_text(groups: nat, removals: usize, bytes: u64, delete: bool) -> Seq<char> {
    "\n--- Summary ---\nDuplicate groups : "@ + decimal(groups) + "\nFiles to remove  : "@ + decimal(
        removals as nat,
    ) + "\nSpace to recover : "@ + size_text(bytes) + "\n"@ + if delete {
        Seq::empty()
    } else {
        "\nDry-run complete. Re-run with --delete to remove the [DEL] files.\n"@
    }
}

/// The whole report.
pub open spec fn report_text(
    groups: Seq<Seq<FileEntry>>,
    removals: usize,
    bytes: u64,
    delete: bool,
) -> Seq<char> {
    "\n"@ + groups_text(groups) + summary_text(groups.len(), removals, bytes, delete)
}

fn push_entry_line(out: &mut String, entry: &FileEntry, first: bool)
    ensures
        final(out)@ == old(out)@ + entry_line(*entry, if first {
            0
        } else {
            1
        }),
{
    if first {
        out.append("  [KEEP] ");
        out.append(entry.display_path.as_str());
        out.append("\n");
        assert(out@ =~= old(out)@ + entry_line(*entry, 0));
    } else {
        out.append("  [DEL]  ");
        out.append(entry.display_path.as_str());
        out.append(" (");
        let size = format_size(entry.size);
        out.append(size.as_str());
        out.append(")\n");
        assert(out@ =~= old(out)@ + entry_line(*entry, 1));
    }
}

fn push_group_text(out: &mut String, group: &Vec<FileEntry>, at: usize)
    requires
        at < usize::MAX,
    ensures
        final(out)@ == old(out)@ + group_text(group@, at as int),
{
    out.append("Group ");
    push_decimal(out, (at + 1) as u64);
    out.append(" (");
    push_decimal(out, group.len() as u64);
    out.append(" copies):\n");
    let ghost head = out@;
    let mut j: usize = 0;
    assert(group@.take(0) =~= Seq::<FileEntry>::empty());
    assert(out@ =~= head + entry_lines(group@.take(0)));
    while j < group.len()
        invariant
            j <= group@.len(),
            out@ == head + entry_lines(group@.take(j as int)),
        decreases group@.len() - j,
    {
        assert(group@.take(j + 1).drop_last() =~= group@.take(j as int));
        push_entry_line(out, &group[j], j == 0);
        assert(out@ =~= head + entry_lines(group@.take(j + 1)));
        j += 1;
    }
    assert(group@.take(group@.len() as int) =~= group@);
    assert(out@ =~= old(out)@ + group_text(group@, at as int));
}

fn push_summary(out: &mut String, groups: usize, removals: usize, bytes: u64, delete: bool)
    ensures
        final(out)@ == old(out)@ + summary_text(groups as nat, removals, bytes, delete),
{
    out.append("\n--- Summary ---\nDuplicate groups : ");
    push_decimal(out, groups as u64);
    out.append("\nFiles to remove  : ");
    push_decimal(out, removals as u64);
    out.append("\nSpace to recover : ");
    let size = format_size(bytes);
    out.append(size.as_str());
    out.append("\n");
    if !delete {
        out.append("\nDry-run complete. Re-run with --delete to remove the [DEL] files.\n");
    }
    assert(out@ =~= old(out)@ + summary_text(groups as nat, removals, bytes, delete));
}

/// The report on the groups found: for each its files, the first kept and the others removed, and
/// below them what that comes to.
pub fn report(groups: &Vec<Vec<FileEntry>>, total_del: usize, total_bytes: u64, delete: bool) -> (out:
    String)
    ensures
        out@ == report_text(contents(groups@), total_del, total_bytes, delete),
{
    let ghost all = contents(groups@);
    let mut out = String::new();
    out.append("\n");
    let ghost head = out@;
    let mut i: usize = 0;
    assert(all.take(0) =~= Seq::<Seq<FileEntry>>::empty());
    assert(out@ =~= head + groups_text(all.take(0)));
    while i < groups.len()
        invariant
            all == contents(groups@),
            i <= groups@.len(),
            out@ == head + groups_text(all.take(i as int)),
        decreases groups@.len() - i,
    {
        assert(all.take(i + 1).drop_last() =~= all.take(i as int));
        assert(all.take(i + 1).last() == groups@[i as int]@);
        push_group_text(&mut out, &groups[i], i);
        assert(out@ =~= head + groups_text(all.take(i + 1)));
        i += 1;
    }
    assert(all.take(groups@.len() as int) =~= all);
    push_summary(&mut out, groups.len(), total_del, total_bytes, delete);
    assert(out@ =~= report_text(all, total_del, total_bytes, delete));
    out
}

/// Every file is either the one of its group that is kept or counted as removed.
pub proof fn law_every_file_is_kept_or_removed(groups: Seq<Seq<FileEntry>>)
    requires
        forall|g: int| 0 <= g < groups.len() ==> (#[trigger] groups[g]).len() > 0,
    ensures
        total_removals(groups) + groups.len() == concat(groups).len(),
    decreases groups.len(),
{
    if groups.len() > 0 {
        let before = groups.drop_last();
        assert forall|g: int| 0 <= g < before.len() implies (#[trigger] before[g]).len() > 0 by {
            assert(before[g] == groups[g]);
        }
        law_every_file_is_kept_or_removed(before);
        assert(groups[groups.len() - 1].len() > 0);
    }
}

spec fn size_of() -> spec_fn(FileEntry) -> nat {
    |f: FileEntry| f.size as nat
}

spec fn bytes_of() -> spec_fn(Seq<FileEntry>) -> nat {
    |g: Seq<FileEntry>| group_bytes(g)
}

spec fn removals_of() -> spec_fn(Seq<FileEntry>) -> nat {
    |g: Seq<FileEntry>| group_removals(g)
}

proof fn lemma_group_bytes_is_sum(group: Seq<FileEntry>)
    requires
        group.len() > 0,
    ensures
        group_bytes(group) + group[0].size == sum(group.map_values(size_of())),
    decreases group.len(),
{
    let sizes = group.map_values(size_of());
    assert(sizes.drop_last() =~= group.drop_last().map_values(size_of()));
    if group.len() > 1 {
        lemma_group_bytes_is_sum(group.drop_last());
    } else {
        assert(sum(sizes.drop_last()) == 0);
    }
}

proof fn lemma_totals_are_sums(groups: Seq<Seq<FileEntry>>)
    ensures
        total_bytes(groups) == sum(groups.map_values(bytes_of())),
        total_removals(groups) == sum(groups.map_values(removals_of())),
    decreases groups.len(),
{
    if groups.len() > 0 {
        lemma_totals_are_sums(groups.drop_last());
        assert(groups.map_values(bytes_of()).drop_last() =~= groups.drop_last().map_values(
            bytes_of(),
        ));
        assert(groups.map_values(removals_of()).drop_last() =~= groups.drop_last().map_values(
            removals_of(),
        ));
    }
}

/// Of one group, keeping the largest file frees the fewest bytes.
proof fn lemma_largest_frees_fewest(group: Seq<FileEntry>, keep: Keep)
    ensures
        group_bytes(stable_sort(group, keep_order(Keep::Largest))) <= group_bytes(
            stable_sort(group, keep_order(keep)),
        ),
        stable_sort(group, keep_order(keep)).len() == group.len(),
{
    let first = stable_sort(group, keep_order(Keep::Largest));
    let other = stable_sort(group, keep_order(keep));
    lemma_keep_comparable(group, Keep::Largest);
    lemma_keep_comparable(group, keep);
    law_stable_sort_sorts(group, keep_order(Keep::Largest));
    law_stable_sort_sorts(group, keep_order(keep));
    let from = choose|from: Seq<int>| #[trigger] arranges(group, other, keep_order(keep), from);
    if group.len() > 0 {
        lemma_sorted_sum(group, first, keep_order(Keep::Largest), size_of());
        lemma_sorted_sum(group, other, keep_order(keep), size_of());
        law_first_file_is_the_one_to_keep(group, Keep::Largest, 0);
        lemma_group_bytes_is_sum(first);
        lemma_group_bytes_is_sum(other);
        let at = from[0];
        assert(other[0] == group[at]);
        lemma_sorted_holds(group, first, keep_order(Keep::Largest), at);
        let i = choose|i: int| 0 <= i < first.len() && first[i] == group[at];
        law_first_file_is_the_one_to_keep(group, Keep::Largest, i);
    }
}

proof fn lemma_sum_le(a: Seq<nat>, b: Seq<nat>)
    requires
        a.len() == b.len(),
        forall|i: int| 0 <= i < a.len() ==> #[trigger] a[i] <= b[i],
    ensures
        sum(a) <= sum(b),
    decreases a.len(),
{
    if a.len() > 0 {
        lemma_sum_le(a.drop_last(), b.drop_last());
        assert(a[a.len() - 1] <= b[a.len() - 1]);
    }
}

proof fn lemma_presented_totals(groups: Seq<Seq<FileEntry>>, keep: Keep)
    ensures
        ({
            let middle = groups.map_values(|g: Seq<FileEntry>| stable_sort(g, keep_order(keep)));
            &&& total_bytes(presented(groups, keep)) == sum(middle.map_values(bytes_of()))
            &&& total_removals(presented(groups, keep)) == total_removals(groups)
        }),
{
    let middle = groups.map_values(|g: Seq<FileEntry>| stable_sort(g, keep_order(keep)));
    let shown = presented(groups, keep);
    law_presenting_keeps_every_file(groups, keep);
    lemma_totals_are_sums(shown);
    lemma_totals_are_sums(groups);
    lemma_sorted_sum(middle, shown, first_path_order(), bytes_of());
    lemma_sorted_sum(middle, shown, first_path_order(), removals_of());
    assert forall|g: int| 0 <= g < groups.len() implies middle.map_values(removals_of())[g]
        == groups.map_values(removals_of())[g] by {
        lemma_largest_frees_fewest(groups[g], keep);
    }
    assert(middle.map_values(removals_of()) =~= groups.map_values(removals_of()));
}

/// Keeping the largest file of each group frees the fewest bytes of all ways to choose, and every
/// way removes as many files: all but one of each group.
pub proof fn law_keeping_the_largest_frees_the_fewest_bytes(groups: Seq<Seq<FileEntry>>, keep: Keep)
    ensures
        total_bytes(presented(groups, Keep::Largest)) <= total_bytes(presented(groups, keep)),
        total_removals(presented(groups, Keep::Largest)) == total_removals(presented(groups, keep)),
        total_removals(presented(groups, keep)) == total_removals(groups),
{
    let largest = groups.map_values(
        |g: Seq<FileEntry>| stable_sort(g, keep_order(Keep::Largest)),
    );
    let other = groups.map_values(|g: Seq<FileEntry>| stable_sort(g, keep_order(keep)));
    lemma_presented_totals(groups, Keep::Largest);
    lemma_presented_totals(groups, keep);
    assert forall|g: int| 0 <= g < groups.len() implies #[trigger] largest.map_values(
        bytes_of(),
    )[g] <= other.map_values(bytes_of())[g] by {
        lemma_largest_frees_fewest(groups[g], keep);
    }
    lemma_sum_le(largest.map_values(bytes_of()), other.map_values(bytes_of()));
}

/// The report goes file by file: the first file of a group is marked `[KEEP]`, and one more file is
/// marked `[DEL]`, with its size.
pub proof fn law_report_marks_every_file(group: Seq<FileEntry>, file: FileEntry)
    ensures
        entry_lines(Seq::empty()) == Seq::<char>::empty(),
        group.len() == 0 ==> entry_lines(group.push(file)) == "  [KEEP] "@ + file.display_path@
            + "\n"@,
        group.len() > 0 ==> entry_lines(group.push(file)) == entry_lines(group) + "  [DEL]  "@
            + file.display_path@ + " ("@ + size_text(file.size) + ")\n"@,
{
    let longer = group.push(file);
    assert(longer.drop_last() =~= group);
    if group.len() == 0 {
        assert(entry_lines(longer.drop_last()) =~= Seq::empty());
        assert(longer.last() == file);
        assert(entry_lines(longer) =~= "  [KEEP] "@ + file.display_path@ + "\n"@);
    } else {
        assert(entry_lines(longer) =~= entry_lines(group) + "  [DEL]  "@ + file.display_path@
            + " ("@ + size_text(file.size) + ")\n"@);
    }
}

/// The report goes group by group, numbers the groups from one, says how many files each holds, and
/// ends with the totals; it tells of a dry run just where nothing is deleted.
pub proof fn law_report_tells_of_every_group(
    groups: Seq<Seq<FileEntry>>,
    group: Seq<FileEntry>,
    removals: usize,
    bytes: u64,
    delete: bool,
)
    ensures
        groups_text(Seq::empty()) == Seq::<char>::empty(),
        groups_text(groups.push(group)) == groups_text(groups) + "Group "@ + decimal(
            groups.len() + 1,
        ) + " ("@ + decimal(group.len()) + " copies):\n"@ + entry_lines(group),
        report_text(groups, removals, bytes, true) == "\n"@ + groups_text(groups)
            + "\n--- Summary ---\nDuplicate groups : "@ + decimal(groups.len())
            + "\nFiles to remove  : "@ + decimal(removals as nat) + "\nSpace to recover : "@
            + size_text(bytes) + "\n"@,
        report_text(groups, removals, bytes, false) == report_text(groups, removals, bytes, true)
            + "\nDry-run complete. Re-run with --delete to remove the [DEL] files.\n"@,
{
    let longer = groups.push(group);
    assert(longer.drop_last() =~= groups);
    assert(groups_text(longer) =~= groups_text(groups) + "Group "@ + decimal(groups.len() + 1)
        + " ("@ + decimal(group.len()) + " copies):\n"@ + entry_lines(group));
    assert(report_text(groups, removals, bytes, true) =~= "\n"@ + groups_text(groups)
        + "\n--- Summary ---\nDuplicate groups : "@ + decimal(groups.len())
        + "\nFiles to remove  : "@ + decimal(removals as nat) + "\nSpace to recover : "@
        + size_text(bytes) + "\n"@);
    assert(report_text(groups, removals, bytes, false) =~= report_text(
        groups,
        removals,
        bytes,
        true,
    ) + "\nDry-run complete. Re-run with --delete to remove the [DEL] files.\n"@);
}

/// The totals go file by file: the first file of a group costs nothing, and one more file counts once
/// and with its size. They go group by group.
pub proof fn law_totals_count_every_file(
    groups: Seq<Seq<FileEntry>>,
    group: Seq<FileEntry>,
    file: FileEntry,
)
    ensures
        total_removals(Seq::empty()) == 0,
        total_bytes(Seq::empty()) == 0,
        total_removals(groups.push(seq![file])) == total_removals(groups),
        total_bytes(groups.push(seq![file])) == total_bytes(groups),
        group.len() > 0 ==> total_removals(groups.push(group.push(file))) == total_removals(
            groups.push(group),
        ) + 1,
        group.len() > 0 ==> total_bytes(groups.push(group.push(file))) == total_bytes(
            groups.push(group),
        ) + file.size,
{
    assert(groups.push(seq![file]).drop_last() =~= groups);
    assert(groups.push(group).drop_last() =~= groups);
    assert(groups.push(group.push(file)).drop_last() =~= groups);
    assert(group.push(file).drop_last() =~= group);
}

} // verus!
