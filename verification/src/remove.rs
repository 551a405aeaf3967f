//! Which files are removed, in which batches, and what is said of it.

use std::path::PathBuf;
use vstd::prelude::*;
use crate::duplicates::concat;
use crate::entry::{FileEntry, FileSource};
use crate::grouping::contents;
use crate::output::{counted, joined, lines, note, push_note, push_warning, warning, Line, LineView};
use crate::report::{group_removals, total_removals};
use crate::text::{decimal, same_text};

verus! {

/// A file to remove.
pub struct Target {
    /// Its path, as it is shown.
    pub name: String,
    /// Its path on this machine, where it is known otherwise than by name.
    pub path: Option<PathBuf>,
}

/// The mathematical model of a `Target`.
#[verifier::ext_equal]
pub struct TargetView {
    pub name: Seq<char>,
    pub path: Option<PathBuf>,
}

impl View for Target {
    type V = TargetView;

    open spec fn view(&self) -> TargetView {
        TargetView { name: self.name@, path: self.path }
    }
}

/// The files of a batch.
pub open spec fn targets(batch: Seq<Target>) -> Seq<TargetView> {
    batch.map_values(|t: Target| t@)
}

/// The files of each batch.
pub open spec fn batches(list: Seq<Vec<Target>>) -> Seq<Seq<TargetView>> {
    list.map_values(|b: Vec<Target>| targets(b@))
}

/// The file to remove for a superfluous entry. Files on a NAS are removed in NAS mode, files on
/// this machine otherwise.
pub open spec fn target_of(entry: FileEntry, nas: bool) -> Option<TargetView> {
    match entry.source {
        FileSource::Local(path) => if nas {
            None
        } else {
            Some(TargetView { name: entry.display_path@, path: Some(path) })
        },
        FileSource::Nas(path) => if nas {
            Some(TargetView { name: path@, path: None })
        } else {
            None
        },
    }
}

/// The files to remove of a group: all but the first.
pub open spec fn group_targets(group: Seq<FileEntry>, nas: bool) -> Seq<TargetView>
    decreases group.len(),
{
    if group.len() <= 1 {
        Seq::empty()
    } else {
        let before = group_targets(group.drop_last(), nas);
        match target_of(group.last(), nas) {
            Some(target) => before.push(target),
            None => before,
        }
    }
}

/// One batch for each file.
pub open spec fn one_by_one(files: Seq<TargetView>) -> Seq<Seq<TargetView>> {
    files.map_values(|t: TargetView| seq![t])
}

/// The batches in which the superfluous files of all groups are removed: on a NAS one batch for
/// each group that has any, on this machine one for each file.
pub open spec fn flag_batches(groups: Seq<Seq<FileEntry>>, nas: bool) -> Seq<Seq<TargetView>>
    decreases groups.len(),
{
    if groups.len() == 0 {
        Seq::empty()
    } else {
        let before = flag_batches(groups.drop_last(), nas);
        let files = group_targets(groups.last(), nas);
        if !nas {
            before + one_by_one(files)
        } else if files.len() > 0 {
            before.push(files)
        } else {
            before
        }
    }
}

/// The files that were selected by their paths.
pub open spec fn named_targets(paths: Seq<String>) -> Seq<TargetView> {
    paths.map_values(|p: String| TargetView { name: p@, path: None })
}

/// The batches in which the selected files are removed: on a NAS a single one, on this machine
/// one for each file.
pub open spec fn page_batches(paths: Seq<String>, nas: bool) -> Seq<Seq<TargetView>> {
    if nas {
        seq![named_targets(paths)]
    } else {
        one_by_one(named_targets(paths))
    }
}

/// How many files the first batches hold.
pub open spec fn batched(list: Seq<Seq<TargetView>>) -> nat
    decreases list.len(),
{
    if list.len() == 0 {
        0
    } else {
        batched(list.drop_last()) + list.last().len()
    }
}

fn superfluous(entry: &FileEntry, nas: bool) -> (r: Option<Target>)
    ensures
        match r {
            Some(t) => target_of(*entry, nas) == Some(t@),
            None => target_of(*entry, nas) is None,
        },
{
    match &entry.source {
        FileSource::Local(path) => {
            if nas {
                None
            } else {
                Some(Target { name: entry.display_path.clone(), path: Some(path.clone()) })
            }
        },
        FileSource::Nas(path) => {
            if nas {
                Some(Target { name: path.clone(), path: None })
            } else {
                None
            }
        },
    }
}

fn group_to_remove(group: &Vec<FileEntry>, nas: bool) -> (files: Vec<Target>)
    ensures
        targets(files@) == group_targets(group@, nas),
{
    let mut files: Vec<Target> = Vec::new();
    let mut i: usize = 1;
    assert(targets(files@) =~= Seq::empty());
    if group.len() > 0 {
        assert(group@.take(1).len() == 1);
        while i < group.len()
            invariant
                1 <= i <= group@.len(),
                targets(files@) == group_targets(group@.take(i as int), nas),
            decreases group@.len() - i,
        {
            let ghost before = files@;
            let target = superfluous(&group[i], nas);
            assert(group@.take(i + 1).drop_last() =~= group@.take(i as int));
            if let Some(t) = target {
                files.push(t);
                assert(targets(files@) =~= targets(before).push(t@));
            }
            i += 1;
        }
        assert(group@.take(i as int) =~= group@);
    }
    files
}

fn push_one_by_one(list: &mut Vec<Vec<Target>>, files: Vec<Target>)
    ensures
        batches(final(list)@) == batches(old(list)@) + one_by_one(targets(files@)),
{
    let ghost all = targets(files@);
    let ghost start = batches(list@);
    assert(batches(list@) =~= start + one_by_one(all.take(0)));
    for file in it: files
        invariant
            all == targets(it.seq()),
            0 <= it.index() <= it.seq().len(),
            batches(list@) == start + one_by_one(all.take(it.index() as int)),
    {
        let ghost before = list@;
        let ghost k = it.index() as int;
        let mut batch: Vec<Target> = Vec::new();
        batch.push(file);
        assert(targets(batch@) =~= seq![file@]);
        list.push(batch);
        assert(batches(list@) =~= batches(before).push(seq![file@]));
        assert(all.take(k + 1) =~= all.take(k).push(file@));
        assert(one_by_one(all.take(k + 1)) =~= one_by_one(all.take(k)).push(seq![file@]));
        assert(batches(list@) =~= start + one_by_one(all.take(k + 1)));
    }
    assert(all.take(all.len() as int) =~= all);
}

/// The batches of superfluous files of all groups.
pub fn superfluous_files(groups: &Vec<Vec<FileEntry>>, nas: bool) -> (list: Vec<Vec<Target>>)
    ensures
        batches(list@) == flag_batches(contents(groups@), nas),
{
    let ghost all = contents(groups@);
    let mut list: Vec<Vec<Target>> = Vec::new();
    let mut g: usize = 0;
    assert(batches(list@) =~= flag_batches(all.take(0), nas));
    while g < groups.len()
        invariant
            all == contents(groups@),
            g <= groups@.len(),
            batches(list@) == flag_batches(all.take(g as int), nas),
        decreases groups@.len() - g,
    {
        let ghost before = list@;
        let files = group_to_remove(&groups[g], nas);
        let ghost found = targets(files@);
        assert(all.take(g + 1).drop_last() =~= all.take(g as int));
        if !nas {
            push_one_by_one(&mut list, files);
        } else if files.len() > 0 {
            list.push(files);
            assert(batches(list@) =~= batches(before).push(found));
        }
        g += 1;
    }
    assert(all.take(g as int) =~= all);
    list
}

/// The batches of selected files.
pub fn selected_files(paths: Vec<String>, nas: bool) -> (list: Vec<Vec<Target>>)
    ensures
        batches(list@) == page_batches(paths@, nas),
{
    let ghost all = named_targets(paths@);
    let mut files: Vec<Target> = Vec::new();
    assert(targets(files@) =~= all.take(0));
    for path in it: paths
        invariant
            all == named_targets(it.seq()),
            0 <= it.index() <= it.seq().len(),
            targets(files@) == all.take(it.index() as int),
    {
        let ghost before = files@;
        files.push(Target { name: path, path: None });
        assert(targets(files@) =~= targets(before).push(all[it.index() as int]));
        assert(all.take(it.index() + 1) =~= all.take(it.index() as int).push(all[it.index() as int]));
    }
    assert(all.take(all.len() as int) =~= all);
    let mut list: Vec<Vec<Target>> = Vec::new();
    if nas {
        list.push(files);
        assert(batches(list@) =~= seq![all]);
    } else {
        push_one_by_one(&mut list, files);
        assert(batches(list@) =~= one_by_one(all));
    }
    list
}

/// A file that could not be removed, and why.
pub struct Failure {
    pub name: String,
    pub error: String,
}

/// Whether a file is among those that could not be removed.
pub open spec fn failed(failures: Seq<Failure>, name: Seq<char>) -> bool {
    exists|i: int| 0 <= i < failures.len() && (#[trigger] failures[i]).name@ == name
}

/// How many files of a batch were removed.
pub open spec fn removed_count(batch: Seq<TargetView>, failures: Seq<Failure>) -> nat
    decreases batch.len(),
{
    if batch.len() == 0 {
        0
    } else {
        removed_count(batch.drop_last(), failures) + if failed(failures, batch.last().name) {
            0nat
        } else {
            1nat
        }
    }
}

/// What is said of the files of a batch that were removed.
pub open spec fn removed_lines(batch: Seq<TargetView>, failures: Seq<Failure>) -> Seq<LineView>
    decreases batch.len(),
{
    if batch.len() == 0 {
        Seq::empty()
    } else {
        let before = removed_lines(batch.drop_last(), failures);
        if failed(failures, batch.last().name) {
            before
        } else {
            before.push(note("  Deleted: "@ + batch.last().name + "\n"@))
        }
    }
}

/// What is said of a file that could not be removed.
pub open spec fn failure_text(failure: Failure) -> Seq<char> {
    "  Error: "@ + failure.name@ + " — "@ + failure.error@ + "\n"@
}

/// What is said of the files that could not be removed.
pub open spec fn failure_lines(failures: Seq<Failure>) -> Seq<LineView> {
    failures.map_values(|f: Failure| warning(failure_text(f)))
}

fn has_failed(failures: &Vec<Failure>, name: &str) -> (r: bool)
    ensures
        r == failed(failures@, name@),
{
    let mut i: usize = 0;
    while i < failures.len()
        invariant
            i <= failures@.len(),
            forall|j: int| 0 <= j < i ==> (#[trigger] failures@[j]).name@ != name@,
        decreases failures@.len() - i,
    {
        if same_text(failures[i].name.as_str(), name) {
            return true;
        }
        i += 1;
    }
    false
}

fn push_failures(out: &mut Vec<Line>, failures: &Vec<Failure>)
    ensures
        lines(final(out)@) == lines(old(out)@) + failure_lines(failures@),
{
    let ghost start = lines(out@);
    let ghost all = failure_lines(failures@);
    let mut i: usize = 0;
    assert(lines(out@) =~= start + all.take(0));
    while i < failures.len()
        invariant
            i <= failures@.len(),
            all == failure_lines(failures@),
            lines(out@) == start + all.take(i as int),
        decreases failures@.len() - i,
    {
        let failure = &failures[i];
        let mut text = joined("  Error: ", failure.name.as_str(), " — ");
        text.append(failure.error.as_str());
        text.append("\n");
        assert(text@ =~= failure_text(*failure));
        push_warning(out, text);
        assert(all.take(i + 1) =~= all.take(i as int).push(all[i as int]));
        assert(lines(out@) =~= start + all.take(i + 1));
        i += 1;
    }
    assert(all.take(i as int) =~= all);
}

/// Says what became of a batch. Returns how many of its files were removed.
pub fn tally(out: &mut Vec<Line>, batch: &Vec<Target>, failures: &Vec<Failure>) -> (removed: usize)
    ensures
        removed == removed_count(targets(batch@), failures@),
        removed <= batch@.len(),
        lines(final(out)@) == lines(old(out)@) + removed_lines(targets(batch@), failures@)
            + failure_lines(failures@),
{
    let ghost start = lines(out@);
    let ghost all = targets(batch@);
    let mut removed: usize = 0;
    let mut i: usize = 0;
    assert(lines(out@) =~= start + removed_lines(all.take(0), failures@));
    while i < batch.len()
        invariant
            i <= batch@.len(),
            all == targets(batch@),
            removed == removed_count(all.take(i as int), failures@),
            removed <= i,
            lines(out@) == start + removed_lines(all.take(i as int), failures@),
        decreases batch@.len() - i,
    {
        assert(all.take(i + 1).drop_last() =~= all.take(i as int));
        assert(all.take(i + 1).last() == batch@[i as int]@);
        if !has_failed(failures, batch[i].name.as_str()) {
            push_note(out, joined("  Deleted: ", batch[i].name.as_str(), "\n"));
            removed += 1;
        }
        assert(lines(out@) =~= start + removed_lines(all.take(i + 1), failures@));
        i += 1;
    }
    assert(all.take(i as int) =~= all);
    push_failures(out, failures);
    removed
}

/// What is said at the end.
pub open spec fn done_text(removed: usize, errors: usize) -> Seq<char> {
    "Done. Deleted "@ + decimal(removed as nat) + " files ("@ + decimal(errors as nat)
        + " errors).\n"@
}

/// Says how many files were removed and how many could not be.
pub fn done(removed: usize, errors: usize) -> (text: String)
    ensures
        text@ == done_text(removed, errors),
{
    let mut text = counted("Done. Deleted ", removed, " files (");
    let rest = counted("", errors, " errors).\n");
    text.append(rest.as_str());
    proof {
        reveal_strlit("");
    }
    assert(text@ =~= done_text(removed, errors));
    text
}

/// Whether all files of a group are in the place that the run is about.
pub open spec fn all_there(group: Seq<FileEntry>, nas: bool) -> bool {
    forall|i: int| 0 <= i < group.len() ==> (#[trigger] group[i]).source is Nas == nas
}

/// Every file of a group is either the one that is kept or among those that are removed: with the
/// files of the place that the run is about, one file of each group stays and it is the first.
pub proof fn law_one_file_of_each_group_stays(group: Seq<FileEntry>, nas: bool)
    requires
        all_there(group, nas),
    ensures
        group_targets(group, nas).len() == group_removals(group),
        forall|i: int|
            1 <= i < group.len() ==> Some(#[trigger] group_targets(group, nas)[i - 1])
                == target_of(group[i], nas),
    decreases group.len(),
{
    if group.len() > 1 {
        let shorter = group.drop_last();
        assert forall|i: int| 0 <= i < shorter.len() implies (#[trigger] shorter[i]).source is Nas
            == nas by {
            assert(group[i].source is Nas == nas);
        }
        law_one_file_of_each_group_stays(shorter, nas);
        assert(group.last() == group[group.len() - 1]);
        assert forall|i: int| 1 <= i < group.len() implies Some(
            #[trigger] group_targets(group, nas)[i - 1],
        ) == target_of(group[i], nas) by {
            if i < shorter.len() {
                assert(Some(group_targets(shorter, nas)[i - 1]) == target_of(shorter[i], nas));
            }
        }
    }
}

/// How many files a group has removed at most.
pub proof fn lemma_group_targets_len(group: Seq<FileEntry>, nas: bool)
    ensures
        group_targets(group, nas).len() <= group_removals(group),
    decreases group.len(),
{
    if group.len() > 1 {
        lemma_group_targets_len(group.drop_last(), nas);
    }
}

/// Batches hold what was put in them.
pub proof fn lemma_batched_concat(a: Seq<Seq<TargetView>>, b: Seq<Seq<TargetView>>)
    ensures
        batched(a + b) == batched(a) + batched(b),
    decreases b.len(),
{
    if b.len() == 0 {
        assert(a + b =~= a);
    } else {
        assert((a + b).drop_last() =~= a + b.drop_last());
        lemma_batched_concat(a, b.drop_last());
    }
}

/// No more files are removed than the report announces, and just as many where all files are in the
/// place that the run is about.
pub proof fn law_report_announces_every_removal(groups: Seq<Seq<FileEntry>>, nas: bool)
    ensures
        batched(flag_batches(groups, nas)) <= total_removals(groups),
        (forall|g: int| 0 <= g < groups.len() ==> all_there(#[trigger] groups[g], nas)) ==> batched(
            flag_batches(groups, nas),
        ) == total_removals(groups),
    decreases groups.len(),
{
    if groups.len() > 0 {
        if forall|g: int| 0 <= g < groups.len() ==> all_there(#[trigger] groups[g], nas) {
            assert(all_there(groups[groups.len() - 1], nas));
            law_one_file_of_each_group_stays(groups.last(), nas);
            assert forall|g: int| 0 <= g < groups.len() - 1 implies all_there(
                #[trigger] groups.drop_last()[g],
                nas,
            ) by {
                assert(groups.drop_last()[g] == groups[g]);
            }
        }
        let before = flag_batches(groups.drop_last(), nas);
        let files = group_targets(groups.last(), nas);
        law_report_announces_every_removal(groups.drop_last(), nas);
        lemma_group_targets_len(groups.last(), nas);
        if !nas {
            lemma_batched_concat(before, one_by_one(files));
            lemma_one_by_one(files);
        } else if files.len() > 0 {
            assert(before.push(files).drop_last() =~= before);
        }
    }
}

/// One batch for each file holds the files in their order.
proof fn lemma_one_by_one(files: Seq<TargetView>)
    ensures
        concat(one_by_one(files)) == files,
        batched(one_by_one(files)) == files.len(),
    decreases files.len(),
{
    if files.len() > 0 {
        assert(one_by_one(files).drop_last() =~= one_by_one(files.drop_last()));
        lemma_one_by_one(files.drop_last());
        assert(concat(one_by_one(files)) =~= files);
    } else {
        assert(one_by_one(files) =~= Seq::empty());
        assert(concat(one_by_one(files)) =~= files);
    }
}

/// The batches hold the selected files, each once and in their order.
pub proof fn law_selected_files_are_the_targets(paths: Seq<String>, nas: bool)
    ensures
        concat(page_batches(paths, nas)) == named_targets(paths),
        batched(page_batches(paths, nas)) == paths.len(),
{
    if nas {
        let list = seq![named_targets(paths)];
        assert(list.drop_last() =~= Seq::empty());
        assert(concat(list.drop_last()) =~= Seq::empty());
        assert(concat(list) =~= named_targets(paths));
        assert(batched(list.drop_last()) == 0);
    } else {
        lemma_one_by_one(named_targets(paths));
    }
}

proof fn lemma_concat_concat(a: Seq<Seq<TargetView>>, b: Seq<Seq<TargetView>>)
    ensures
        concat(a + b) == concat(a) + concat(b),
    decreases b.len(),
{
    if b.len() == 0 {
        assert(a + b =~= a);
        assert(concat(a + b) =~= concat(a) + concat(b));
    } else {
        assert((a + b).drop_last() =~= a + b.drop_last());
        lemma_concat_concat(a, b.drop_last());
        assert(concat(a + b) =~= concat(a) + concat(b));
    }
}

/// The batches hold the superfluous files of all groups, each once and in their order.
pub proof fn law_superfluous_files_are_the_targets(groups: Seq<Seq<FileEntry>>, nas: bool)
    ensures
        concat(flag_batches(groups, nas)) == concat(
            groups.map_values(|g: Seq<FileEntry>| group_targets(g, nas)),
        ),
    decreases groups.len(),
{
    let all = groups.map_values(|g: Seq<FileEntry>| group_targets(g, nas));
    if groups.len() == 0 {
        assert(all =~= Seq::empty());
    } else {
        let before = flag_batches(groups.drop_last(), nas);
        let files = group_targets(groups.last(), nas);
        law_superfluous_files_are_the_targets(groups.drop_last(), nas);
        assert(all.drop_last() =~= groups.drop_last().map_values(
            |g: Seq<FileEntry>| group_targets(g, nas),
        ));
        assert(all.last() == files);
        if !nas {
            lemma_concat_concat(before, one_by_one(files));
            lemma_one_by_one(files);
        } else if files.len() > 0 {
            assert(before.push(files).drop_last() =~= before);
        } else {
            assert(concat(all) =~= concat(before));
        }
    }
}

/// A batch has no more files removed than it holds.
pub proof fn lemma_removed_count(batch: Seq<TargetView>, failures: Seq<Failure>)
    ensures
        removed_count(batch, failures) <= batch.len(),
    decreases batch.len(),
{
    if batch.len() > 0 {
        lemma_removed_count(batch.drop_last(), failures);
    }
}

/// The first batches hold no more files than all of them.
pub proof fn lemma_batched_monotone(list: Seq<Seq<TargetView>>, n: int)
    requires
        0 <= n <= list.len(),
    ensures
        batched(list.take(n)) <= batched(list),
    decreases list.len() - n,
{
    if n == list.len() {
        assert(list.take(n) =~= list);
    } else {
        lemma_batched_monotone(list, n + 1);
        assert(list.take(n + 1).drop_last() =~= list.take(n));
    }
}

/// On a NAS the superfluous files of a group go in one batch, and on this machine each file goes in a
/// batch of its own. Selected files go in one batch to a NAS, and one by one on this machine.
pub proof fn law_batches_are_groups_or_single_files(
    groups: Seq<Seq<FileEntry>>,
    group: Seq<FileEntry>,
    paths: Seq<String>,
)
    ensures
        flag_batches(Seq::empty(), true).len() == 0,
        flag_batches(groups.push(group), true) == if group_targets(group, true).len() > 0 {
            flag_batches(groups, true).push(group_targets(group, true))
        } else {
            flag_batches(groups, true)
        },
        forall|b: int|
            0 <= b < flag_batches(groups, false).len() ==> (#[trigger] flag_batches(
                groups,
                false,
            )[b]).len() == 1,
        page_batches(paths, true).len() == 1,
        page_batches(paths, false).len() == paths.len(),
        forall|b: int|
            0 <= b < paths.len() ==> (#[trigger] page_batches(paths, false)[b]).len() == 1
                && page_batches(paths, false)[b][0].name == paths[b]@,
    decreases groups.len(),
{
    assert(groups.push(group).drop_last() =~= groups);
    if groups.len() > 0 {
        let before = flag_batches(groups.drop_last(), false);
        let files = group_targets(groups.last(), false);
        law_batches_are_groups_or_single_files(groups.drop_last(), group, paths);
        assert forall|b: int| 0 <= b < flag_batches(groups, false).len() implies (
        #[trigger] flag_batches(groups, false)[b]).len() == 1 by {
            if b < before.len() {
                assert(flag_batches(groups, false)[b] == before[b]);
            } else {
                assert(flag_batches(groups, false)[b] == one_by_one(files)[b - before.len()]);
            }
        }
    }
}

} // verus!
