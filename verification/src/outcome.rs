//! What a run comes to: which files it puts together, what it says of them, and which it removes.

use vstd::prelude::*;
use crate::cache::{cache_key, loaded};
use crate::cli::{commands, law_switches_are_the_arguments, Command};
use crate::duplicates::{concat, digest_keys, size_keys, unread};
use crate::entry::{FileEntry, FileSource};
use crate::flow::{
    cached_lines, compares, error_lines, on_nas, placed, removes, reports, selection_text, Action, Event, Phase, Run, Settings, Step,
};
use crate::grouping::{
    contents, law_picked_groups_split_the_items, pick, repeated_groups, splits,
};
use crate::history::{goes_on, history, law_nothing_is_removed_unasked, selects};
use crate::html::page_text;
use crate::keep::{
    keep_of, law_best_file_comes_first, law_presenting_keeps_groups_together,
    law_presenting_rearranges, presented,
};
use crate::output::{lines, note, warning, LineView};
use crate::remove::{
    all_there, batched, batches, done_text, failed, failure_lines, flag_batches, group_targets,
    law_one_file_of_each_group_stays, law_selected_files_are_the_targets,
    law_superfluous_files_are_the_targets, lemma_batched_monotone, lemma_removed_count,
    named_targets, page_batches, removed_count, removed_lines, target_of, targets, Failure, Target,
    TargetView,
};
use crate::report::{group_bytes, group_removals, report_text, total_bytes, total_removals};
use crate::similar::{
    all_distinct, cached_hashes, failures, filled, kept, law_results_take_their_places,
    law_second_run_finds_the_same_hashes, law_similar_groups_split_the_pictures, lemma_unhashed_places, not_parted, similar_groups,
    unhashed,
};
use crate::text::{decimal, text_le};

verus! {

/// All files of all groups but the first of each, in order.
pub open spec fn superfluous(groups: Seq<Seq<FileEntry>>) -> Seq<FileEntry> {
    groups.map_values(|g: Seq<FileEntry>| g.skip(1)).flatten()
}

/// The sizes of some files, added up.
pub open spec fn bytes_of(files: Seq<FileEntry>) -> int {
    files.fold_left(0int, |sum: int, f: FileEntry| sum + f.size)
}

/// Whether no file of a group beats the first by the rule that a word asks for: none is larger, or
/// with `newest` none was changed later, or with `oldest` none was changed earlier.
pub open spec fn best_first(group: Seq<FileEntry>, strategy: Seq<char>) -> bool {
    forall|i: int|
        0 <= i < group.len() ==> if strategy == "newest"@ {
            group[0].mtime >= (#[trigger] group[i]).mtime
        } else if strategy == "oldest"@ {
            group[0].mtime <= group[i].mtime
        } else {
            group[0].size >= group[i].size
        }
}

/// Whether a step is what comes of the groups that were found: without any it ends the run; with some
/// it prints their report, the file to keep first in each, and has them deleted, or else reviewed, if
/// that was asked for.
pub open spec fn settles(
    settings: Settings,
    groups: Seq<Seq<FileEntry>>,
    errors: nat,
    said: Seq<LineView>,
    step: Step,
) -> bool {
    let rest = superfluous(groups);
    let told = said + if errors > 0 {
        seq![warning("  ("@ + decimal(errors) + " files skipped due to errors)\n"@)]
    } else {
        Seq::empty()
    };
    if groups.len() == 0 {
        &&& step.action == Action::Exit(0)
        &&& lines(step.out@) == told.push(note("\nNo duplicates found.\n"@))
    } else if rest.len() > usize::MAX || bytes_of(rest) > u64::MAX {
        &&& step.action is GiveUp
        &&& lines(step.out@) == told
    } else {
        let reported = told.push(
            note(
                report_text(
                    groups,
                    rest.len() as usize,
                    bytes_of(rest) as u64,
                    settings.options.delete,
                ),
            ),
        );
        &&& forall|g: int|
            0 <= g < groups.len() ==> best_first(#[trigger] groups[g], settings.options.keep@)
        &&& forall|g: int, h: int|
            0 <= g < h < groups.len() ==> text_le(
                (#[trigger] groups[g])[0].display_path@,
                (#[trigger] groups[h])[0].display_path@,
            )
        &&& if settings.options.delete {
            &&& step.action is Remove || step.action == Action::Exit(0)
            &&& reported.push(
                note(
                    if settings.nas_user is Some {
                        "\nDeleting from NAS...\n"@
                    } else {
                        "\nDeleting...\n"@
                    },
                ),
            ).is_prefix_of(lines(step.out@))
        } else if settings.options.preview {
            &&& step.action is LookUp
            &&& contents(step.action->LookUp_0@) == groups
            &&& lines(step.out@) == reported
        } else {
            &&& step.action == Action::Exit(0)
            &&& lines(step.out@) == reported
        }
    }
}

/// A file as it is handed over to be removed: a file on this machine by its path, a file on a NAS by
/// its path there.
pub open spec fn as_target(file: FileEntry) -> TargetView {
    match file.source {
        FileSource::Local(path) => TargetView { name: file.display_path@, path: Some(path) },
        FileSource::Nas(path) => TargetView { name: path@, path: None },
    }
}

/// The files that a step hands over to be removed.
pub open spec fn handed_over(step: Step) -> Seq<TargetView> {
    match step.action {
        Action::Remove(batch) => batch@.map_values(
            |t: Target| TargetView { name: t.name@, path: t.path },
        ),
        _ => Seq::empty(),
    }
}

proof fn lemma_handed_over(step: Step)
    requires
        step.action is Remove,
    ensures
        handed_over(step) == targets(step.action->Remove_0@),
{
    assert(handed_over(step) =~= targets(step.action->Remove_0@));
}

/// The files that some steps hand over to be removed, in order.
pub open spec fn removals(steps: Seq<Step>) -> Seq<TargetView> {
    steps.map_values(|s: Step| handed_over(s)).flatten()
}

proof fn lemma_concat_is_flatten<T>(lists: Seq<Seq<T>>)
    ensures
        concat(lists) == lists.flatten(),
    decreases lists.len(),
{
    lists.lemma_flatten_and_flatten_alt_are_equivalent();
    if lists.len() > 0 {
        lemma_concat_is_flatten(lists.drop_last());
        lists.drop_last().lemma_flatten_and_flatten_alt_are_equivalent();
    }
}

proof fn lemma_superfluous_step(groups: Seq<Seq<FileEntry>>)
    requires
        groups.len() > 0,
    ensures
        superfluous(groups) == superfluous(groups.drop_last()) + groups.last().skip(1),
{
    let skip = |g: Seq<FileEntry>| g.skip(1);
    let lists = groups.map_values(skip);
    lemma_concat_is_flatten(lists);
    lemma_concat_is_flatten(groups.drop_last().map_values(skip));
    assert(lists.drop_last() =~= groups.drop_last().map_values(skip));
    assert(lists.last() == groups.last().skip(1));
}

proof fn lemma_bytes_of_concat(a: Seq<FileEntry>, b: Seq<FileEntry>)
    ensures
        bytes_of(a + b) == bytes_of(a) + bytes_of(b),
    decreases b.len(),
{
    reveal_with_fuel(Seq::fold_left, 2);
    if b.len() == 0 {
        assert(a + b =~= a);
    } else {
        assert((a + b).drop_last() =~= a + b.drop_last());
        lemma_bytes_of_concat(a, b.drop_last());
    }
}

proof fn lemma_group_totals(group: Seq<FileEntry>)
    requires
        group.len() > 0,
    ensures
        group.skip(1).len() == group_removals(group),
        bytes_of(group.skip(1)) == group_bytes(group),
    decreases group.len(),
{
    reveal_with_fuel(Seq::fold_left, 2);
    if group.len() > 1 {
        lemma_group_totals(group.drop_last());
        assert(group.skip(1).drop_last() =~= group.drop_last().skip(1));
    } else {
        assert(group.skip(1) =~= Seq::empty());
    }
}

/// The totals count the superfluous files and their bytes.
pub proof fn law_totals_count_the_superfluous_files(groups: Seq<Seq<FileEntry>>)
    requires
        forall|g: int| 0 <= g < groups.len() ==> (#[trigger] groups[g]).len() > 0,
    ensures
        total_removals(groups) == superfluous(groups).len(),
        total_bytes(groups) == bytes_of(superfluous(groups)),
    decreases groups.len(),
{
    reveal_with_fuel(Seq::fold_left, 2);
    if groups.len() > 0 {
        let before = groups.drop_last();
        assert forall|g: int| 0 <= g < before.len() implies (#[trigger] before[g]).len() > 0 by {
            assert(before[g] == groups[g]);
        }
        law_totals_count_the_superfluous_files(before);
        lemma_superfluous_step(groups);
        assert(groups[groups.len() - 1].len() > 0);
        lemma_group_totals(groups.last());
        lemma_bytes_of_concat(superfluous(before), groups.last().skip(1));
    } else {
        assert(groups.map_values(|g: Seq<FileEntry>| g.skip(1)) =~= Seq::empty());
    }
}

proof fn lemma_targets_are_superfluous(groups: Seq<Seq<FileEntry>>, nas: bool)
    requires
        forall|g: int|
            0 <= g < groups.len() ==> all_there(#[trigger] groups[g], nas) && groups[g].len() > 0,
    ensures
        concat(flag_batches(groups, nas)) == superfluous(groups).map_values(
            |f: FileEntry| as_target(f),
        ),
    decreases groups.len(),
{
    let f = |f: FileEntry| as_target(f);
    let t = |g: Seq<FileEntry>| group_targets(g, nas);
    law_superfluous_files_are_the_targets(groups, nas);
    if groups.len() == 0 {
        assert(groups.map_values(t) =~= Seq::empty());
        assert(groups.map_values(|g: Seq<FileEntry>| g.skip(1)) =~= Seq::empty());
        assert(superfluous(groups).map_values(f) =~= Seq::empty());
    } else {
        let before = groups.drop_last();
        let last = groups.last();
        assert forall|g: int| 0 <= g < before.len() implies all_there(#[trigger] before[g], nas)
            && before[g].len() > 0 by {
            assert(before[g] == groups[g]);
        }
        lemma_targets_are_superfluous(before, nas);
        law_superfluous_files_are_the_targets(before, nas);
        lemma_superfluous_step(groups);
        assert(all_there(groups[groups.len() - 1], nas));
        law_one_file_of_each_group_stays(last, nas);
        assert(group_targets(last, nas) =~= last.skip(1).map_values(f)) by {
            assert forall|i: int| 0 <= i < group_targets(last, nas).len() implies group_targets(
                last,
                nas,
            )[i] == last.skip(1).map_values(f)[i] by {
                assert(Some(group_targets(last, nas)[i + 1 - 1]) == target_of(last[i + 1], nas));
                assert(last[i + 1].source is Nas == nas);
            }
        }
        assert(groups.map_values(t).drop_last() =~= before.map_values(t));
        assert(superfluous(groups).map_values(f) =~= superfluous(before).map_values(f)
            + last.skip(1).map_values(f));
    }
}

proof fn lemma_removals_step(steps: Seq<Step>, n: int)
    requires
        0 <= n < steps.len(),
    ensures
        removals(steps.take(n + 1)) == removals(steps.take(n)) + handed_over(steps[n]),
{
    let f = |s: Step| handed_over(s);
    let now = steps.take(n + 1).map_values(f);
    let before = steps.take(n).map_values(f);
    assert(now.drop_last() =~= before);
    lemma_concat_is_flatten(now);
    lemma_concat_is_flatten(before);
}

proof fn lemma_nothing_removed_before(
    settings: Settings,
    events: Seq<Event>,
    runs: Seq<Run>,
    steps: Seq<Step>,
    n: int,
)
    requires
        history(settings, events, runs, steps),
        0 <= n <= events.len(),
        !(runs[n].phase is Removing),
        !(runs[n].phase is Finished),
    ensures
        removals(steps.take(n)) == Seq::<TargetView>::empty(),
    decreases n,
{
    if n > 0 {
        assert(goes_on(runs[n - 1], events[n - 1], runs[n], steps[n - 1]));
        lemma_nothing_removed_before(settings, events, runs, steps, n - 1);
        lemma_removals_step(steps, n - 1);
        assert(!(steps[n - 1].action is Remove));
    } else {
        assert(steps.take(0).map_values(|s: Step| handed_over(s)) =~= Seq::empty());
    }
}

proof fn lemma_removal_runs_through(
    settings: Settings,
    events: Seq<Event>,
    runs: Seq<Run>,
    steps: Seq<Step>,
    k: int,
    n: int,
    list: Seq<Seq<TargetView>>,
    by_flag: bool,
    said: Seq<LineView>,
)
    requires
        history(settings, events, runs, steps),
        0 <= k < n <= events.len(),
        removals(steps.take(k)) == Seq::<TargetView>::empty(),
        removes(list, 0, 0, 0, by_flag, said, runs[k + 1].phase, steps[k]),
    ensures
        runs[n].phase is Removing || runs[n].phase is Finished,
        runs[n].phase is Removing ==> batches(runs[n].phase->list@) == list && removals(
            steps.take(n),
        ) == concat(list.take(runs[n].phase->at + 1)),
        runs[n].phase is Finished ==> removals(steps.take(n)) == concat(list),
    decreases n,
{
    lemma_removals_step(steps, n - 1);
    if steps[n - 1].action is Remove {
        lemma_handed_over(steps[n - 1]);
    }
    if n == k + 1 {
        if list.len() > 0 {
            assert(list.take(1).drop_last() =~= Seq::empty());
            assert(concat(list.take(1).drop_last()) =~= Seq::empty());
            assert(concat(list.take(1)) =~= list[0]);
            assert(removals(steps.take(n)) =~= list[0]);
        } else {
            assert(removals(steps.take(n)) =~= concat(list));
        }
    } else {
        lemma_removal_runs_through(
            settings,
            events,
            runs,
            steps,
            k,
            n - 1,
            list,
            by_flag,
            said,
        );
        assert(goes_on(runs[n - 1], events[n - 1], runs[n], steps[n - 1]));
        let at = runs[n - 1].phase->at as int;
        if at + 1 < list.len() {
            assert(list.take(at + 2).drop_last() =~= list.take(at + 1));
        } else {
            assert(list.take(at + 1) =~= list);
            assert(removals(steps.take(n)) =~= concat(list));
        }
    }
}

/// After a review just the selected files are removed, each by the path that was selected.
pub proof fn law_review_removes_what_was_selected(
    settings: Settings,
    events: Seq<Event>,
    runs: Seq<Run>,
    steps: Seq<Step>,
    k: int,
)
    requires
        history(settings, events, runs, steps),
        runs[events.len() as int].phase is Finished,
        0 <= k < events.len(),
        events[k] is Selected,
    ensures
        events[k]->Selected_0 is Some ==> removals(steps) == events[k]->Selected_0->0@.map_values(
            |p: String| TargetView { name: p@, path: None },
        ),
        events[k]->Selected_0 is None ==> removals(steps).len() == 0,
{
    let end = events.len() as int;
    assert(goes_on(runs[k], events[k], runs[k + 1], steps[k]));
    lemma_nothing_removed_before(settings, events, runs, steps, k);
    lemma_removals_step(steps, k);
    assert(steps.take(end) =~= steps);
    let paths = events[k]->Selected_0;
    if paths is Some && paths->0@.len() > 0 {
        let list = page_batches(paths->0@, on_nas(runs[k].settings));
        lemma_removal_runs_through(
            settings,
            events,
            runs,
            steps,
            k,
            end,
            list,
            false,
            seq![
                note(
                    selection_text(
                        runs[k].settings,
                        paths->0@.len(),
                        runs[k].phase->resumed,
                    ),
                ),
            ],
        );
        law_selected_files_are_the_targets(paths->0@, on_nas(runs[k].settings));
        assert(named_targets(paths->0@) =~= paths->0@.map_values(
            |p: String| TargetView { name: p@, path: None },
        ));
    } else {
        if k + 1 < end {
            assert(goes_on(runs[k + 1], events[k + 1], runs[k + 2], steps[k + 1]));
        }
        assert(removals(steps) =~= Seq::empty());
        if paths is Some {
            assert(paths->0@.map_values(|p: String| TargetView { name: p@, path: None })
                =~= Seq::empty());
        }
    }
}

/// What `reports` says, in terms of the groups that are shown.
proof fn lemma_reports_settle(
    settings: Settings,
    items: Seq<FileEntry>,
    same: spec_fn(int, int) -> bool,
    found: Seq<Seq<FileEntry>>,
    places: Seq<Seq<int>>,
    errors: nat,
    said: Seq<LineView>,
    phase: Phase,
    step: Step,
)
    requires
        splits(items, same, found, places),
        reports(settings, found, errors, said, phase, step),
    ensures
        settles(settings, presented(found, keep_of(settings.options.keep@)), errors, said, step),
        exists|shown: Seq<Seq<int>>| #[trigger]
            splits(items, same, presented(found, keep_of(settings.options.keep@)), shown),
        forall|g: int|
            0 <= g < found.len() ==> (#[trigger] presented(
                found,
                keep_of(settings.options.keep@),
            )[g]).len() >= 2,
        presented(found, keep_of(settings.options.keep@)).len() == found.len(),
{
    let strategy = settings.options.keep@;
    let keep = keep_of(strategy);
    let groups = presented(found, keep);
    law_presenting_keeps_groups_together(items, same, found, places, keep);
    let shown = choose|shown: Seq<Seq<int>>| #[trigger] splits(items, same, groups, shown);
    let arranged = law_presenting_rearranges(found, keep);
    assert forall|g: int| 0 <= g < groups.len() implies (#[trigger] groups[g]).len() >= 2 by {
        assert(groups[g].len() == shown[g].len() && groups[g].len() >= 2);
    }
    law_totals_count_the_superfluous_files(groups);
    assert forall|g: int| 0 <= g < groups.len() implies best_first(
        #[trigger] groups[g],
        strategy,
    ) by {
        assert forall|i: int| 0 <= i < groups[g].len() implies if strategy == "newest"@ {
            groups[g][0].mtime >= (#[trigger] groups[g][i]).mtime
        } else if strategy == "oldest"@ {
            groups[g][0].mtime <= groups[g][i].mtime
        } else {
            groups[g][0].size >= groups[g][i].size
        } by {
            law_best_file_comes_first(found, strategy, g, i);
        }
    }
    let told = said + if errors > 0 {
        seq![warning("  ("@ + decimal(errors) + " files skipped due to errors)\n"@)]
    } else {
        Seq::empty()
    };
    if found.len() > 0 && superfluous(groups).len() <= usize::MAX && bytes_of(superfluous(groups))
        <= u64::MAX {
        let reported = told.push(
            note(
                report_text(
                    groups,
                    superfluous(groups).len() as usize,
                    bytes_of(superfluous(groups)) as u64,
                    settings.options.delete,
                ),
            ),
        );
        let deleting = reported.push(
            note(
                if settings.nas_user is Some {
                    "\nDeleting from NAS...\n"@
                } else {
                    "\nDeleting...\n"@
                },
            ),
        );
        if settings.options.delete {
            assert(deleting =~= lines(step.out@).take(deleting.len() as int));
        }
        assert forall|g: int, h: int| 0 <= g < h < groups.len() implies text_le(
            (#[trigger] groups[g])[0].display_path@,
            (#[trigger] groups[h])[0].display_path@,
        ) by {}
    }
}

/// Whether two files have digests and the digests are the same text.
pub open spec fn same_digest(digests: Seq<Option<String>>) -> spec_fn(int, int) -> bool {
    |p: int, q: int|
        digests[p] is Some && digests[q] is Some && digests[p]->0@ == digests[q]->0@
}

/// Whether two files have the same size.
pub open spec fn same_size(files: Seq<FileEntry>) -> spec_fn(int, int) -> bool {
    |p: int, q: int| files[p].size == files[q].size
}

proof fn lemma_digest_groups_split(flat: Seq<FileEntry>, digests: Seq<Option<String>>)
    requires
        flat.len() == digests.len(),
    ensures
        splits(
            flat,
            same_digest(digests),
            pick(flat, repeated_groups(digest_keys(digests))),
            repeated_groups(digest_keys(digests)),
        ),
{
    let keys = digest_keys(digests);
    let places = repeated_groups(keys);
    let groups = pick(flat, places);
    let same = same_digest(digests);
    let keyed = |p: int, q: int| keys[p] is Some && keys[p] == keys[q];
    law_picked_groups_split_the_items(flat, keys);
    assert forall|g: int, a: int, b: int|
        0 <= g < groups.len() && 0 <= a < groups[g].len() && 0 <= b < groups[g].len() && a
            != b implies same(#[trigger] places[g][a], #[trigger] places[g][b]) by {
        assert(keyed(places[g][a], places[g][b]));
    }
    assert forall|p: int, q: int|
        0 <= p < flat.len() && 0 <= q < flat.len() && p != q && #[trigger] same(
            p,
            q,
        ) implies exists|g: int|
        0 <= g < groups.len() && (#[trigger] places[g]).contains(p) && places[g].contains(q) by {
        assert(keyed(p, q));
    }
}

proof fn lemma_size_groups_split(files: Seq<FileEntry>)
    ensures
        splits(
            files,
            same_size(files),
            pick(files, repeated_groups(size_keys(files))),
            repeated_groups(size_keys(files)),
        ),
{
    let keys = size_keys(files);
    let places = repeated_groups(keys);
    let groups = pick(files, places);
    let same = same_size(files);
    let keyed = |p: int, q: int| keys[p] is Some && keys[p] == keys[q];
    law_picked_groups_split_the_items(files, keys);
    assert forall|g: int, a: int, b: int|
        0 <= g < groups.len() && 0 <= a < groups[g].len() && 0 <= b < groups[g].len() && a
            != b implies same(#[trigger] places[g][a], #[trigger] places[g][b]) by {
        assert(0 <= places[g][a] < files.len() && 0 <= places[g][b] < files.len());
        assert(keyed(places[g][a], places[g][b]));
    }
    assert forall|p: int, q: int|
        0 <= p < files.len() && 0 <= q < files.len() && p != q && #[trigger] same(
            p,
            q,
        ) implies exists|g: int|
        0 <= g < groups.len() && (#[trigger] places[g]).contains(p) && places[g].contains(q) by {
        assert(keyed(p, q));
    }
}

/// How many files could not be read.
pub open spec fn missing<T>(results: Seq<Option<T>>) -> nat {
    results.filter(|r: Option<T>| r is None).len()
}

proof fn lemma_unread_is_missing(digests: Seq<Option<String>>)
    ensures
        unread(digests) == missing(digests),
    decreases digests.len(),
{
    reveal(Seq::filter);
    if digests.len() > 0 {
        lemma_unread_is_missing(digests.drop_last());
    }
}

/// Without `--similar` a run digests just the files that share their size with another one.
pub proof fn law_files_of_equal_size_are_digested(
    before: Run,
    listed: Event,
    between: Run,
    asking: Step,
) -> (r: (Seq<Seq<FileEntry>>, Seq<Seq<int>>))
    requires
        goes_on(before, listed, between, asking),
        listed is Files,
        listed->Files_0 is Ok,
        !before.settings.options.similar,
    ensures
        asking.action is DigestFiles,
        splits(listed->Files_0->Ok_0@, same_size(listed->Files_0->Ok_0@), r.0, r.1),
        asking.action->DigestFiles_0@ == r.0.flatten(),
        lines(asking.out@) == seq![
            note("Scanned "@ + decimal(listed->Files_0->Ok_0@.len()) + " files\n"@),
            note(
                "Hashing "@ + decimal(r.0.flatten().len()) + " files across "@ + decimal(r.0.len())
                    + " same-size groups...\n"@,
            ),
        ],
{
    let files = listed->Files_0->Ok_0@;
    let places = repeated_groups(size_keys(files));
    let groups = pick(files, places);
    lemma_size_groups_split(files);
    lemma_concat_is_flatten(groups);
    (groups, places)
}

/// What a run reports as duplicates, shows in the review or deletes are groups of files with the same
/// digest, and all of them: of the files that it asked to be digested, two are in one group exactly
/// when both have digests and the digests are the same.
pub proof fn law_duplicates_are_what_the_digests_say(
    before: Run,
    listed: Event,
    between: Run,
    asking: Step,
    digested: Event,
    after: Run,
    step: Step,
)
    requires
        goes_on(before, listed, between, asking),
        listed is Files,
        asking.action is DigestFiles,
        goes_on(between, digested, after, step),
        digested is Digests,
    ensures
        asking.action->DigestFiles_0@.len() == digested->Digests_0@.len(),
        exists|groups: Seq<Seq<FileEntry>>, places: Seq<Seq<int>>| #[trigger]
            splits(
                asking.action->DigestFiles_0@,
                same_digest(digested->Digests_0@),
                groups,
                places,
            ) && settles(
                before.settings,
                groups,
                missing(digested->Digests_0@),
                Seq::empty(),
                step,
            ),
{
    let flat = asking.action->DigestFiles_0@;
    let digests = digested->Digests_0@;
    let found = pick(flat, repeated_groups(digest_keys(digests)));
    let places = repeated_groups(digest_keys(digests));
    assert(flat == concat(contents(between.phase->candidates@)));
    lemma_digest_groups_split(flat, digests);
    lemma_unread_is_missing(digests);
    lemma_reports_settle(
        before.settings,
        flat,
        same_digest(digests),
        found,
        places,
        unread(digests),
        Seq::empty(),
        after.phase,
        step,
    );
    let groups = presented(found, keep_of(before.settings.options.keep@));
    let shown = choose|shown: Seq<Seq<int>>| #[trigger]
        splits(flat, same_digest(digests), groups, shown);
    assert(splits(flat, same_digest(digests), groups, shown));
}

/// Files whose digests are all different are no duplicates: the run says so and ends.
pub proof fn law_different_digests_are_no_duplicates(
    before: Run,
    listed: Event,
    between: Run,
    asking: Step,
    digested: Event,
    after: Run,
    step: Step,
)
    requires
        goes_on(before, listed, between, asking),
        listed is Files,
        asking.action is DigestFiles,
        goes_on(between, digested, after, step),
        digested is Digests,
        forall|p: int, q: int|
            #![trigger digested->Digests_0@[p], digested->Digests_0@[q]]
            0 <= p < q < digested->Digests_0@.len() && digested->Digests_0@[p] is Some
                && digested->Digests_0@[q] is Some ==> digested->Digests_0@[p]->0@
                != digested->Digests_0@[q]->0@,
    ensures
        step.action == Action::Exit(0),
        lines(step.out@).last() == note("\nNo duplicates found.\n"@),
{
    let digests = digested->Digests_0@;
    let flat = asking.action->DigestFiles_0@;
    law_duplicates_are_what_the_digests_say(
        before,
        listed,
        between,
        asking,
        digested,
        after,
        step,
    );
    let same = same_digest(digests);
    let (groups, places) = choose|groups: Seq<Seq<FileEntry>>, places: Seq<Seq<int>>| #[trigger]
        splits(flat, same, groups, places) && settles(
            before.settings,
            groups,
            missing(digests),
            Seq::empty(),
            step,
        );
    if groups.len() > 0 {
        assert(groups[0].len() >= 2);
        let p = places[0][0];
        let q = places[0][1];
        assert(p != q && same(p, q));
        assert(0 <= places[0][0] < flat.len() && 0 <= places[0][1] < flat.len());
        if p < q {
            assert(digests[p]->0@ != digests[q]->0@);
        } else {
            assert(digests[q]->0@ != digests[p]->0@);
        }
    }
}

/// The name of a file in the hash cache: its path, size and time of change.
pub open spec fn name_in_cache(file: FileEntry) -> Seq<char> {
    file.display_path@ + seq![':'] + decimal(file.size as nat) + seq![':'] + decimal(
        file.mtime as nat,
    )
}

/// Whether `hashes` are the hashes of the files: where the cache names a file that hash, and where it
/// does not the hash that was computed. The files without a name there, at `places` and in order,
/// are those that were handed out to be hashed.
pub open spec fn hashes_of(
    files: Seq<FileEntry>,
    entries: Map<Seq<char>, u64>,
    handed: Seq<FileEntry>,
    computed: Seq<Option<u64>>,
    places: Seq<int>,
    hashes: Seq<Option<u64>>,
) -> bool {
    &&& hashes.len() == files.len()
    &&& handed.len() == places.len()
    &&& computed.len() == places.len()
    &&& forall|i: int|
        0 <= i < files.len() ==> if entries.contains_key(name_in_cache(#[trigger] files[i])) {
            hashes[i] == Some(entries[name_in_cache(files[i])])
        } else {
            places.contains(i)
        }
    &&& forall|m: int|
        0 <= m < places.len() ==> 0 <= #[trigger] places[m] < files.len()
            && !entries.contains_key(name_in_cache(files[places[m]])) && handed[m]
            == files[places[m]] && hashes[places[m]] == computed[m]
    &&& forall|m: int, l: int| 0 <= m < l < places.len() ==> #[trigger] places[m] < #[trigger] places[l]
}

/// Whether two pictures are to be together at a threshold.
pub open spec fn alike(hashes: Seq<Option<u64>>, threshold: u32) -> spec_fn(int, int) -> bool {
    |p: int, q: int| not_parted(hashes, threshold, p, q)
}

/// What is said while pictures are compared.
pub open spec fn comparing(threshold: u32, groups: nat) -> Seq<LineView> {
    seq![
        note("Comparing all pairs (threshold = "@ + decimal(threshold as nat) + " bits)...\n"@),
        note("Found "@ + decimal(groups) + " groups of similar images\n"@),
    ]
}

proof fn lemma_similar_settles(
    settings: Settings,
    files: Seq<FileEntry>,
    hashes: Seq<Option<u64>>,
    errors: nat,
    said: Seq<LineView>,
    phase: Phase,
    step: Step,
) -> (groups: Seq<Seq<FileEntry>>)
    requires
        hashes.len() == files.len(),
        compares(settings, files, hashes, errors, said, phase, step),
    ensures
        groups == presented(
            pick(files, similar_groups(hashes, settings.options.threshold)),
            keep_of(settings.options.keep@),
        ),
        exists|places: Seq<Seq<int>>| #[trigger]
            splits(files, alike(hashes, settings.options.threshold), groups, places),
        settles(
            settings,
            groups,
            errors,
            said + comparing(settings.options.threshold, groups.len()),
            step,
        ),
{
    let threshold = settings.options.threshold;
    let places = similar_groups(hashes, threshold);
    let found = pick(files, places);
    let groups = presented(found, keep_of(settings.options.keep@));
    law_similar_groups_split_the_pictures(files, hashes, threshold);
    assert(said + comparing(threshold, found.len()) =~= said.push(
        note("Comparing all pairs (threshold = "@ + decimal(threshold as nat) + " bits)...\n"@),
    ).push(note("Found "@ + decimal(found.len()) + " groups of similar images\n"@)));
    lemma_reports_settle(
        settings,
        files,
        alike(hashes, threshold),
        found,
        places,
        errors,
        said + comparing(threshold, found.len()),
        phase,
        step,
    );
    groups
}

/// The hashes that a text of the cache holds, by name.
pub open spec fn read_cache(text: Option<String>) -> Map<Seq<char>, u64> {
    loaded(
        match text {
            Some(t) => Some(t@),
            None => None,
        },
    )
}

/// With `--similar` a run hashes just the pictures that the cache does not name, and what it then
/// reports, shows or deletes are the groups of pictures between whose hashes no gap wider than the
/// threshold runs. The hashes are kept in the cache that it saves. The result gives the hashes, the
/// places of the pictures that are hashed, the groups and the places of their pictures.
pub proof fn law_similar_pictures_are_what_the_hashes_say(
    before: Run,
    listed: Event,
    loading: Run,
    asking: Step,
    read: Event,
    hashing: Run,
    handing: Step,
    hashed: Event,
    after: Run,
    step: Step,
) -> (r: (Seq<Option<u64>>, Seq<int>, Seq<Seq<FileEntry>>, Seq<Seq<int>>))
    requires
        goes_on(before, listed, loading, asking),
        listed is Files,
        listed->Files_0 is Ok,
        before.settings.options.similar,
        goes_on(loading, read, hashing, handing),
        read is Cache,
        handing.action is HashPictures ==> goes_on(hashing, hashed, after, step) && hashed is Hashes,
    ensures
        asking.action is ReadCache,
        splits(
            listed->Files_0->Ok_0@,
            alike(r.0, before.settings.options.threshold),
            r.2,
            r.3,
        ),
        handing.action is HashPictures ==> {
            &&& lines(handing.out@) == (if handing.action->HashPictures_0@.len()
                < listed->Files_0->Ok_0@.len() {
                seq![
                    note(
                        "  ⚡ "@ + decimal(
                            (listed->Files_0->Ok_0@.len()
                                - handing.action->HashPictures_0@.len()) as nat,
                        ) + " files loaded from cache\n"@,
                    ),
                ]
            } else {
                Seq::empty()
            }) + seq![
                note(
                    "  Hashing "@ + decimal(handing.action->HashPictures_0@.len())
                        + " new files in parallel...\n"@,
                ),
            ]
            &&& hashes_of(
                listed->Files_0->Ok_0@,
                read_cache(read->Cache_0),
                handing.action->HashPictures_0@,
                hashed->Hashes_0@,
                r.1,
                r.0,
            )
            &&& step.save_cache is Some
            &&& settles(
                before.settings,
                r.2,
                missing(hashed->Hashes_0@),
                seq![
                    note(
                        "  Cache saved ("@ + decimal(read_cache(step.save_cache).len())
                            + " total entries)\n"@,
                    ),
                ] + comparing(before.settings.options.threshold, r.2.len()),
                step,
            )
            &&& all_distinct(listed->Files_0->Ok_0@) ==> forall|i: int|
                0 <= i < r.0.len() ==> (#[trigger] r.0[i]) == if read_cache(
                    step.save_cache,
                ).contains_key(name_in_cache(listed->Files_0->Ok_0@[i])) {
                    Some(read_cache(step.save_cache)[name_in_cache(listed->Files_0->Ok_0@[i])])
                } else {
                    None
                }
        },
        !(handing.action is HashPictures) ==> {
            &&& hashes_of(
                listed->Files_0->Ok_0@,
                read_cache(read->Cache_0),
                Seq::empty(),
                Seq::empty(),
                Seq::empty(),
                r.0,
            )
            &&& settles(
                before.settings,
                r.2,
                0,
                (if listed->Files_0->Ok_0@.len() > 0 {
                    seq![
                        note(
                            "  ⚡ "@ + decimal(listed->Files_0->Ok_0@.len())
                                + " files loaded from cache\n"@,
                        ),
                    ]
                } else {
                    Seq::empty()
                }) + comparing(before.settings.options.threshold, r.2.len()),
                handing,
            )
        },
{
    lemma_similar_run(
        before,
        listed,
        loading,
        asking,
        read,
        hashing,
        handing,
        hashed,
        after,
        step,
    )
}

proof fn lemma_similar_run(
    before: Run,
    listed: Event,
    loading: Run,
    asking: Step,
    read: Event,
    hashing: Run,
    handing: Step,
    hashed: Event,
    after: Run,
    step: Step,
) -> (r: (Seq<Option<u64>>, Seq<int>, Seq<Seq<FileEntry>>, Seq<Seq<int>>))
    requires
        goes_on(before, listed, loading, asking),
        listed is Files,
        listed->Files_0 is Ok,
        before.settings.options.similar,
        goes_on(loading, read, hashing, handing),
        read is Cache,
        handing.action is HashPictures ==> goes_on(hashing, hashed, after, step) && hashed is Hashes,
    ensures
        asking.action is ReadCache,
        r.2 == presented(
            pick(
                listed->Files_0->Ok_0@,
                similar_groups(r.0, before.settings.options.threshold),
            ),
            keep_of(before.settings.options.keep@),
        ),
        handing.action is HashPictures ==> r.0 == filled(
            cached_hashes(listed->Files_0->Ok_0@, read_cache(read->Cache_0)),
            placed(
                unhashed(cached_hashes(listed->Files_0->Ok_0@, read_cache(read->Cache_0))),
                hashed->Hashes_0@,
            ),
        ),
        !(handing.action is HashPictures) ==> r.0 == cached_hashes(
            listed->Files_0->Ok_0@,
            read_cache(read->Cache_0),
        ),
        splits(
            listed->Files_0->Ok_0@,
            alike(r.0, before.settings.options.threshold),
            r.2,
            r.3,
        ),
        handing.action is HashPictures ==> {
            &&& lines(handing.out@) == (if handing.action->HashPictures_0@.len()
                < listed->Files_0->Ok_0@.len() {
                seq![
                    note(
                        "  ⚡ "@ + decimal(
                            (listed->Files_0->Ok_0@.len()
                                - handing.action->HashPictures_0@.len()) as nat,
                        ) + " files loaded from cache\n"@,
                    ),
                ]
            } else {
                Seq::empty()
            }) + seq![
                note(
                    "  Hashing "@ + decimal(handing.action->HashPictures_0@.len())
                        + " new files in parallel...\n"@,
                ),
            ]
            &&& hashes_of(
                listed->Files_0->Ok_0@,
                read_cache(read->Cache_0),
                handing.action->HashPictures_0@,
                hashed->Hashes_0@,
                r.1,
                r.0,
            )
            &&& step.save_cache is Some
            &&& settles(
                before.settings,
                r.2,
                missing(hashed->Hashes_0@),
                seq![
                    note(
                        "  Cache saved ("@ + decimal(read_cache(step.save_cache).len())
                            + " total entries)\n"@,
                    ),
                ] + comparing(before.settings.options.threshold, r.2.len()),
                step,
            )
            &&& all_distinct(listed->Files_0->Ok_0@) ==> forall|i: int|
                0 <= i < r.0.len() ==> (#[trigger] r.0[i]) == if read_cache(
                    step.save_cache,
                ).contains_key(name_in_cache(listed->Files_0->Ok_0@[i])) {
                    Some(read_cache(step.save_cache)[name_in_cache(listed->Files_0->Ok_0@[i])])
                } else {
                    None
                }
        },
        !(handing.action is HashPictures) ==> {
            &&& hashes_of(
                listed->Files_0->Ok_0@,
                read_cache(read->Cache_0),
                Seq::empty(),
                Seq::empty(),
                Seq::empty(),
                r.0,
            )
            &&& settles(
                before.settings,
                r.2,
                0,
                (if listed->Files_0->Ok_0@.len() > 0 {
                    seq![
                        note(
                            "  ⚡ "@ + decimal(listed->Files_0->Ok_0@.len())
                                + " files loaded from cache\n"@,
                        ),
                    ]
                } else {
                    Seq::empty()
                }) + comparing(before.settings.options.threshold, r.2.len()),
                handing,
            )
        },
{
    let files = listed->Files_0->Ok_0@;
    let entries = read_cache(read->Cache_0);
    let threshold = before.settings.options.threshold;
    let known = cached_hashes(files, entries);
    let places = unhashed(known);
    assert(loading.phase->LoadingCache_files.len() == files.len());
    lemma_unhashed_places(known);
    assert forall|i: int| 0 <= i < files.len() implies name_in_cache(#[trigger] files[i])
        == cache_key(files[i]@) by {}
    if handing.action is HashPictures {
        lemma_unhashed_len(known);
        assert(lines(handing.out@) =~= cached_lines((files.len() - places.len()) as nat) + seq![
            note("  Hashing "@ + decimal(places.len()) + " new files in parallel...\n"@),
        ]);
        let computed = hashed->Hashes_0@;
        let results = placed(places, computed);
        let hashes = filled(known, results);
        let at = places.map_values(|i: usize| i as int);
        assert(hashing.phase is Hashing);
        assert(known == cached_hashes(
            hashing.phase->Hashing_files@,
            hashing.phase->cache@,
        ));
        assert(computed.len() == places.len());
        assert forall|k: int| 0 <= k < results.len() implies (#[trigger] results[k]).0
            < known.len() by {
            assert(places[k] < known.len());
        }
        assert forall|k: int, l: int| 0 <= k < l < results.len() implies (#[trigger] results[k]).0
            != (#[trigger] results[l]).0 by {
            assert(places[k] < places[l]);
        }
        law_results_take_their_places(known, results);
        lemma_failures_are_missing(places, computed);
        assert forall|i: int| 0 <= i < files.len() implies if entries.contains_key(
            name_in_cache(#[trigger] files[i]),
        ) {
            hashes[i] == Some(entries[name_in_cache(files[i])])
        } else {
            at.contains(i)
        } by {
            assert(name_in_cache(files[i]) == cache_key(files[i]@));
            if entries.contains_key(name_in_cache(files[i])) {
                assert(known[i] is Some);
                assert forall|k: int| 0 <= k < results.len() implies (#[trigger] results[k]).0
                    != i by {
                    assert(known[places[k] as int] is None);
                }
                assert(hashes[i] == known[i]);
            } else {
                assert(known[i] is None);
                let k = choose|k: int| 0 <= k < places.len() && places[k] == i as usize;
                assert(at[k] == i);
            }
        }
        assert forall|m: int| 0 <= m < at.len() implies 0 <= #[trigger] at[m] < files.len()
            && !entries.contains_key(name_in_cache(files[at[m]]))
            && handing.action->HashPictures_0@[m] == files[at[m]] && hashes[at[m]]
            == computed[m] by {
            assert(known[places[m] as int] is None);
            assert(name_in_cache(files[at[m]]) == cache_key(files[at[m]]@));
            assert(results[m].0 == places[m]);
        }
        assert forall|m: int, l: int| 0 <= m < l < at.len() implies #[trigger] at[m]
            < #[trigger] at[l] by {
            assert(places[m] < places[l]);
        }
        assert(hashes_of(
            files,
            entries,
            handing.action->HashPictures_0@,
            computed,
            at,
            hashes,
        ));
        let saved = kept(entries, files, results).len();
        let groups = lemma_similar_settles(
            before.settings,
            files,
            hashes,
            failures(results),
            seq![note("  Cache saved ("@ + decimal(saved) + " total entries)\n"@)],
            after.phase,
            step,
        );
        let shown = choose|shown: Seq<Seq<int>>| #[trigger]
            splits(files, alike(hashes, threshold), groups, shown);
        if all_distinct(files) {
            assert forall|k: int| 0 <= k < results.len() implies (#[trigger] results[k]).0
                == unhashed(known)[k] by {}
            law_second_run_finds_the_same_hashes(files, entries, results);
            let now = read_cache(step.save_cache);
            assert forall|i: int| 0 <= i < hashes.len() implies (#[trigger] hashes[i])
                == if now.contains_key(name_in_cache(files[i])) {
                Some(now[name_in_cache(files[i])])
            } else {
                None
            } by {
                assert(cached_hashes(files, kept(entries, files, results))[i] == hashes[i]);
                assert(name_in_cache(files[i]) == cache_key(files[i]@));
            }
        }
        (hashes, at, groups, shown)
    } else {
        assert(places.len() == 0);
        assert forall|i: int| 0 <= i < files.len() implies if entries.contains_key(
            name_in_cache(#[trigger] files[i]),
        ) {
            known[i] == Some(entries[name_in_cache(files[i])])
        } else {
            Seq::<int>::empty().contains(i)
        } by {
            assert(name_in_cache(files[i]) == cache_key(files[i]@));
            if known[i] is None {
                assert(places.contains(i as usize));
            }
        }
        assert(hashes_of(files, entries, Seq::empty(), Seq::empty(), Seq::empty(), known));
        let said = cached_lines((files.len() - places.len()) as nat);
        let groups = lemma_similar_settles(
            before.settings,
            files,
            known,
            0,
            said,
            hashing.phase,
            handing,
        );
        let shown = choose|shown: Seq<Seq<int>>| #[trigger]
            splits(files, alike(known, threshold), groups, shown);
        (known, Seq::empty(), groups, shown)
    }
}

proof fn lemma_unhashed_len(hashes: Seq<Option<u64>>)
    ensures
        unhashed(hashes).len() <= hashes.len(),
    decreases hashes.len(),
{
    if hashes.len() > 0 {
        lemma_unhashed_len(hashes.drop_last());
    }
}

proof fn lemma_failures_are_missing(places: Seq<usize>, computed: Seq<Option<u64>>)
    requires
        places.len() == computed.len(),
    ensures
        failures(placed(places, computed)) == missing(computed),
    decreases computed.len(),
{
    reveal(Seq::filter);
    let results = placed(places, computed);
    if computed.len() > 0 {
        lemma_failures_are_missing(places.drop_last(), computed.drop_last());
        assert(results.drop_last() =~= placed(places.drop_last(), computed.drop_last()));
    }
}

proof fn lemma_settings_at(
    settings: Settings,
    events: Seq<Event>,
    runs: Seq<Run>,
    steps: Seq<Step>,
    n: int,
)
    requires
        history(settings, events, runs, steps),
        0 <= n <= events.len(),
    ensures
        runs[n].settings == settings,
    decreases n,
{
    if n > 0 {
        lemma_settings_at(settings, events, runs, steps, n - 1);
        assert(goes_on(runs[n - 1], events[n - 1], runs[n], steps[n - 1]));
    }
}

/// Whether the files that a scan lists are where the run looks for them: on the NAS, or on this
/// machine.
pub open spec fn in_place(files: Seq<FileEntry>, settings: Settings) -> bool {
    forall|i: int|
        0 <= i < files.len() ==> (#[trigger] files[i]).source is Nas == settings.nas_user is Some
}

proof fn lemma_reported_files_are_removed(
    settings: Settings,
    events: Seq<Event>,
    runs: Seq<Run>,
    steps: Seq<Step>,
    k: int,
    items: Seq<FileEntry>,
    same: spec_fn(int, int) -> bool,
    found: Seq<Seq<FileEntry>>,
    places: Seq<Seq<int>>,
    errors: nat,
    said: Seq<LineView>,
)
    requires
        history(settings, events, runs, steps),
        runs[events.len() as int].phase is Finished,
        0 <= k < events.len(),
        !(runs[k].phase is Removing),
        !(runs[k].phase is Finished),
        settings.options.delete,
        in_place(items, settings),
        splits(items, same, found, places),
        reports(settings, found, errors, said, runs[k + 1].phase, steps[k]),
    ensures
        steps[k].action is GiveUp ==> removals(steps).len() == 0,
        !(steps[k].action is GiveUp) ==> removals(steps) == superfluous(
            presented(found, keep_of(settings.options.keep@)),
        ).map_values(|f: FileEntry| as_target(f)),
{
    let end = events.len() as int;
    let keep = keep_of(settings.options.keep@);
    let groups = presented(found, keep);
    let nas = on_nas(settings);
    assert(steps.take(end) =~= steps);
    lemma_nothing_removed_before(settings, events, runs, steps, k);
    lemma_reports_settle(
        settings,
        items,
        same,
        found,
        places,
        errors,
        said,
        runs[k + 1].phase,
        steps[k],
    );
    let shown = choose|shown: Seq<Seq<int>>| #[trigger] splits(items, same, groups, shown);
    assert forall|g: int| 0 <= g < groups.len() implies all_there(#[trigger] groups[g], nas)
        && groups[g].len() > 0 by {
        assert forall|i: int| 0 <= i < groups[g].len() implies (
        #[trigger] groups[g][i]).source is Nas == nas by {
            assert(0 <= shown[g][i] < items.len() && groups[g][i] == items[shown[g][i]]);
        }
    }
    if found.len() == 0 || steps[k].action is GiveUp {
        lemma_removals_step(steps, k);
        if k + 1 < end {
            assert(goes_on(runs[k + 1], events[k + 1], runs[k + 2], steps[k + 1]));
        }
        assert(removals(steps) =~= Seq::empty());
        if found.len() == 0 {
            assert(groups.map_values(|g: Seq<FileEntry>| g.skip(1)) =~= Seq::empty());
            assert(superfluous(groups).map_values(|f: FileEntry| as_target(f)) =~= Seq::empty());
        }
    } else {
        let told = said + error_lines(errors);
        let reported = told.push(
            note(
                report_text(
                    groups,
                    total_removals(groups) as usize,
                    total_bytes(groups) as u64,
                    true,
                ),
            ),
        );
        let said_last = reported.push(
            note(
                if nas {
                    "\nDeleting from NAS...\n"@
                } else {
                    "\nDeleting...\n"@
                },
            ),
        );
        lemma_removal_runs_through(
            settings,
            events,
            runs,
            steps,
            k,
            end,
            flag_batches(groups, nas),
            true,
            said_last,
        );
        lemma_targets_are_superfluous(groups, nas);
    }
}

/// A run with `--delete` over its whole course removes just the files that its report lists behind
/// the first of each group, each once: of every group of files with the same digest it leaves one,
/// and no other file of the group beats that one by what is to be kept. The result gives the groups
/// and the places of their files.
pub proof fn law_deleting_leaves_the_best_of_each_duplicate(
    settings: Settings,
    events: Seq<Event>,
    runs: Seq<Run>,
    steps: Seq<Step>,
    k: int,
) -> (r: (Seq<Seq<FileEntry>>, Seq<Seq<int>>))
    requires
        history(settings, events, runs, steps),
        runs[events.len() as int].phase is Finished,
        settings.options.delete,
        0 <= k < events.len() - 1,
        events[k] is Files,
        steps[k].action is DigestFiles,
        in_place(steps[k].action->DigestFiles_0@, settings),
        events[k + 1] is Digests,
    ensures
        splits(
            steps[k].action->DigestFiles_0@,
            same_digest(events[k + 1]->Digests_0@),
            r.0,
            r.1,
        ),
        settles(settings, r.0, missing(events[k + 1]->Digests_0@), Seq::empty(), steps[k + 1]),
        steps[k + 1].action is GiveUp ==> removals(steps).len() == 0,
        !(steps[k + 1].action is GiveUp) ==> removals(steps) == superfluous(r.0).map_values(
            |f: FileEntry| as_target(f),
        ),
{
    let flat = steps[k].action->DigestFiles_0@;
    let digests = events[k + 1]->Digests_0@;
    let same = same_digest(digests);
    let places = repeated_groups(digest_keys(digests));
    let found = pick(flat, places);
    lemma_settings_at(settings, events, runs, steps, k);
    lemma_settings_at(settings, events, runs, steps, k + 1);
    assert(goes_on(runs[k], events[k], runs[k + 1], steps[k]));
    assert(goes_on(runs[k + 1], events[k + 1], runs[k + 2], steps[k + 1]));
    assert(flat == concat(contents(runs[k + 1].phase->candidates@)));
    lemma_digest_groups_split(flat, digests);
    lemma_unread_is_missing(digests);
    lemma_reports_settle(
        settings,
        flat,
        same,
        found,
        places,
        unread(digests),
        Seq::empty(),
        runs[k + 2].phase,
        steps[k + 1],
    );
    lemma_reported_files_are_removed(
        settings,
        events,
        runs,
        steps,
        k + 1,
        flat,
        same,
        found,
        places,
        unread(digests),
        Seq::empty(),
    );
    let groups = presented(found, keep_of(settings.options.keep@));
    let shown = choose|shown: Seq<Seq<int>>| #[trigger] splits(flat, same, groups, shown);
    (groups, shown)
}

/// A run with `--similar` and `--delete` over its whole course removes just the files that its report
/// lists behind the first of each group, each once: of every group of similar pictures it leaves one,
/// and no other picture of the group beats that one by what is to be kept. The result gives the
/// hashes, the places of the pictures that are hashed, the groups and the places of their pictures.
pub proof fn law_deleting_leaves_the_best_of_each_similar_picture(
    settings: Settings,
    events: Seq<Event>,
    runs: Seq<Run>,
    steps: Seq<Step>,
    k: int,
) -> (r: (Seq<Option<u64>>, Seq<int>, Seq<Seq<FileEntry>>, Seq<Seq<int>>))
    requires
        history(settings, events, runs, steps),
        runs[events.len() as int].phase is Finished,
        settings.options.delete,
        settings.options.similar,
        0 <= k < events.len() - 1,
        events[k] is Files,
        events[k]->Files_0 is Ok,
        in_place(events[k]->Files_0->Ok_0@, settings),
        events[k + 1] is Cache,
        steps[k + 1].action is HashPictures ==> k < events.len() - 2 && events[k + 2] is Hashes,
    ensures
        splits(
            events[k]->Files_0->Ok_0@,
            alike(r.0, settings.options.threshold),
            r.2,
            r.3,
        ),
        steps[k + 1].action is HashPictures ==> {
            &&& hashes_of(
                events[k]->Files_0->Ok_0@,
                read_cache(events[k + 1]->Cache_0),
                steps[k + 1].action->HashPictures_0@,
                events[k + 2]->Hashes_0@,
                r.1,
                r.0,
            )
            &&& exists|said: Seq<LineView>| #[trigger]
                settles(settings, r.2, missing(events[k + 2]->Hashes_0@), said, steps[k + 2])
            &&& steps[k + 2].action is GiveUp ==> removals(steps).len() == 0
            &&& !(steps[k + 2].action is GiveUp) ==> removals(steps) == superfluous(
                r.2,
            ).map_values(|f: FileEntry| as_target(f))
        },
        !(steps[k + 1].action is HashPictures) ==> {
            &&& hashes_of(
                events[k]->Files_0->Ok_0@,
                read_cache(events[k + 1]->Cache_0),
                Seq::empty(),
                Seq::empty(),
                Seq::empty(),
                r.0,
            )
            &&& exists|said: Seq<LineView>| #[trigger]
                settles(settings, r.2, 0, said, steps[k + 1])
            &&& steps[k + 1].action is GiveUp ==> removals(steps).len() == 0
            &&& !(steps[k + 1].action is GiveUp) ==> removals(steps) == superfluous(
                r.2,
            ).map_values(|f: FileEntry| as_target(f))
        },
{
    let files = events[k]->Files_0->Ok_0@;
    let threshold = settings.options.threshold;
    lemma_settings_at(settings, events, runs, steps, k);
    lemma_settings_at(settings, events, runs, steps, k + 1);
    assert(goes_on(runs[k], events[k], runs[k + 1], steps[k]));
    assert(goes_on(runs[k + 1], events[k + 1], runs[k + 2], steps[k + 1]));
    let entries = read_cache(events[k + 1]->Cache_0);
    let known = cached_hashes(files, entries);
    if steps[k + 1].action is HashPictures {
        lemma_settings_at(settings, events, runs, steps, k + 2);
        assert(goes_on(runs[k + 2], events[k + 2], runs[k + 3], steps[k + 2]));
        let r = lemma_similar_run(
            runs[k],
            events[k],
            runs[k + 1],
            steps[k],
            events[k + 1],
            runs[k + 2],
            steps[k + 1],
            events[k + 2],
            runs[k + 3],
            steps[k + 2],
        );
        let results = placed(unhashed(known), events[k + 2]->Hashes_0@);
        let hashes = filled(known, results);
        let places = similar_groups(hashes, threshold);
        let found = pick(files, places);
        let said = seq![
            note(
                "  Cache saved ("@ + decimal(kept(entries, files, results).len())
                    + " total entries)\n"@,
            ),
        ].push(
            note("Comparing all pairs (threshold = "@ + decimal(threshold as nat) + " bits)...\n"@),
        ).push(note("Found "@ + decimal(found.len()) + " groups of similar images\n"@));
        assert(hashes == r.0);
        law_similar_groups_split_the_pictures(files, hashes, threshold);
        lemma_reported_files_are_removed(
            settings,
            events,
            runs,
            steps,
            k + 2,
            files,
            alike(hashes, threshold),
            found,
            places,
            failures(results),
            said,
        );
        r
    } else {
        let r = lemma_similar_run(
            runs[k],
            events[k],
            runs[k + 1],
            steps[k],
            events[k + 1],
            runs[k + 2],
            steps[k + 1],
            events[k + 1],
            runs[k + 2],
            steps[k + 1],
        );
        let places = similar_groups(known, threshold);
        let found = pick(files, places);
        let said = cached_lines((files.len() - unhashed(known).len()) as nat).push(
            note("Comparing all pairs (threshold = "@ + decimal(threshold as nat) + " bits)...\n"@),
        ).push(note("Found "@ + decimal(found.len()) + " groups of similar images\n"@));
        law_similar_groups_split_the_pictures(files, known, threshold);
        lemma_reported_files_are_removed(
            settings,
            events,
            runs,
            steps,
            k + 1,
            files,
            alike(known, threshold),
            found,
            places,
            0,
            said,
        );
        r
    }
}

/// A run ends with exit code 1 just where there is no review to take up, no folder to scan or no list
/// of its files to be had, and with exit code 0 wherever else it ends.
pub proof fn law_exit_code_tells_of_failure(before: Run, event: Event, after: Run, step: Step)
    requires
        goes_on(before, event, after, step),
        step.action is Exit,
    ensures
        step.action == Action::Exit(0) || step.action == Action::Exit(1),
        step.action == Action::Exit(1) <==> {
            ||| event == Event::Session(None)
            ||| event == Event::RootFound(false)
            ||| event is Files && event->Files_0 is Err
        },
        after.phase is Finished,
{
}

/// What a run asks for at each turn before it has files: the last review if that is to be taken up;
/// else, on this machine, whether there is a folder, and then its files; on a NAS its shares if those
/// are asked for, and else the files.
pub proof fn law_files_are_listed_when_they_are_needed(
    before: Run,
    event: Event,
    after: Run,
    step: Step,
)
    requires
        goes_on(before, event, after, step),
    ensures
        event is Started && before.settings.options.resume ==> step.action is FindSession,
        event is Started && !before.settings.options.resume && before.settings.nas_user is None
            ==> step.action is CheckRoot,
        event is Started && !before.settings.options.resume && before.settings.nas_user is Some
            && before.settings.options.list_shares ==> step.action is ListShares,
        event is Started && !before.settings.options.resume && before.settings.nas_user is Some
            && !before.settings.options.list_shares ==> step.action is ListFiles,
        event == Event::RootFound(true) ==> step.action is ListFiles,
        step.action is ListFiles ==> event is Started || event == Event::RootFound(true),
        step.action is ListFiles ==> lines(step.out@) == seq![
            note("Scanning : "@ + before.settings.options.path@ + if before.settings.nas_user is Some {
                " (NAS)\n"@
            } else {
                " (local)\n"@
            }),
            note(if before.settings.options.delete {
                "Mode     : DELETE\n"@
            } else {
                "Mode     : dry-run\n"@
            }),
            note("Keep     : "@ + before.settings.options.keep@ + "\n"@),
            note("\n"@),
        ],
        event is Shares ==> step.action == Action::Exit(0),
        event is Shares && event->Shares_0 is Ok && event->Shares_0->Ok_0@.len() > 0 ==> lines(
            step.out@,
        ) == event->Shares_0->Ok_0@.map_values(|s: String| note("  "@ + s@ + "\n"@)),
        event is Files && event->Files_0 is Ok ==> lines(step.out@)[0] == note(
            "Scanned "@ + decimal(event->Files_0->Ok_0@.len()) + " files\n"@,
        ),
{
    if event is Shares && event->Shares_0 is Ok && event->Shares_0->Ok_0@.len() > 0 {
        assert(lines(step.out@) =~= event->Shares_0->Ok_0@.map_values(
            |s: String| note("  "@ + s@ + "\n"@),
        ));
    }
}

/// The page that is reviewed is the one of the last review, if that is taken up, and else the page on
/// the very groups that were handed out to be looked up.
pub proof fn law_review_shows_the_groups(
    before: Run,
    event: Event,
    between: Run,
    asking: Step,
    looked: Event,
    after: Run,
    step: Step,
)
    requires
        goes_on(before, event, between, asking),
    ensures
        event is Session && event->Session_0 is Some ==> asking.action is Review
            && asking.action->Review_0@ == event->Session_0->0@,
        asking.action is LookUp && goes_on(between, looked, after, step) ==> looked is Looked
            && step.action is Review && step.action->Review_0@ == page_text(
            contents(asking.action->LookUp_0@),
            contents(looked->Looked_0@),
        ),
        asking.action is Review ==> event is Looked || event is Session,
{
}

/// Whether a file is among those that could not be removed.
pub open spec fn is_left(failures: Seq<Failure>) -> spec_fn(TargetView) -> bool {
    |t: TargetView| exists|i: int| 0 <= i < failures.len() && (#[trigger] failures[i]).name@ == t.name
}

/// Whether a file is not among those that could not be removed.
pub open spec fn is_gone(failures: Seq<Failure>) -> spec_fn(TargetView) -> bool {
    |t: TargetView| !is_left(failures)(t)
}

proof fn lemma_removed_is_gone(batch: Seq<TargetView>, failures: Seq<Failure>)
    ensures
        removed_count(batch, failures) == batch.filter(is_gone(failures)).len(),
        removed_lines(batch, failures) == batch.filter(is_gone(failures)).map_values(
            |t: TargetView| note("  Deleted: "@ + t.name + "\n"@),
        ),
    decreases batch.len(),
{
    reveal(Seq::filter);
    let said = |t: TargetView| note("  Deleted: "@ + t.name + "\n"@);
    if batch.len() > 0 {
        let rest = batch.drop_last();
        lemma_removed_is_gone(rest, failures);
        let t = batch.last();
        assert(failed(failures, t.name) == is_left(failures)(t));
        if is_gone(failures)(t) {
            assert(batch.filter(is_gone(failures)) == rest.filter(is_gone(failures)).push(t));
            assert(rest.filter(is_gone(failures)).push(t).map_values(said) =~= rest.filter(
                is_gone(failures),
            ).map_values(said).push(said(t)));
        }
    } else {
        assert(removed_lines(batch, failures) =~= batch.filter(is_gone(failures)).map_values(said));
    }
}

/// What came of a batch is told file by file: each file of it that was removed, in order, and then
/// each file that could not be removed, with the reason.
pub proof fn law_removals_are_told(
    before: Run,
    event: Event,
    between: Run,
    asking: Step,
    told: Event,
    after: Run,
    step: Step,
)
    requires
        goes_on(before, event, between, asking),
        asking.action is Remove,
        goes_on(between, told, after, step),
    ensures
        told is Removed,
        ({
            let said = handed_over(asking).filter(is_gone(told->Removed_0@)).map_values(
                |t: TargetView| note("  Deleted: "@ + t.name + "\n"@),
            ) + told->Removed_0@.map_values(
                |f: Failure|
                    warning("  Error: "@ + f.name@ + " — "@ + f.error@ + "\n"@),
            );
            &&& step.action is Remove ==> lines(step.out@) == said
            &&& !(step.action is Remove) ==> said.is_prefix_of(lines(step.out@)) && step.action
                == Action::Exit(0)
        }),
{
    let failures = told->Removed_0@;
    let batch = handed_over(asking);
    lemma_handed_over(asking);
    let list = batches(between.phase->list@);
    assert(batch == list[between.phase->at as int]);
    lemma_removed_is_gone(batch, failures);
    let said = removed_lines(batch, failures) + failure_lines(failures);
    assert(failure_lines(failures) =~= failures.map_values(
        |f: Failure| warning("  Error: "@ + f.name@ + " — "@ + f.error@ + "\n"@),
    ));
    if !(step.action is Remove) {
        assert(said =~= lines(step.out@).take(said.len() as int));
    }
}

/// How many files were removed by the first `n` events.
pub open spec fn gone_by(events: Seq<Event>, steps: Seq<Step>, n: int) -> nat
    decreases n,
{
    if n < 2 {
        0
    } else {
        gone_by(events, steps, n - 1) + if events[n - 1] is Removed {
            handed_over(steps[n - 2]).filter(is_gone(events[n - 1]->Removed_0@)).len()
        } else {
            0
        }
    }
}

proof fn lemma_counts_are_kept(
    settings: Settings,
    events: Seq<Event>,
    runs: Seq<Run>,
    steps: Seq<Step>,
    n: int,
)
    requires
        history(settings, events, runs, steps),
        0 <= n <= events.len(),
        !(runs[n].phase is Finished),
    ensures
        !(runs[n].phase is Removing) ==> gone_by(events, steps, n) == 0,
        runs[n].phase is Removing ==> n > 0 && runs[n].phase->removed == gone_by(events, steps, n)
            && handed_over(steps[n - 1]) == batches(runs[n].phase->list@)[runs[n].phase->at as int],
    decreases n,
{
    if n > 0 {
        assert(goes_on(runs[n - 1], events[n - 1], runs[n], steps[n - 1]));
        lemma_counts_are_kept(settings, events, runs, steps, n - 1);
        if steps[n - 1].action is Remove {
            lemma_handed_over(steps[n - 1]);
        }
        if events[n - 1] is Removed {
            let phase = runs[n - 1].phase;
            lemma_removed_is_gone(
                batches(phase->list@)[phase->at as int],
                events[n - 1]->Removed_0@,
            );
            assert(runs[0].phase is Fresh);
            assert(n >= 2);
        }
    }
}

proof fn lemma_handed_over_len(
    settings: Settings,
    events: Seq<Event>,
    runs: Seq<Run>,
    steps: Seq<Step>,
    n: int,
)
    requires
        history(settings, events, runs, steps),
        0 <= n <= events.len(),
        runs[n].phase is Removing,
    ensures
        removals(steps.take(n)).len() == batched(
            batches(runs[n].phase->list@).take(runs[n].phase->at + 1),
        ),
    decreases n,
{
    assert(n > 0);
    assert(goes_on(runs[n - 1], events[n - 1], runs[n], steps[n - 1]));
    lemma_removals_step(steps, n - 1);
    lemma_handed_over(steps[n - 1]);
    let list = batches(runs[n].phase->list@);
    let at = runs[n].phase->at as int;
    assert(list.take(at + 1).drop_last() =~= list.take(at));
    if runs[n - 1].phase is Removing {
        lemma_handed_over_len(settings, events, runs, steps, n - 1);
    } else {
        lemma_nothing_removed_before(settings, events, runs, steps, n - 1);
        assert(at == 0);
        assert(list.take(0) =~= Seq::empty());
        assert(batched(list.take(0)) == 0);
    }
}

/// What a run says last of its removals: how many files are gone, counted over all batches, and how
/// many of those handed over are not.
pub proof fn law_last_words_give_the_counts(
    settings: Settings,
    events: Seq<Event>,
    runs: Seq<Run>,
    steps: Seq<Step>,
)
    requires
        history(settings, events, runs, steps),
        runs[events.len() as int].phase is Finished,
        events.len() > 0,
        events.last() is Removed,
    ensures
        gone_by(events, steps, events.len() as int) <= removals(steps).len(),
        lines(steps.last().out@).last() == note(
            "Done. Deleted "@ + decimal(gone_by(events, steps, events.len() as int)) + " files ("@
                + decimal(
                (removals(steps).len() - gone_by(events, steps, events.len() as int)) as nat,
            ) + " errors).\n"@,
        ),
{
    let n = events.len() as int;
    assert(goes_on(runs[n - 1], events[n - 1], runs[n], steps[n - 1]));
    lemma_counts_are_kept(settings, events, runs, steps, n - 1);
    let phase = runs[n - 1].phase;
    let list = batches(phase->list@);
    let at = phase->at as int;
    let batch = list[at];
    let failures = events[n - 1]->Removed_0@;
    lemma_removed_is_gone(batch, failures);
    lemma_removed_count(batch, failures);
    lemma_handed_over_len(settings, events, runs, steps, n - 1);
    lemma_removals_step(steps, n - 1);
    assert(steps.take(n) =~= steps);
    assert(!(steps[n - 1].action is Remove));
    assert(removals(steps).len() == removals(steps.take(n - 1)).len());
    assert(list.take(at + 1).drop_last() =~= list.take(at));
    lemma_batched_monotone(list, at + 1);
    assert(runs[0].phase is Fresh);
    assert(n >= 2);
    let out = lines(steps[n - 1].out@);
    assert(out.last() == note(
        done_text(
            (phase->removed + removed_count(batch, failures)) as usize,
            (phase->errors + batch.len() - removed_count(batch, failures)) as usize,
        ),
    ));
}

/// A run whose command line does not hold the argument `--delete` hands no file over to be removed
/// unless files were selected in a review.
pub proof fn law_nothing_is_removed_without_the_argument(
    args: Seq<Seq<char>>,
    settings: Settings,
    events: Seq<Event>,
    runs: Seq<Run>,
    steps: Seq<Step>,
)
    requires
        commands(args, Command::Run(settings.options)),
        forall|i: int| 0 <= i < args.len() ==> #[trigger] args[i] != "--delete"@,
        history(settings, events, runs, steps),
        forall|k: int|
            0 <= k < events.len() ==> !(#[trigger] events[k] matches Event::Selected(Some(paths))
                && paths@.len() > 0),
    ensures
        removals(steps).len() == 0,
{
    law_switches_are_the_arguments(args, settings.options);
    lemma_no_removals(settings, events, runs, steps, events.len() as int);
    assert(steps.take(events.len() as int) =~= steps);
}

proof fn lemma_no_removals(
    settings: Settings,
    events: Seq<Event>,
    runs: Seq<Run>,
    steps: Seq<Step>,
    n: int,
)
    requires
        history(settings, events, runs, steps),
        0 <= n <= events.len(),
        !settings.options.delete,
        forall|k: int|
            0 <= k < events.len() ==> !(#[trigger] events[k] matches Event::Selected(Some(paths))
                && paths@.len() > 0),
    ensures
        removals(steps.take(n)).len() == 0,
    decreases n,
{
    if n > 0 {
        lemma_no_removals(settings, events, runs, steps, n - 1);
        lemma_removals_step(steps, n - 1);
        if steps[n - 1].action is Remove {
            law_nothing_is_removed_unasked(settings, events, runs, steps, n - 1);
            let j = choose|j: int| 0 <= j < n && #[trigger] selects(events[j]);
            assert(!(events[j] matches Event::Selected(Some(paths)) && paths@.len() > 0));
        }
    } else {
        assert(steps.take(0).map_values(|s: Step| handed_over(s)) =~= Seq::empty());
    }
}

/// What is said when a run cannot go on, and when there is nothing to go on with.
pub proof fn law_dead_ends_are_told(before: Run, event: Event, after: Run, step: Step)
    requires
        goes_on(before, event, after, step),
    ensures
        event == Event::Session(None) ==> lines(step.out@) == seq![
            warning("No saved session found. Run with --preview first.\n"@),
        ],
        event == Event::RootFound(false) ==> lines(step.out@) == seq![
            warning("Path does not exist: "@ + before.settings.options.path@ + "\n"@),
        ],
        event is Files && event->Files_0 is Err ==> lines(step.out@) == seq![
            warning("Failed to list files: "@ + event->Files_0->Err_0@ + "\n"@),
        ],
        event is Shares && event->Shares_0 is Err ==> lines(step.out@) == seq![
            warning("Failed to list shares: "@ + event->Shares_0->Err_0@ + "\n"@),
        ],
        event is Shares && event->Shares_0 is Ok && event->Shares_0->Ok_0@.len() == 0 ==> lines(
            step.out@,
        ) == seq![note("  (No shared folders found)\n"@)],
        event == Event::Selected(None) ==> step.action == Action::Exit(0) && step.out@.len() == 0,
        event is Selected && event->Selected_0 is Some && event->Selected_0->0@.len() == 0
            && !before.settings.options.resume ==> step.action == Action::Exit(0) && lines(step.out@)
            == seq![note("No files selected for deletion.\n"@)],
        event is Selected && event->Selected_0 is Some && event->Selected_0->0@.len() == 0
            && before.settings.options.resume ==> step.action == Action::Exit(0) && step.out@.len()
            == 0,
        event is Selected && event->Selected_0 is Some && event->Selected_0->0@.len() > 0 ==> lines(
            step.out@,
        ) == seq![
            note(
                "\nDeleting "@ + decimal(event->Selected_0->0@.len())
                    + if before.settings.nas_user is Some {
                    " files from NAS via UI request...\n"@
                } else if before.settings.options.resume {
                    " files...\n"@
                } else {
                    " files from UI request...\n"@
                },
            ),
        ],
        event is Session && event->Session_0 is Some ==> lines(step.out@) == seq![
            note(if before.settings.nas_user is Some {
                "Resuming previous NAS session...\n"@
            } else {
                "Resuming previous session...\n"@
            }),
        ],
{
    assert(lines(step.out@).len() == step.out@.len());
    if event is Selected && event->Selected_0 is Some && event->Selected_0->0@.len() > 0 {
        let paths = event->Selected_0->0@;
        let list = page_batches(paths, on_nas(before.settings));
        law_selected_files_are_the_targets(paths, on_nas(before.settings));
        assert(list.len() > 0);
    }
}

/// The cache is saved just when pictures have been hashed.
pub proof fn law_cache_is_saved_after_hashing(before: Run, event: Event, after: Run, step: Step)
    requires
        goes_on(before, event, after, step),
    ensures
        step.save_cache is Some <==> event is Hashes,
{
}

} // verus!
