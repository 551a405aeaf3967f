//! What holds of every run.

use vstd::prelude::*;
use crate::flow::{
    advances, cached_lines, chosen, compares, fits, placed, Event, Run, Settings, Step,
};
use crate::output::{lines, note};
use crate::remove::{
    batched, batches, done_text, lemma_batched_monotone, lemma_removed_count, removed_count,
};
use crate::similar::{
    all_distinct, cached_hashes, failures, filled, kept, law_empty_cache_knows_no_hash,
    law_second_run_finds_every_hash, law_second_run_finds_the_same_hashes, lemma_all_hashed,
    lemma_unhashed_places, unhashed,
};
use crate::text::decimal;

verus! {

/// Whether a run goes on this way after an event.
pub open spec fn goes_on(before: Run, event: Event, after: Run, step: Step) -> bool {
    &&& before.wf()
    &&& fits(before.phase, event)
    &&& advances(before, event, after, step)
    &&& after.wf()
}

/// Whether this is a run from its start, with the events that it was told of, how far it was
/// before each and after the last, and the steps that it took.
pub open spec fn history(
    settings: Settings,
    events: Seq<Event>,
    runs: Seq<Run>,
    steps: Seq<Step>,
) -> bool {
    &&& runs.len() == events.len() + 1
    &&& steps.len() == events.len()
    &&& runs[0].settings == settings
    &&& runs[0].phase is Fresh
    &&& forall|i: int|
        0 <= i < events.len() ==> goes_on(runs[i], #[trigger] events[i], runs[i + 1], steps[i])
}

/// Whether an event is the end of a review in which files were selected.
pub open spec fn selects(event: Event) -> bool {
    event matches Event::Selected(Some(paths)) && paths@.len() > 0
}

/// Whether files were selected in a review, by the first events.
pub open spec fn selected_by(events: Seq<Event>, n: int) -> bool {
    exists|j: int| 0 <= j < n && #[trigger] selects(events[j])
}

proof fn lemma_settings_stay(
    settings: Settings,
    events: Seq<Event>,
    runs: Seq<Run>,
    steps: Seq<Step>,
    n: int,
)
    requires
        history(settings, events, runs, steps),
        0 <= n <= events.len(),
    ensures
        runs[n].settings == settings,
    decreases n,
{
    if n > 0 {
        lemma_settings_stay(settings, events, runs, steps, n - 1);
        assert(goes_on(runs[n - 1], events[n - 1], runs[n], steps[n - 1]));
    }
}

proof fn lemma_removing_was_asked_for(
    settings: Settings,
    events: Seq<Event>,
    runs: Seq<Run>,
    steps: Seq<Step>,
    n: int,
)
    requires
        history(settings, events, runs, steps),
        0 <= n <= events.len(),
        runs[n].phase is Removing,
    ensures
        settings.options.delete || selected_by(events, n),
    decreases n,
{
    if n > 0 {
        let before = runs[n - 1];
        let event = events[n - 1];
        lemma_settings_stay(settings, events, runs, steps, n - 1);
        assert(goes_on(before, event, runs[n], steps[n - 1]));
        if event is Removed {
            lemma_removing_was_asked_for(settings, events, runs, steps, n - 1);
            if selected_by(events, n - 1) {
                let j = choose|j: int| 0 <= j < n - 1 && #[trigger] selects(events[j]);
                assert(selects(events[j]));
            }
        } else if event is Selected {
            assert(selects(events[n - 1]));
        }
    }
}

/// Nothing is ever removed unless the options ask for it or files were selected in a review.
pub proof fn law_nothing_is_removed_unasked(
    settings: Settings,
    events: Seq<Event>,
    runs: Seq<Run>,
    steps: Seq<Step>,
    k: int,
)
    requires
        history(settings, events, runs, steps),
        0 <= k < events.len(),
        steps[k].action is Remove,
    ensures
        settings.options.delete || selected_by(events, k + 1),
{
    assert(goes_on(runs[k], events[k], runs[k + 1], steps[k]));
    lemma_removing_was_asked_for(settings, events, runs, steps, k + 1);
}

/// A dry run removes nothing and shows no page: nothing but scanning, reading and reporting.
pub proof fn law_dry_run_only_reports(
    settings: Settings,
    events: Seq<Event>,
    runs: Seq<Run>,
    steps: Seq<Step>,
    k: int,
)
    requires
        history(settings, events, runs, steps),
        0 <= k < events.len(),
        !settings.options.delete,
        !settings.options.preview,
        !settings.options.resume,
    ensures
        !(steps[k].action is Remove),
        !(steps[k].action is Review),
{
    lemma_settings_stay(settings, events, runs, steps, k);
    assert(goes_on(runs[k], events[k], runs[k + 1], steps[k]));
    if steps[k].action is Remove {
        law_nothing_is_removed_unasked(settings, events, runs, steps, k);
        let j = choose|j: int| 0 <= j < k + 1 && #[trigger] selects(events[j]);
        lemma_settings_stay(settings, events, runs, steps, j);
        assert(goes_on(runs[j], events[j], runs[j + 1], steps[j]));
    }
}

/// A run that is to delete duplicates does so in the terminal: it shows no page, unless it takes up
/// the last review.
pub proof fn law_deleting_bypasses_the_page(
    settings: Settings,
    events: Seq<Event>,
    runs: Seq<Run>,
    steps: Seq<Step>,
    k: int,
)
    requires
        history(settings, events, runs, steps),
        0 <= k < events.len(),
        settings.options.delete,
        !settings.options.resume,
    ensures
        !(steps[k].action is Review),
{
    lemma_settings_stay(settings, events, runs, steps, k);
    assert(goes_on(runs[k], events[k], runs[k + 1], steps[k]));
}

/// When the last batch has been dealt with, every file of every batch has been counted, as removed
/// or as an error, and the counts are what is said last.
pub proof fn law_every_removal_is_counted(before: Run, event: Event, after: Run, step: Step)
    requires
        goes_on(before, event, after, step),
        event is Removed,
        after.phase is Finished,
    ensures
        exists|removed: usize, errors: usize|
            removed + errors == batched(batches(before.phase->list@)) && lines(step.out@).last()
                == note(#[trigger] done_text(removed, errors)),
{
    let list = batches(before.phase->list@);
    let at = before.phase->at as int;
    let failed = event->Removed_0@;
    let gone = removed_count(list[at], failed);
    lemma_removed_count(list[at], failed);
    let removed = before.phase->removed + gone;
    let errors = before.phase->errors + list[at].len() - gone;
    lemma_batched_monotone(list, at + 1);
    assert(list.take(at + 1).drop_last() =~= list.take(at));
    assert(list.take(at + 1) =~= list);
    assert(lines(step.out@).last() == note(done_text(removed as usize, errors as usize)));
}

/// A run that finds no hash cache has every picture hashed.
pub proof fn law_without_cache_every_picture_is_hashed(
    before: Run,
    event: Event,
    after: Run,
    step: Step,
)
    requires
        goes_on(before, event, after, step),
        event == Event::Cache(None),
        before.phase->LoadingCache_files@.len() > 0,
    ensures
        step.action is HashPictures,
        step.action->HashPictures_0@ == before.phase->LoadingCache_files@,
{
    let files = before.phase->LoadingCache_files@;
    assert(before.phase->LoadingCache_files.len() == files.len());
    law_empty_cache_knows_no_hash(files);
    assert(step.action->HashPictures_0@ =~= files);
}

/// A second run over the same files has no picture hashed again, with the cache that the first one
/// saved, if the first one could hash them all.
pub proof fn law_second_run_hashes_nothing_again(
    first: Run,
    hashed: Event,
    after_first: Run,
    saving: Step,
    second: Run,
    read: Event,
    after_second: Run,
    step: Step,
)
    requires
        goes_on(first, hashed, after_first, saving),
        hashed is Hashes,
        forall|k: int|
            0 <= k < hashed->Hashes_0@.len() ==> #[trigger] hashed->Hashes_0@[k] is Some,
        goes_on(second, read, after_second, step),
        read is Cache,
        second.phase->LoadingCache_files@ == first.phase->Hashing_files@,
        read->Cache_0 is Some,
        read->Cache_0->0@ == saving.save_cache->0@,
    ensures
        !(step.action is HashPictures),
{
    let files = first.phase->Hashing_files@;
    let entries = first.phase->cache@;
    let hashes = cached_hashes(files, entries);
    let results = placed(unhashed(hashes), hashed->Hashes_0@);
    assert(first.phase->Hashing_files.len() == files.len());
    lemma_unhashed_places(hashes);
    lemma_all_hashed(hashes, results);
    let again = cached_hashes(files, kept(entries, files, results));
    assert forall|i: int| 0 <= i < again.len() implies #[trigger] again[i] is Some by {
        if hashes[i] is None {
            let k = choose|k: int|
                0 <= k < unhashed(hashes).len() && unhashed(hashes)[k] == i as usize;
            assert(results[k].0 == i);
        }
        law_second_run_finds_every_hash(files, entries, results, i);
    }
    lemma_unhashed_places(again);
    if unhashed(again).len() > 0 {
        assert(again[unhashed(again)[0] as int] is None);
    }
}

/// A second run over the same files goes by the very hashes that the first one ended with: it has
/// only those files hashed again that the first one could not hash, and if there are none it compares
/// what the first one compared, so it comes to the same groups. The files are told apart by path,
/// size and time of change.
pub proof fn law_second_run_hashes_only_what_failed(
    first: Run,
    hashed: Event,
    after_first: Run,
    saving: Step,
    second: Run,
    read: Event,
    after_second: Run,
    step: Step,
)
    requires
        goes_on(first, hashed, after_first, saving),
        hashed is Hashes,
        all_distinct(first.phase->Hashing_files@),
        goes_on(second, read, after_second, step),
        read is Cache,
        second.phase->LoadingCache_files@ == first.phase->Hashing_files@,
        read->Cache_0 is Some,
        read->Cache_0->0@ == saving.save_cache->0@,
    ensures
        ({
            let files = first.phase->Hashing_files@;
            let known = cached_hashes(files, first.phase->cache@);
            let results = placed(unhashed(known), hashed->Hashes_0@);
            let hashes = filled(known, results);
            &&& compares(
                first.settings,
                files,
                hashes,
                failures(results),
                seq![
                    note(
                        "  Cache saved ("@ + decimal(
                            kept(first.phase->cache@, files, results).len(),
                        ) + " total entries)\n"@,
                    ),
                ],
                after_first.phase,
                saving,
            )
            &&& step.action is HashPictures <==> exists|k: int|
                0 <= k < results.len() && (#[trigger] results[k]).1 is None
            &&& step.action is HashPictures ==> step.action->HashPictures_0@ == chosen(
                files,
                unhashed(hashes),
            )
            &&& !(step.action is HashPictures) ==> compares(
                second.settings,
                files,
                hashes,
                0,
                cached_lines(files.len()),
                after_second.phase,
                step,
            )
            &&& forall|i: int|
                0 <= i < files.len() ==> ((#[trigger] hashes[i]) is None <==> exists|k: int|
                    0 <= k < results.len() && (#[trigger] results[k]).0 == i && results[k].1 is None)
        }),
{
    let files = first.phase->Hashing_files@;
    let entries = first.phase->cache@;
    let known = cached_hashes(files, entries);
    let results = placed(unhashed(known), hashed->Hashes_0@);
    let hashes = filled(known, results);
    assert(first.phase->Hashing_files.len() == files.len());
    law_second_run_finds_the_same_hashes(files, entries, results);
    assert(hashes.len() == files.len());
    lemma_unhashed_places(known);
    lemma_unhashed_places(hashes);
    if exists|k: int| 0 <= k < results.len() && (#[trigger] results[k]).1 is None {
        let k = choose|k: int| 0 <= k < results.len() && (#[trigger] results[k]).1 is None;
        let i = results[k].0 as int;
        assert(unhashed(known)[k] < known.len());
        assert(hashes[i] is None);
        assert(unhashed(hashes).contains(i as usize));
        assert(unhashed(hashes).len() > 0);
    } else if unhashed(hashes).len() > 0 {
        assert(hashes[unhashed(hashes)[0] as int] is None);
    }
}

} // verus!
