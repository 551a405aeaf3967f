//! How a run takes its steps.

use vstd::prelude::*;
use crate::cache::HashCache;
use crate::duplicates::{concat, digest_keys, find_duplicates, flatten, same_size_groups};
use crate::entry::FileEntry;
use crate::flow::{
    advances, banner, begins, cached_lines, chosen, compares, error_lines, fits, lists_shares,
    maybe_text, phase_wf, placed, removes, reports, resumes, scans, share_lines, takes_cache,
    takes_digests, takes_entries, takes_files, takes_hashes, takes_removal, takes_selection,
    Action, Event, Phase, Run, Settings, Step,
};
use crate::grouping::{contents, law_groups_are_the_repeated_keys, repeated_groups};
use crate::html::{generate_html_preview, is_all_resolved};
use crate::keep::sort_dup_groups;
use crate::output::{counted, joined, lines, note, push_note, push_warning, warning, Line, LineView};
use crate::remove::{
    batched, batches, done, done_text, failure_lines, law_report_announces_every_removal,
    law_selected_files_are_the_targets, lemma_batched_monotone, removed_lines, selected_files,
    superfluous_files, tally, targets, Failure, Target,
};
use crate::report::{checked_totals, report};
use crate::similar::{
    filled, find_similar, leaders, plan_hashing, record_hashes, similar_groups, HashPlan,
};
use crate::text::{decimal, texts};

verus! {

fn note_of(text: &str) -> (out: Vec<Line>)
    ensures
        lines(out@) == seq![note(text@)],
{
    let mut out: Vec<Line> = Vec::new();
    let mut line = String::new();
    line.append(text);
    assert(line@ =~= text@);
    push_note(&mut out, line);
    assert(lines(out@) =~= seq![note(text@)]);
    out
}

fn push_text(out: &mut Vec<Line>, text: &str)
    ensures
        lines(final(out)@) == lines(old(out)@).push(note(text@)),
{
    let mut line = String::new();
    line.append(text);
    assert(line@ =~= text@);
    push_note(out, line);
}

fn one_warning(text: String) -> (out: Vec<Line>)
    ensures
        lines(out@) == seq![warning(text@)],
{
    let mut out: Vec<Line> = Vec::new();
    push_warning(&mut out, text);
    assert(lines(out@) =~= seq![warning(text@)]);
    out
}

fn nothing() -> (out: Vec<Line>)
    ensures
        lines(out@) == Seq::<LineView>::empty(),
{
    let out: Vec<Line> = Vec::new();
    assert(lines(out@) =~= Seq::empty());
    out
}

fn quiet(out: Vec<Line>, action: Action) -> (step: Step)
    ensures
        step.save_cache is None,
        step.out == out,
        step.action == action,
{
    Step { save_cache: None, out, action }
}

fn say_banner(settings: &Settings) -> (out: Vec<Line>)
    ensures
        lines(out@) == banner(*settings),
{
    let mut out = nothing();
    let place = match settings.nas_user {
        Some(_) => " (NAS)\n",
        None => " (local)\n",
    };
    push_note(&mut out, joined("Scanning : ", settings.options.path.as_str(), place));
    if settings.options.delete {
        push_text(&mut out, "Mode     : DELETE\n");
    } else {
        push_text(&mut out, "Mode     : dry-run\n");
    }
    push_note(&mut out, joined("Keep     : ", settings.options.keep.as_str(), "\n"));
    push_text(&mut out, "\n");
    assert(lines(out@) =~= banner(*settings));
    out
}

fn begin(settings: &Settings) -> (r: (Phase, Step))
    ensures
        begins(*settings, r.0, r.1),
        phase_wf(*settings, r.0),
{
    if settings.options.resume {
        return (Phase::SeekingSession, quiet(nothing(), Action::FindSession));
    }
    match &settings.nas_user {
        None => (Phase::CheckingRoot, quiet(nothing(), Action::CheckRoot)),
        Some(user) => {
            if settings.options.list_shares {
                let text = joined("Available root folders for user '", user.as_str(), "':\n");
                let mut out = nothing();
                push_note(&mut out, text);
                assert(lines(out@) =~= seq![note(text@)]);
                (Phase::ListingShares, quiet(out, Action::ListShares))
            } else {
                (Phase::Listing, quiet(say_banner(settings), Action::ListFiles))
            }
        },
    }
}

fn resume(settings: &Settings, page: Option<String>) -> (r: (Phase, Step))
    requires
        settings.options.resume,
    ensures
        resumes(*settings, maybe_text(page), r.0, r.1),
        phase_wf(*settings, r.0),
{
    match page {
        Some(text) => {
            let out = match settings.nas_user {
                Some(_) => note_of("Resuming previous NAS session...\n"),
                None => note_of("Resuming previous session...\n"),
            };
            (Phase::Reviewing { resumed: true }, quiet(out, Action::Review(text)))
        },
        None => {
            let mut text = String::new();
            text.append("No saved session found. Run with --preview first.\n");
            assert(text@ =~= "No saved session found. Run with --preview first.\n"@);
            (Phase::Finished, quiet(one_warning(text), Action::Exit(1)))
        },
    }
}

fn scan(settings: &Settings, found: bool) -> (r: (Phase, Step))
    requires
        !settings.options.resume,
    ensures
        scans(*settings, found, r.0, r.1),
        phase_wf(*settings, r.0),
{
    if found {
        (Phase::Listing, quiet(say_banner(settings), Action::ListFiles))
    } else {
        let text = joined("Path does not exist: ", settings.options.path.as_str(), "\n");
        (Phase::Finished, quiet(one_warning(text), Action::Exit(1)))
    }
}

fn list_shares(shares: Result<Vec<String>, String>) -> (r: (Phase, Step))
    ensures
        lists_shares(
            match shares {
                Ok(list) => Ok(texts(list@)),
                Err(error) => Err(error@),
            },
            r.0,
            r.1,
        ),
        r.0 is Finished,
{
    let out = match shares {
        Ok(list) => {
            if list.len() == 0 {
                note_of("  (No shared folders found)\n")
            } else {
                let ghost all = share_lines(texts(list@));
                let mut out = nothing();
                let mut i: usize = 0;
                assert(all.take(0) =~= Seq::empty());
                while i < list.len()
                    invariant
                        i <= list@.len(),
                        list@.len() > 0,
                        all == share_lines(texts(list@)),
                        lines(out@) == all.take(i as int),
                    decreases list@.len() - i,
                {
                    push_note(&mut out, joined("  ", list[i].as_str(), "\n"));
                    assert(all.take(i + 1) =~= all.take(i as int).push(all[i as int]));
                    i += 1;
                }
                assert(all.take(i as int) =~= all);
                out
            }
        },
        Err(error) => one_warning(joined("Failed to list shares: ", error.as_str(), "\n")),
    };
    (Phase::Finished, quiet(out, Action::Exit(0)))
}

fn copy_entries(files: &Vec<FileEntry>) -> (copy: Vec<FileEntry>)
    ensures
        copy@ == files@,
{
    let mut copy: Vec<FileEntry> = Vec::new();
    let mut i: usize = 0;
    while i < files.len()
        invariant
            i <= files@.len(),
            copy@ == files@.take(i as int),
        decreases files@.len() - i,
    {
        copy.push(files[i].clone());
        assert(files@.take(i + 1) =~= files@.take(i as int).push(files@[i as int]));
        i += 1;
    }
    assert(files@.take(i as int) =~= files@);
    copy
}

fn copy_groups(groups: &Vec<Vec<FileEntry>>) -> (copy: Vec<Vec<FileEntry>>)
    ensures
        contents(copy@) == contents(groups@),
{
    let ghost all = contents(groups@);
    let mut copy: Vec<Vec<FileEntry>> = Vec::new();
    let mut g: usize = 0;
    assert(contents(copy@) =~= all.take(0));
    while g < groups.len()
        invariant
            g <= groups@.len(),
            all == contents(groups@),
            contents(copy@) == all.take(g as int),
        decreases groups@.len() - g,
    {
        let ghost before = copy@;
        let group = copy_entries(&groups[g]);
        copy.push(group);
        assert(contents(copy@) =~= contents(before).push(group@));
        assert(all.take(g + 1) =~= all.take(g as int).push(all[g as int]));
        g += 1;
    }
    assert(all.take(g as int) =~= all);
    copy
}

fn copy_targets(batch: &Vec<Target>) -> (copy: Vec<Target>)
    ensures
        targets(copy@) == targets(batch@),
{
    let ghost all = targets(batch@);
    let mut copy: Vec<Target> = Vec::new();
    let mut i: usize = 0;
    assert(targets(copy@) =~= all.take(0));
    while i < batch.len()
        invariant
            i <= batch@.len(),
            all == targets(batch@),
            targets(copy@) == all.take(i as int),
        decreases batch@.len() - i,
    {
        let ghost before = copy@;
        let path = match &batch[i].path {
            Some(path) => Some(path.clone()),
            None => None,
        };
        let target = Target { name: batch[i].name.clone(), path };
        copy.push(target);
        assert(targets(copy@) =~= targets(before).push(target@));
        assert(all.take(i + 1) =~= all.take(i as int).push(all[i as int]));
        i += 1;
    }
    assert(all.take(i as int) =~= all);
    copy
}

fn take_files(settings: &Settings, files: Result<Vec<FileEntry>, String>) -> (r: (Phase, Step))
    requires
        !settings.options.resume,
    ensures
        takes_files(
            *settings,
            match files {
                Ok(list) => Ok(list@),
                Err(error) => Err(error@),
            },
            r.0,
            r.1,
        ),
        phase_wf(*settings, r.0),
{
    let list = match files {
        Ok(list) => list,
        Err(error) => {
            let text = joined("Failed to list files: ", error.as_str(), "\n");
            return (Phase::Finished, quiet(one_warning(text), Action::Exit(1)));
        },
    };
    let ghost all = list@;
    let mut out = nothing();
    let scanned = counted("Scanned ", list.len(), " files\n");
    push_note(&mut out, scanned);
    assert(lines(out@) =~= seq![note(scanned@)]);
    if settings.options.similar {
        (Phase::LoadingCache { files: list }, quiet(out, Action::ReadCache))
    } else {
        let candidates = same_size_groups(list);
        let to_digest = flatten(copy_groups(&candidates));
        let mut text = counted("Hashing ", to_digest.len(), " files across ");
        let rest = counted("", candidates.len(), " same-size groups...\n");
        text.append(rest.as_str());
        proof {
            reveal_strlit("");
        }
        assert(text@ =~= "Hashing "@ + decimal(to_digest@.len()) + " files across "@ + decimal(
            candidates@.len(),
        ) + " same-size groups...\n"@);
        push_note(&mut out, text);
        assert(lines(out@) =~= seq![note(scanned@), note(text@)]);
        assert(contents(candidates@).len() == candidates@.len());
        (Phase::Digesting { candidates }, quiet(out, Action::DigestFiles(to_digest)))
    }
}

fn go_on_removing(
    settings: &Settings,
    list: Vec<Vec<Target>>,
    at: usize,
    removed: usize,
    errors: usize,
    by_flag: bool,
    out: Vec<Line>,
) -> (r: (Phase, Step))
    requires
        at <= list@.len(),
        removed + errors == batched(batches(list@).take(at as int)),
        batched(batches(list@)) <= usize::MAX,
        by_flag ==> settings.options.delete && !settings.options.resume,
    ensures
        removes(
            batches(list@),
            at as int,
            removed as int,
            errors as int,
            by_flag,
            lines(out@),
            r.0,
            r.1,
        ),
        r.1.save_cache is None,
        phase_wf(*settings, r.0),
{
    if at < list.len() {
        let batch = copy_targets(&list[at]);
        (
            Phase::Removing { list, at, removed, errors, by_flag },
            quiet(out, Action::Remove(batch)),
        )
    } else {
        let mut said = out;
        let ghost told = lines(said@);
        if by_flag {
            push_text(&mut said, "\n");
        }
        push_note(&mut said, done(removed, errors));
        assert(lines(said@) =~= told + (if by_flag {
            seq![note("\n"@)]
        } else {
            Seq::empty()
        }) + seq![note(done_text(removed, errors))]);
        (Phase::Finished, quiet(said, Action::Exit(0)))
    }
}

fn make_report(
    settings: &Settings,
    found: Vec<Vec<FileEntry>>,
    errors: usize,
    out: Vec<Line>,
) -> (r: (Phase, Step))
    requires
        !settings.options.resume,
        forall|g: int| 0 <= g < found@.len() ==> (#[trigger] found@[g])@.len() > 0,
    ensures
        reports(*settings, contents(found@), errors as nat, lines(out@), r.0, r.1),
        r.1.save_cache is None,
        phase_wf(*settings, r.0),
{
    let ghost before = lines(out@);
    let mut said = out;
    if errors > 0 {
        push_warning(&mut said, counted("  (", errors, " files skipped due to errors)\n"));
    }
    assert(lines(said@) =~= before + error_lines(errors as nat));
    if found.len() == 0 {
        push_text(&mut said, "\nNo duplicates found.\n");
        return (Phase::Finished, quiet(said, Action::Exit(0)));
    }
    let mut groups = found;
    sort_dup_groups(&mut groups, settings.options.keep.as_str());
    let (removals, bytes) = match checked_totals(&groups) {
        Some(totals) => totals,
        None => {
            return (Phase::Finished, quiet(said, Action::GiveUp));
        },
    };
    push_note(&mut said, report(&groups, removals, bytes, settings.options.delete));
    if settings.options.delete {
        let nas = settings.nas_user.is_some();
        if nas {
            push_text(&mut said, "\nDeleting from NAS...\n");
        } else {
            push_text(&mut said, "\nDeleting...\n");
        }
        let list = superfluous_files(&groups, nas);
        proof {
            law_report_announces_every_removal(contents(groups@), nas);
            assert(batches(list@).take(0) =~= Seq::empty());
        }
        go_on_removing(settings, list, 0, 0, 0, true, said)
    } else if settings.options.preview {
        let copy = copy_groups(&groups);
        (Phase::Resolving { groups }, quiet(said, Action::LookUp(copy)))
    } else {
        (Phase::Finished, quiet(said, Action::Exit(0)))
    }
}

fn compare(
    settings: &Settings,
    files: Vec<FileEntry>,
    hashes: &Vec<Option<u64>>,
    errors: usize,
    out: Vec<Line>,
) -> (r: (Phase, Step))
    requires
        !settings.options.resume,
        hashes@.len() == files@.len(),
    ensures
        compares(*settings, files@, hashes@, errors as nat, lines(out@), r.0, r.1),
        r.1.save_cache is None,
        phase_wf(*settings, r.0),
{
    let threshold = settings.options.threshold;
    let mut said = out;
    push_note(
        &mut said,
        counted("Comparing all pairs (threshold = ", threshold as usize, " bits)...\n"),
    );
    let groups = find_similar(files, hashes, threshold);
    push_note(&mut said, counted("Found ", groups.len(), " groups of similar images\n"));
    proof {
        law_groups_are_the_repeated_keys(leaders(hashes@, threshold));
        assert(contents(groups@).len() == groups@.len());
        assert forall|g: int| 0 <= g < groups@.len() implies (#[trigger] groups@[g])@.len() > 0 by {
            assert(contents(groups@)[g] == groups@[g]@);
            assert(similar_groups(hashes@, threshold)[g].len() >= 2);
        }
    }
    make_report(settings, groups, errors, said)
}

fn choose_entries(files: &Vec<FileEntry>, places: &Vec<usize>) -> (r: Vec<FileEntry>)
    requires
        forall|k: int| 0 <= k < places@.len() ==> #[trigger] places@[k] < files@.len(),
    ensures
        r@ == chosen(files@, places@),
{
    let ghost all = chosen(files@, places@);
    let mut r: Vec<FileEntry> = Vec::new();
    let mut k: usize = 0;
    assert(r@ =~= all.take(0));
    while k < places.len()
        invariant
            k <= places@.len(),
            all == chosen(files@, places@),
            forall|k: int| 0 <= k < places@.len() ==> #[trigger] places@[k] < files@.len(),
            r@ == all.take(k as int),
        decreases places@.len() - k,
    {
        r.push(files[places[k]].clone());
        assert(all.take(k + 1) =~= all.take(k as int).push(all[k as int]));
        k += 1;
    }
    assert(all.take(k as int) =~= all);
    r
}

/// What comes after the hash cache has been loaded: how far a run is then, and what to do.
pub fn with_cache(settings: &Settings, files: Vec<FileEntry>, cache: HashCache) -> (r: (Phase, Step))
    requires
        !settings.options.resume,
        cache.wf(),
    ensures
        takes_entries(*settings, files@, cache@, r.0, r.1),
        phase_wf(*settings, r.0),
{
    let plan = plan_hashing(&files, &cache);
    let mut out = nothing();
    if plan.cached_count > 0 {
        push_note(&mut out, counted("  ⚡ ", plan.cached_count, " files loaded from cache\n"));
    }
    assert(lines(out@) =~= cached_lines(plan.cached_count as nat));
    if plan.to_hash.len() > 0 {
        push_note(
            &mut out,
            counted("  Hashing ", plan.to_hash.len(), " new files in parallel...\n"),
        );
        let to_hash = choose_entries(&files, &plan.to_hash);
        (Phase::Hashing { files, plan, cache }, quiet(out, Action::HashPictures(to_hash)))
    } else {
        compare(settings, files, &plan.hashes, 0, out)
    }
}

fn take_cache(settings: &Settings, files: Vec<FileEntry>, saved: Option<String>) -> (r: (Phase, Step))
    requires
        !settings.options.resume,
    ensures
        takes_cache(*settings, files@, maybe_text(saved), r.0, r.1),
        phase_wf(*settings, r.0),
{
    let cache = match &saved {
        Some(text) => HashCache::load(Some(text.as_str())),
        None => HashCache::load(None),
    };
    with_cache(settings, files, cache)
}

fn take_hashes(
    settings: &Settings,
    files: Vec<FileEntry>,
    plan: HashPlan,
    cache: HashCache,
    computed: &Vec<Option<u64>>,
) -> (r: (Phase, Step))
    requires
        phase_wf(*settings, (Phase::Hashing { files, plan, cache })),
        computed@.len() == plan.to_hash@.len(),
    ensures
        takes_hashes(*settings, files@, cache@, computed@, r.0, r.1),
        phase_wf(*settings, r.0),
{
    let ghost all = placed(plan.to_hash@, computed@);
    let mut results: Vec<(usize, Option<u64>)> = Vec::new();
    let mut k: usize = 0;
    assert(results@ =~= all.take(0));
    while k < computed.len()
        invariant
            k <= computed@.len(),
            computed@.len() == plan.to_hash@.len(),
            all == placed(plan.to_hash@, computed@),
            results@ == all.take(k as int),
        decreases computed@.len() - k,
    {
        results.push((plan.to_hash[k], computed[k]));
        assert(all.take(k + 1) =~= all.take(k as int).push(all[k as int]));
        k += 1;
    }
    assert(all.take(k as int) =~= all);
    let mut hashes = plan.hashes;
    let mut cache = cache;
    let errors = record_hashes(&files, &results, &mut hashes, &mut cache);
    let saved = cache.save();
    let mut out = nothing();
    let text = counted("  Cache saved (", cache.len(), " total entries)\n");
    push_note(&mut out, text);
    assert(lines(out@) =~= seq![note(text@)]);
    proof {
        lemma_filled_len(plan.hashes@, all);
    }
    let (phase, step) = compare(settings, files, &hashes, errors, out);
    (phase, Step { save_cache: saved, out: step.out, action: step.action })
}

proof fn lemma_filled_len(hashes: Seq<Option<u64>>, results: Seq<(usize, Option<u64>)>)
    requires
        forall|k: int| 0 <= k < results.len() ==> (#[trigger] results[k]).0 < hashes.len(),
    ensures
        filled(hashes, results).len() == hashes.len(),
    decreases results.len(),
{
    if results.len() > 0 {
        let before = results.drop_last();
        assert forall|k: int| 0 <= k < before.len() implies (#[trigger] before[k]).0
            < hashes.len() by {
            assert(before[k] == results[k]);
        }
        lemma_filled_len(hashes, before);
        assert(results.last() == results[results.len() - 1]);
    }
}

fn take_digests(
    settings: &Settings,
    candidates: Vec<Vec<FileEntry>>,
    digests: &Vec<Option<String>>,
) -> (r: (Phase, Step))
    requires
        !settings.options.resume,
        digests@.len() == concat(contents(candidates@)).len(),
    ensures
        takes_digests(*settings, contents(candidates@), digests@, r.0, r.1),
        phase_wf(*settings, r.0),
{
    let (groups, errors) = find_duplicates(candidates, digests);
    proof {
        let keys = digest_keys(digests@);
        law_groups_are_the_repeated_keys(keys);
        assert(contents(groups@).len() == groups@.len());
        assert forall|g: int| 0 <= g < groups@.len() implies (#[trigger] groups@[g])@.len() > 0 by {
            assert(contents(groups@)[g] == groups@[g]@);
            assert(repeated_groups(keys)[g].len() >= 2);
        }
    }
    make_report(settings, groups, errors, nothing())
}

fn take_selection(settings: &Settings, resumed: bool, paths: Option<Vec<String>>) -> (r: (Phase, Step))
    ensures
        takes_selection(
            *settings,
            resumed,
            match paths {
                Some(list) => Some(list@),
                None => None,
            },
            r.0,
            r.1,
        ),
        phase_wf(*settings, r.0),
{
    let list = match paths {
        Some(list) => list,
        None => {
            return (Phase::Finished, quiet(nothing(), Action::Exit(0)));
        },
    };
    if list.len() == 0 {
        let out = if resumed {
            nothing()
        } else {
            note_of("No files selected for deletion.\n")
        };
        return (Phase::Finished, quiet(out, Action::Exit(0)));
    }
    let nas = settings.nas_user.is_some();
    let rest = if nas {
        " files from NAS via UI request...\n"
    } else if resumed {
        " files...\n"
    } else {
        " files from UI request...\n"
    };
    let text = counted("\nDeleting ", list.len(), rest);
    let mut out = nothing();
    push_note(&mut out, text);
    assert(lines(out@) =~= seq![note(text@)]);
    proof {
        law_selected_files_are_the_targets(list@, nas);
    }
    let files = selected_files(list, nas);
    proof {
        assert(batches(files@).take(0) =~= Seq::empty());
    }
    go_on_removing(settings, files, 0, 0, 0, false, out)
}

fn take_removal(
    settings: &Settings,
    list: Vec<Vec<Target>>,
    at: usize,
    removed: usize,
    errors: usize,
    by_flag: bool,
    failed: &Vec<Failure>,
) -> (r: (Phase, Step))
    requires
        phase_wf(*settings, (Phase::Removing { list, at, removed, errors, by_flag })),
    ensures
        takes_removal(
            batches(list@),
            at as int,
            removed as int,
            errors as int,
            by_flag,
            failed@,
            r.0,
            r.1,
        ),
        phase_wf(*settings, r.0),
{
    let ghost all = batches(list@);
    proof {
        assert(at < list.len());
        lemma_batched_monotone(all, at + 1);
        assert(all.take(at + 1).drop_last() =~= all.take(at as int));
        assert(all.take(at + 1).last() == targets(list@[at as int]@));
    }
    let mut out = nothing();
    let gone = tally(&mut out, &list[at], failed);
    let left: usize = list[at].len() - gone;
    assert(lines(out@) =~= removed_lines(all[at as int], failed@) + failure_lines(failed@));
    go_on_removing(settings, list, at + 1, removed + gone, errors + left, by_flag, out)
}

proof fn lemma_concat_len_grows(lists: Seq<Seq<FileEntry>>, n: int)
    requires
        0 <= n <= lists.len(),
    ensures
        concat(lists.take(n)).len() <= concat(lists).len(),
    decreases lists.len() - n,
{
    if n == lists.len() {
        assert(lists.take(n) =~= lists);
    } else {
        lemma_concat_len_grows(lists, n + 1);
        assert(lists.take(n + 1).drop_last() =~= lists.take(n));
    }
}

fn hold(groups: &Vec<Vec<FileEntry>>, count: usize) -> (r: bool)
    ensures
        r == (concat(contents(groups@)).len() == count),
{
    let ghost all = contents(groups@);
    let mut left: usize = count;
    let mut g: usize = 0;
    assert(all.take(0) =~= Seq::empty());
    while g < groups.len()
        invariant
            g <= groups@.len(),
            all == contents(groups@),
            left + concat(all.take(g as int)).len() == count,
        decreases groups@.len() - g,
    {
        assert(all.take(g + 1).drop_last() =~= all.take(g as int));
        assert(all.take(g + 1).last() == groups@[g as int]@);
        if groups[g].len() > left {
            proof {
                lemma_concat_len_grows(all, g + 1);
            }
            return false;
        }
        left = left - groups[g].len();
        g += 1;
    }
    assert(all.take(g as int) =~= all);
    left == 0
}

impl Run {
    /// A run that has not begun.
    pub fn new(settings: Settings) -> (run: Self)
        ensures
            run.wf(),
            run.settings == settings,
            run.phase is Fresh,
    {
        Run { settings, phase: Phase::Fresh }
    }

    /// Whether an event is what the run waits for.
    pub fn accepts(&self, event: &Event) -> (r: bool)
        ensures
            r == fits(self.phase, *event),
    {
        match (&self.phase, event) {
            (Phase::Fresh, Event::Started) => true,
            (Phase::SeekingSession, Event::Session(_)) => true,
            (Phase::Reviewing { .. }, Event::Selected(_)) => true,
            (Phase::CheckingRoot, Event::RootFound(_)) => true,
            (Phase::ListingShares, Event::Shares(_)) => true,
            (Phase::Listing, Event::Files(_)) => true,
            (Phase::LoadingCache { .. }, Event::Cache(_)) => true,
            (Phase::Hashing { plan, .. }, Event::Hashes(hashes)) => hashes.len()
                == plan.to_hash.len(),
            (Phase::Digesting { candidates }, Event::Digests(digests)) => hold(
                candidates,
                digests.len(),
            ),
            (Phase::Resolving { groups }, Event::Looked(resolved)) => is_all_resolved(
                groups,
                resolved,
            ),
            (Phase::Removing { .. }, Event::Removed(_)) => true,
            _ => false,
        }
    }

    /// What comes after an event: how far the run is then, and what to do.
    pub fn advance(self, event: Event) -> (r: (Self, Step))
        requires
            self.wf(),
            fits(self.phase, event),
        ensures
            r.0.wf(),
            advances(self, event, r.0, r.1),
    {
        let settings = self.settings;
        let (phase, step) = match (self.phase, event) {
            (Phase::Fresh, Event::Started) => begin(&settings),
            (Phase::SeekingSession, Event::Session(page)) => resume(&settings, page),
            (Phase::Reviewing { resumed }, Event::Selected(paths)) => take_selection(
                &settings,
                resumed,
                paths,
            ),
            (Phase::CheckingRoot, Event::RootFound(found)) => scan(&settings, found),
            (Phase::ListingShares, Event::Shares(shares)) => list_shares(shares),
            (Phase::Listing, Event::Files(files)) => take_files(&settings, files),
            (Phase::LoadingCache { files }, Event::Cache(saved)) => take_cache(
                &settings,
                files,
                saved,
            ),
            (Phase::Hashing { files, plan, cache }, Event::Hashes(hashes)) => take_hashes(
                &settings,
                files,
                plan,
                cache,
                &hashes,
            ),
            (Phase::Digesting { candidates }, Event::Digests(digests)) => take_digests(
                &settings,
                candidates,
                &digests,
            ),
            (Phase::Resolving { groups }, Event::Looked(resolved)) => {
                let page = generate_html_preview(&groups, &resolved);
                (Phase::Reviewing { resumed: false }, quiet(nothing(), Action::Review(page)))
            },
            (
                Phase::Removing { list, at, removed, errors, by_flag },
                Event::Removed(failed),
            ) => take_removal(&settings, list, at, removed, errors, by_flag, &failed),
            _ => (Phase::Finished, quiet(nothing(), Action::Exit(0))),
        };
        (Run { settings, phase }, step)
    }
}

} // verus!
