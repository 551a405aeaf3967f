//! A run from its options to its end: what is said and done at each step.
//!
//! A run does nothing itself. It asks for one action at a time, and is told what came of it by an
//! event.

use vstd::prelude::*;
use crate::cache::{loaded, HashCache};
use crate::cli::Options;
use crate::duplicates::{concat, digest_keys, size_keys, unread};
use crate::entry::FileEntry;
use crate::grouping::{contents, pick, repeated_groups};
use crate::html::{all_resolved, page_text, Resolved};
use crate::keep::{keep_of, presented};
use crate::output::{lines, note, warning, Line, LineView};
use crate::remove::{
    batched, batches, done_text, failure_lines, flag_batches, page_batches, removed_count,
    removed_lines, targets, Failure, Target, TargetView,
};
use crate::report::{report_text, total_bytes, total_removals};
use crate::similar::{cached_hashes, failures, filled, kept, similar_groups, unhashed, HashPlan};
use crate::text::{decimal, texts};

verus! {

/// What a run goes by.
pub struct Settings {
    pub options: Options,
    /// The user on the NAS, where the run is about a NAS and not about this machine.
    pub nas_user: Option<String>,
}

/// How far a run has come: what it waits for.
pub enum Phase {
    /// It has not begun.
    Fresh,
    /// The page of the last review.
    SeekingSession,
    /// The end of a review.
    Reviewing { resumed: bool },
    /// Whether there is a folder to scan.
    CheckingRoot,
    /// The shares of the NAS.
    ListingShares,
    /// The files in the folder.
    Listing,
    /// The hash cache.
    LoadingCache { files: Vec<FileEntry> },
    /// The hashes of the pictures that the cache does not hold.
    Hashing { files: Vec<FileEntry>, plan: HashPlan, cache: HashCache },
    /// The digests of the files that share their size with others.
    Digesting { candidates: Vec<Vec<FileEntry>> },
    /// What the review page needs to know.
    Resolving { groups: Vec<Vec<FileEntry>> },
    /// What came of the batch of files at place `at`.
    Removing {
        list: Vec<Vec<Target>>,
        at: usize,
        removed: usize,
        errors: usize,
        /// Whether the options asked for it, and not a review.
        by_flag: bool,
    },
    /// Nothing: it has ended.
    Finished,
}

/// A run.
pub struct Run {
    pub settings: Settings,
    pub phase: Phase,
}

/// What came of an action.
pub enum Event {
    /// The run begins.
    Started,
    /// The page of the last review, where there is one.
    Session(Option<String>),
    /// The paths of the files that were selected in a review, where it came to an end.
    Selected(Option<Vec<String>>),
    /// Whether there is a folder to scan.
    RootFound(bool),
    /// The shares of the NAS, or why there are none.
    Shares(Result<Vec<String>, String>),
    /// The files in the folder, or why there are none.
    Files(Result<Vec<FileEntry>, String>),
    /// The text of the hash cache, where there is one.
    Cache(Option<String>),
    /// The hash of each picture, where it could be had.
    Hashes(Vec<Option<u64>>),
    /// The digest of each file, where it could be read.
    Digests(Vec<Option<String>>),
    /// What was looked up for each file of the review page.
    Looked(Vec<Vec<Resolved>>),
    /// The files of a batch that could not be removed.
    Removed(Vec<Failure>),
}

/// What to do next.
pub enum Action {
    /// Look for the page of the last review.
    FindSession,
    /// Let a page be reviewed.
    Review(String),
    /// See whether there is a folder to scan.
    CheckRoot,
    /// List the shares of the NAS.
    ListShares,
    /// List the files in the folder.
    ListFiles,
    /// Read the hash cache.
    ReadCache,
    /// Compute the perceptual hashes of these pictures.
    HashPictures(Vec<FileEntry>),
    /// Compute the digests of these files.
    DigestFiles(Vec<FileEntry>),
    /// Look up what the review page needs of the files of these groups.
    LookUp(Vec<Vec<FileEntry>>),
    /// Remove these files.
    Remove(Vec<Target>),
    /// End the run, with this exit code.
    Exit(u8),
    /// Give up: the sizes of the files to remove do not add up in 64 bits.
    GiveUp,
}

/// A step of a run: first the hash cache is saved, where there is one to be saved, then the lines
/// are printed, then the action is taken.
pub struct Step {
    pub save_cache: Option<String>,
    pub out: Vec<Line>,
    pub action: Action,
}

/// Whether the run is about a NAS.
pub open spec fn on_nas(settings: Settings) -> bool {
    settings.nas_user is Some
}

/// Whether the groups are reviewed. Files are deleted on request without a review.
pub open spec fn reviews(settings: Settings) -> bool {
    settings.options.preview && !settings.options.delete
}

/// Whether a run can have come this far with these settings.
pub open spec fn phase_wf(settings: Settings, phase: Phase) -> bool {
    let options = settings.options;
    match phase {
        Phase::Fresh => true,
        Phase::SeekingSession => options.resume,
        Phase::Reviewing { resumed } => if resumed {
            options.resume
        } else {
            reviews(settings) && !options.resume
        },
        Phase::CheckingRoot => !options.resume,
        Phase::ListingShares => !options.resume,
        Phase::Listing => !options.resume,
        Phase::LoadingCache { .. } => !options.resume,
        Phase::Hashing { files, plan, cache } => {
            &&& !options.resume
            &&& cache.wf()
            &&& plan.hashes@ == cached_hashes(files@, cache@)
            &&& plan.to_hash@ == unhashed(plan.hashes@)
            &&& forall|k: int|
                0 <= k < plan.to_hash@.len() ==> #[trigger] plan.to_hash@[k] < files@.len()
        },
        Phase::Digesting { .. } => !options.resume,
        Phase::Resolving { .. } => reviews(settings) && !options.resume,
        Phase::Removing { list, at, removed, errors, by_flag } => {
            &&& at < list@.len()
            &&& removed + errors == batched(batches(list@).take(at as int))
            &&& batched(batches(list@)) <= usize::MAX
            &&& by_flag ==> options.delete && !options.resume
        },
        Phase::Finished => true,
    }
}

impl Run {
    /// Whether a run can have come this far.
    pub open spec fn wf(&self) -> bool {
        phase_wf(self.settings, self.phase)
    }
}

/// Whether an event is what a run waits for.
pub open spec fn fits(phase: Phase, event: Event) -> bool {
    match event {
        Event::Started => phase is Fresh,
        Event::Session(_) => phase is SeekingSession,
        Event::Selected(_) => phase is Reviewing,
        Event::RootFound(_) => phase is CheckingRoot,
        Event::Shares(_) => phase is ListingShares,
        Event::Files(_) => phase is Listing,
        Event::Cache(_) => phase is LoadingCache,
        Event::Hashes(hashes) => phase is Hashing && hashes@.len()
            == phase->Hashing_plan.to_hash@.len(),
        Event::Digests(digests) => phase is Digesting && digests@.len() == concat(
            contents(phase->candidates@),
        ).len(),
        Event::Looked(resolved) => phase is Resolving && all_resolved(
            contents(phase->groups@),
            contents(resolved@),
        ),
        Event::Removed(_) => phase is Removing,
    }
}

/// Whether a step says just this, and leaves the cache alone.
pub open spec fn says(step: Step, said: Seq<LineView>) -> bool {
    lines(step.out@) == said && step.save_cache is None
}

/// Whether a step ends the run.
pub open spec fn ends(phase: Phase, action: Action, code: u8) -> bool {
    phase is Finished && action == Action::Exit(code)
}

/// What is said before a scan.
pub open spec fn banner(settings: Settings) -> Seq<LineView> {
    seq![
        note("Scanning : "@ + settings.options.path@ + (if on_nas(settings) {
            " (NAS)\n"@
        } else {
            " (local)\n"@
        })),
        note(if settings.options.delete {
            "Mode     : DELETE\n"@
        } else {
            "Mode     : dry-run\n"@
        }),
        note("Keep     : "@ + settings.options.keep@ + "\n"@),
        note("\n"@),
    ]
}

/// How a run begins: with the last review, with the shares of the NAS, or with a scan.
pub open spec fn begins(settings: Settings, phase: Phase, step: Step) -> bool {
    if settings.options.resume {
        &&& phase is SeekingSession
        &&& step.action is FindSession
        &&& says(step, Seq::empty())
    } else if !on_nas(settings) {
        &&& phase is CheckingRoot
        &&& step.action is CheckRoot
        &&& says(step, Seq::empty())
    } else if settings.options.list_shares {
        &&& phase is ListingShares
        &&& step.action is ListShares
        &&& says(
            step,
            seq![
                note(
                    "Available root folders for user '"@ + settings.nas_user->0@ + "':\n"@,
                ),
            ],
        )
    } else {
        &&& phase is Listing
        &&& step.action is ListFiles
        &&& says(step, banner(settings))
    }
}

/// How a run goes on once the page of the last review has been looked for.
pub open spec fn resumes(settings: Settings, page: Option<Seq<char>>, phase: Phase, step: Step) -> bool {
    match page {
        Some(text) => {
            &&& phase == (Phase::Reviewing { resumed: true })
            &&& step.action is Review
            &&& step.action->Review_0@ == text
            &&& says(
                step,
                seq![
                    note(if on_nas(settings) {
                        "Resuming previous NAS session...\n"@
                    } else {
                        "Resuming previous session...\n"@
                    }),
                ],
            )
        },
        None => {
            &&& ends(phase, step.action, 1)
            &&& says(
                step,
                seq![warning("No saved session found. Run with --preview first.\n"@)],
            )
        },
    }
}

/// How a run goes on once it is known whether there is a folder to scan.
pub open spec fn scans(settings: Settings, found: bool, phase: Phase, step: Step) -> bool {
    if found {
        &&& phase is Listing
        &&& step.action is ListFiles
        &&& says(step, banner(settings))
    } else {
        &&& ends(phase, step.action, 1)
        &&& says(
            step,
            seq![warning("Path does not exist: "@ + settings.options.path@ + "\n"@)],
        )
    }
}

/// What is said of the shares of a NAS.
pub open spec fn share_lines(shares: Seq<Seq<char>>) -> Seq<LineView> {
    if shares.len() == 0 {
        seq![note("  (No shared folders found)\n"@)]
    } else {
        shares.map_values(|s: Seq<char>| note("  "@ + s + "\n"@))
    }
}

/// How a run goes on once the shares have been listed.
pub open spec fn lists_shares(
    shares: Result<Seq<Seq<char>>, Seq<char>>,
    phase: Phase,
    step: Step,
) -> bool {
    &&& ends(phase, step.action, 0)
    &&& says(
        step,
        match shares {
            Ok(list) => share_lines(list),
            Err(error) => seq![warning("Failed to list shares: "@ + error + "\n"@)],
        },
    )
}

/// How a run goes on with the files in the folder.
pub open spec fn takes_files(
    settings: Settings,
    files: Result<Seq<FileEntry>, Seq<char>>,
    phase: Phase,
    step: Step,
) -> bool {
    match files {
        Ok(list) => {
            let scanned = note("Scanned "@ + decimal(list.len()) + " files\n"@);
            if settings.options.similar {
                &&& phase is LoadingCache
                &&& phase->LoadingCache_files@ == list
                &&& step.action is ReadCache
                &&& says(step, seq![scanned])
            } else {
                let groups = pick(list, repeated_groups(size_keys(list)));
                &&& phase is Digesting
                &&& contents(phase->candidates@) == groups
                &&& step.action is DigestFiles
                &&& step.action->DigestFiles_0@ == concat(groups)
                &&& says(
                    step,
                    seq![
                        scanned,
                        note(
                            "Hashing "@ + decimal(concat(groups).len()) + " files across "@
                                + decimal(groups.len()) + " same-size groups...\n"@,
                        ),
                    ],
                )
            }
        },
        Err(error) => {
            &&& ends(phase, step.action, 1)
            &&& says(step, seq![warning("Failed to list files: "@ + error + "\n"@)])
        },
    }
}

/// How a run goes on with a list of batches to remove, once those before place `at` are done.
pub open spec fn removes(
    list: Seq<Seq<TargetView>>,
    at: int,
    removed: int,
    errors: int,
    by_flag: bool,
    said: Seq<LineView>,
    phase: Phase,
    step: Step,
) -> bool {
    if at < list.len() {
        &&& phase is Removing
        &&& batches(phase->list@) == list
        &&& phase->at == at
        &&& phase->removed == removed
        &&& phase->errors == errors
        &&& phase->by_flag == by_flag
        &&& step.action is Remove
        &&& targets(step.action->Remove_0@) == list[at]
        &&& lines(step.out@) == said
    } else {
        &&& ends(phase, step.action, 0)
        &&& lines(step.out@) == said + (if by_flag {
            seq![note("\n"@)]
        } else {
            Seq::empty()
        }) + seq![note(done_text(removed as usize, errors as usize))]
    }
}

/// What is said of files that could not be read.
pub open spec fn error_lines(errors: nat) -> Seq<LineView> {
    if errors > 0 {
        seq![warning("  ("@ + decimal(errors) + " files skipped due to errors)\n"@)]
    } else {
        Seq::empty()
    }
}

/// How a run goes on with the groups that were found: the report is printed, then the superfluous
/// files are deleted if that was asked for, or else reviewed if that was asked for.
pub open spec fn reports(
    settings: Settings,
    found: Seq<Seq<FileEntry>>,
    errors: nat,
    said: Seq<LineView>,
    phase: Phase,
    step: Step,
) -> bool {
    let told = said + error_lines(errors);
    let groups = presented(found, keep_of(settings.options.keep@));
    let removals = total_removals(groups);
    let bytes = total_bytes(groups);
    if found.len() == 0 {
        &&& ends(phase, step.action, 0)
        &&& lines(step.out@) == told.push(note("\nNo duplicates found.\n"@))
    } else if removals > usize::MAX || bytes > u64::MAX {
        &&& phase is Finished
        &&& step.action is GiveUp
        &&& lines(step.out@) == told
    } else {
        let reported = told.push(
            note(
                report_text(groups, removals as usize, bytes as u64, settings.options.delete),
            ),
        );
        if settings.options.delete {
            removes(
                flag_batches(groups, on_nas(settings)),
                0,
                0,
                0,
                true,
                reported.push(
                    note(if on_nas(settings) {
                        "\nDeleting from NAS...\n"@
                    } else {
                        "\nDeleting...\n"@
                    }),
                ),
                phase,
                step,
            )
        } else if settings.options.preview {
            &&& phase is Resolving
            &&& contents(phase->groups@) == groups
            &&& step.action is LookUp
            &&& contents(step.action->LookUp_0@) == groups
            &&& lines(step.out@) == reported
        } else {
            &&& ends(phase, step.action, 0)
            &&& lines(step.out@) == reported
        }
    }
}

/// How a run goes on with the hashes of all pictures.
pub open spec fn compares(
    settings: Settings,
    files: Seq<FileEntry>,
    hashes: Seq<Option<u64>>,
    errors: nat,
    said: Seq<LineView>,
    phase: Phase,
    step: Step,
) -> bool {
    let groups = pick(files, similar_groups(hashes, settings.options.threshold));
    reports(
        settings,
        groups,
        errors,
        said.push(
            note(
                "Comparing all pairs (threshold = "@ + decimal(settings.options.threshold as nat)
                    + " bits)...\n"@,
            ),
        ).push(note("Found "@ + decimal(groups.len()) + " groups of similar images\n"@)),
        phase,
        step,
    )
}

/// The pictures at the given places.
pub open spec fn chosen(files: Seq<FileEntry>, places: Seq<usize>) -> Seq<FileEntry> {
    places.map_values(|i: usize| files[i as int])
}

/// What is said of the hashes that the cache holds.
pub open spec fn cached_lines(known: nat) -> Seq<LineView> {
    if known > 0 {
        seq![note("  ⚡ "@ + decimal(known) + " files loaded from cache\n"@)]
    } else {
        Seq::empty()
    }
}

/// How a run goes on with the hashes that the cache holds.
pub open spec fn takes_entries(
    settings: Settings,
    files: Seq<FileEntry>,
    entries: Map<Seq<char>, u64>,
    phase: Phase,
    step: Step,
) -> bool {
    let hashes = cached_hashes(files, entries);
    let places = unhashed(hashes);
    let said = cached_lines((files.len() - places.len()) as nat);
    &&& step.save_cache is None
    &&& if places.len() > 0 {
        &&& phase is Hashing
        &&& phase->Hashing_files@ == files
        &&& phase->cache@ == entries
        &&& step.action is HashPictures
        &&& step.action->HashPictures_0@ == chosen(files, places)
        &&& lines(step.out@) == said.push(
            note("  Hashing "@ + decimal(places.len()) + " new files in parallel...\n"@),
        )
    } else {
        compares(settings, files, hashes, 0, said, phase, step)
    }
}

/// How a run goes on with the text of the hash cache.
pub open spec fn takes_cache(
    settings: Settings,
    files: Seq<FileEntry>,
    saved: Option<Seq<char>>,
    phase: Phase,
    step: Step,
) -> bool {
    takes_entries(settings, files, loaded(saved), phase, step)
}

/// Each place with the hash of the picture there.
pub open spec fn placed(places: Seq<usize>, hashes: Seq<Option<u64>>) -> Seq<(usize, Option<u64>)> {
    Seq::new(places.len(), |k: int| (places[k], hashes[k]))
}

/// How a run goes on with the hashes of the pictures that the cache did not hold: they are kept in
/// the cache.
pub open spec fn takes_hashes(
    settings: Settings,
    files: Seq<FileEntry>,
    entries: Map<Seq<char>, u64>,
    computed: Seq<Option<u64>>,
    phase: Phase,
    step: Step,
) -> bool {
    let hashes = cached_hashes(files, entries);
    let results = placed(unhashed(hashes), computed);
    let now = kept(entries, files, results);
    &&& step.save_cache is Some
    &&& loaded(Some(step.save_cache->0@)) == now
    &&& compares(
        settings,
        files,
        filled(hashes, results),
        failures(results),
        seq![note("  Cache saved ("@ + decimal(now.len()) + " total entries)\n"@)],
        phase,
        step,
    )
}

/// How a run goes on with the digests of the files that share their size with others.
pub open spec fn takes_digests(
    settings: Settings,
    candidates: Seq<Seq<FileEntry>>,
    digests: Seq<Option<String>>,
    phase: Phase,
    step: Step,
) -> bool {
    &&& step.save_cache is None
    &&& reports(
        settings,
        pick(concat(candidates), repeated_groups(digest_keys(digests))),
        unread(digests),
        Seq::empty(),
        phase,
        step,
    )
}

/// How a run goes on with what the review page needs to know.
pub open spec fn shows(
    groups: Seq<Seq<FileEntry>>,
    resolved: Seq<Seq<Resolved>>,
    phase: Phase,
    step: Step,
) -> bool {
    &&& phase == (Phase::Reviewing { resumed: false })
    &&& step.action is Review
    &&& step.action->Review_0@ == page_text(groups, resolved)
    &&& says(step, Seq::empty())
}

/// What is said before selected files are deleted.
pub open spec fn selection_text(settings: Settings, count: nat, resumed: bool) -> Seq<char> {
    "\nDeleting "@ + decimal(count) + if on_nas(settings) {
        " files from NAS via UI request...\n"@
    } else if resumed {
        " files...\n"@
    } else {
        " files from UI request...\n"@
    }
}

/// How a run goes on after a review.
pub open spec fn takes_selection(
    settings: Settings,
    resumed: bool,
    paths: Option<Seq<String>>,
    phase: Phase,
    step: Step,
) -> bool {
    &&& step.save_cache is None
    &&& match paths {
        Some(list) => if list.len() == 0 {
            &&& ends(phase, step.action, 0)
            &&& lines(step.out@) == if resumed {
                Seq::empty()
            } else {
                seq![note("No files selected for deletion.\n"@)]
            }
        } else {
            removes(
                page_batches(list, on_nas(settings)),
                0,
                0,
                0,
                false,
                seq![note(selection_text(settings, list.len(), resumed))],
                phase,
                step,
            )
        },
        None => {
            &&& ends(phase, step.action, 0)
            &&& lines(step.out@) == Seq::<LineView>::empty()
        },
    }
}

/// How a run goes on once a batch of files has been dealt with.
pub open spec fn takes_removal(
    list: Seq<Seq<TargetView>>,
    at: int,
    removed: int,
    errors: int,
    by_flag: bool,
    failed: Seq<Failure>,
    phase: Phase,
    step: Step,
) -> bool {
    let gone = removed_count(list[at], failed);
    &&& step.save_cache is None
    &&& removes(
        list,
        at + 1,
        removed + gone,
        errors + list[at].len() - gone,
        by_flag,
        removed_lines(list[at], failed) + failure_lines(failed),
        phase,
        step,
    )
}

/// The text that may be missing, as text.
pub open spec fn maybe_text(text: Option<String>) -> Option<Seq<char>> {
    match text {
        Some(t) => Some(t@),
        None => None,
    }
}

/// How a run goes on after an event.
pub open spec fn advances(before: Run, event: Event, after: Run, step: Step) -> bool {
    let settings = before.settings;
    &&& after.settings == settings
    &&& match event {
        Event::Started => begins(settings, after.phase, step),
        Event::Session(page) => resumes(settings, maybe_text(page), after.phase, step),
        Event::Selected(paths) => takes_selection(
            settings,
            before.phase->resumed,
            match paths {
                Some(list) => Some(list@),
                None => None,
            },
            after.phase,
            step,
        ),
        Event::RootFound(found) => scans(settings, found, after.phase, step),
        Event::Shares(shares) => lists_shares(
            match shares {
                Ok(list) => Ok(texts(list@)),
                Err(error) => Err(error@),
            },
            after.phase,
            step,
        ),
        Event::Files(files) => takes_files(
            settings,
            match files {
                Ok(list) => Ok(list@),
                Err(error) => Err(error@),
            },
            after.phase,
            step,
        ),
        Event::Cache(saved) => takes_cache(
            settings,
            before.phase->LoadingCache_files@,
            maybe_text(saved),
            after.phase,
            step,
        ),
        Event::Hashes(hashes) => takes_hashes(
            settings,
            before.phase->Hashing_files@,
            before.phase->cache@,
            hashes@,
            after.phase,
            step,
        ),
        Event::Digests(digests) => takes_digests(
            settings,
            contents(before.phase->candidates@),
            digests@,
            after.phase,
            step,
        ),
        Event::Looked(resolved) => shows(
            contents(before.phase->groups@),
            contents(resolved@),
            after.phase,
            step,
        ),
        Event::Removed(failed) => takes_removal(
            batches(before.phase->list@),
            before.phase->at as int,
            before.phase->removed as int,
            before.phase->errors as int,
            before.phase->by_flag,
            failed@,
            after.phase,
            step,
        ),
    }
}

} // verus!
