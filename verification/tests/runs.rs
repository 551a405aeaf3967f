use dedup_pictures::cache::HashCache;
use dedup_pictures::cli::Options;
use dedup_pictures::entry::{FileEntry, FileSource};
use dedup_pictures::flow::{Action, Event, Phase, Run, Settings, Step};
use dedup_pictures::html::Resolved;
use dedup_pictures::output::{counted, joined, Line};
use dedup_pictures::remove::{done, selected_files, superfluous_files, tally, Failure, Target};
use dedup_pictures::run::with_cache;
use std::path::PathBuf;

fn options() -> Options {
    Options {
        path: "/photos".to_string(),
        delete: false,
        all_files: false,
        similar: false,
        preview: false,
        list_shares: false,
        resume: false,
        clear_cache: false,
        keep: "largest".to_string(),
        threshold: 10,
        nas_host: None,
        nas_user: None,
        nas_otp: None,
    }
}

fn local_run(options: Options) -> Run {
    Run::new(Settings { options, nas_user: None })
}

fn nas_run(options: Options) -> Run {
    Run::new(Settings { options, nas_user: Some("me".to_string()) })
}

fn local(path: &str, size: u64) -> FileEntry {
    FileEntry {
        display_path: path.to_string(),
        size,
        mtime: 1,
        ext: "jpg".to_string(),
        source: FileSource::Local(PathBuf::from(path)),
    }
}

fn nas(path: &str, size: u64) -> FileEntry {
    FileEntry {
        display_path: path.to_string(),
        size,
        mtime: 1,
        ext: "jpg".to_string(),
        source: FileSource::Nas(path.to_string()),
    }
}

fn tell(run: Run, event: Event) -> (Run, Step) {
    assert!(run.accepts(&event));
    run.advance(event)
}

fn printed(step: &Step) -> String {
    step.out.iter().filter(|l| !l.to_stderr).map(|l| l.text.as_str()).collect()
}

fn warned(step: &Step) -> String {
    step.out.iter().filter(|l| l.to_stderr).map(|l| l.text.as_str()).collect()
}

fn names(action: &Action) -> Vec<String> {
    match action {
        Action::Remove(batch) => batch.iter().map(|t| t.name.clone()).collect(),
        Action::HashPictures(files) | Action::DigestFiles(files) => files.iter().map(|f| f.display_path.clone()).collect(),
        _ => panic!("no files"),
    }
}

fn failure(name: &str) -> Failure {
    Failure { name: name.to_string(), error: "denied".to_string() }
}

fn digest(text: &str) -> Option<String> {
    Some(text.to_string())
}

fn scan(run: Run, files: Vec<FileEntry>) -> (Run, Step) {
    let (run, step) = tell(run, Event::Started);
    let run = if matches!(step.action, Action::CheckRoot) { tell(run, Event::RootFound(true)).0 } else { run };
    tell(run, Event::Files(Ok(files)))
}

const LOCAL_BANNER: &str = "Scanning : /photos (local)\nMode     : dry-run\nKeep     : largest\n\n";

#[test]
fn folder_that_is_missing_ends_the_run() {
    let (run, step) = tell(local_run(options()), Event::Started);
    assert!(matches!(step.action, Action::CheckRoot));
    let (_, step) = tell(run, Event::RootFound(false));
    assert!(matches!(step.action, Action::Exit(1)));
    assert_eq!(warned(&step), "Path does not exist: /photos\n");
}

#[test]
fn scan_is_announced() {
    let (run, _) = tell(local_run(options()), Event::Started);
    let (_, step) = tell(run, Event::RootFound(true));
    assert!(matches!(step.action, Action::ListFiles));
    assert_eq!(printed(&step), LOCAL_BANNER);
    let (_, step) = tell(nas_run(Options { delete: true, keep: "newest".to_string(), ..options() }), Event::Started);
    assert!(matches!(step.action, Action::ListFiles));
    assert_eq!(printed(&step), "Scanning : /photos (NAS)\nMode     : DELETE\nKeep     : newest\n\n");
}

#[test]
fn shares_are_listed_on_a_nas_only() {
    let (run, step) = tell(nas_run(Options { list_shares: true, ..options() }), Event::Started);
    assert!(matches!(step.action, Action::ListShares));
    assert_eq!(printed(&step), "Available root folders for user 'me':\n");
    let (_, step) = tell(run, Event::Shares(Ok(vec!["/home".to_string(), "/photo".to_string()])));
    assert!(matches!(step.action, Action::Exit(0)));
    assert_eq!(printed(&step), "  /home\n  /photo\n");
    let (_, step) = tell(local_run(Options { list_shares: true, ..options() }), Event::Started);
    assert!(matches!(step.action, Action::CheckRoot));
}

#[test]
fn missing_shares_are_said() {
    let (run, _) = tell(nas_run(Options { list_shares: true, ..options() }), Event::Started);
    let (_, step) = tell(run, Event::Shares(Ok(Vec::new())));
    assert_eq!(printed(&step), "  (No shared folders found)\n");
    let (run, _) = tell(nas_run(Options { list_shares: true, ..options() }), Event::Started);
    let (_, step) = tell(run, Event::Shares(Err("offline".to_string())));
    assert_eq!(warned(&step), "Failed to list shares: offline\n");
    assert!(matches!(step.action, Action::Exit(0)));
}

#[test]
fn listing_that_fails_ends_the_run() {
    let (run, _) = tell(nas_run(options()), Event::Started);
    let (_, step) = tell(run, Event::Files(Err("offline".to_string())));
    assert!(matches!(step.action, Action::Exit(1)));
    assert_eq!(warned(&step), "Failed to list files: offline\n");
}

#[test]
fn dry_run_reports_and_ends() {
    let files = vec![local("/photos/b", 1024), local("/photos/a", 1024), local("/photos/c", 7)];
    let (run, step) = scan(local_run(options()), files);
    assert_eq!(printed(&step), "Scanned 3 files\nHashing 2 files across 1 same-size groups...\n");
    assert_eq!(names(&step.action), vec!["/photos/b", "/photos/a"]);
    let (run, step) = tell(run, Event::Digests(vec![digest("x"), digest("x")]));
    assert!(matches!(step.action, Action::Exit(0)));
    assert!(step.save_cache.is_none());
    assert_eq!(
        printed(&step),
        "\nGroup 1 (2 copies):\n  [KEEP] /photos/b\n  [DEL]  /photos/a (1.00 KB)\n\n--- Summary ---\nDuplicate groups : 1\nFiles to remove  : 1\nSpace to recover : 1.00 KB\n\nDry-run complete. Re-run with --delete to remove the [DEL] files.\n"
    );
    assert!(matches!(run.phase, Phase::Finished));
}

#[test]
fn run_without_duplicates_ends() {
    let (run, _) = scan(local_run(Options { delete: true, ..options() }), vec![local("a", 5), local("b", 5)]);
    let (_, step) = tell(run, Event::Digests(vec![digest("x"), None]));
    assert!(matches!(step.action, Action::Exit(0)));
    assert_eq!(warned(&step), "  (1 files skipped due to errors)\n");
    assert_eq!(printed(&step), "\nNo duplicates found.\n");
}

#[test]
fn duplicates_are_deleted_one_by_one_on_this_machine() {
    let files = vec![local("a", 5), local("b", 5), local("c", 5)];
    let (run, _) = scan(local_run(Options { delete: true, ..options() }), files);
    let (run, step) = tell(run, Event::Digests(vec![digest("x"), digest("x"), digest("x")]));
    assert_eq!(names(&step.action), vec!["b"]);
    assert!(matches!(&step.action, Action::Remove(batch) if batch[0].path == Some(PathBuf::from("b"))));
    assert!(printed(&step).ends_with("Space to recover : 0.01 KB\n\nDeleting...\n"));
    let (run, step) = tell(run, Event::Removed(Vec::new()));
    assert_eq!(printed(&step), "  Deleted: b\n");
    assert_eq!(names(&step.action), vec!["c"]);
    let (_, step) = tell(run, Event::Removed(vec![failure("c")]));
    assert_eq!(warned(&step), "  Error: c — denied\n");
    assert_eq!(printed(&step), "\nDone. Deleted 1 files (1 errors).\n");
    assert!(matches!(step.action, Action::Exit(0)));
}

#[test]
fn duplicates_are_deleted_group_by_group_on_a_nas() {
    let files = vec![nas("a", 5), nas("b", 5), nas("c", 5), nas("d", 6), nas("e", 6)];
    let (run, _) = scan(nas_run(Options { delete: true, ..options() }), files);
    let digests = vec![digest("x"), digest("x"), digest("x"), digest("y"), digest("y")];
    let (run, step) = tell(run, Event::Digests(digests));
    assert_eq!(names(&step.action), vec!["b", "c"]);
    assert!(printed(&step).ends_with("\nDeleting from NAS...\n"));
    let (run, step) = tell(run, Event::Removed(vec![failure("b"), failure("other")]));
    assert_eq!(printed(&step), "  Deleted: c\n");
    assert_eq!(warned(&step), "  Error: b — denied\n  Error: other — denied\n");
    assert_eq!(names(&step.action), vec!["e"]);
    let (_, step) = tell(run, Event::Removed(Vec::new()));
    assert_eq!(printed(&step), "  Deleted: e\n\nDone. Deleted 2 files (1 errors).\n");
}

#[test]
fn deleting_bypasses_the_page() {
    let both = Options { delete: true, preview: true, ..options() };
    let (run, _) = scan(local_run(both), vec![local("a", 5), local("b", 5)]);
    let (_, step) = tell(run, Event::Digests(vec![digest("x"), digest("x")]));
    assert_eq!(names(&step.action), vec!["b"]);
}

#[test]
fn review_deletes_what_was_selected() {
    let (run, _) = scan(local_run(Options { preview: true, ..options() }), vec![local("a", 5), local("b", 5)]);
    let (run, step) = tell(run, Event::Digests(vec![digest("x"), digest("x")]));
    assert!(matches!(&step.action, Action::LookUp(groups) if groups.len() == 1 && groups[0].len() == 2));
    let looked = vec![vec![
        Resolved::Local { path: "a".to_string(), canonical: None },
        Resolved::Local { path: "b".to_string(), canonical: None },
    ]];
    let (run, step) = tell(run, Event::Looked(looked));
    assert!(matches!(&step.action, Action::Review(page) if page.contains("data-path=\"b\"")));
    let (run, step) = tell(run, Event::Selected(Some(vec!["a".to_string()])));
    assert_eq!(printed(&step), "\nDeleting 1 files from UI request...\n");
    assert!(matches!(&step.action, Action::Remove(batch) if batch[0].path.is_none()));
    assert_eq!(names(&step.action), vec!["a"]);
    let (_, step) = tell(run, Event::Removed(Vec::new()));
    assert_eq!(printed(&step), "  Deleted: a\nDone. Deleted 1 files (0 errors).\n");
}

#[test]
fn review_without_a_selection_ends_the_run() {
    let review = |paths: Option<Vec<String>>| {
        let (run, _) = scan(nas_run(Options { preview: true, ..options() }), vec![nas("a", 5), nas("b", 5)]);
        let (run, _) = tell(run, Event::Digests(vec![digest("x"), digest("x")]));
        let looked = vec![vec![Resolved::Nas { thumbnail: None }, Resolved::Nas { thumbnail: None }]];
        let (run, _) = tell(run, Event::Looked(looked));
        tell(run, Event::Selected(paths)).1
    };
    let step = review(Some(Vec::new()));
    assert_eq!(printed(&step), "No files selected for deletion.\n");
    assert!(matches!(step.action, Action::Exit(0)));
    let step = review(None);
    assert!(step.out.is_empty());
    assert!(matches!(step.action, Action::Exit(0)));
    let step = review(Some(vec!["a".to_string(), "b".to_string()]));
    assert_eq!(printed(&step), "\nDeleting 2 files from NAS via UI request...\n");
    assert_eq!(names(&step.action), vec!["a", "b"]);
}

#[test]
fn last_review_is_taken_up_again() {
    let resume = || Options { resume: true, delete: true, ..options() };
    let (run, step) = tell(local_run(resume()), Event::Started);
    assert!(matches!(step.action, Action::FindSession));
    let (run, step) = tell(run, Event::Session(Some("<html>".to_string())));
    assert_eq!(printed(&step), "Resuming previous session...\n");
    assert!(matches!(&step.action, Action::Review(page) if page == "<html>"));
    let (_, step) = tell(run, Event::Selected(Some(vec!["a".to_string()])));
    assert_eq!(printed(&step), "\nDeleting 1 files...\n");
    let (run, _) = tell(nas_run(resume()), Event::Started);
    let (run, step) = tell(run, Event::Session(Some("<html>".to_string())));
    assert_eq!(printed(&step), "Resuming previous NAS session...\n");
    let (_, step) = tell(run, Event::Selected(Some(Vec::new())));
    assert!(step.out.is_empty());
}

#[test]
fn missing_review_ends_the_run() {
    let (run, _) = tell(nas_run(Options { resume: true, ..options() }), Event::Started);
    let (_, step) = tell(run, Event::Session(None));
    assert!(matches!(step.action, Action::Exit(1)));
    assert_eq!(warned(&step), "No saved session found. Run with --preview first.\n");
}

#[test]
fn similar_pictures_are_hashed_and_kept_in_the_cache() {
    let files = || vec![local("a", 5), local("b", 6), local("c", 7)];
    let similar = || Options { similar: true, ..options() };
    let (run, step) = scan(local_run(similar()), files());
    assert!(matches!(step.action, Action::ReadCache));
    assert_eq!(printed(&step), "Scanned 3 files\n");
    let (run, step) = tell(run, Event::Cache(None));
    assert_eq!(printed(&step), "  Hashing 3 new files in parallel...\n");
    assert_eq!(names(&step.action), vec!["a", "b", "c"]);
    let (_, step) = tell(run, Event::Hashes(vec![Some(0), Some(1), None]));
    assert!(matches!(step.action, Action::Exit(0)));
    let shown = printed(&step);
    assert!(shown.starts_with("  Cache saved (2 total entries)\nComparing all pairs (threshold = 10 bits)...\nFound 1 groups of similar images\n\nGroup 1 (2 copies):\n  [KEEP] b\n  [DEL]  a (0.00 KB)\n"));
    assert_eq!(warned(&step), "  (1 files skipped due to errors)\n");
    let saved = step.save_cache.unwrap();

    let (run, _) = scan(local_run(similar()), files());
    let (run, step) = tell(run, Event::Cache(Some(saved)));
    assert_eq!(printed(&step), "  ⚡ 2 files loaded from cache\n  Hashing 1 new files in parallel...\n");
    assert_eq!(names(&step.action), vec!["c"]);
    let (_, step) = tell(run, Event::Hashes(vec![Some(3)]));
    let saved = step.save_cache.unwrap();

    let (run, _) = scan(local_run(similar()), files());
    let (_, step) = tell(run, Event::Cache(Some(saved)));
    assert!(printed(&step).starts_with("  ⚡ 3 files loaded from cache\nComparing all pairs (threshold = 10 bits)...\nFound 1 groups of similar images\n"));
    assert!(step.save_cache.is_none());
    assert!(matches!(step.action, Action::Exit(0)));
}

#[test]
fn loaded_cache_decides_what_is_hashed() {
    let mut cache = HashCache::load(None);
    cache.insert(&local("a", 5), 1);
    let settings = Settings { options: Options { similar: true, ..options() }, nas_user: None };
    let (_, step) = with_cache(&settings, vec![local("a", 5), local("b", 5)], cache);
    assert_eq!(names(&step.action), vec!["b"]);
}

#[test]
fn sizes_that_do_not_add_up_end_the_run() {
    let (run, _) = scan(local_run(Options { delete: true, ..options() }), vec![local("a", u64::MAX), local("b", u64::MAX), local("c", u64::MAX)]);
    let (_, step) = tell(run, Event::Digests(vec![digest("x"), digest("x"), digest("x")]));
    assert!(matches!(step.action, Action::GiveUp));
    assert!(step.out.is_empty());
}

#[test]
fn events_out_of_turn_are_not_accepted() {
    let run = local_run(options());
    assert!(!run.accepts(&Event::RootFound(true)));
    assert!(run.accepts(&Event::Started));
    let (run, _) = scan(run, vec![local("a", 5), local("b", 5)]);
    assert!(!run.accepts(&Event::Started));
    assert!(!run.accepts(&Event::Digests(vec![None])));
    assert!(!run.accepts(&Event::Digests(vec![None, None, None])));
    assert!(run.accepts(&Event::Digests(vec![None, None])));
    let (run, _) = scan(local_run(Options { similar: true, ..options() }), vec![local("a", 5)]);
    let (run, _) = tell(run, Event::Cache(None));
    assert!(!run.accepts(&Event::Hashes(Vec::new())));
}

#[test]
fn first_file_of_each_group_stays() {
    let groups = vec![vec![local("a", 1), local("b", 1)], vec![local("c", 1)], vec![local("d", 1), nas("e", 1), local("f", 1)]];
    let list = superfluous_files(&groups, false);
    let shown: Vec<Vec<&str>> = list.iter().map(|b| b.iter().map(|t| t.name.as_str()).collect()).collect();
    assert_eq!(shown, vec![vec!["b"], vec!["f"]]);
    let list = superfluous_files(&groups, true);
    let shown: Vec<Vec<&str>> = list.iter().map(|b| b.iter().map(|t| t.name.as_str()).collect()).collect();
    assert_eq!(shown, vec![vec!["e"]]);
}

#[test]
fn selected_files_go_in_one_batch_to_a_nas() {
    let paths = || vec!["a".to_string(), "b".to_string()];
    assert_eq!(selected_files(paths(), true).len(), 1);
    assert_eq!(selected_files(paths(), false).len(), 2);
}

#[test]
fn removals_are_tallied() {
    let batch = vec![
        Target { name: "a".to_string(), path: None },
        Target { name: "b".to_string(), path: None },
        Target { name: "a".to_string(), path: None },
    ];
    let mut out: Vec<Line> = Vec::new();
    assert_eq!(tally(&mut out, &batch, &vec![failure("a")]), 1);
    let texts: Vec<&str> = out.iter().map(|l| l.text.as_str()).collect();
    assert_eq!(texts, vec!["  Deleted: b\n", "  Error: a — denied\n"]);
    assert_eq!(done(1, 2), "Done. Deleted 1 files (2 errors).\n");
}

#[test]
fn texts_are_put_together() {
    assert_eq!(joined("a", "b", "c"), "abc");
    assert_eq!(counted("n=", 12, ";"), "n=12;");
}
