use dedup_pictures::cli::{parse_args, unknown_keep, usage, Command, Options};
use dedup_pictures::entry::{
    collect_local_files, entry_with_extension, is_browser_displayable, local_entry,
    normalize_extension, wants_extension, FileEntry, FileMeta, FileSource, FoundFile,
};
use dedup_pictures::nas::build_base_url;
use dedup_pictures::report::{checked_totals, compute_totals, report};
use dedup_pictures::size::format_size;
use dedup_pictures::text::{
    is_text_le, parse_u32, push_decimal, push_spaces_escaped, same_text,
};
use std::path::PathBuf;

fn entry(path: &str, size: u64) -> FileEntry {
    FileEntry {
        display_path: path.to_string(),
        size,
        mtime: 0,
        ext: "jpg".to_string(),
        source: FileSource::Local(PathBuf::from(path)),
    }
}

fn found(path: &str, ext: Option<&str>, size: u64, mtime: Option<u64>) -> FoundFile {
    FoundFile {
        display_path: path.to_string(),
        ext: ext.map(|e| e.to_string()),
        meta: Some(FileMeta { size, mtime }),
        path: PathBuf::from(path),
    }
}

fn args(list: &[&str]) -> Vec<String> {
    list.iter().map(|a| a.to_string()).collect()
}

fn options(list: &[&str]) -> Options {
    match parse_args(&args(list)) {
        Command::Run(options) => options,
        _ => panic!("no run"),
    }
}

fn formatted(bytes: u64) -> String {
    if bytes >= 1_073_741_824 {
        format!("{:.2} GB", bytes as f64 / 1_073_741_824.0)
    } else if bytes >= 1_048_576 {
        format!("{:.2} MB", bytes as f64 / 1_048_576.0)
    } else {
        format!("{:.2} KB", bytes as f64 / 1_024.0)
    }
}

#[test]
fn sizes_are_written_in_the_largest_unit_that_fits() {
    assert_eq!(format_size(0), "0.00 KB");
    assert_eq!(format_size(1), "0.00 KB");
    assert_eq!(format_size(1023), "1.00 KB");
    assert_eq!(format_size(1536), "1.50 KB");
    assert_eq!(format_size(1_048_575), "1024.00 KB");
    assert_eq!(format_size(1_048_576), "1.00 MB");
    assert_eq!(format_size(1_073_741_823), "1024.00 MB");
    assert_eq!(format_size(1_073_741_824), "1.00 GB");
    assert_eq!(format_size(u64::MAX), "17179869184.00 GB");
}

#[test]
fn sizes_are_rounded_as_doubles_are() {
    let mut bytes = 1u64;
    while bytes < u64::MAX / 3 {
        for near in [bytes - 1, bytes, bytes + 1, bytes + bytes / 3, bytes + bytes / 7] {
            assert_eq!(format_size(near), formatted(near), "{near}");
        }
        bytes = bytes * 2 + bytes / 5;
    }
    for bytes in 0..5000u64 {
        assert_eq!(format_size(bytes), formatted(bytes));
    }
    let mut bytes = 12345u64;
    for _ in 0..20000 {
        bytes = bytes.wrapping_mul(6364136223846793005).wrapping_add(1442695040888963407);
        let shifted = bytes >> (bytes % 64);
        assert_eq!(format_size(shifted), formatted(shifted), "{shifted}");
        assert_eq!(format_size(bytes), formatted(bytes), "{bytes}");
    }
}

#[test]
fn halves_of_a_hundredth_are_rounded_to_even() {
    for bytes in [128u64, 384, 640, 896, 5243, 131072 + 128, 1_342_177_280, 1_207_959_552] {
        assert_eq!(format_size(bytes), formatted(bytes));
    }
}

#[test]
fn numbers_are_written_in_decimal() {
    let mut text = String::from("n=");
    push_decimal(&mut text, 0);
    push_decimal(&mut text, u64::MAX);
    assert_eq!(text, "n=018446744073709551615");
}

#[test]
fn numbers_are_read_from_decimal() {
    assert_eq!(parse_u32("0"), Some(0));
    assert_eq!(parse_u32("15"), Some(15));
    assert_eq!(parse_u32("+15"), Some(15));
    assert_eq!(parse_u32("0000000000000000000000007"), Some(7));
    assert_eq!(parse_u32("4294967295"), Some(u32::MAX));
    for text in ["", "+", "-", "-1", "-0", "++1", "1+", " 1", "1 ", "4294967296", "99999999999999999999", "1.5", "x", "\u{664}"] {
        assert_eq!(parse_u32(text), None, "{text}");
        assert!(text.parse::<u32>().is_err());
    }
}

#[test]
fn texts_are_compared_byte_by_byte() {
    assert!(same_text("a\u{e9}", "a\u{e9}"));
    assert!(!same_text("a", "ab"));
    for (a, b) in [("", "a"), ("a", "a"), ("a", "b"), ("a", "ab"), ("Z", "a"), ("z", "\u{e9}"), ("\u{ffff}", "\u{10000}")] {
        assert_eq!(is_text_le(a, b), a <= b);
        assert_eq!(is_text_le(b, a), b <= a);
    }
}

#[test]
fn spaces_are_escaped() {
    let mut text = String::new();
    push_spaces_escaped(&mut text, "/a b/c  d%20");
    assert_eq!(text, "/a%20b/c%20%20d%20");
}

#[test]
fn extensions_are_in_lower_case() {
    assert_eq!(normalize_extension(Some("JPG")), "jpg");
    assert_eq!(normalize_extension(Some("\u{c9}X")), "\u{e9}x");
    assert_eq!(normalize_extension(None), "");
}

#[test]
fn pictures_are_known_by_their_extension() {
    assert!(wants_extension("heic", false));
    assert!(wants_extension("pef", false));
    assert!(!wants_extension("txt", false));
    assert!(!wants_extension("", false));
    assert!(wants_extension("txt", true));
    assert!(is_browser_displayable("webp"));
    assert!(!is_browser_displayable("heic"));
}

#[test]
fn scan_holds_pictures_that_are_not_empty() {
    let mut unreadable = found("/p/u.png", Some("png"), 5, None);
    unreadable.meta = None;
    let files = collect_local_files(
        vec![
            found("/p/a.JPG", Some("JPG"), 10, Some(100)),
            found("/p/b.txt", Some("txt"), 10, Some(100)),
            found("/p/c.png", Some("png"), 0, Some(100)),
            found("/p/d.png", Some("png"), 3, None),
            found("/p/none", None, 3, None),
            unreadable,
        ],
        false,
    );
    assert_eq!(files.len(), 2);
    assert_eq!(files[0].display_path, "/p/a.JPG");
    assert_eq!(files[0].ext, "jpg");
    assert_eq!((files[0].size, files[0].mtime), (10, 100));
    assert!(matches!(&files[0].source, FileSource::Local(p) if p == &PathBuf::from("/p/a.JPG")));
    assert_eq!((files[1].size, files[1].mtime), (3, 0));
}

#[test]
fn scan_of_all_files_holds_the_others_too() {
    assert!(local_entry(found("/p/b.txt", Some("txt"), 10, None), true).is_some());
    assert!(local_entry(found("/p/none", None, 10, None), true).is_some());
    assert!(local_entry(found("/p/none", None, 10, None), false).is_none());
    assert!(local_entry(found("/p/b.txt", Some("txt"), 0, None), true).is_none());
    let entry = entry_with_extension(found("/p/x", Some("Q"), 1, Some(2)), "gif".to_string(), false);
    assert_eq!(entry.unwrap().ext, "gif");
}

#[test]
fn copies_of_an_entry_are_equal() {
    let first = entry("/p/a", 3);
    let copy = first.clone();
    assert_eq!(copy.display_path, "/p/a");
    assert!(matches!(copy.source, FileSource::Local(p) if p == PathBuf::from("/p/a")));
}

#[test]
fn totals_leave_out_the_first_of_each_group() {
    let groups = vec![
        vec![entry("a", 100), entry("b", 20), entry("c", 3)],
        vec![entry("d", 1000), entry("e", 400)],
    ];
    assert_eq!(compute_totals(&groups), (3, 423));
    assert_eq!(checked_totals(&groups), Some((3, 423)));
    assert_eq!(checked_totals(&Vec::new()), Some((0, 0)));
}

#[test]
fn totals_that_do_not_fit_are_noticed() {
    let groups = vec![vec![entry("a", 1), entry("b", u64::MAX), entry("c", 1)]];
    assert_eq!(checked_totals(&groups), None);
    let groups = vec![vec![entry("a", u64::MAX), entry("b", u64::MAX)], vec![entry("c", 1), entry("d", 0)]];
    assert_eq!(checked_totals(&groups), Some((2, u64::MAX)));
}

#[test]
fn report_lists_groups_and_totals() {
    let groups = vec![vec![entry("/p/a", 4096), entry("/p/b", 2048)], vec![entry("/p/c", 1), entry("/p/d", 1024)]];
    let text = report(&groups, 2, 3072, false);
    assert_eq!(
        text,
        "\nGroup 1 (2 copies):\n  [KEEP] /p/a\n  [DEL]  /p/b (2.00 KB)\nGroup 2 (2 copies):\n  [KEEP] /p/c\n  [DEL]  /p/d (1.00 KB)\n\n--- Summary ---\nDuplicate groups : 2\nFiles to remove  : 2\nSpace to recover : 3.00 KB\n\nDry-run complete. Re-run with --delete to remove the [DEL] files.\n"
    );
    let text = report(&groups, 2, 3072, true);
    assert!(text.ends_with("Space to recover : 3.00 KB\n"));
}

#[test]
fn usage_is_asked_for() {
    assert!(matches!(parse_args(&args(&[])), Command::Usage));
    assert!(matches!(parse_args(&args(&["prog"])), Command::Usage));
    assert!(matches!(parse_args(&args(&["prog", "--help"])), Command::Usage));
    assert!(matches!(parse_args(&args(&["prog", "-h", "--delete"])), Command::Usage));
    assert!(matches!(parse_args(&args(&["prog", "/p", "--help"])), Command::Run(_)));
}

#[test]
fn usage_names_the_program() {
    let text = usage("prog");
    assert!(text.starts_with("Usage:\n  prog <path> [OPTIONS]                            (local mode)\n  prog <nas-path> --nas-host <HOST> --nas-user <USER> [OPTIONS]  (NAS mode)\n\nExamples:\n  prog /Volumes/photos --preview\n  prog /volume1/photos --nas-host 192.168.1.100 --nas-user admin --preview\n\nCommon options:\n"));
    assert!(text.ends_with("By default runs in dry-run mode. Review the output, then re-run with --delete.\nCache location: ~/.cache/dedupPictures/\n"));
    assert!(text.contains("  --threshold <N>      Hamming distance threshold for --similar (default: 10, max: 64)\n"));
    assert_eq!(text.lines().count(), 30);
}

#[test]
fn options_have_defaults() {
    let o = options(&["prog", "/p"]);
    assert_eq!(o.path, "/p");
    assert!(!o.delete && !o.all_files && !o.similar && !o.preview);
    assert!(!o.list_shares && !o.resume && !o.clear_cache);
    assert_eq!(o.keep, "largest");
    assert_eq!(o.threshold, 10);
    assert!(o.nas_host.is_none() && o.nas_user.is_none() && o.nas_otp.is_none());
}

#[test]
fn options_are_read_wherever_they_stand() {
    let o = options(&[
        "prog", "/p", "--delete", "--keep", "oldest", "--all-files", "--similar", "--threshold", "5", "--preview",
        "--list-shares", "--resume", "--clear-cache", "--nas-host", "nas:5000", "--nas-user", "me", "--nas-otp", "123456",
    ]);
    assert!(o.delete && o.all_files && o.similar && o.preview);
    assert!(o.list_shares && o.resume && o.clear_cache);
    assert_eq!((o.keep.as_str(), o.threshold), ("oldest", 5));
    assert_eq!(o.nas_host.as_deref(), Some("nas:5000"));
    assert_eq!(o.nas_user.as_deref(), Some("me"));
    assert_eq!(o.nas_otp.as_deref(), Some("123456"));
}

#[test]
fn first_value_of_an_option_holds() {
    let o = options(&["prog", "/p", "--threshold", "3", "--threshold", "4", "--keep"]);
    assert_eq!(o.threshold, 3);
    assert_eq!(o.keep, "largest");
}

#[test]
fn threshold_that_is_no_number_is_passed_over() {
    assert_eq!(options(&["prog", "/p", "--threshold", "many"]).threshold, 10);
    assert_eq!(options(&["prog", "/p", "--threshold"]).threshold, 10);
    assert_eq!(options(&["prog", "/p", "--threshold", "64"]).threshold, 64);
}

#[test]
fn unknown_keep_strategy_is_refused() {
    match parse_args(&args(&["prog", "/p", "--keep", "best", "--clear-cache"])) {
        Command::UnknownKeep { keep, clear_cache } => {
            assert_eq!(keep, "best");
            assert!(clear_cache);
        }
        _ => panic!("taken"),
    }
    assert_eq!(unknown_keep("best"), "Unknown --keep value 'best'. Use: largest, newest, oldest\n");
}

#[test]
fn nas_address_has_a_scheme_and_a_port() {
    assert_eq!(build_base_url("192.168.1.100"), "https://192.168.1.100:5001");
    assert_eq!(build_base_url("nas.local:5000"), "http://nas.local:5000");
    assert_eq!(build_base_url("nas.local:5001"), "https://nas.local:5001");
    assert_eq!(build_base_url("n5000"), "https://n5000:5001");
}

#[test]
fn every_file_is_kept_or_removed() {
    let groups = vec![vec![entry("a", 1), entry("b", 1), entry("c", 1)], vec![entry("d", 1)]];
    let files: usize = groups.iter().map(|g| g.len()).sum();
    assert_eq!(compute_totals(&groups).0 + groups.len(), files);
}
