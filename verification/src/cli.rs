//! The command line.

use vstd::prelude::*;
use crate::output::joined;
use crate::similar::DEFAULT_THRESHOLD;
use crate::text::{
    decimal, law_written_numbers_are_read_back, parse_u32, same_text, texts, u32_of,
};

verus! {

/// The usage text up to the first name of the program.
pub const USAGE_LOCAL: &'static str = "Usage:\n  ";

/// The usage text up to the second name of the program.
pub const USAGE_NAS: &'static str = " <path> [OPTIONS]                            (local mode)\n  ";

/// The usage text up to the third name of the program.
pub const USAGE_LOCAL_EXAMPLE: &'static str = " <nas-path> --nas-host <HOST> --nas-user <USER> [OPTIONS]  (NAS mode)\n\nExamples:\n  ";

/// The usage text up to the fourth name of the program.
pub const USAGE_NAS_EXAMPLE: &'static str = " /Volumes/photos --preview\n  ";

/// The rest of the usage text.
pub const USAGE_OPTIONS: &'static str = " /volume1/photos --nas-host 192.168.1.100 --nas-user admin --preview

Common options:
  --list-shares        List available root folder paths on the NAS, then exit
  --similar            Find visually similar pictures (using perceptual hashing)
  --threshold <N>      Hamming distance threshold for --similar (default: 10, max: 64)
  --delete             Delete duplicates (default: dry-run)
  --keep newest        Keep newest file per group (default: largest file)
  --keep oldest        Keep oldest file per group
  --all-files          Scan all file types, not just images
  --preview            Open an interactive HTML report in your browser
  --resume             Resume a previous --preview session (selections are auto-saved)
  --clear-cache        Force re-hash all files (clears the perceptual hash cache)

NAS options (Synology DSM with Secure SignIn / TOTP):
  --nas-host <HOST>    NAS address — e.g. 192.168.1.100  or  nas.local:5000
                       Defaults to HTTPS on port 5001; port 5000 → HTTP
  --nas-user <USER>    DSM username (prompted if omitted)
  --nas-otp  <CODE>    6-digit OTP from Synology Secure SignIn app
                       (prompted interactively if omitted)
  Password is always prompted — never passed as a flag.

By default runs in dry-run mode. Review the output, then re-run with --delete.
Cache location: ~/.cache/dedupPictures/
";

/// The usage text of a program of the given name.
pub open spec fn usage_text(program: Seq<char>) -> Seq<char> {
    USAGE_LOCAL@ + program + USAGE_NAS@ + program + USAGE_LOCAL_EXAMPLE@ + program
        + USAGE_NAS_EXAMPLE@ + program + USAGE_OPTIONS@
}

/// The usage text of a program of the given name.
pub fn usage(program: &str) -> (text: String)
    ensures
        text@ == usage_text(program@),
{
    let mut text = String::new();
    text.append(USAGE_LOCAL);
    text.append(program);
    text.append(USAGE_NAS);
    text.append(program);
    text.append(USAGE_LOCAL_EXAMPLE);
    text.append(program);
    text.append(USAGE_NAS_EXAMPLE);
    text.append(program);
    text.append(USAGE_OPTIONS);
    assert(text@ =~= usage_text(program@));
    text
}

/// What a run is asked to do.
pub struct Options {
    /// The folder to scan.
    pub path: String,
    /// Whether duplicates are deleted without a review.
    pub delete: bool,
    /// Whether files of all types are scanned.
    pub all_files: bool,
    /// Whether similar pictures are looked for, and not duplicates.
    pub similar: bool,
    /// Whether the groups are reviewed in the browser.
    pub preview: bool,
    /// Whether the shares of the NAS are listed, and nothing else.
    pub list_shares: bool,
    /// Whether the last review is taken up again.
    pub resume: bool,
    /// Whether the hash cache is dropped first.
    pub clear_cache: bool,
    /// Which file of a group is kept.
    pub keep: String,
    /// How many bits the hashes of similar pictures may differ in.
    pub threshold: u32,
    /// The NAS to scan, where it is not this machine.
    pub nas_host: Option<String>,
    /// The user on the NAS.
    pub nas_user: Option<String>,
    /// The one-time password for the NAS.
    pub nas_otp: Option<String>,
}

/// What a command line asks for.
pub enum Command {
    /// To explain the usage.
    Usage,
    /// To keep a file by a rule that there is not.
    UnknownKeep { keep: String, clear_cache: bool },
    /// To run.
    Run(Options),
}

/// The argument behind the first `flag` that has one.
pub open spec fn value_of(args: Seq<Seq<char>>, flag: Seq<char>) -> Option<Seq<char>>
    decreases args.len(),
{
    if args.len() < 2 {
        None
    } else if args[0] == flag {
        Some(args[1])
    } else {
        value_of(args.skip(1), flag)
    }
}

/// The rule by which a file of each group is kept.
pub open spec fn keep_value(args: Seq<Seq<char>>) -> Seq<char> {
    match value_of(args, "--keep"@) {
        Some(keep) => keep,
        None => "largest"@,
    }
}

/// Whether there is such a rule.
pub open spec fn known_keep(keep: Seq<char>) -> bool {
    keep == "largest"@ || keep == "newest"@ || keep == "oldest"@
}

/// How many bits the hashes of similar pictures may differ in.
pub open spec fn threshold_value(args: Seq<Seq<char>>) -> u32 {
    match value_of(args, "--threshold"@) {
        Some(text) => match u32_of(text) {
            Some(threshold) => threshold,
            None => DEFAULT_THRESHOLD,
        },
        None => DEFAULT_THRESHOLD,
    }
}

/// Whether a text that may be missing is the given one.
pub open spec fn is_text(text: Option<String>, expected: Option<Seq<char>>) -> bool {
    match text {
        Some(t) => expected == Some(t@),
        None => expected is None,
    }
}

/// Whether these are the options that a command line gives.
pub open spec fn gives(args: Seq<Seq<char>>, options: Options) -> bool {
    &&& options.path@ == args[1]
    &&& options.delete == args.contains("--delete"@)
    &&& options.all_files == args.contains("--all-files"@)
    &&& options.similar == args.contains("--similar"@)
    &&& options.preview == args.contains("--preview"@)
    &&& options.list_shares == args.contains("--list-shares"@)
    &&& options.resume == args.contains("--resume"@)
    &&& options.clear_cache == args.contains("--clear-cache"@)
    &&& options.keep@ == keep_value(args)
    &&& options.threshold == threshold_value(args)
    &&& is_text(options.nas_host, value_of(args, "--nas-host"@))
    &&& is_text(options.nas_user, value_of(args, "--nas-user"@))
    &&& is_text(options.nas_otp, value_of(args, "--nas-otp"@))
}

/// Whether a command line asks for the usage text. Its first argument is the program's name.
pub open spec fn asks_for_usage(args: Seq<Seq<char>>) -> bool {
    args.len() < 2 || args[1] == "--help"@ || args[1] == "-h"@
}

/// Whether this is what a command line asks for.
pub open spec fn commands(args: Seq<Seq<char>>, command: Command) -> bool {
    if asks_for_usage(args) {
        command is Usage
    } else if !known_keep(keep_value(args)) {
        &&& command is UnknownKeep
        &&& command->keep@ == keep_value(args)
        &&& command->clear_cache == args.contains("--clear-cache"@)
    } else {
        &&& command is Run
        &&& gives(args, command->Run_0)
    }
}

fn has_flag(args: &Vec<String>, flag: &str) -> (r: bool)
    ensures
        r == texts(args@).contains(flag@),
{
    let mut i: usize = 0;
    while i < args.len()
        invariant
            i <= args@.len(),
            forall|j: int| 0 <= j < i ==> #[trigger] texts(args@)[j] != flag@,
        decreases args@.len() - i,
    {
        if same_text(args[i].as_str(), flag) {
            assert(texts(args@)[i as int] == flag@);
            return true;
        }
        i += 1;
    }
    false
}

fn find_value<'a>(args: &'a Vec<String>, flag: &str) -> (r: Option<&'a String>)
    ensures
        match r {
            Some(value) => value_of(texts(args@), flag@) == Some(value@),
            None => value_of(texts(args@), flag@) is None,
        },
{
    let ghost all = texts(args@);
    let mut i: usize = 0;
    assert(all.skip(0) =~= all);
    while i < args.len() && args.len() - i >= 2
        invariant
            i <= args@.len(),
            all == texts(args@),
            value_of(all, flag@) == value_of(all.skip(i as int), flag@),
        decreases args@.len() - i,
    {
        assert(all.skip(i as int)[0] == all[i as int]);
        assert(all.skip(i as int)[1] == all[i + 1]);
        assert(all.skip(i as int).skip(1) =~= all.skip(i + 1));
        if same_text(args[i].as_str(), flag) {
            return Some(&args[i + 1]);
        }
        i += 1;
    }
    None
}

fn owned_value(args: &Vec<String>, flag: &str) -> (r: Option<String>)
    ensures
        is_text(r, value_of(texts(args@), flag@)),
{
    match find_value(args, flag) {
        Some(value) => Some(value.clone()),
        None => None,
    }
}

fn find_keep(args: &Vec<String>) -> (keep: String)
    ensures
        keep@ == keep_value(texts(args@)),
{
    match find_value(args, "--keep") {
        Some(keep) => keep.clone(),
        None => {
            let mut keep = String::new();
            keep.append("largest");
            assert(keep@ =~= "largest"@);
            keep
        },
    }
}

fn find_threshold(args: &Vec<String>) -> (threshold: u32)
    ensures
        threshold == threshold_value(texts(args@)),
{
    match find_value(args, "--threshold") {
        Some(text) => match parse_u32(text.as_str()) {
            Some(threshold) => threshold,
            None => DEFAULT_THRESHOLD,
        },
        None => DEFAULT_THRESHOLD,
    }
}

fn is_known_keep(keep: &str) -> (r: bool)
    ensures
        r == known_keep(keep@),
{
    same_text(keep, "largest") || same_text(keep, "newest") || same_text(keep, "oldest")
}

/// What a command line asks for. Its first argument is the program's name, the second the folder to
/// scan. An option counts wherever it stands; the first value that is given for it holds. A
/// threshold that is not a number is passed over.
pub fn parse_args(args: &Vec<String>) -> (command: Command)
    ensures
        commands(texts(args@), command),
{
    if args.len() < 2 {
        return Command::Usage;
    }
    let ghost all = texts(args@);
    assert(all[1] == args@[1]@);
    if same_text(args[1].as_str(), "--help") || same_text(args[1].as_str(), "-h") {
        return Command::Usage;
    }
    let clear_cache = has_flag(args, "--clear-cache");
    let keep = find_keep(args);
    if !is_known_keep(keep.as_str()) {
        return Command::UnknownKeep { keep, clear_cache };
    }
    Command::Run(
        Options {
            path: args[1].clone(),
            delete: has_flag(args, "--delete"),
            all_files: has_flag(args, "--all-files"),
            similar: has_flag(args, "--similar"),
            preview: has_flag(args, "--preview"),
            list_shares: has_flag(args, "--list-shares"),
            resume: has_flag(args, "--resume"),
            clear_cache,
            keep,
            threshold: find_threshold(args),
            nas_host: owned_value(args, "--nas-host"),
            nas_user: owned_value(args, "--nas-user"),
            nas_otp: owned_value(args, "--nas-otp"),
        },
    )
}

/// What is said of a rule that there is not.
pub open spec fn unknown_keep_text(keep: Seq<char>) -> Seq<char> {
    "Unknown --keep value '"@ + keep + "'. Use: largest, newest, oldest\n"@
}

/// What is said of a rule that there is not.
pub fn unknown_keep(keep: &str) -> (text: String)
    ensures
        text@ == unknown_keep_text(keep@),
{
    joined("Unknown --keep value '", keep, "'. Use: largest, newest, oldest\n")
}

/// A switch is on just where one of the arguments is its name. Without `--delete` among the arguments
/// nothing is to be deleted but what a review selects.
pub proof fn law_switches_are_the_arguments(args: Seq<Seq<char>>, options: Options)
    requires
        commands(args, Command::Run(options)),
    ensures
        options.delete <==> exists|i: int| 0 <= i < args.len() && #[trigger] args[i] == "--delete"@,
        options.preview <==> exists|i: int|
            0 <= i < args.len() && #[trigger] args[i] == "--preview"@,
        options.similar <==> exists|i: int|
            0 <= i < args.len() && #[trigger] args[i] == "--similar"@,
        options.all_files <==> exists|i: int|
            0 <= i < args.len() && #[trigger] args[i] == "--all-files"@,
        options.list_shares <==> exists|i: int|
            0 <= i < args.len() && #[trigger] args[i] == "--list-shares"@,
        options.resume <==> exists|i: int| 0 <= i < args.len() && #[trigger] args[i] == "--resume"@,
        options.clear_cache <==> exists|i: int|
            0 <= i < args.len() && #[trigger] args[i] == "--clear-cache"@,
        args.len() >= 2,
        options.path@ == args[1],
        args[1] != "--help"@,
        args[1] != "-h"@,
{
}

/// Whether the value that is given for an option stands at place `i`: the argument before it is the
/// first that names the option.
pub open spec fn value_at(args: Seq<Seq<char>>, flag: Seq<char>, i: int) -> bool {
    &&& 0 < i < args.len()
    &&& args[i - 1] == flag
    &&& forall|j: int| 0 <= j < i - 1 ==> #[trigger] args[j] != flag
}

proof fn lemma_value_at(args: Seq<Seq<char>>, flag: Seq<char>, i: int)
    ensures
        value_at(args, flag, i) ==> value_of(args, flag) == Some(args[i]),
        (forall|j: int| 0 <= j < args.len() - 1 ==> #[trigger] args[j] != flag) ==> value_of(
            args,
            flag,
        ) is None,
    decreases args.len(),
{
    if args.len() >= 2 && args[0] != flag {
        let rest = args.skip(1);
        lemma_value_at(rest, flag, i - 1);
        if value_at(args, flag, i) {
            assert(i > 1);
            assert(rest[i - 2] == args[i - 1]);
            assert forall|j: int| 0 <= j < i - 2 implies #[trigger] rest[j] != flag by {
                assert(rest[j] == args[j + 1]);
            }
            assert(rest[i - 1] == args[i]);
        }
        if forall|j: int| 0 <= j < args.len() - 1 ==> #[trigger] args[j] != flag {
            assert forall|j: int| 0 <= j < rest.len() - 1 implies #[trigger] rest[j] != flag by {
                assert(rest[j] == args[j + 1]);
            }
        }
    } else if args.len() >= 2 {
        if value_at(args, flag, i) && i > 1 {
            assert(args[0] != flag);
        }
        if forall|j: int| 0 <= j < args.len() - 1 ==> #[trigger] args[j] != flag {
            assert(args[0] != flag);
        }
    }
}

/// The first value that is given for an option holds. A threshold is read as a number, and it is 10
/// where none is given or what is given is no number; the file to keep is the largest where nothing
/// else is asked for.
pub proof fn law_values_are_the_arguments(args: Seq<Seq<char>>, options: Options, i: int, n: u32)
    requires
        commands(args, Command::Run(options)),
    ensures
        value_at(args, "--threshold"@, i) && args[i] == decimal(n as nat) ==> options.threshold == n,
        value_at(args, "--threshold"@, i) && u32_of(args[i]) is None ==> options.threshold == 10,
        (forall|j: int| 0 <= j < args.len() - 1 ==> #[trigger] args[j] != "--threshold"@)
            ==> options.threshold == 10,
        value_at(args, "--keep"@, i) ==> options.keep@ == args[i],
        (forall|j: int| 0 <= j < args.len() - 1 ==> #[trigger] args[j] != "--keep"@)
            ==> options.keep@ == "largest"@,
        options.keep@ == "largest"@ || options.keep@ == "newest"@ || options.keep@ == "oldest"@,
        value_at(args, "--nas-host"@, i) ==> options.nas_host is Some && options.nas_host->0@
            == args[i],
        (forall|j: int| 0 <= j < args.len() - 1 ==> #[trigger] args[j] != "--nas-host"@)
            ==> options.nas_host is None,
        value_at(args, "--nas-user"@, i) ==> options.nas_user is Some && options.nas_user->0@
            == args[i],
        (forall|j: int| 0 <= j < args.len() - 1 ==> #[trigger] args[j] != "--nas-user"@)
            ==> options.nas_user is None,
        value_at(args, "--nas-otp"@, i) ==> options.nas_otp is Some && options.nas_otp->0@
            == args[i],
        (forall|j: int| 0 <= j < args.len() - 1 ==> #[trigger] args[j] != "--nas-otp"@)
            ==> options.nas_otp is None,
{
    lemma_value_at(args, "--threshold"@, i);
    lemma_value_at(args, "--keep"@, i);
    lemma_value_at(args, "--nas-host"@, i);
    lemma_value_at(args, "--nas-user"@, i);
    lemma_value_at(args, "--nas-otp"@, i);
    law_written_numbers_are_read_back(n);
}

/// A command line is refused just where it asks to keep a file by a rule that there is not, and then
/// that rule is named; it is answered with the usage text just where it names no folder or asks for
/// help.
pub proof fn law_commands_are_told_apart(args: Seq<Seq<char>>, command: Command, i: int)
    requires
        commands(args, command),
    ensures
        command is Usage <==> args.len() < 2 || args[1] == "--help"@ || args[1] == "-h"@,
        command is UnknownKeep ==> command->keep@ != "largest"@ && command->keep@ != "newest"@
            && command->keep@ != "oldest"@,
        command is UnknownKeep && value_at(args, "--keep"@, i) ==> command->keep@ == args[i],
        command is UnknownKeep ==> (command->clear_cache <==> exists|j: int|
            0 <= j < args.len() && #[trigger] args[j] == "--clear-cache"@),
        !(command is Usage) && value_at(args, "--keep"@, i) && args[i] != "largest"@ && args[i]
            != "newest"@ && args[i] != "oldest"@ ==> command is UnknownKeep,
{
    lemma_value_at(args, "--keep"@, i);
}

} // verus!
