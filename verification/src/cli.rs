//! What the command line asks for.

use crate::text::{chars_of, same, text_of, trim, trimmed, views};
use vstd::prelude::*;
use vstd::slice::slice_subrange;

verus! {

pub const USAGE: &'static str = "\
usage:
  cargo disk                      disk usage of the current project
  cargo disk --all <dir>          every Cargo project under <dir>
  cargo disk deps                 potentially unused and outdated dependencies
  cargo disk clean --incremental  delete incremental caches
                                  [--dry-run] [--yes]
  cargo disk --help | --version";

/// What to do.
#[derive(Debug, PartialEq)]
pub enum Cmd {
    Report,
    All(String),
    Clean { dry_run: bool, yes: bool },
    Deps,
    Help,
    Version,
}

/// What a [`Cmd`] holds.
#[verifier::ext_equal]
pub enum CmdView {
    Report,
    All(Seq<char>),
    Clean { dry_run: bool, yes: bool },
    Deps,
    Help,
    Version,
}

impl View for Cmd {
    type V = CmdView;

    open spec fn view(&self) -> CmdView {
        match self {
            Cmd::Report => CmdView::Report,
            Cmd::All(dir) => CmdView::All(dir@),
            Cmd::Clean { dry_run, yes } => CmdView::Clean { dry_run: *dry_run, yes: *yes },
            Cmd::Deps => CmdView::Deps,
            Cmd::Help => CmdView::Help,
            Cmd::Version => CmdView::Version,
        }
    }
}

/// The command line without the names that the program goes by: its own, and `disk`,
/// which Cargo puts before the arguments of a subcommand.
pub open spec fn past_disk(args: Seq<Seq<char>>) -> Seq<Seq<char>>
    decreases args.len(),
{
    if args.len() > 0 && args[0] == "disk"@ {
        past_disk(args.skip(1))
    } else {
        args
    }
}

/// What follows the name of the program on the command line.
pub fn user_args(command_line: &[String]) -> (args: &[String])
    ensures
        views(args@) == past_disk(
            if command_line@.len() == 0 {
                Seq::empty()
            } else {
                views(command_line@).skip(1)
            },
        ),
{
    let total: usize = command_line.len();
    if total == 0 {
        return command_line;
    }
    let ghost all = views(command_line@);
    let mut at: usize = 1;
    while at < total && same(command_line[at].as_str(), "disk")
        invariant
            1 <= at <= total,
            total == command_line@.len(),
            all == views(command_line@),
            past_disk(all.skip(1)) == past_disk(all.skip(at as int)),
        decreases total - at,
    {
        assert(all.skip(at as int)[0] == command_line@[at as int]@);
        assert(all.skip(at as int).skip(1) == all.skip(at + 1));
        at += 1;
    }
    if at < total {
        assert(all.skip(at as int)[0] == command_line@[at as int]@);
    }
    let args = slice_subrange(command_line, at, total);
    assert(views(args@) == all.skip(at as int));
    args
}

/// Whether `clean` knows the flag.
pub open spec fn is_clean_flag(flag: Seq<char>) -> bool {
    flag == "--incremental"@ || flag == "--dry-run"@ || flag == "--yes"@ || flag == "-y"@
}

/// The first flag that `clean` does not know.
pub open spec fn first_unknown(flags: Seq<Seq<char>>) -> Option<Seq<char>>
    decreases flags.len(),
{
    if flags.len() == 0 {
        None
    } else {
        match first_unknown(flags.drop_last()) {
            Some(flag) => Some(flag),
            None => if is_clean_flag(flags.last()) {
                None
            } else {
                Some(flags.last())
            },
        }
    }
}

/// What `clean` is asked for.
pub open spec fn clean_of(flags: Seq<Seq<char>>) -> Result<CmdView, Seq<char>> {
    match first_unknown(flags) {
        Some(flag) => Err("unknown flag for clean: "@ + flag),
        None => if flags.contains("--incremental"@) {
            Ok(
                CmdView::Clean {
                    dry_run: flags.contains("--dry-run"@),
                    yes: flags.contains("--yes"@) || flags.contains("-y"@),
                },
            )
        } else {
            Err("`clean` needs --incremental. To remove everything, use `cargo clean`"@)
        },
    }
}

/// What the arguments ask for, or what is wrong with them.
pub open spec fn command_of(args: Seq<Seq<char>>) -> Result<CmdView, Seq<char>> {
    if args.len() == 0 {
        Ok(CmdView::Report)
    } else if args[0] == "--help"@ || args[0] == "-h"@ {
        Ok(CmdView::Help)
    } else if args[0] == "--version"@ || args[0] == "-V"@ {
        Ok(CmdView::Version)
    } else if args[0] == "--all"@ {
        if args.len() == 1 {
            Err("--all needs a directory, e.g. `cargo disk --all ~/code`"@)
        } else if args.len() == 2 {
            Ok(CmdView::All(args[1]))
        } else {
            Err("--all takes one directory"@)
        }
    } else if args[0] == "deps"@ {
        if args.len() == 1 {
            Ok(CmdView::Deps)
        } else {
            Err("unknown flag for deps: "@ + args[1])
        }
    } else if args[0] == "clean"@ {
        clean_of(args.skip(1))
    } else {
        Err("unknown argument: "@ + args[0])
    }
}

/// What a parsed command line holds.
pub open spec fn outcome(parsed: Result<Cmd, String>) -> Result<CmdView, Seq<char>> {
    match parsed {
        Ok(cmd) => Ok(cmd@),
        Err(message) => Err(message@),
    }
}

/// Nothing is deleted without being asked for: only `clean --incremental` cleans.
pub proof fn lemma_clean_is_asked_for(args: Seq<Seq<char>>)
    ensures
        command_of(args) matches Ok(CmdView::Clean { dry_run, yes }) ==> {
            &&& args.len() > 0
            &&& args[0] == "clean"@
            &&& args.contains("--incremental"@)
            &&& yes ==> args.contains("--yes"@) || args.contains("-y"@)
            &&& args.contains("--dry-run"@) ==> dry_run
        },
{
    if args.len() > 0 {
        let rest = args.skip(1);
        assert forall|flag: Seq<char>| rest.contains(flag) implies args.contains(flag) by {
            let k = choose|k: int| 0 <= k < rest.len() && rest[k] == flag;
            assert(args[k + 1] == flag);
        }
        if args[0] == "clean"@ && args.contains("--dry-run"@) {
            let k = choose|k: int| 0 <= k < args.len() && args[k] == "--dry-run"@;
            reveal_strlit("clean");
            reveal_strlit("--dry-run");
            assert("clean"@.len() != "--dry-run"@.len());
            assert(rest[k - 1] == "--dry-run"@);
        }
    }
}

proof fn lemma_unknown_stays(flags: Seq<Seq<char>>, n: int)
    requires
        0 <= n <= flags.len(),
        first_unknown(flags.take(n)) is Some,
    ensures
        first_unknown(flags) == first_unknown(flags.take(n)),
    decreases flags.len() - n,
{
    if n < flags.len() {
        assert(flags.take(n + 1).drop_last() == flags.take(n));
        lemma_unknown_stays(flags, n + 1);
    } else {
        assert(flags.take(n) == flags);
    }
}

fn complain(what: &str, arg: &str) -> (message: String)
    ensures
        message@ == what@ + arg@,
{
    let mut message = what.to_owned();
    message.append(arg);
    message
}

fn parse_clean(flags: &[String]) -> (parsed: Result<Cmd, String>)
    ensures
        outcome(parsed) == clean_of(views(flags@)),
{
    let ghost all = views(flags@);
    let mut incremental = false;
    let mut dry_run = false;
    let mut yes = false;
    let mut i: usize = 0;
    while i < flags.len()
        invariant
            i <= flags@.len(),
            all == views(flags@),
            first_unknown(all.take(i as int)) is None,
            incremental == all.take(i as int).contains("--incremental"@),
            dry_run == all.take(i as int).contains("--dry-run"@),
            yes == (all.take(i as int).contains("--yes"@) || all.take(i as int).contains("-y"@)),
        decreases flags@.len() - i,
    {
        proof {
            assert(all.take(i + 1).drop_last() == all.take(i as int));
            assert(all.take(i + 1) == all.take(i as int).push(all[i as int]));
            lemma_push_contains(all.take(i as int), all[i as int], "--incremental"@);
            lemma_push_contains(all.take(i as int), all[i as int], "--dry-run"@);
            lemma_push_contains(all.take(i as int), all[i as int], "--yes"@);
            lemma_push_contains(all.take(i as int), all[i as int], "-y"@);
            lemma_flags_differ();
        }
        let flag = flags[i].as_str();
        assert(all[i as int] == flag@);
        if same(flag, "--incremental") {
            incremental = true;
        } else if same(flag, "--dry-run") {
            dry_run = true;
        } else if same(flag, "--yes") || same(flag, "-y") {
            yes = true;
        } else {
            proof {
                lemma_unknown_stays(all, i + 1);
            }
            return Err(complain("unknown flag for clean: ", flag));
        }
        i += 1;
    }
    assert(all.take(i as int) == all);
    if !incremental {
        return Err(
            "`clean` needs --incremental. To remove everything, use `cargo clean`".to_owned(),
        );
    }
    Ok(Cmd::Clean { dry_run, yes })
}

proof fn lemma_push_contains(flags: Seq<Seq<char>>, flag: Seq<char>, wanted: Seq<char>)
    ensures
        flags.push(flag).contains(wanted) <==> flags.contains(wanted) || flag == wanted,
{
    let longer = flags.push(flag);
    if flags.contains(wanted) {
        let k = choose|k: int| 0 <= k < flags.len() && flags[k] == wanted;
        assert(longer[k] == wanted);
    }
    assert(longer[flags.len() as int] == flag);
    if longer.contains(wanted) {
        let k = choose|k: int| 0 <= k < longer.len() && longer[k] == wanted;
        if k < flags.len() {
            assert(flags[k] == wanted);
        }
    }
}

proof fn lemma_flags_differ()
    ensures
        "--incremental"@ != "--dry-run"@,
        "--incremental"@ != "--yes"@,
        "--incremental"@ != "-y"@,
        "--dry-run"@ != "--yes"@,
        "--dry-run"@ != "-y"@,
{
    reveal_strlit("--incremental");
    reveal_strlit("--dry-run");
    reveal_strlit("--yes");
    reveal_strlit("-y");
    assert("--incremental"@.len() == 13);
    assert("--dry-run"@.len() == 9);
    assert("--yes"@.len() == 5);
    assert("-y"@.len() == 2);
}

/// What the arguments ask for, or what is wrong with them.
pub fn parse(args: &[String]) -> (parsed: Result<Cmd, String>)
    ensures
        outcome(parsed) == command_of(views(args@)),
{
    let total: usize = args.len();
    if total == 0 {
        return Ok(Cmd::Report);
    }
    let ghost all = views(args@);
    let first = args[0].as_str();
    assert(all[0] == first@);
    if same(first, "--help") || same(first, "-h") {
        return Ok(Cmd::Help);
    }
    if same(first, "--version") || same(first, "-V") {
        return Ok(Cmd::Version);
    }
    if same(first, "--all") {
        if total == 1 {
            return Err("--all needs a directory, e.g. `cargo disk --all ~/code`".to_owned());
        }
        if total > 2 {
            return Err("--all takes one directory".to_owned());
        }
        assert(all[1] == args@[1]@);
        return Ok(Cmd::All(args[1].clone()));
    }
    if same(first, "deps") {
        if total == 1 {
            return Ok(Cmd::Deps);
        }
        assert(all[1] == args@[1]@);
        return Err(complain("unknown flag for deps: ", args[1].as_str()));
    }
    if same(first, "clean") {
        let flags = slice_subrange(args, 1, total);
        assert(views(flags@) == all.skip(1));
        return parse_clean(flags);
    }
    Err(complain("unknown argument: ", first))
}

/// The manifest that `cargo locate-project` names in what it prints.
pub fn located(printed: &str) -> (manifest: String)
    ensures
        manifest@ == trimmed(printed@),
{
    let chars = chars_of(printed);
    text_of(trim(chars.as_slice()))
}

/// What is printed for arguments that ask for nothing known.
pub fn usage_error(message: &str) -> (text: String)
    ensures
        text@ == "cargo-disk: "@ + message@ + "\n\n"@ + USAGE@,
{
    let mut text = String::new();
    text.append("cargo-disk: ");
    text.append(message);
    text.append("\n\n");
    text.append(USAGE);
    assert(text@ == "cargo-disk: "@ + message@ + "\n\n"@ + USAGE@);
    text
}

/// What is printed for a directory to scan that is none.
pub fn not_a_directory(shown: &str) -> (text: String)
    ensures
        text@ == "cargo-disk: "@ + shown@
            + " is not a directory — pass the folder that holds your projects, e.g. `cargo disk --all ~/code`"@,
{
    let mut text = String::new();
    text.append("cargo-disk: ");
    text.append(shown);
    text.append(
        " is not a directory — pass the folder that holds your projects, e.g. `cargo disk --all ~/code`",
    );
    assert(text@ == "cargo-disk: "@ + shown@
        + " is not a directory — pass the folder that holds your projects, e.g. `cargo disk --all ~/code`"@);
    text
}

} // verus!
