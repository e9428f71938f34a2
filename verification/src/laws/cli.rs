//! Laws of the command line.

use crate::cli::{clean_of, command_of, first_unknown, past_disk, CmdView};
use vstd::prelude::*;

verus! {

/// `disk` before the arguments counts for nothing, however often it stands there.
pub proof fn lemma_disk_is_skipped(args: Seq<Seq<char>>, other: Seq<char>)
    ensures
        past_disk(seq!["disk"@] + args) == past_disk(args),
        other != "disk"@ ==> past_disk(seq![other] + args) == seq![other] + args,
        past_disk(Seq::<Seq<char>>::empty()) == Seq::<Seq<char>>::empty(),
{
    assert((seq!["disk"@] + args).skip(1) =~= args);
    assert((seq![other] + args)[0] == other);
}

proof fn lemma_words_differ()
    ensures
        "--help"@ != "--version"@,
        "--help"@ != "-V"@,
        "-h"@ != "--version"@,
        "-h"@ != "-V"@,
        "--all"@ != "--help"@ && "--all"@ != "-h"@ && "--all"@ != "--version"@ && "--all"@
            != "-V"@,
        "deps"@ != "--help"@ && "deps"@ != "-h"@ && "deps"@ != "--version"@ && "deps"@ != "-V"@
            && "deps"@ != "--all"@,
        "clean"@ != "--help"@ && "clean"@ != "-h"@ && "clean"@ != "--version"@ && "clean"@ != "-V"@
            && "clean"@ != "--all"@ && "clean"@ != "deps"@,
{
    reveal_strlit("--help");
    reveal_strlit("-h");
    reveal_strlit("--version");
    reveal_strlit("-V");
    reveal_strlit("--all");
    reveal_strlit("deps");
    reveal_strlit("clean");
    assert("-h"@[1] == 'h' && "-V"@[1] == 'V');
    assert("--all"@[0] == '-' && "clean"@[0] == 'c');
    assert("--help"@.len() == 6 && "-h"@.len() == 2 && "--version"@.len() == 9 && "-V"@.len() == 2
        && "--all"@.len() == 5 && "deps"@.len() == 4 && "clean"@.len() == 5);
}

/// What each command line asks for, whatever follows it where that is allowed, and what is
/// wrong with any other one.
pub proof fn lemma_commands(
    a: Seq<char>,
    b: Seq<char>,
    rest: Seq<Seq<char>>,
)
    ensures
        command_of(Seq::<Seq<char>>::empty()) == Ok::<CmdView, Seq<char>>(CmdView::Report),
        command_of(seq!["--help"@] + rest) == Ok::<CmdView, Seq<char>>(CmdView::Help),
        command_of(seq!["-h"@] + rest) == Ok::<CmdView, Seq<char>>(CmdView::Help),
        command_of(seq!["--version"@] + rest) == Ok::<CmdView, Seq<char>>(CmdView::Version),
        command_of(seq!["-V"@] + rest) == Ok::<CmdView, Seq<char>>(CmdView::Version),
        command_of(seq!["--all"@]) == Err::<CmdView, Seq<char>>(
            "--all needs a directory, e.g. `cargo disk --all ~/code`"@,
        ),
        command_of(seq!["--all"@, a]) == Ok::<CmdView, Seq<char>>(CmdView::All(a)),
        command_of(seq!["--all"@, a, b] + rest) == Err::<CmdView, Seq<char>>(
            "--all takes one directory"@,
        ),
        command_of(seq!["deps"@]) == Ok::<CmdView, Seq<char>>(CmdView::Deps),
        command_of(seq!["deps"@, a] + rest) == Err::<CmdView, Seq<char>>(
            "unknown flag for deps: "@ + a,
        ),
        command_of(seq!["clean"@] + rest) == clean_of(rest),
        a != "--help"@ && a != "-h"@ && a != "--version"@ && a != "-V"@ && a != "--all"@ && a
            != "deps"@ && a != "clean"@ ==> command_of(seq![a] + rest) == Err::<
            CmdView,
            Seq<char>,
        >("unknown argument: "@ + a),
{
    lemma_words_differ();
    assert((seq!["clean"@] + rest).skip(1) =~= rest);
    assert((seq!["clean"@] + rest)[0] == "clean"@);
    assert((seq!["deps"@, a] + rest)[0] == "deps"@);
    assert((seq!["deps"@, a] + rest)[1] == a);
    assert((seq!["--all"@, a, b] + rest)[0] == "--all"@);
    assert((seq!["--help"@] + rest)[0] == "--help"@);
    assert((seq!["-h"@] + rest)[0] == "-h"@);
    assert((seq!["--version"@] + rest)[0] == "--version"@);
    assert((seq!["-V"@] + rest)[0] == "-V"@);
    assert((seq![a] + rest)[0] == a);
}

/// Whether `clean` knows every one of the flags.
pub open spec fn all_known(flags: Seq<Seq<char>>) -> bool {
    forall|i: int|
        0 <= i < flags.len() ==> {
            let flag = #[trigger] flags[i];
            flag == "--incremental"@ || flag == "--dry-run"@ || flag == "--yes"@ || flag == "-y"@
        }
}

/// The first flag that `clean` does not know is the one that is named.
pub proof fn lemma_first_unknown(before: Seq<Seq<char>>, flag: Seq<char>, after: Seq<Seq<char>>)
    requires
        all_known(before),
        flag != "--incremental"@ && flag != "--dry-run"@ && flag != "--yes"@ && flag != "-y"@,
    ensures
        first_unknown(before) is None,
        clean_of(before + seq![flag] + after) == Err::<CmdView, Seq<char>>(
            "unknown flag for clean: "@ + flag,
        ),
        first_unknown(before + seq![flag] + after) == Some(flag),
    decreases before.len(), after.len(),
{
    let all = before + seq![flag] + after;
    if after.len() > 0 {
        lemma_first_unknown(before, flag, after.drop_last());
        assert(all.drop_last() =~= before + seq![flag] + after.drop_last());
    } else {
        assert(all.drop_last() =~= before);
        assert(all.last() == flag);
        if before.len() > 0 {
            let rest = before.drop_last();
            assert forall|i: int| 0 <= i < rest.len() implies {
                let flag = #[trigger] rest[i];
                flag == "--incremental"@ || flag == "--dry-run"@ || flag == "--yes"@ || flag
                    == "-y"@
            } by {
                assert(rest[i] == before[i]);
            }
            lemma_first_unknown(rest, flag, Seq::empty());
            assert(before.last() == before[before.len() - 1]);
        }
    }
}

/// `clean` needs to be told what; it is a dry run exactly if that was asked for, and asks
/// no question exactly if `--yes` or `-y` was given. The order of the flags is free.
pub proof fn lemma_clean_flags(flags: Seq<Seq<char>>)
    requires
        all_known(flags),
    ensures
        flags.contains("--incremental"@) ==> clean_of(flags) == Ok::<CmdView, Seq<char>>(
            CmdView::Clean {
                dry_run: flags.contains("--dry-run"@),
                yes: flags.contains("--yes"@) || flags.contains("-y"@),
            },
        ),
        !flags.contains("--incremental"@) ==> clean_of(flags) == Err::<CmdView, Seq<char>>(
            "`clean` needs --incremental. To remove everything, use `cargo clean`"@,
        ),
{
    reveal_strlit("--incremental");
    reveal_strlit("--dry-run");
    reveal_strlit("--yes");
    reveal_strlit("-y");
    let none = Seq::<char>::empty();
    assert("--incremental"@.len() == 13 && "--dry-run"@.len() == 9 && "--yes"@.len() == 5
        && "-y"@.len() == 2);
    lemma_first_unknown(flags, none, Seq::empty());
}

} // verus!
