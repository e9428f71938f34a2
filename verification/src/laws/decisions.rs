//! Laws of what the program decides to do next, and of how it ends.

use crate::clean::{is_removable, look_again, reply, Candidate, Fate, Reply};
use crate::cli::{located, not_a_directory, usage_error, user_args, USAGE};
use crate::deps::{
    after_report, any_deps, choose_removal, chosen_row, deps_text, outdated_in, run, selection,
    start, After, Choice, Start,
};
use crate::layout::size_text;
use crate::laws::text::all_space;
use crate::metadata::Metadata;
use crate::path::FilePath;
use crate::report::{profile_of, report, report_text, uppercase, Subject};
use crate::scan::{cargo_home, Home};
use crate::text::{is_space, opt_chars, views};
use crate::unused::{all_ignored, Unused};
use crate::usage::{bytes_in, cleanup_buckets, is_locked, is_orphan, known_crates, Bucket, Entry};
use crate::time::Timestamp;
use vstd::hash_set::StringHashSet;
use vstd::prelude::*;

verus! {

// ---------------------------------------------------------------- scanning
/// Cargo's home is where `CARGO_HOME` says, whatever else is set; without it it is in the
/// user's home, and without that in the user's profile.
pub proof fn lemma_home(cargo: bool, home: bool, profile: bool, at: Home)
    requires
        call_ensures(cargo_home, (cargo, home, profile), at),
    ensures
        cargo ==> at == Home::Cargo,
        !cargo && home ==> at == Home::User,
        !cargo && !home && profile ==> at == Home::Profile,
        !cargo && !home && !profile ==> at == Home::Unknown,
{
}

// ---------------------------------------------------------------- the command line
/// The first argument is the name of the program and counts for nothing, nor does `disk`
/// behind it.
pub proof fn lemma_user_args(line: &[String], args: &[String], rest: Seq<Seq<char>>)
    requires
        call_ensures(user_args, (line,), args),
    ensures
        line@.len() <= 1 ==> args@.len() == 0,
        rest.len() > 0 && rest[0] != "disk"@ && views(line@) == seq![line@[0]@] + rest ==> views(
            args@,
        ) == rest,
        rest.len() > 0 && rest[0] != "disk"@ && views(line@) == seq![line@[0]@, "disk"@] + rest
            ==> views(args@) == rest,
{
    reveal_with_fuel(crate::cli::past_disk, 3);
    let all = views(line@);
    if line@.len() <= 1 {
        assert(views(args@).len() == 0);
        assert(views(args@).len() == args@.len());
    }
    assert((seq![line@[0]@] + rest).skip(1) =~= rest);
    let two = seq![line@[0]@, "disk"@] + rest;
    assert(two.skip(1)[0] == "disk"@);
    assert(two.skip(1).skip(1) =~= rest);
}

/// What is printed for arguments that ask for nothing known, for a directory that is none,
/// and what is made of the path that Cargo prints.
pub proof fn lemma_messages(message: &str, a: String, b: String, c: String, path: Seq<char>)
    requires
        call_ensures(usage_error, (message,), a),
        call_ensures(not_a_directory, (message,), b),
        call_ensures(located, (message,), c),
    ensures
        a@ == "cargo-disk: "@ + message@ + "\n\n"@ + USAGE@,
        b@ == "cargo-disk: "@ + message@
            + " is not a directory — pass the folder that holds your projects, e.g. `cargo disk --all ~/code`"@,
        path.len() > 0 && !is_space(path[0]) && !is_space(path.last()) && message@ == path + "\n"@
            ==> c@ == path,
{
    reveal_strlit("\n");
    if path.len() > 0 && !is_space(path[0]) && !is_space(path.last()) && message@ == path + "\n"@ {
        let none = Seq::<char>::empty();
        assert(all_space("\n"@));
        assert(all_space(none));
        crate::laws::text::lemma_trimmed(none, path, "\n"@);
        assert(none + path + "\n"@ =~= message@);
    }
}

// ---------------------------------------------------------------- the report
/// The report is on all that the subject holds, with the name of the largest profile in
/// capitals.
pub proof fn lemma_report_made(s: &Subject<'_>, text: String, k: int, name: Seq<char>)
    requires
        call_ensures(report, (s,), text),
        profile_of(s@.files, s@.dirs) == Some((k, name)),
    ensures
        text@ == report_text(s@, uppercase(name)),
{
}

/// What could be removed is told apart: incremental caches first, then what is old.
pub proof fn lemma_buckets_told_apart(
    files: &[Entry],
    dirs: &[FilePath],
    now: Timestamp,
    bytes: (u64, u64),
)
    requires
        call_ensures(cleanup_buckets, (files, dirs, now), bytes),
    ensures
        bytes.0 == bytes_in(views(files@), views(dirs@), now, Bucket::Incremental),
        bytes.1 == bytes_in(views(files@), views(dirs@), now, Bucket::Old),
{
}

/// A name that the metadata or the lockfile has is never an orphan's, nor is one of the
/// three that are no crate's; any other is.
pub proof fn lemma_orphan(
    lock: Option<&str>,
    meta: &Metadata,
    known: StringHashSet,
    name: &str,
    yes: bool,
)
    requires
        call_ensures(known_crates, (lock, meta), known),
        call_ensures(is_orphan, (name, &known), yes),
    ensures
        meta@.artifact_names().contains(name@) ==> !yes,
        opt_chars(lock) matches Some(text) && is_locked(text, name@) ==> !yes,
        name@ == "(other)"@ || name@ == "build_script_build"@ || name@ == "build_script_main"@
            ==> !yes,
        !meta@.artifact_names().contains(name@) && !(opt_chars(lock) matches Some(text)
            && is_locked(text, name@)) && name@ != "(other)"@ && name@ != "build_script_build"@
            && name@ != "build_script_main"@ ==> yes,
{
}

// ---------------------------------------------------------------- dependencies
/// Without metadata the program fails and says why; without dependencies it says so and
/// succeeds; else it goes on.
pub proof fn lemma_start(loaded: Result<Metadata, String>, first: Start, code: Option<i32>)
    requires
        call_ensures(start, (loaded,), first),
        call_ensures(Start::exit_code, (&first,), code),
    ensures
        loaded matches Err(why) ==> code == Some(1i32) && (first matches Start::Failed(text)
            && text@ == "cargo-disk: "@ + why@ + "\n"@
            + "cargo-disk: `deps` needs a resolved Cargo.lock — run `cargo build` first"@),
        loaded matches Ok(meta) ==> (any_deps(meta@) ==> code is None && first == Start::Go(meta)),
        loaded matches Ok(meta) ==> (!any_deps(meta@) ==> code == Some(0i32) && (
        first matches Start::NoDeps(text) && text@ == "This project has no dependencies."@)),
{
    if let Err(why) = loaded {
        crate::laws::deps::lemma_unresolved(why@);
    }
}

/// The members are named in the report exactly if there are several.
pub proof fn lemma_members_are_named(
    meta: &Metadata,
    files: &[Entry],
    dirs: &[FilePath],
    sources: &[String],
    update: Option<&str>,
    found: (String, Vec<Unused>),
)
    requires
        call_ensures(run, (meta, files, dirs, sources, update), found),
    ensures
        ({
            let ignored = all_ignored(meta@, views(sources@), sources@.len());
            let outdated = outdated_in(meta@, opt_chars(update));
            &&& meta@.members.len() <= 1 ==> found.0@ == deps_text(
                views(found.1@),
                ignored,
                outdated,
                false,
            )
            &&& meta@.members.len() >= 2 ==> found.0@ == deps_text(
                views(found.1@),
                ignored,
                outdated,
                true,
            )
        }),
{
}

/// Removal is offered exactly if something is unused and there is a terminal to ask on.
pub proof fn lemma_offer(unused: &[Unused], terminal: bool, next: After)
    requires
        call_ensures(after_report, (unused, terminal), next),
    ensures
        unused@.len() > 0 && terminal ==> next is Offer,
        unused@.len() == 0 ==> next == After::Stop(0),
        !terminal ==> next == After::Stop(0),
{
}

/// An answer that could not be read fails, a wrong one is refused as such, an empty
/// selection ends well, and any other one is removed.
pub proof fn lemma_chosen(
    text: &str,
    max: usize,
    none: Choice,
    none_code: Option<i32>,
    chosen: Choice,
    code: Option<i32>,
)
    requires
        call_ensures(choose_removal, (None::<&str>, max), none),
        call_ensures(Choice::exit_code, (&none,), none_code),
        call_ensures(choose_removal, (Some(text), max), chosen),
        call_ensures(Choice::exit_code, (&chosen,), code),
    ensures
        none is Unread && none_code == Some(1i32),
        selection(text@, max) matches Err(message) ==> code == Some(2i32) && (
        chosen matches Choice::Wrong(line) && line@ == "cargo-disk: "@ + message
            + " — nothing removed"@),
        selection(text@, max) matches Ok(picked) ==> (picked.len() == 0 ==> chosen is Nothing
            && code == Some(0i32)),
        selection(text@, max) matches Ok(picked) ==> (picked.len() > 0 ==> code is None && (
        chosen matches Choice::Remove(numbers) && numbers@ == picked)),
{
}

/// Rows are counted from one.
pub proof fn lemma_chosen_row(unused: &[Unused], number: usize, row: &Unused)
    requires
        call_ensures(chosen_row, (unused, number), row),
        1 <= number <= unused@.len(),
    ensures
        *row == unused@[number - 1],
{
}

/// The removal of dependencies fails exactly if one of them did, and what is said at the
/// end names every manifest that was touched.
pub proof fn lemma_removal_ends(removal: &crate::deps::Removal, end: (String, i32))
    requires
        call_ensures(crate::deps::Removal::finish, (removal,), end),
    ensures
        end.0@ == crate::deps::removed_text(views(removal.touched@)),
        removal.failed ==> end.1 == 1,
        !removal.failed ==> end.1 == 0,
{
}

// ---------------------------------------------------------------- cleaning
/// Caches are removed after a `y` and after nothing else; who declines ends well.
pub proof fn lemma_reply(
    text: &str,
    c: char,
    next: Reply,
    code: Option<i32>,
    silent: Reply,
    silent_code: Option<i32>,
)
    requires
        call_ensures(reply, (Some(text),), next),
        call_ensures(Reply::exit_code, (&next,), code),
        call_ensures(reply, (None::<&str>,), silent),
        call_ensures(Reply::exit_code, (&silent,), silent_code),
        text@ == seq![c] + "\n"@,
        !is_space(c),
    ensures
        c == 'y' || c == 'Y' ==> next is Remove && code is None,
        c != 'y' && c != 'Y' ==> code == Some(0i32) && (next matches Reply::Declined(said)
            && said@ == "Aborted."@),
        silent_code == Some(0i32) && (silent matches Reply::Declined(said) && said@ == "Aborted."@),
{
    reveal_strlit("\n");
    let none = Seq::<char>::empty();
    assert(all_space("\n"@));
    assert(all_space(none));
    crate::laws::clean::lemma_yes(none, c, "\n"@, none);
    assert(none + seq![c] + "\n"@ =~= text@);
}

/// A cache that may no longer be removed is left alone; any other one is not.
pub proof fn lemma_looked_at_again(dir: &Candidate, target: &FilePath, fate: Option<Fate>)
    requires
        call_ensures(look_again, (dir, target), fate),
    ensures
        is_removable(dir@, target@) ==> fate is None,
        !is_removable(dir@, target@) ==> fate == Some(Fate::Changed),
{
}

/// What was freed is said at the end; the removal fails exactly if a cache is still there.
pub proof fn lemma_cleaning_ends(removal: &crate::clean::Removal, end: (String, i32))
    requires
        call_ensures(crate::clean::Removal::finish, (removal,), end),
    ensures
        end.0@ == "Freed "@ + size_text(removal.freed as nat) + "."@,
        removal.failed ==> end.1 == 1,
        !removal.failed ==> end.1 == 0,
{
}

} // verus!
