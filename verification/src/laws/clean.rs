//! Laws of removing incremental caches.

use crate::clean::{
    caches_of, complaint, is_removable, is_yes, listing_of, noted, planned, profiles_in, prompt_of,
    result_of, step_of, total_of, CacheView, CandidateView, Fate, ProfileView, Removal, StepView,
};
use crate::laws::text::{all_space, lemma_trimmed};
use crate::layout::{line_of, size_text};
use crate::path::Part;
use crate::text::{decimal, is_space, left_in, trimmed};
use vstd::prelude::*;

verus! {

// ---------------------------------------------------------------- what may go
/// A directory may be removed exactly if it is a real directory called `incremental` whose
/// true path lies below the target directory, at least one level down.
pub proof fn lemma_removable(
    dir: Seq<Part>,
    name: Seq<char>,
    target: Seq<Part>,
    first: Part,
    rest: Seq<Part>,
    canonical: Option<Seq<Part>>,
)
    ensures
        is_removable(
            CandidateView {
                path: dir.push(Part::Normal("incremental"@)),
                is_real_dir: true,
                canonical: Some(target + seq![first] + rest),
            },
            target,
        ),
        name != "incremental"@ ==> !is_removable(
            CandidateView { path: dir.push(Part::Normal(name)), is_real_dir: true, canonical },
            target,
        ),
        !is_removable(
            CandidateView { path: dir.push(Part::Normal(name)), is_real_dir: false, canonical },
            target,
        ),
        !is_removable(
            CandidateView {
                path: dir.push(Part::Normal(name)),
                is_real_dir: true,
                canonical: Some(target),
            },
            target,
        ),
        !is_removable(
            CandidateView {
                path: dir.push(Part::Normal(name)),
                is_real_dir: true,
                canonical: None,
            },
            target,
        ),
        !is_removable(
            CandidateView { path: dir.push(Part::ParentDir), is_real_dir: true, canonical },
            target,
        ),
        canonical matches Some(path) && !target.is_prefix_of(path) ==> !is_removable(
            CandidateView { path: dir.push(Part::Normal(name)), is_real_dir: true, canonical },
            target,
        ),
{
    let path = target + seq![first] + rest;
    assert(path.take(target.len() as int) =~= target);
    assert(path.len() > target.len());
    assert(target.is_prefix_of(path));
}

/// The cache of a directory counts exactly if Cargo gave it a .fingerprint and the cache may
/// be removed.
pub proof fn lemma_caches_steps(profiles: Seq<ProfileView>, profile: ProfileView, target: Seq<Part>)
    ensures
        caches_of(Seq::<ProfileView>::empty(), target) == Seq::<(Seq<Part>, usize)>::empty(),
        profile.has_fingerprint && is_removable(profile.cache, target) ==> caches_of(
            profiles.push(profile),
            target,
        ) == caches_of(profiles, target).push((profile.cache.path, profile.id)),
        !(profile.has_fingerprint && is_removable(profile.cache, target)) ==> caches_of(
            profiles.push(profile),
            target,
        ) == caches_of(profiles, target),
{
    assert(profiles.push(profile).drop_last() == profiles);
}

/// All directories of all children are looked at.
pub proof fn lemma_profiles_steps(children: Seq<Seq<ProfileView>>, child: Seq<ProfileView>)
    ensures
        profiles_in(Seq::<Seq<ProfileView>>::empty()) == Seq::<ProfileView>::empty(),
        profiles_in(children.push(child)) == profiles_in(children) + child,
{
    assert(children.push(child).drop_last() == children);
}

/// A cache is planned for removal if it holds anything and no earlier one has its path.
pub proof fn lemma_planned_steps(found: Seq<CacheView>, cache: CacheView)
    ensures
        planned(Seq::<CacheView>::empty()) == Seq::<CacheView>::empty(),
        ({
            let again = exists|k: int|
                0 <= k < planned(found).len() && (#[trigger] planned(found)[k]).path == cache.path;
            &&& cache.bytes == 0 || again ==> planned(found.push(cache)) == planned(found)
            &&& cache.bytes > 0 && !again ==> planned(found.push(cache)) == planned(found).push(
                cache,
            )
        }),
{
    assert(found.push(cache).drop_last() == found);
}

// ---------------------------------------------------------------- what is said
/// Caches are listed one by one, each with its size in nine characters and its path, and
/// their sizes are added up.
pub proof fn lemma_listing_steps(dirs: Seq<CacheView>, cache: CacheView)
    ensures
        listing_of(Seq::<CacheView>::empty()) == Seq::<char>::empty(),
        listing_of(dirs.push(cache)) == listing_of(dirs) + left_in(size_text(cache.bytes as nat), 9)
            + "  "@ + cache.shown + "\n"@,
        total_of(Seq::<CacheView>::empty()) == 0,
        total_of(dirs.push(cache)) == total_of(dirs) + cache.bytes,
{
    reveal_strlit("\n");
    assert(dirs.push(cache).drop_last() == dirs);
    assert(listing_of(dirs.push(cache)) =~= listing_of(dirs) + left_in(
        size_text(cache.bytes as nat),
        9,
    ) + "  "@ + cache.shown + "\n"@);
}

/// What is asked before caches are removed.
pub proof fn lemma_prompt(count: nat, total: nat)
    ensures
        ({
            let text =
                "\nThis will delete incremental compilation caches.\nCargo/rustc will recreate them as needed.\nThe next build may take longer.\n\nDelete "@;
            &&& prompt_of(1, total) == text + decimal(1) + " directory ("@ + size_text(total)
                + ")? [y/N] "@
            &&& count != 1 ==> prompt_of(count, total) == text + decimal(count)
                + " directories ("@ + size_text(total) + ")? [y/N] "@
        }),
{
    reveal_strlit("");
    reveal_strlit("y");
    reveal_strlit("ies");
    reveal_strlit(" (");
    reveal_strlit(" director");
    reveal_strlit(" directory (");
    reveal_strlit(" directories (");
    reveal_strlit("Delete ");
    reveal_strlit("This will delete incremental compilation caches.");
    reveal_strlit("Cargo/rustc will recreate them as needed.");
    reveal_strlit("The next build may take longer.");
    reveal_strlit(
        "\nThis will delete incremental compilation caches.\nCargo/rustc will recreate them as needed.\nThe next build may take longer.\n\nDelete ",
    );
    let text =
        "\nThis will delete incremental compilation caches.\nCargo/rustc will recreate them as needed.\nThe next build may take longer.\n\nDelete "@;
    let lead = line_of(""@) + line_of("This will delete incremental compilation caches."@)
        + line_of("Cargo/rustc will recreate them as needed."@) + line_of(
        "The next build may take longer."@,
    ) + line_of(""@);
    assert(lead + "Delete "@ =~= text);
    assert(prompt_of(1, total) =~= lead + "Delete "@ + decimal(1) + (" director"@ + "y"@ + " ("@)
        + size_text(total) + ")? [y/N] "@);
    assert(" director"@ + "y"@ + " ("@ =~= " directory ("@);
    assert(" director"@ + "ies"@ + " ("@ =~= " directories ("@);
    if count != 1 {
        assert(prompt_of(count, total) =~= lead + "Delete "@ + decimal(count) + (" director"@
            + "ies"@ + " ("@) + size_text(total) + ")? [y/N] "@);
    }
}

/// What is done with caches: nothing where nothing was built or found, only a list in a dry
/// run, whatever else was asked for, no question where yes was given, and else one.
pub proof fn lemma_steps(dirs: Seq<CacheView>, dry_run: bool, yes: bool)
    ensures
        step_of(false, dirs, dry_run, yes) == StepView::NotBuilt(
            "cargo-disk: nothing built yet — no target directory"@,
        ),
        dirs.len() == 0 ==> step_of(true, dirs, dry_run, yes) == StepView::NoCaches(
            "No incremental caches found."@,
        ),
        dirs.len() > 0 ==> step_of(true, dirs, true, yes) == StepView::DryRun(
            listing_of(dirs) + "\nDry run: nothing deleted ("@ + size_text(total_of(dirs))
                + ").\n"@,
        ),
        dirs.len() > 0 ==> step_of(true, dirs, false, true) == StepView::Remove(listing_of(dirs)),
        dirs.len() > 0 ==> step_of(true, dirs, false, false) == StepView::Ask(
            listing_of(dirs) + prompt_of(dirs.len(), total_of(dirs)),
        ),
{
    reveal_strlit("");
    reveal_strlit("Dry run: nothing deleted (");
    reveal_strlit("\nDry run: nothing deleted (");
    reveal_strlit(").");
    reveal_strlit(").\n");
    let size = size_text(total_of(dirs));
    assert(listing_of(dirs) + line_of(""@) + line_of("Dry run: nothing deleted ("@ + size + ")."@)
        =~= listing_of(dirs) + "\nDry run: nothing deleted ("@ + size + ").\n"@);
}

/// Only `y`, large or small and with or without space around it, is a yes.
pub proof fn lemma_yes(before: Seq<char>, c: char, after: Seq<char>, text: Seq<char>)
    requires
        all_space(before),
        all_space(after),
        !is_space(c),
    ensures
        is_yes(Some(before + seq![c] + after)) <==> c == 'y' || c == 'Y',
        is_yes(None) == false,
        trimmed(text).len() != 1 ==> !is_yes(Some(text)),
{
    reveal_strlit("y");
    lemma_trimmed(before, seq![c], after);
    assert("y"@ =~= seq!['y']);
    crate::laws::text::lemma_ignoring_case(c, 'y');
}

// ---------------------------------------------------------------- what came of it
/// What is said of a cache that was left alone, that is gone, or that could not be removed.
pub proof fn lemma_complaints(shown: Seq<char>, reason: String)
    ensures
        complaint(shown, Fate::Changed) == Some(
            "cargo-disk: skipped "@ + shown + " — changed since listing"@,
        ),
        complaint(shown, Fate::Removed) is None,
        complaint(shown, Fate::Failed(reason)) == Some(
            "cargo-disk: "@ + shown + ": "@ + reason@,
        ),
{
}

/// Only a cache that is gone was freed; any other one makes the removal fail, and once it
/// failed it stays so.
pub proof fn lemma_noted(removal: Removal, bytes: u64, reason: String)
    requires
        removal.freed + bytes <= u64::MAX,
    ensures
        noted(removal, bytes, Fate::Removed).freed == removal.freed + bytes,
        noted(removal, bytes, Fate::Removed).failed == removal.failed,
        noted(removal, bytes, Fate::Changed) == (Removal { freed: removal.freed, failed: true }),
        noted(removal, bytes, Fate::Failed(reason)) == (Removal {
            freed: removal.freed,
            failed: true,
        }),
{
}

/// Cleaning fails where nothing was built, and where a cache that was to go is still there.
/// It succeeds where there is nothing to remove, in a dry run and where the answer is no.
pub proof fn lemma_exit_codes(text: Seq<char>, agreed: bool, fates: Seq<Fate>)
    ensures
        result_of(StepView::NotBuilt(text), agreed, fates) == 1,
        result_of(StepView::NoCaches(text), agreed, fates) == 0,
        result_of(StepView::DryRun(text), agreed, fates) == 0,
        result_of(StepView::Ask(text), false, fates) == 0,
        result_of(StepView::Ask(text), true, fates) == result_of(
            StepView::Remove(text),
            agreed,
            fates,
        ),
        (forall|k: int| 0 <= k < fates.len() ==> (#[trigger] fates[k]) is Removed) ==> result_of(
            StepView::Remove(text),
            agreed,
            fates,
        ) == 0,
        (exists|k: int| 0 <= k < fates.len() && !((#[trigger] fates[k]) is Removed)) ==> result_of(
            StepView::Remove(text),
            agreed,
            fates,
        ) == 1,
{
}

} // verus!
