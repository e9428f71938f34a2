//! Removing incremental caches, and nothing else.

use crate::layout::{format_size, line, line_of, size_text};
use crate::order::{
    is_ranking, lemma_sorted_in_order, lemma_sorted_keeps_items, sort, sorted, Ranked,
};
use crate::path::{
    below, file_name, lemma_path_total, lemma_path_transitive, path_before, path_precedes, FilePath,
    Part,
};
use crate::text::{
    chars_of, decimal, eq_ignore_case, left_in, opt_chars, push_decimal, push_left, same,
    same_ignoring_case, trim, trimmed, views,
};
use vstd::prelude::*;

verus! {

// ---------------------------------------------------------------- what may be removed
/// What the file system says of a directory that may be a cache.
pub struct Candidate {
    pub path: FilePath,
    /// Whether a directory stands there, and not a link to one.
    pub is_real_dir: bool,
    /// The path without links, if there is one.
    pub canonical: Option<FilePath>,
}

/// What a [`Candidate`] holds.
#[verifier::ext_equal]
pub struct CandidateView {
    pub path: Seq<Part>,
    pub is_real_dir: bool,
    pub canonical: Option<Seq<Part>>,
}

impl View for Candidate {
    type V = CandidateView;

    open spec fn view(&self) -> CandidateView {
        CandidateView {
            path: self.path@,
            is_real_dir: self.is_real_dir,
            canonical: match self.canonical {
                Some(path) => Some(path@),
                None => None,
            },
        }
    }
}

/// Whether a directory may be removed: a real directory named `incremental` that lies
/// strictly inside `target`.
pub open spec fn is_removable(dir: CandidateView, target: Seq<Part>) -> bool {
    &&& dir.is_real_dir
    &&& file_name(dir.path) == Some("incremental"@)
    &&& dir.canonical matches Some(path) && below(path, target) is Some && path != target
}

/// Nothing but an `incremental` directory inside `target` is ever removed: not `target`
/// itself, nothing outside it, nothing behind a link.
pub proof fn lemma_removable_is_inside(dir: CandidateView, target: Seq<Part>)
    requires
        is_removable(dir, target),
    ensures
        dir.is_real_dir,
        file_name(dir.path) == Some("incremental"@),
        dir.canonical matches Some(path) && target.len() < path.len() && target.is_prefix_of(path),
{
    let path = dir.canonical->0;
    if path.len() == target.len() {
        assert(path == target);
    }
}

/// Whether a directory may be removed.
pub fn removable(dir: &Candidate, target: &FilePath) -> (yes: bool)
    ensures
        yes == is_removable(dir@, target@),
{
    if !dir.is_real_dir {
        return false;
    }
    match dir.path.name() {
        Some(name) => {
            if !same(name, "incremental") {
                return false;
            }
        },
        None => {
            return false;
        },
    }
    match &dir.canonical {
        Some(path) => path.starts_with(target) && !path.is(target),
        None => false,
    }
}

// ---------------------------------------------------------------- finding caches
/// A directory that may belong to a profile.
pub struct Profile {
    /// The caller's number for the directory.
    pub id: usize,
    /// Whether Cargo gave it a .fingerprint.
    pub has_fingerprint: bool,
    /// What its `incremental` is.
    pub cache: Candidate,
}

/// A directory in the target directory, and those in it.
pub struct Child {
    pub own: Profile,
    pub nested: Vec<Profile>,
}

/// What a [`Profile`] holds.
#[verifier::ext_equal]
pub struct ProfileView {
    pub id: usize,
    pub has_fingerprint: bool,
    pub cache: CandidateView,
}

impl View for Profile {
    type V = ProfileView;

    open spec fn view(&self) -> ProfileView {
        ProfileView { id: self.id, has_fingerprint: self.has_fingerprint, cache: self.cache@ }
    }
}

impl View for Child {
    type V = Seq<ProfileView>;

    open spec fn view(&self) -> Seq<ProfileView> {
        seq![self.own@] + views(self.nested@)
    }
}

/// Whether a profile directory has a cache that may be removed. A profile directory is
/// one Cargo gave a .fingerprint, which keeps deps/ and any other subdirectory named
/// `incremental` out.
pub open spec fn has_cache(profile: ProfileView, target: Seq<Part>) -> bool {
    profile.has_fingerprint && is_removable(profile.cache, target)
}

/// The caches of `profiles`, as they stand.
pub open spec fn caches_of(
    profiles: Seq<ProfileView>,
    target: Seq<Part>,
) -> Seq<(Seq<Part>, usize)>
    decreases profiles.len(),
{
    if profiles.len() == 0 {
        Seq::empty()
    } else {
        let others = caches_of(profiles.drop_last(), target);
        if has_cache(profiles.last(), target) {
            others.push((profiles.last().cache.path, profiles.last().id))
        } else {
            others
        }
    }
}

/// The directories that may belong to a profile: target/<profile> and
/// target/<triple>/<profile>.
pub open spec fn profiles_in(children: Seq<Seq<ProfileView>>) -> Seq<ProfileView>
    decreases children.len(),
{
    if children.len() == 0 {
        Seq::empty()
    } else {
        profiles_in(children.drop_last()) + children.last()
    }
}

impl Ranked for (FilePath, usize) {
    open spec fn ranks_before(a: (Seq<Part>, usize), b: (Seq<Part>, usize)) -> bool {
        path_before(a.0, b.0)
    }

    fn goes_before(&self, other: &(FilePath, usize)) -> (yes: bool) {
        path_precedes(&self.0, &other.0)
    }
}

/// The caches in a target directory, by path.
pub open spec fn caches(
    children: Seq<Seq<ProfileView>>,
    target: Seq<Part>,
) -> Seq<(Seq<Part>, usize)> {
    sorted(
        caches_of(profiles_in(children), target),
        |a: (Seq<Part>, usize), b: (Seq<Part>, usize)|
            <(FilePath, usize) as Ranked>::ranks_before(a, b),
    )
}

/// What is found as a cache is the `incremental` of a profile directory and may be
/// removed; every such directory is found; and they stand in order.
pub proof fn lemma_caches(children: Seq<Seq<ProfileView>>, target: Seq<Part>)
    ensures
        forall|c: (Seq<Part>, usize)| #[trigger]
            caches(children, target).contains(c) <==> exists|k: int|
                0 <= k < profiles_in(children).len() && has_cache(
                    #[trigger] profiles_in(children)[k],
                    target,
                ) && c == (profiles_in(children)[k].cache.path, profiles_in(children)[k].id),
        forall|i: int, j: int|
            0 <= i < j < caches(children, target).len() ==> !path_before(
                (#[trigger] caches(children, target)[j]).0,
                (#[trigger] caches(children, target)[i]).0,
            ),
{
    let before = |a: (Seq<Part>, usize), b: (Seq<Part>, usize)|
        <(FilePath, usize) as Ranked>::ranks_before(a, b);
    let found = caches_of(profiles_in(children), target);
    assert(is_ranking(before)) by {
        assert forall|a: (Seq<Part>, usize), b: (Seq<Part>, usize)| #[trigger]
            before(a, b) implies !before(b, a) by {
            lemma_path_total(a.0, b.0);
        }
        assert forall|a: (Seq<Part>, usize), b: (Seq<Part>, usize), c: (Seq<Part>, usize)|
            #![trigger before(b, a), before(c, b)]
            !before(b, a) && !before(c, b) implies !before(c, a) by {
            lemma_path_total(a.0, b.0);
            lemma_path_total(b.0, c.0);
            lemma_path_total(a.0, c.0);
            if path_before(a.0, b.0) && path_before(b.0, c.0) {
                lemma_path_transitive(a.0, b.0, c.0);
            }
        }
    }
    lemma_sorted_in_order(found, before);
    lemma_sorted_keeps_items(found, before);
    assert forall|i: int, j: int| 0 <= i < j < caches(children, target).len() implies !path_before(
        (#[trigger] caches(children, target)[j]).0,
        (#[trigger] caches(children, target)[i]).0,
    ) by {
        assert(!before(caches(children, target)[j], caches(children, target)[i]));
    }
    assert forall|c: (Seq<Part>, usize)| #[trigger] caches(children, target).contains(c)
        <==> exists|k: int|
        0 <= k < profiles_in(children).len() && has_cache(
            #[trigger] profiles_in(children)[k],
            target,
        ) && c == (profiles_in(children)[k].cache.path, profiles_in(children)[k].id) by {
        vstd::seq_lib::to_multiset_contains(caches(children, target), c);
        vstd::seq_lib::to_multiset_contains(found, c);
        lemma_caches_of(profiles_in(children), target, c);
    }
}

proof fn lemma_caches_of(profiles: Seq<ProfileView>, target: Seq<Part>, c: (Seq<Part>, usize))
    ensures
        caches_of(profiles, target).contains(c) <==> exists|k: int|
            0 <= k < profiles.len() && has_cache(#[trigger] profiles[k], target) && c == (
                profiles[k].cache.path,
                profiles[k].id,
            ),
    decreases profiles.len(),
{
    if profiles.len() > 0 {
        let rest = profiles.drop_last();
        let others = caches_of(rest, target);
        let all = caches_of(profiles, target);
        lemma_caches_of(rest, target, c);
        if all.contains(c) {
            let m = choose|m: int| 0 <= m < all.len() && all[m] == c;
            if m < others.len() {
                assert(others[m] == c);
                let k = choose|k: int|
                    0 <= k < rest.len() && has_cache(#[trigger] rest[k], target) && c == (
                        rest[k].cache.path,
                        rest[k].id,
                    );
                assert(profiles[k] == rest[k]);
            } else {
                assert(has_cache(profiles[profiles.len() - 1], target));
            }
        }
        if exists|k: int|
            0 <= k < profiles.len() && has_cache(#[trigger] profiles[k], target) && c == (
                profiles[k].cache.path,
                profiles[k].id,
            ) {
            let k = choose|k: int|
                0 <= k < profiles.len() && has_cache(#[trigger] profiles[k], target) && c == (
                    profiles[k].cache.path,
                    profiles[k].id,
                );
            if k < rest.len() {
                assert(has_cache(rest[k], target));
                assert(others.contains(c));
                let m = choose|m: int| 0 <= m < others.len() && others[m] == c;
                assert(all[m] == c);
            } else {
                assert(all[others.len() as int] == c);
            }
        }
    }
}

fn push_cache(profile: &Profile, target: &FilePath, found: &mut Vec<(FilePath, usize)>)
    ensures
        views(final(found)@) == if has_cache(profile@, target@) {
            views(old(found)@).push((profile@.cache.path, profile@.id))
        } else {
            views(old(found)@)
        },
{
    if profile.has_fingerprint && removable(&profile.cache, target) {
        found.push((profile.cache.path.clone(), profile.id));
        assert(views(found@) == views(old(found)@).push((profile@.cache.path, profile@.id)));
    }
}

/// The caches in a target directory whose subdirectories are `children`: their paths and
/// the caller's numbers, by path.
pub fn incremental_dirs(children: &[Child], target: &FilePath) -> (found: Vec<(FilePath, usize)>)
    ensures
        views(found@) == caches(views(children@), target@),
{
    let ghost all = views(children@);
    let mut found: Vec<(FilePath, usize)> = Vec::new();
    let mut i: usize = 0;
    assert(views(found@) == caches_of(profiles_in(all.take(0)), target@));
    while i < children.len()
        invariant
            i <= children@.len(),
            all == views(children@),
            views(found@) == caches_of(profiles_in(all.take(i as int)), target@),
        decreases children@.len() - i,
    {
        let ghost before = profiles_in(all.take(i as int));
        let child = &children[i];
        let ghost here = child@;
        assert(all.take(i + 1).drop_last() == all.take(i as int));
        assert(all.take(i + 1).last() == here);
        assert(before.push(child.own@).drop_last() == before);
        push_cache(&child.own, target, &mut found);
        let mut j: usize = 0;
        assert(before.push(child.own@) == before + here.take(1));
        while j < child.nested.len()
            invariant
                j <= child.nested@.len(),
                here == child@,
                views(found@) == caches_of(before + here.take(j + 1), target@),
            decreases child.nested@.len() - j,
        {
            let ghost so_far = before + here.take(j + 1);
            assert(here[j + 1] == child.nested@[j as int]@);
            assert(before + here.take(j + 2) == so_far.push(child.nested@[j as int]@));
            assert(so_far.push(child.nested@[j as int]@).drop_last() == so_far);
            push_cache(&child.nested[j], target, &mut found);
            j += 1;
        }
        assert(here.take(j + 1) == here);
        i += 1;
    }
    assert(all.take(i as int) == all);
    sort(&mut found);
    found
}

// ---------------------------------------------------------------- what will be removed
/// A cache with what it takes up.
pub struct Cache {
    pub path: FilePath,
    /// The caller's number for the directory.
    pub id: usize,
    pub bytes: u64,
    /// How the path is written.
    pub shown: String,
}

/// What a [`Cache`] holds.
#[verifier::ext_equal]
pub struct CacheView {
    pub path: Seq<Part>,
    pub id: usize,
    pub bytes: u64,
    pub shown: Seq<char>,
}

impl View for Cache {
    type V = CacheView;

    open spec fn view(&self) -> CacheView {
        CacheView { path: self.path@, id: self.id, bytes: self.bytes, shown: self.shown@ }
    }
}

/// Whether `path` is already among `chosen`.
pub open spec fn is_chosen(chosen: Seq<CacheView>, path: Seq<Part>) -> bool {
    exists|k: int| 0 <= k < chosen.len() && (#[trigger] chosen[k]).path == path
}

/// Those of `found` that hold anything, each path once.
pub open spec fn planned(found: Seq<CacheView>) -> Seq<CacheView>
    decreases found.len(),
{
    if found.len() == 0 {
        Seq::empty()
    } else {
        let others = planned(found.drop_last());
        if found.last().bytes > 0 && !is_chosen(others, found.last().path) {
            others.push(found.last())
        } else {
            others
        }
    }
}

/// What is planned holds something, is one of `found`, and no path is planned twice.
pub proof fn lemma_planned(found: Seq<CacheView>)
    ensures
        forall|k: int|
            0 <= k < planned(found).len() ==> (#[trigger] planned(found)[k]).bytes > 0
                && found.contains(planned(found)[k]),
        forall|i: int, j: int|
            0 <= i < j < planned(found).len() ==> (#[trigger] planned(found)[i]).path != (
            #[trigger] planned(found)[j]).path,
    decreases found.len(),
{
    if found.len() > 0 {
        let rest = found.drop_last();
        lemma_planned(rest);
        let others = planned(rest);
        let all = planned(found);
        assert forall|k: int| 0 <= k < all.len() implies (#[trigger] all[k]).bytes > 0
            && found.contains(all[k]) by {
            if k < others.len() {
                assert(all[k] == others[k]);
                assert(rest.contains(others[k]));
                let m = choose|m: int| 0 <= m < rest.len() && rest[m] == others[k];
                assert(found[m] == all[k]);
            } else {
                assert(found[found.len() - 1] == all[k]);
            }
        }
        assert forall|i: int, j: int| 0 <= i < j < all.len() implies (#[trigger] all[i]).path != (
        #[trigger] all[j]).path by {
            assert(all[i] == others[i]);
            if j < others.len() {
                assert(all[j] == others[j]);
            }
        }
    }
}

/// The bytes of all caches.
pub open spec fn total_of(dirs: Seq<CacheView>) -> nat
    decreases dirs.len(),
{
    if dirs.len() == 0 {
        0
    } else {
        total_of(dirs.drop_last()) + dirs.last().bytes as nat
    }
}

fn already_chosen(chosen: &[Cache], path: &FilePath) -> (yes: bool)
    ensures
        yes == is_chosen(views(chosen@), path@),
{
    let ghost all = views(chosen@);
    let mut i: usize = 0;
    while i < chosen.len()
        invariant
            i <= chosen@.len(),
            all == views(chosen@),
            forall|k: int| 0 <= k < i ==> (#[trigger] all[k]).path != path@,
        decreases chosen@.len() - i,
    {
        assert(all[i as int] == chosen@[i as int]@);
        if chosen[i].path.is(path) {
            return true;
        }
        i += 1;
    }
    false
}

/// Those of `found` that will be removed.
pub fn plan(found: Vec<Cache>) -> (dirs: Vec<Cache>)
    ensures
        views(dirs@) == planned(views(found@)),
{
    let ghost all = views(found@);
    let mut dirs: Vec<Cache> = Vec::new();
    let mut i: usize = 0;
    assert(views(dirs@) == planned(all.take(0)));
    while i < found.len()
        invariant
            i <= found@.len(),
            all == views(found@),
            views(dirs@) == planned(all.take(i as int)),
        decreases found@.len() - i,
    {
        assert(all.take(i + 1).drop_last() == all.take(i as int));
        assert(all.take(i + 1).last() == found@[i as int]@);
        let cache = &found[i];
        if cache.bytes > 0 && !already_chosen(dirs.as_slice(), &cache.path) {
            let ghost before = dirs@;
            dirs.push(
                Cache {
                    path: cache.path.clone(),
                    id: cache.id,
                    bytes: cache.bytes,
                    shown: cache.shown.clone(),
                },
            );
            assert(dirs@.last()@ == cache@);
            assert(views(dirs@) == views(before).push(cache@));
        }
        i += 1;
    }
    assert(all.take(i as int) == all);
    dirs
}

proof fn lemma_total_grows(dirs: Seq<CacheView>, n: int)
    requires
        0 <= n <= dirs.len(),
    ensures
        total_of(dirs.take(n)) <= total_of(dirs),
    decreases dirs.len() - n,
{
    if n < dirs.len() {
        lemma_total_grows(dirs, n + 1);
        assert(dirs.take(n + 1).drop_last() == dirs.take(n));
    } else {
        assert(dirs.take(n) == dirs);
    }
}

fn total_bytes(dirs: &[Cache]) -> (total: u64)
    requires
        total_of(views(dirs@)) <= u64::MAX,
    ensures
        total == total_of(views(dirs@)),
{
    let ghost all = views(dirs@);
    let mut total: u64 = 0;
    let mut i: usize = 0;
    while i < dirs.len()
        invariant
            i <= dirs@.len(),
            all == views(dirs@),
            total_of(all) <= u64::MAX,
            total == total_of(all.take(i as int)),
        decreases dirs@.len() - i,
    {
        proof {
            lemma_total_grows(all, i + 1);
            assert(all.take(i + 1).drop_last() == all.take(i as int));
            assert(all.take(i + 1).last() == dirs@[i as int]@);
        }
        total += dirs[i].bytes;
        i += 1;
    }
    assert(all.take(i as int) == all);
    total
}

// ---------------------------------------------------------------- what is said about it
/// The lines that list the caches.
pub open spec fn listing_of(dirs: Seq<CacheView>) -> Seq<char>
    decreases dirs.len(),
{
    if dirs.len() == 0 {
        Seq::empty()
    } else {
        listing_of(dirs.drop_last()) + line_of(
            left_in(size_text(dirs.last().bytes as nat), 9) + "  "@ + dirs.last().shown,
        )
    }
}

/// The lines that list the caches.
pub fn listing(dirs: &[Cache]) -> (text: String)
    ensures
        text@ == listing_of(views(dirs@)),
{
    let ghost all = views(dirs@);
    let mut out = String::new();
    let mut i: usize = 0;
    assert(out@ == listing_of(all.take(0)));
    while i < dirs.len()
        invariant
            i <= dirs@.len(),
            all == views(dirs@),
            out@ == listing_of(all.take(i as int)),
        decreases dirs@.len() - i,
    {
        assert(all.take(i + 1).drop_last() == all.take(i as int));
        assert(all.take(i + 1).last() == dirs@[i as int]@);
        let ghost before = out@;
        let size = format_size(dirs[i].bytes);
        push_left(&mut out, size.as_str(), 9);
        out.append("  ");
        out.append(dirs[i].shown.as_str());
        out.push('\n');
        assert(out@ == before + line_of(left_in(size@, 9) + "  "@ + dirs@[i as int].shown@));
        i += 1;
    }
    assert(all.take(i as int) == all);
    out
}

/// What to do with the caches that were found.
pub enum Step {
    /// Nothing was ever built: print the message and fail.
    NotBuilt(String),
    /// There is nothing to remove: print the message.
    NoCaches(String),
    /// Print this, and remove nothing.
    DryRun(String),
    /// Print this, and go on as the answer says.
    Ask(String),
    /// Print this, and remove the caches.
    Remove(String),
}

/// What a [`Step`] holds.
#[verifier::ext_equal]
pub enum StepView {
    NotBuilt(Seq<char>),
    NoCaches(Seq<char>),
    DryRun(Seq<char>),
    Ask(Seq<char>),
    Remove(Seq<char>),
}

impl View for Step {
    type V = StepView;

    open spec fn view(&self) -> StepView {
        match self {
            Step::NotBuilt(text) => StepView::NotBuilt(text@),
            Step::NoCaches(text) => StepView::NoCaches(text@),
            Step::DryRun(text) => StepView::DryRun(text@),
            Step::Ask(text) => StepView::Ask(text@),
            Step::Remove(text) => StepView::Remove(text@),
        }
    }
}

impl StepView {
    /// The exit code, where the step is the last.
    pub open spec fn code(self) -> Option<i32> {
        match self {
            StepView::NotBuilt(_) => Some(1),
            StepView::NoCaches(_) => Some(0),
            StepView::DryRun(_) => Some(0),
            StepView::Ask(_) => None,
            StepView::Remove(_) => None,
        }
    }
}

impl Step {
    /// The exit code, where the step is the last.
    pub fn exit_code(&self) -> (code: Option<i32>)
        ensures
            code == self@.code(),
    {
        match self {
            Step::NotBuilt(_) => Some(1),
            Step::NoCaches(_) => Some(0),
            Step::DryRun(_) => Some(0),
            Step::Ask(_) => None,
            Step::Remove(_) => None,
        }
    }
}

/// What to do with the caches `dirs`, where there is an output directory at all.
pub open spec fn step_of(
    built: bool,
    dirs: Seq<CacheView>,
    dry_run: bool,
    yes: bool,
) -> StepView {
    if !built {
        StepView::NotBuilt("cargo-disk: nothing built yet — no target directory"@)
    } else if dirs.len() == 0 {
        StepView::NoCaches("No incremental caches found."@)
    } else if dry_run {
        StepView::DryRun(
            listing_of(dirs) + line_of(""@) + line_of(
                "Dry run: nothing deleted ("@ + size_text(total_of(dirs)) + ")."@,
            ),
        )
    } else if yes {
        StepView::Remove(listing_of(dirs))
    } else {
        StepView::Ask(listing_of(dirs) + prompt_of(dirs.len(), total_of(dirs)))
    }
}

/// A dry run asks nothing, removes nothing and succeeds.
pub proof fn lemma_dry_run(dirs: Seq<CacheView>, yes: bool)
    ensures
        !(step_of(true, dirs, true, yes) is Ask),
        !(step_of(true, dirs, true, yes) is Remove),
        step_of(true, dirs, true, yes).code() == Some(0i32),
{
}

/// Whatever follows, the same caches are listed first: by a dry run as by one that
/// removes them.
pub proof fn lemma_same_listing(dirs: Seq<CacheView>, dry_run: bool, yes: bool)
    requires
        dirs.len() > 0,
    ensures
        match step_of(true, dirs, dry_run, yes) {
            StepView::DryRun(text) => dry_run && listing_of(dirs).is_prefix_of(text),
            StepView::Ask(text) => !dry_run && listing_of(dirs).is_prefix_of(text),
            StepView::Remove(text) => !dry_run && listing_of(dirs).is_prefix_of(text),
            _ => false,
        },
{
}

/// What is asked before `count` directories of `total` bytes are removed.
pub open spec fn prompt_of(count: nat, total: nat) -> Seq<char> {
    line_of(""@) + line_of("This will delete incremental compilation caches."@) + line_of(
        "Cargo/rustc will recreate them as needed."@,
    ) + line_of("The next build may take longer."@) + line_of(""@) + ("Delete "@ + decimal(count)
        + " director"@ + (if count == 1 {
        "y"@
    } else {
        "ies"@
    }) + " ("@ + size_text(total) + ")? [y/N] "@)
}

/// What is asked before the directories are removed.
pub fn prompt(count: usize, total: u64) -> (text: String)
    ensures
        text@ == prompt_of(count as nat, total as nat),
{
    let mut out = String::new();
    line(&mut out, "");
    line(&mut out, "This will delete incremental compilation caches.");
    line(&mut out, "Cargo/rustc will recreate them as needed.");
    line(&mut out, "The next build may take longer.");
    line(&mut out, "");
    let ghost head = line_of(""@) + line_of("This will delete incremental compilation caches."@)
        + line_of("Cargo/rustc will recreate them as needed."@) + line_of(
        "The next build may take longer."@,
    ) + line_of(""@);
    assert(out@ == head);
    out.append("Delete ");
    push_decimal(&mut out, count as u128);
    out.append(" director");
    out.append(
        if count == 1 {
            "y"
        } else {
            "ies"
        },
    );
    out.append(" (");
    let size = format_size(total);
    out.append(size.as_str());
    out.append(")? [y/N] ");
    assert(out@ == prompt_of(count as nat, total as nat));
    out
}

/// Whether the answer to the prompt, if one could be read, is yes.
pub open spec fn is_yes(answer: Option<Seq<char>>) -> bool {
    match answer {
        Some(text) => same_ignoring_case(trimmed(text), "y"@),
        None => false,
    }
}

/// Whether the answer to the prompt, if one could be read, is yes.
pub fn confirm(answer: Option<&str>) -> (yes: bool)
    ensures
        yes == is_yes(opt_chars(answer)),
{
    match answer {
        Some(text) => {
            let chars = chars_of(text);
            eq_ignore_case(trim(chars.as_slice()), "y")
        },
        None => false,
    }
}

/// What an answer to the prompt leads to.
pub enum Reply {
    /// Remove the caches.
    Remove,
    /// Print the message, and remove nothing.
    Declined(String),
}

impl Reply {
    /// The exit code, where nothing is removed.
    pub fn exit_code(&self) -> (code: Option<i32>)
        ensures
            code == match *self {
                Reply::Remove => None,
                Reply::Declined(_) => Some(0i32),
            },
    {
        match self {
            Reply::Remove => None,
            Reply::Declined(_) => Some(0),
        }
    }
}

/// What an answer to the prompt leads to.
pub fn reply(answer: Option<&str>) -> (next: Reply)
    ensures
        if is_yes(opt_chars(answer)) {
            next is Remove
        } else {
            next matches Reply::Declined(text) && text@ == "Aborted."@
        },
{
    if confirm(answer) {
        Reply::Remove
    } else {
        Reply::Declined("Aborted.".to_owned())
    }
}

/// What to do with the caches `dirs`, where there is an output directory at all.
pub fn next_step(built: bool, dirs: &[Cache], dry_run: bool, yes: bool) -> (step: Step)
    requires
        total_of(views(dirs@)) <= u64::MAX,
    ensures
        step@ == step_of(built, views(dirs@), dry_run, yes),
{
    if !built {
        return Step::NotBuilt("cargo-disk: nothing built yet — no target directory".to_owned());
    }
    if dirs.len() == 0 {
        return Step::NoCaches("No incremental caches found.".to_owned());
    }
    let total: u64 = total_bytes(dirs);
    let mut out = listing(dirs);
    if dry_run {
        line(&mut out, "");
        let ghost head = out@;
        out.append("Dry run: nothing deleted (");
        let size = format_size(total);
        out.append(size.as_str());
        out.append(").");
        out.push('\n');
        assert(out@ == head + line_of("Dry run: nothing deleted ("@ + size@ + ")."@));
        return Step::DryRun(out);
    }
    if yes {
        return Step::Remove(out);
    }
    let question = prompt(dirs.len(), total);
    out.append(question.as_str());
    Step::Ask(out)
}

// ---------------------------------------------------------------- removing
/// What became of a cache.
pub enum Fate {
    /// It is not what it was when it was listed, and was left alone.
    Changed,
    Removed,
    /// It could not be removed, for this reason.
    Failed(String),
}

/// What becomes of a cache that is looked at again right before its removal: one that may
/// no longer be removed is left alone.
pub fn look_again(dir: &Candidate, target: &FilePath) -> (fate: Option<Fate>)
    ensures
        fate == (if is_removable(dir@, target@) {
            None
        } else {
            Some(Fate::Changed)
        }),
{
    if removable(dir, target) {
        None
    } else {
        Some(Fate::Changed)
    }
}

/// What is left to say of a cache.
pub open spec fn complaint(shown: Seq<char>, fate: Fate) -> Option<Seq<char>> {
    match fate {
        Fate::Changed => Some("cargo-disk: skipped "@ + shown + " — changed since listing"@),
        Fate::Removed => None,
        Fate::Failed(reason) => Some("cargo-disk: "@ + shown + ": "@ + reason@),
    }
}

/// How far the removal has come.
pub struct Removal {
    pub freed: u64,
    pub failed: bool,
}

/// How far the removal has come after one more cache of `bytes` bytes.
pub open spec fn noted(removal: Removal, bytes: u64, fate: Fate) -> Removal {
    match fate {
        Fate::Removed => Removal { freed: (removal.freed + bytes) as u64, ..removal },
        _ => Removal { failed: true, ..removal },
    }
}

/// How far the removal has come after the caches `dirs`, which `fates` became of.
pub open spec fn noted_all(dirs: Seq<CacheView>, fates: Seq<Fate>, n: nat) -> Removal
    decreases n,
{
    if n == 0 {
        Removal { freed: 0, failed: false }
    } else {
        noted(noted_all(dirs, fates, (n - 1) as nat), dirs[n - 1].bytes, fates[n - 1])
    }
}

/// The bytes of the first `n` of the caches that were removed.
pub open spec fn bytes_removed(dirs: Seq<CacheView>, fates: Seq<Fate>, n: nat) -> nat
    decreases n,
{
    if n == 0 {
        0
    } else {
        bytes_removed(dirs, fates, (n - 1) as nat) + if fates[n - 1] is Removed {
            dirs[n - 1].bytes as nat
        } else {
            0
        }
    }
}

/// Whether one of the first `n` caches was left alone or could not be removed.
pub open spec fn any_left(fates: Seq<Fate>, n: nat) -> bool {
    exists|k: int| 0 <= k < n && !((#[trigger] fates[k]) is Removed)
}

/// The exit code of cleaning: `step` is what was done with the caches, `agreed` whether
/// the answer to the prompt was yes, and `fates` what became of the caches that were to
/// be removed.
pub open spec fn result_of(step: StepView, agreed: bool, fates: Seq<Fate>) -> i32 {
    match step.code() {
        Some(code) => code,
        None => if step is Ask && !agreed {
            0
        } else if any_left(fates, fates.len()) {
            1
        } else {
            0
        },
    }
}

/// Cleaning fails exactly if nothing was ever built, or if removal went ahead and one of
/// the caches was left alone or could not be removed.
pub proof fn lemma_result(
    built: bool,
    dirs: Seq<CacheView>,
    dry_run: bool,
    yes: bool,
    agreed: bool,
    fates: Seq<Fate>,
)
    ensures
        ({
            let step = step_of(built, dirs, dry_run, yes);
            let went_ahead = built && dirs.len() > 0 && !dry_run && (yes || agreed);
            &&& result_of(step, agreed, fates) == 0 || result_of(step, agreed, fates) == 1
            &&& result_of(step, agreed, fates) == 1 <==> !built || (went_ahead && any_left(
                fates,
                fates.len(),
            ))
        }),
{
}

/// What is said at the end is what became of the caches: exactly those that were removed
/// count as freed, whatever became of the others, and one that was not makes the removal
/// fail.
pub proof fn lemma_noted_all(dirs: Seq<CacheView>, fates: Seq<Fate>, n: nat)
    requires
        n <= dirs.len(),
        total_of(dirs) <= u64::MAX,
    ensures
        noted_all(dirs, fates, n).freed == bytes_removed(dirs, fates, n),
        noted_all(dirs, fates, n).failed == any_left(fates, n),
        bytes_removed(dirs, fates, n) <= total_of(dirs.take(n as int)),
    decreases n,
{
    if n > 0 {
        let fewer = (n - 1) as nat;
        lemma_noted_all(dirs, fates, fewer);
        lemma_total_grows(dirs, n as int);
        assert(dirs.take(n as int).drop_last() == dirs.take(fewer as int));
        assert(dirs.take(n as int).last() == dirs[fewer as int]);
        if any_left(fates, fewer) {
            let k = choose|k: int| 0 <= k < fewer && !((#[trigger] fates[k]) is Removed);
            assert(!(fates[k] is Removed));
        }
    }
}

impl Removal {
    pub fn new() -> (removal: Removal)
        ensures
            removal == (Removal { freed: 0, failed: false }),
    {
        Removal { freed: 0, failed: false }
    }

    /// Notes what became of a cache; what is to be printed about it.
    pub fn note(&mut self, cache: &Cache, fate: &Fate) -> (message: Option<String>)
        requires
            fate is Removed ==> old(self).freed + cache.bytes <= u64::MAX,
        ensures
            *final(self) == noted(*old(self), cache.bytes, *fate),
            match message {
                Some(text) => complaint(cache@.shown, *fate) == Some(text@),
                None => complaint(cache@.shown, *fate) is None,
            },
    {
        match fate {
            Fate::Changed => {
                self.failed = true;
                let mut text = String::new();
                text.append("cargo-disk: skipped ");
                text.append(cache.shown.as_str());
                text.append(" — changed since listing");
                assert(text@ == "cargo-disk: skipped "@ + cache@.shown
                    + " — changed since listing"@);
                Some(text)
            },
            Fate::Removed => {
                self.freed = self.freed + cache.bytes;
                None
            },
            Fate::Failed(reason) => {
                self.failed = true;
                let mut text = String::new();
                text.append("cargo-disk: ");
                text.append(cache.shown.as_str());
                text.append(": ");
                text.append(reason.as_str());
                assert(text@ == "cargo-disk: "@ + cache@.shown + ": "@ + reason@);
                Some(text)
            },
        }
    }

    /// What is said at the end, and the exit code.
    pub fn finish(&self) -> (end: (String, i32))
        ensures
            end.0@ == "Freed "@ + size_text(self.freed as nat) + "."@,
            end.1 == if self.failed {
                1int
            } else {
                0
            },
    {
        let mut text = String::new();
        text.append("Freed ");
        let size = format_size(self.freed);
        text.append(size.as_str());
        text.append(".");
        assert(text@ == "Freed "@ + size@ + "."@);
        (
            text,
            if self.failed {
                1
            } else {
                0
            },
        )
    }
}

} // verus!
