//! Laws of the order that things are listed in.

use crate::clean::{caches, ProfileView};
use crate::deps::{lemma_selection, lemma_updates, selection, updates};
use crate::order::{sorted, text_before};
use crate::path::{joined, lemma_path_total, path_before, Part};
use crate::report::{profile_of, profile_title, uppercase, SubjectView};
use crate::scan::{lemma_ranked, ranked, ProjectView};
use crate::tally::{distinct, grouped, lemma_distinct, lemma_grouped, sum_of, sums_fit};
use crate::usage::{
    counts, entries_of, entry_of, lemma_ones_sum, lemma_units_len, many, ones, units, EntryView,
    FileView,
};
use vstd::prelude::*;

verus! {

/// Rows stand by size, the largest first, and rows of equal size by label.
pub proof fn lemma_rows_by_size(items: Seq<(Seq<char>, u64)>, i: int, j: int)
    requires
        sums_fit(items),
        0 <= i < j < grouped(items).len(),
    ensures
        grouped(items)[i].1 >= grouped(items)[j].1,
        grouped(items)[i].1 == grouped(items)[j].1 ==> text_before(
            grouped(items)[i].0,
            grouped(items)[j].0,
        ),
{
    lemma_grouped(items);
    let a = grouped(items)[i];
    let b = grouped(items)[j];
}

/// Projects stand by size, the largest first, and projects of equal size by name.
pub proof fn lemma_projects_by_size(projects: Seq<ProjectView>, i: int, j: int)
    requires
        0 <= i < j < ranked(projects).len(),
    ensures
        ranked(projects)[i].bytes >= ranked(projects)[j].bytes,
        ranked(projects)[i].bytes == ranked(projects)[j].bytes ==> ranked(projects)[i].name
            == ranked(projects)[j].name || text_before(
            ranked(projects)[i].name,
            ranked(projects)[j].name,
        ),
        ranked(projects).to_multiset() == projects.to_multiset(),
{
    lemma_ranked(projects);
    let a = ranked(projects)[i];
    let b = ranked(projects)[j];
}

/// Updates stand by package, then by the version in use, then by the version that could be
/// had, and none stands there twice.
pub proof fn lemma_updates_in_order(text: Seq<char>, i: int, j: int)
    requires
        0 <= i < j < updates(text).len(),
    ensures
        ({
            let a = updates(text)[i];
            let b = updates(text)[j];
            ||| text_before(a.0, b.0)
            ||| a.0 == b.0 && text_before(a.1, b.1)
            ||| a.0 == b.0 && a.1 == b.1 && text_before(a.2, b.2)
        }),
{
    lemma_updates(text);
    let a = updates(text)[i];
    let b = updates(text)[j];
}

/// Caches stand by path.
pub proof fn lemma_caches_in_order(
    children: Seq<Seq<ProfileView>>,
    target: Seq<Part>,
    i: int,
    j: int,
)
    requires
        0 <= i < j < caches(children, target).len(),
    ensures
        ({
            let a = caches(children, target)[i].0;
            let b = caches(children, target)[j].0;
            a == b || path_before(a, b)
        }),
{
    crate::clean::lemma_caches(children, target);
    let a = caches(children, target)[i];
    let b = caches(children, target)[j];
    lemma_path_total(a.0, b.0);
}

/// What is selected is removed in ascending order, each row once.
pub proof fn lemma_selected_in_order(input: Seq<char>, max: usize, picked: Seq<usize>, i: int, j: int)
    requires
        selection(input, max) == Ok::<Seq<usize>, Seq<char>>(picked),
        0 <= i < j < picked.len(),
    ensures
        picked[i] < picked[j],
        1 <= picked[i] <= max,
{
    lemma_selection(input, max);
    match selection(input, max) {
        Ok(list) => {
            assert(list == picked);
            assert(list[i] < list[j]);
            assert(1 <= list[i] <= max);
        },
        Err(_) => {},
    }
}

proof fn lemma_many(rows: Seq<(Seq<char>, u64)>, i: int, j: int) -> (at: (int, int))
    requires
        0 <= i < j < many(rows).len(),
        forall|k: int| 0 <= k < rows.len() ==> (#[trigger] rows[k]).1 <= usize::MAX,
    ensures
        0 <= at.0 < at.1 < rows.len(),
        many(rows)[i] == (rows[at.0].0, rows[at.0].1 as usize),
        many(rows)[j] == (rows[at.1].0, rows[at.1].1 as usize),
    decreases rows.len(),
{
    let rest = rows.drop_last();
    assert forall|k: int| 0 <= k < rest.len() implies (#[trigger] rest[k]).1 <= usize::MAX by {
        assert(rest[k] == rows[k]);
    }
    if j < many(rest).len() {
        let at = lemma_many(rest, i, j);
        assert(rest[at.0] == rows[at.0] && rest[at.1] == rows[at.1]);
        at
    } else {
        let a = lemma_many_one(rest, i);
        assert(rest[a] == rows[a]);
        (a, rows.len() - 1)
    }
}

proof fn lemma_many_one(rows: Seq<(Seq<char>, u64)>, i: int) -> (at: int)
    requires
        0 <= i < many(rows).len(),
    ensures
        0 <= at < rows.len(),
        many(rows)[i] == (rows[at].0, rows[at].1 as usize),
    decreases rows.len(),
{
    let rest = rows.drop_last();
    if i < many(rest).len() {
        let at = lemma_many_one(rest, i);
        assert(rest[at] == rows[at]);
        at
    } else {
        rows.len() - 1
    }
}

/// Crates stand by how often they were built, the most often first, and those that were
/// built equally often by name.
pub proof fn lemma_counts_in_order(files: Seq<EntryView>, dirs: Seq<Seq<Part>>, i: int, j: int)
    requires
        files.len() <= usize::MAX,
        0 <= i < j < counts(files, dirs).len(),
    ensures
        counts(files, dirs)[i].1 >= counts(files, dirs)[j].1,
        counts(files, dirs)[i].1 == counts(files, dirs)[j].1 ==> text_before(
            counts(files, dirs)[i].0,
            counts(files, dirs)[j].0,
        ),
{
    let found = units(files, dirs);
    let items = ones(distinct(found));
    let rows = grouped(items);
    lemma_distinct(found);
    lemma_units_len(files, dirs);
    assert forall|label: Seq<char>| #[trigger] sum_of(items, label) <= usize::MAX by {
        lemma_ones_sum(distinct(found), label);
    }
    assert(sums_fit(items));
    lemma_grouped(items);
    assert forall|k: int| 0 <= k < rows.len() implies (#[trigger] rows[k]).1 <= usize::MAX by {
        assert(rows.contains((rows[k].0, rows[k].1)));
        assert(sum_of(items, rows[k].0) <= usize::MAX);
    }
    let at = lemma_many(rows, i, j);
    lemma_rows_by_size(items, at.0, at.1);
}

/// Whoever need not stand before anything stands last: of equal ones the first stays
/// first.
pub proof fn lemma_stays_behind<V>(items: Seq<V>, x: V, before: spec_fn(V, V) -> bool)
    requires
        forall|i: int|
            0 <= i < sorted(items, before).len() ==> !before(
                x,
                #[trigger] sorted(items, before)[i],
            ),
    ensures
        sorted(items.push(x), before) == sorted(items, before).push(x),
{
    assert(items.push(x).drop_last() =~= items);
    let list = sorted(items, before);
    if list.len() > 0 {
        assert(!before(x, list[list.len() - 1]));
    }
}

// ---------------------------------------------------------------- paths
/// Components of different kinds stand in this order: a prefix, the root, the directory
/// itself, the one above it, and those with a name.
pub proof fn lemma_kinds_of_components(
    drive: Seq<char>,
    name: Seq<char>,
    a: Seq<Part>,
    b: Seq<Part>,
)
    ensures
        path_before(seq![Part::Prefix(drive)] + a, seq![Part::RootDir] + b),
        path_before(seq![Part::RootDir] + a, seq![Part::CurDir] + b),
        path_before(seq![Part::CurDir] + a, seq![Part::ParentDir] + b),
        path_before(seq![Part::ParentDir] + a, seq![Part::Normal(name)] + b),
        path_before(seq![Part::Prefix(drive)] + a, seq![Part::Normal(name)] + b),
        path_before(seq![Part::RootDir] + a, seq![Part::Normal(name)] + b),
{
    assert((seq![Part::Prefix(drive)] + a)[0] == Part::Prefix(drive));
    assert((seq![Part::RootDir] + a)[0] == Part::RootDir);
    assert((seq![Part::RootDir] + b)[0] == Part::RootDir);
    assert((seq![Part::CurDir] + a)[0] == Part::CurDir);
    assert((seq![Part::CurDir] + b)[0] == Part::CurDir);
    assert((seq![Part::ParentDir] + a)[0] == Part::ParentDir);
    assert((seq![Part::ParentDir] + b)[0] == Part::ParentDir);
    assert((seq![Part::Normal(name)] + b)[0] == Part::Normal(name));
}

/// A point leads nowhere, two points lead up, and any other name leads down.
pub proof fn lemma_joined(dir: Seq<Part>, name: Seq<char>)
    ensures
        joined(dir, Seq::<char>::empty()) == dir,
        dir.len() > 0 ==> joined(dir, "."@) == dir,
        joined(Seq::<Part>::empty(), "."@) == seq![Part::CurDir],
        joined(dir, ".."@) == dir.push(Part::ParentDir),
        name.len() > 0 && name != "."@ && name != ".."@ ==> joined(dir, name) == dir.push(
            Part::Normal(name),
        ),
{
    reveal_strlit(".");
    reveal_strlit("..");
    assert("."@.len() == 1 && ".."@.len() == 2);
}

/// Every file that counts makes an entry, in order.
pub proof fn lemma_entries_steps(files: Seq<FileView>, file: FileView)
    ensures
        entries_of(Seq::<FileView>::empty()) == Seq::<EntryView>::empty(),
        entries_of(files.push(file)) == entries_of(files).push(entry_of(file)),
{
    assert(entries_of(Seq::<FileView>::empty()) =~= Seq::<EntryView>::empty());
    assert(entries_of(files.push(file)) =~= entries_of(files).push(entry_of(file)));
}

/// The section of the largest profile has its name in capitals for a title.
pub proof fn lemma_profile_title(s: SubjectView, k: int, name: Seq<char>)
    requires
        profile_of(s.files, s.dirs) == Some((k, name)),
    ensures
        profile_title(s) == uppercase(name),
{
}

} // verus!
