//! Every project under a directory, and what Cargo shares between them.

use crate::layout::{
    format_size, line, line_of, row, row_in, rows_in, size_text, widest, LABEL_WIDTH, WIDE_RULE,
};
use crate::order::{
    inserted, is_ranking, lemma_sorted_in_order, lemma_sorted_keeps_items, lemma_text_total,
    lemma_text_transitive, precedes, sort, sorted, text_before, Ranked,
};
use crate::tally::larger_first;
use crate::text::{
    chars_of, decimal, left_in, push_decimal, push_left, push_right, right_in, same, views,
};
use crate::time::{age_text, ago, elapsed, later, Timestamp};
use crate::usage::{sum_bytes, total_bytes, Entry, EntryView};
use vstd::prelude::*;

verus! {

// ---------------------------------------------------------------- finding projects
/// A directory that may be a project or hold some.
pub struct Folder {
    /// The caller's number for the directory.
    pub id: usize,
    pub name: String,
    /// Whether it holds a Cargo.toml.
    pub has_manifest: bool,
    /// Whether it holds a target directory.
    pub has_target: bool,
    /// The directories in it, links to directories left out.
    pub folders: Vec<Folder>,
}

/// Whether a directory is a project that was built.
pub open spec fn is_project(folder: Folder) -> bool {
    folder.has_manifest && folder.has_target
}

/// Whether to look for projects in a directory called `name`: not in hidden ones, in
/// `node_modules`, and in build output.
pub open spec fn is_scanned(name: Seq<char>) -> bool {
    !((name.len() > 0 && name[0] == '.') || name == "node_modules"@ || name == "target"@)
}

/// The projects in and below a directory.
pub open spec fn projects_in(folder: Folder) -> Seq<usize>
    decreases folder, 1int,
{
    (if is_project(folder) {
        seq![folder.id]
    } else {
        Seq::empty()
    }) + projects_below(folder.folders@)
}

/// The projects in and below those of `folders` that are scanned.
pub open spec fn projects_below(folders: Seq<Folder>) -> Seq<usize>
    decreases folders, 0int,
{
    if folders.len() == 0 {
        Seq::empty()
    } else {
        projects_below(folders.drop_last()) + if is_scanned(folders.last().name@) {
            projects_in(folders.last())
        } else {
            Seq::empty()
        }
    }
}

/// The directory that `path` leads to, by way of directories that are scanned: each
/// step is a position among the directories of the one before.
pub open spec fn folder_at(folder: Folder, path: Seq<int>) -> Option<Folder>
    decreases path.len(),
{
    if path.len() == 0 {
        Some(folder)
    } else if 0 <= path[0] < folder.folders@.len() && is_scanned(
        folder.folders@[path[0]].name@,
    ) {
        folder_at(folder.folders@[path[0]], path.skip(1))
    } else {
        None
    }
}

/// Whether `path` leads to the project `id`.
pub open spec fn leads_to(folder: Folder, path: Seq<int>, id: usize) -> bool {
    match folder_at(folder, path) {
        Some(end) => is_project(end) && end.id == id,
        None => false,
    }
}

/// What is found is exactly the built projects that do not lie inside a directory that
/// is skipped, however deep they lie.
pub proof fn lemma_projects(folder: Folder, id: usize)
    ensures
        projects_in(folder).contains(id) <==> exists|path: Seq<int>| #[trigger]
            leads_to(folder, path, id),
    decreases folder, 1int,
{
    let found = projects_in(folder);
    let own: Seq<usize> = if is_project(folder) {
        seq![folder.id]
    } else {
        Seq::empty()
    };
    let below = projects_below(folder.folders@);
    lemma_projects_below(folder.folders@, id);
    if found.contains(id) {
        let k = choose|k: int| 0 <= k < found.len() && found[k] == id;
        if k < own.len() {
            assert(leads_to(folder, Seq::empty(), id));
        } else {
            assert(below[k - own.len()] == id);
            let (i, path) = choose|i: int, path: Seq<int>|
                0 <= i < folder.folders@.len() && is_scanned(folder.folders@[i].name@)
                    && #[trigger] leads_to(folder.folders@[i], path, id);
            let whole = seq![i] + path;
            assert(whole.skip(1) == path);
            assert(leads_to(folder, whole, id));
        }
    }
    if exists|path: Seq<int>| #[trigger] leads_to(folder, path, id) {
        let path = choose|path: Seq<int>| #[trigger] leads_to(folder, path, id);
        if path.len() == 0 {
            assert(found[0] == id);
        } else {
            assert(leads_to(folder.folders@[path[0]], path.skip(1), id));
            assert(below.contains(id));
            let k = choose|k: int| 0 <= k < below.len() && below[k] == id;
            assert(found[own.len() + k] == id);
        }
    }
}

proof fn lemma_projects_below(folders: Seq<Folder>, id: usize)
    ensures
        projects_below(folders).contains(id) <==> exists|i: int, path: Seq<int>|
            0 <= i < folders.len() && is_scanned(folders[i].name@) && #[trigger] leads_to(
                folders[i],
                path,
                id,
            ),
    decreases folders, 0int,
{
    if folders.len() > 0 {
        let rest = folders.drop_last();
        let others = projects_below(rest);
        let all = projects_below(folders);
        lemma_projects_below(rest, id);
        lemma_projects(folders.last(), id);
        let last = if is_scanned(folders.last().name@) {
            projects_in(folders.last())
        } else {
            Seq::empty()
        };
        if all.contains(id) {
            let k = choose|k: int| 0 <= k < all.len() && all[k] == id;
            if k < others.len() {
                assert(others[k] == id);
                let (i, path) = choose|i: int, path: Seq<int>|
                    0 <= i < rest.len() && is_scanned(rest[i].name@) && #[trigger] leads_to(
                        rest[i],
                        path,
                        id,
                    );
                assert(leads_to(folders[i], path, id));
            } else {
                assert(last[k - others.len()] == id);
                let path = choose|path: Seq<int>| #[trigger] leads_to(folders.last(), path, id);
                assert(leads_to(folders[folders.len() - 1], path, id));
            }
        }
        if exists|i: int, path: Seq<int>|
            0 <= i < folders.len() && is_scanned(folders[i].name@) && #[trigger] leads_to(
                folders[i],
                path,
                id,
            ) {
            let (i, path) = choose|i: int, path: Seq<int>|
                0 <= i < folders.len() && is_scanned(folders[i].name@) && #[trigger] leads_to(
                    folders[i],
                    path,
                    id,
                );
            if i < rest.len() {
                assert(leads_to(rest[i], path, id));
                assert(others.contains(id));
                let k = choose|k: int| 0 <= k < others.len() && others[k] == id;
                assert(all[k] == id);
            } else {
                assert(leads_to(folders.last(), path, id));
                assert(last.contains(id));
                let k = choose|k: int| 0 <= k < last.len() && last[k] == id;
                assert(all[others.len() + k] == id);
            }
        }
    }
}

/// Whether no two of the projects in a directory have the same number.
pub open spec fn numbers_differ(folder: Folder) -> bool {
    forall|a: Seq<int>, b: Seq<int>, id: usize| #[trigger]
        leads_to(folder, a, id) && #[trigger] leads_to(folder, b, id) ==> a == b
}

/// No project is found twice.
pub proof fn lemma_projects_once(folder: Folder)
    requires
        numbers_differ(folder),
    ensures
        projects_in(folder).no_duplicates(),
    decreases folder, 2int,
{
    let found = projects_in(folder);
    let below = projects_below(folder.folders@);
    lemma_below_once(folder, folder.folders@.len() as int);
    assert(folder.folders@.take(folder.folders@.len() as int) == folder.folders@);
    if is_project(folder) {
        assert(leads_to(folder, Seq::empty(), folder.id));
        assert(!below.contains(folder.id)) by {
            if below.contains(folder.id) {
                lemma_projects_below(folder.folders@, folder.id);
                let (i, path) = choose|i: int, path: Seq<int>|
                    0 <= i < folder.folders@.len() && is_scanned(folder.folders@[i].name@)
                        && #[trigger] leads_to(folder.folders@[i], path, folder.id);
                lemma_longer_path(folder, i, path, folder.id);
                assert((seq![i] + path).len() > 0);
            }
        }
        assert forall|i: int, j: int|
            0 <= i < found.len() && 0 <= j < found.len() && i != j implies found[i] != found[j] by {
            if i > 0 {
                assert(found[i] == below[i - 1]);
                assert(below.contains(below[i - 1]));
            }
            if j > 0 {
                assert(found[j] == below[j - 1]);
                assert(below.contains(below[j - 1]));
            }
        }
    } else {
        assert(found == below);
    }
}

proof fn lemma_longer_path(folder: Folder, i: int, path: Seq<int>, id: usize)
    requires
        0 <= i < folder.folders@.len(),
        is_scanned(folder.folders@[i].name@),
        leads_to(folder.folders@[i], path, id),
    ensures
        leads_to(folder, seq![i] + path, id),
{
    assert((seq![i] + path).skip(1) == path);
}

proof fn lemma_below_once(folder: Folder, n: int)
    requires
        numbers_differ(folder),
        0 <= n <= folder.folders@.len(),
    ensures
        projects_below(folder.folders@.take(n)).no_duplicates(),
    decreases folder, 1int, n,
{
    let all = folder.folders@;
    if n > 0 {
        let last = all[n - 1];
        let rest = all.take(n - 1);
        assert(all.take(n).drop_last() == rest);
        assert(all.take(n).last() == last);
        lemma_below_once(folder, n - 1);
        if is_scanned(last.name@) {
            assert(numbers_differ(last)) by {
                assert forall|a: Seq<int>, b: Seq<int>, id: usize| #[trigger]
                    leads_to(last, a, id) && #[trigger] leads_to(last, b, id) implies a == b by {
                    lemma_longer_path(folder, n - 1, a, id);
                    lemma_longer_path(folder, n - 1, b, id);
                    assert(seq![n - 1] + a == seq![n - 1] + b);
                    assert(a == (seq![n - 1] + a).skip(1));
                    assert(b == (seq![n - 1] + b).skip(1));
                }
            }
            lemma_projects_once(last);
            let others = projects_below(rest);
            let here = projects_in(last);
            let found = others + here;
            assert forall|i: int, j: int|
                0 <= i < found.len() && 0 <= j < found.len() && i != j implies found[i]
                != found[j] by {
                if i < others.len() && j >= others.len() {
                    lemma_found_apart(folder, n, i, j - others.len());
                } else if j < others.len() && i >= others.len() {
                    lemma_found_apart(folder, n, j, i - others.len());
                }
            }
        }
    }
}

proof fn lemma_found_apart(folder: Folder, n: int, i: int, j: int)
    requires
        numbers_differ(folder),
        0 < n <= folder.folders@.len(),
        is_scanned(folder.folders@[n - 1].name@),
        0 <= i < projects_below(folder.folders@.take(n - 1)).len(),
        0 <= j < projects_in(folder.folders@[n - 1]).len(),
    ensures
        projects_below(folder.folders@.take(n - 1))[i] != projects_in(folder.folders@[n - 1])[j],
{
    let rest = folder.folders@.take(n - 1);
    let last = folder.folders@[n - 1];
    let id = projects_in(last)[j];
    if projects_below(rest)[i] == id {
        assert(projects_below(rest).contains(id));
        assert(projects_in(last).contains(id));
        lemma_projects_below(rest, id);
        lemma_projects(last, id);
        let (k, a) = choose|k: int, a: Seq<int>|
            0 <= k < rest.len() && is_scanned(rest[k].name@) && #[trigger] leads_to(
                rest[k],
                a,
                id,
            );
        let b = choose|b: Seq<int>| #[trigger] leads_to(last, b, id);
        assert(rest[k] == folder.folders@[k]);
        lemma_longer_path(folder, k, a, id);
        lemma_longer_path(folder, n - 1, b, id);
        assert((seq![k] + a)[0] == k);
        assert((seq![n - 1] + b)[0] == n - 1);
    }
}

/// Whether to look for projects in a directory called `name`.
pub fn scans(name: &str) -> (yes: bool)
    ensures
        yes == is_scanned(name@),
{
    let chars = chars_of(name);
    let hidden = chars.len() > 0 && chars[0] == '.';
    !(hidden || same(name, "node_modules") || same(name, "target"))
}

/// Appends the projects in and below a directory.
pub fn find_projects(folder: &Folder, out: &mut Vec<usize>)
    ensures
        final(out)@ == old(out)@ + projects_in(*folder),
    decreases folder,
{
    let ghost start = out@;
    let ghost own: Seq<usize> = if is_project(*folder) {
        seq![folder.id]
    } else {
        Seq::empty()
    };
    if folder.has_manifest && folder.has_target {
        out.push(folder.id);
    }
    assert(out@ == start + own);
    let mut i: usize = 0;
    assert(start + own + projects_below(folder.folders@.take(0)) == start + own);
    while i < folder.folders.len()
        invariant
            i <= folder.folders@.len(),
            out@ == start + own + projects_below(folder.folders@.take(i as int)),
        decreases folder.folders@.len() - i,
    {
        assert(folder.folders@.take(i + 1).drop_last() == folder.folders@.take(i as int));
        assert(folder.folders@.take(i + 1).last() == folder.folders@[i as int]);
        if scans(folder.folders[i].name.as_str()) {
            find_projects(&folder.folders[i], out);
        }
        assert(out@ == start + own + projects_below(folder.folders@.take(i + 1)));
        i += 1;
    }
    assert(folder.folders@.take(i as int) == folder.folders@);
    assert(out@ == start + projects_in(*folder));
}

// ---------------------------------------------------------------- measuring projects
/// A project with what its target directory holds.
pub struct Project {
    pub name: String,
    pub bytes: u64,
    /// When anything in the target directory was last written.
    pub newest: Timestamp,
}

/// What a [`Project`] holds.
#[verifier::ext_equal]
pub struct ProjectView {
    pub name: Seq<char>,
    pub bytes: u64,
    pub newest: Timestamp,
}

impl View for Project {
    type V = ProjectView;

    open spec fn view(&self) -> ProjectView {
        ProjectView { name: self.name@, bytes: self.bytes, newest: self.newest }
    }
}

/// The latest time at which one of the files was written.
pub open spec fn newest_of(files: Seq<EntryView>) -> Option<Timestamp>
    decreases files.len(),
{
    if files.len() == 0 {
        None
    } else {
        match newest_of(files.drop_last()) {
            Some(time) => if time.total() > files.last().modified.total() {
                Some(time)
            } else {
                Some(files.last().modified)
            },
            None => Some(files.last().modified),
        }
    }
}

/// What the files in its target directory make of a project.
pub open spec fn project_of(name: Seq<char>, files: Seq<EntryView>) -> ProjectView {
    ProjectView {
        name,
        bytes: total_bytes(files) as u64,
        newest: match newest_of(files) {
            Some(time) => time,
            None => Timestamp { secs: 0, nanos: 0 },
        },
    }
}

/// No file was written after [`newest_of`], and one was written then.
pub proof fn lemma_newest(files: Seq<EntryView>)
    ensures
        newest_of(files) is None <==> files.len() == 0,
        newest_of(files) matches Some(time) ==> {
            &&& forall|k: int|
                0 <= k < files.len() ==> (#[trigger] files[k]).modified.total() <= time.total()
            &&& exists|k: int| 0 <= k < files.len() && (#[trigger] files[k]).modified == time
        },
    decreases files.len(),
{
    if files.len() > 0 {
        let rest = files.drop_last();
        lemma_newest(rest);
        let time = newest_of(files)->0;
        assert forall|k: int| 0 <= k < files.len() implies (#[trigger] files[k]).modified.total()
            <= time.total() by {
            if k < rest.len() {
                assert(rest[k] == files[k]);
            }
        }
        if time == files.last().modified {
            assert(files[files.len() - 1].modified == time);
        } else {
            let k = choose|k: int| 0 <= k < rest.len() && (#[trigger] rest[k]).modified == time;
            assert(files[k].modified == time);
        }
    }
}

/// What the files in its target directory make of a project.
pub fn measure(name: String, files: &[Entry]) -> (project: Project)
    requires
        total_bytes(views(files@)) <= u64::MAX,
    ensures
        project@ == project_of(name@, views(files@)),
{
    let ghost all = views(files@);
    let mut newest: Option<Timestamp> = None;
    let mut i: usize = 0;
    while i < files.len()
        invariant
            i <= files@.len(),
            all == views(files@),
            newest == newest_of(all.take(i as int)),
        decreases files@.len() - i,
    {
        assert(all.take(i + 1).drop_last() == all.take(i as int));
        assert(all.take(i + 1).last() == files@[i as int]@);
        let modified = files[i].modified;
        newest = match newest {
            Some(time) => if later(time, modified) {
                Some(time)
            } else {
                Some(modified)
            },
            None => Some(modified),
        };
        i += 1;
    }
    assert(all.take(i as int) == all);
    Project {
        name,
        bytes: sum_bytes(files),
        newest: match newest {
            Some(time) => time,
            None => Timestamp { secs: 0, nanos: 0 },
        },
    }
}

impl Ranked for Project {
    open spec fn ranks_before(a: ProjectView, b: ProjectView) -> bool {
        larger_first((a.name, a.bytes), (b.name, b.bytes))
    }

    fn goes_before(&self, other: &Project) -> (yes: bool) {
        self.bytes > other.bytes || (self.bytes == other.bytes && precedes(
            self.name.as_str(),
            other.name.as_str(),
        ))
    }
}

/// Projects by size, the largest first, equal ones by name.
pub open spec fn ranked(projects: Seq<ProjectView>) -> Seq<ProjectView> {
    sorted(
        projects,
        |a: ProjectView, b: ProjectView| <Project as Ranked>::ranks_before(a, b),
    )
}

/// Whether `a` may stand before `b`: it is larger, or of equal size and first by name, or
/// the two have the same size and name.
pub open spec fn in_rank(a: ProjectView, b: ProjectView) -> bool {
    larger_first((a.name, a.bytes), (b.name, b.bytes)) || (a.name == b.name && a.bytes == b.bytes)
}

/// Every project is listed: the larger first, those of equal size by name.
pub proof fn lemma_ranked(projects: Seq<ProjectView>)
    ensures
        ranked(projects).to_multiset() == projects.to_multiset(),
        forall|i: int, j: int|
            0 <= i < j < ranked(projects).len() ==> in_rank(
                #[trigger] ranked(projects)[i],
                #[trigger] ranked(projects)[j],
            ),
{
    let before = |a: ProjectView, b: ProjectView| <Project as Ranked>::ranks_before(a, b);
    assert(is_ranking(before)) by {
        assert forall|a: ProjectView, b: ProjectView| #[trigger] before(a, b) implies !before(
            b,
            a,
        ) by {
            lemma_text_total(a.name, b.name);
        }
        assert forall|a: ProjectView, b: ProjectView, c: ProjectView|
            #![trigger before(b, a), before(c, b)]
            !before(b, a) && !before(c, b) implies !before(c, a) by {
            lemma_text_total(a.name, b.name);
            lemma_text_total(b.name, c.name);
            lemma_text_total(a.name, c.name);
            if text_before(a.name, b.name) && text_before(b.name, c.name) {
                lemma_text_transitive(a.name, b.name, c.name);
            }
        }
    }
    lemma_sorted_keeps_items(projects, before);
    lemma_sorted_in_order(projects, before);
    assert forall|i: int, j: int| 0 <= i < j < ranked(projects).len() implies in_rank(
        #[trigger] ranked(projects)[i],
        #[trigger] ranked(projects)[j],
    ) by {
        let a = ranked(projects)[i];
        let b = ranked(projects)[j];
        assert(!before(b, a));
        lemma_text_total(a.name, b.name);
    }
}

// ---------------------------------------------------------------- the report
/// The names and sizes of the projects.
pub open spec fn names_of(projects: Seq<ProjectView>) -> Seq<(Seq<char>, u64)> {
    projects.map_values(|p: ProjectView| (p.name, p.bytes))
}

/// The bytes of all projects.
pub open spec fn combined(projects: Seq<ProjectView>) -> nat
    decreases projects.len(),
{
    if projects.len() == 0 {
        0
    } else {
        combined(projects.drop_last()) + projects.last().bytes as nat
    }
}

/// The line of one project.
pub open spec fn project_line(project: ProjectView, width: int, now: Timestamp) -> Seq<char> {
    line_of(
        left_in(project.name, width) + " "@ + right_in(size_text(project.bytes as nat), 9) + "  "@
            + age_text(elapsed(project.newest, now) / 1_000_000_000),
    )
}

/// The lines of the projects.
pub open spec fn project_lines(
    projects: Seq<ProjectView>,
    width: int,
    now: Timestamp,
) -> Seq<char>
    decreases projects.len(),
{
    if projects.len() == 0 {
        Seq::empty()
    } else {
        project_lines(projects.drop_last(), width, now) + project_line(
            projects.last(),
            width,
            now,
        )
    }
}

/// The part of the report on projects, which stand in order.
pub open spec fn projects_part(
    projects: Seq<ProjectView>,
    shown: Seq<char>,
    now: Timestamp,
) -> Seq<char> {
    if projects.len() == 0 {
        line_of("No Cargo projects with a target/ under "@ + shown)
    } else {
        let width = widest(names_of(projects), LABEL_WIDTH as nat) as int;
        line_of(left_in("Project"@, width) + " "@ + right_in("Target"@, 9) + "  "@ + "Last used"@)
            + project_lines(projects, width, now) + line_of(""@) + line_of(
            "Projects: "@ + decimal(projects.len()),
        ) + line_of("Combined target usage: "@ + size_text(combined(projects)))
    }
}

/// What Cargo keeps for all projects, where there is any.
pub open spec fn cache_rows(registry: u64, git: u64) -> Seq<(Seq<char>, u64)> {
    let first = if registry > 0 {
        seq![("registry/"@, registry)]
    } else {
        Seq::empty()
    };
    let second = if git > 0 {
        seq![("git/"@, git)]
    } else {
        Seq::empty()
    };
    first + second
}

/// The part of the report on what Cargo keeps for all projects.
pub open spec fn caches_part(caches: Option<(u64, u64)>) -> Seq<char> {
    match caches {
        Some((registry, git)) => if registry > 0 || git > 0 {
            line_of(""@) + line_of("Cargo home"@) + line_of(WIDE_RULE@) + line_of(""@) + rows_in(
                cache_rows(registry, git),
                LABEL_WIDTH as int,
            ) + row_in("Total shared cache:"@, (registry + git) as nat, LABEL_WIDTH as int)
        } else {
            Seq::empty()
        },
        None => Seq::empty(),
    }
}

/// The report on every project under a directory.
pub open spec fn scan_text(
    projects: Seq<ProjectView>,
    shown: Seq<char>,
    now: Timestamp,
    caches: Option<(u64, u64)>,
) -> Seq<char> {
    line_of("Cargo Disk — Projects"@) + line_of(WIDE_RULE@) + line_of(""@) + projects_part(
        ranked(projects),
        shown,
        now,
    ) + caches_part(caches)
}

fn name_width(projects: &[Project]) -> (width: usize)
    ensures
        width == widest(names_of(views(projects@)), LABEL_WIDTH as nat),
{
    let ghost all = names_of(views(projects@));
    let mut width: usize = LABEL_WIDTH;
    let mut i: usize = 0;
    while i < projects.len()
        invariant
            i <= projects@.len(),
            all == names_of(views(projects@)),
            width == widest(all.take(i as int), LABEL_WIDTH as nat),
        decreases projects@.len() - i,
    {
        assert(all.take(i + 1).drop_last() == all.take(i as int));
        assert(all.take(i + 1).last() == all[i as int]);
        assert(all[i as int].0 == projects@[i as int].name@);
        let n: usize = projects[i].name.as_str().unicode_len();
        if n > width {
            width = n;
        }
        i += 1;
    }
    assert(all.take(i as int) == all);
    width
}

proof fn lemma_combined_grows(projects: Seq<ProjectView>, n: int)
    requires
        0 <= n <= projects.len(),
    ensures
        combined(projects.take(n)) <= combined(projects),
    decreases projects.len() - n,
{
    if n < projects.len() {
        lemma_combined_grows(projects, n + 1);
        assert(projects.take(n + 1).drop_last() == projects.take(n));
    } else {
        assert(projects.take(n) == projects);
    }
}

/// The order of the projects does not change what they take up together.
pub proof fn lemma_combined_ranked(projects: Seq<ProjectView>)
    ensures
        combined(ranked(projects)) == combined(projects),
    decreases projects.len(),
{
    if projects.len() > 0 {
        let before = |a: ProjectView, b: ProjectView| <Project as Ranked>::ranks_before(a, b);
        lemma_combined_ranked(projects.drop_last());
        lemma_combined_inserted(ranked(projects.drop_last()), projects.last(), before);
    }
}

proof fn lemma_combined_inserted(
    projects: Seq<ProjectView>,
    x: ProjectView,
    before: spec_fn(ProjectView, ProjectView) -> bool,
)
    ensures
        combined(inserted(projects, x, before)) == combined(projects) + x.bytes,
    decreases projects.len(),
{
    let all = inserted(projects, x, before);
    if projects.len() > 0 && before(x, projects.last()) {
        lemma_combined_inserted(projects.drop_last(), x, before);
        assert(all.drop_last() == inserted(projects.drop_last(), x, before));
    } else {
        assert(all.drop_last() == projects);
    }
}

fn combined_bytes(projects: &[Project]) -> (sum: u64)
    requires
        combined(views(projects@)) <= u64::MAX,
    ensures
        sum == combined(views(projects@)),
{
    let ghost all = views(projects@);
    let mut sum: u64 = 0;
    let mut i: usize = 0;
    while i < projects.len()
        invariant
            i <= projects@.len(),
            all == views(projects@),
            combined(all) <= u64::MAX,
            sum == combined(all.take(i as int)),
        decreases projects@.len() - i,
    {
        proof {
            lemma_combined_grows(all, i + 1);
            assert(all.take(i + 1).drop_last() == all.take(i as int));
            assert(all.take(i + 1).last() == projects@[i as int]@);
        }
        sum += projects[i].bytes;
        i += 1;
    }
    assert(all.take(i as int) == all);
    sum
}

fn push_project(out: &mut String, project: &Project, width: usize, now: Timestamp)
    ensures
        final(out)@ == old(out)@ + project_line(project@, width as int, now),
{
    let ghost before = out@;
    push_left(out, project.name.as_str(), width);
    out.append(" ");
    let size = format_size(project.bytes);
    push_right(out, size.as_str(), 9);
    out.append("  ");
    let age = ago(project.newest, now);
    out.append(age.as_str());
    out.push('\n');
    assert(out@ == before + project_line(project@, width as int, now));
}

fn push_project_lines(out: &mut String, projects: &[Project], width: usize, now: Timestamp)
    ensures
        final(out)@ == old(out)@ + project_lines(views(projects@), width as int, now),
{
    let ghost start = out@;
    let ghost all = views(projects@);
    let mut i: usize = 0;
    assert(start + project_lines(all.take(0), width as int, now) == start);
    while i < projects.len()
        invariant
            i <= projects@.len(),
            all == views(projects@),
            out@ == start + project_lines(all.take(i as int), width as int, now),
        decreases projects@.len() - i,
    {
        assert(all.take(i + 1).drop_last() == all.take(i as int));
        assert(all.take(i + 1).last() == projects@[i as int]@);
        push_project(out, &projects[i], width, now);
        assert(out@ == start + project_lines(all.take(i + 1), width as int, now));
        i += 1;
    }
    assert(all.take(i as int) == all);
}

fn push_projects(out: &mut String, projects: &[Project], shown: &str, now: Timestamp)
    requires
        combined(views(projects@)) <= u64::MAX,
    ensures
        final(out)@ == old(out)@ + projects_part(views(projects@), shown@, now),
{
    let ghost start = out@;
    if projects.len() == 0 {
        out.append("No Cargo projects with a target/ under ");
        out.append(shown);
        out.push('\n');
        assert(out@ == start + projects_part(views(projects@), shown@, now));
        return;
    }
    let ghost all = views(projects@);
    let width: usize = name_width(projects);
    let ghost w = width as int;
    push_left(out, "Project", width);
    out.append(" ");
    push_right(out, "Target", 9);
    out.append("  ");
    out.append("Last used");
    out.push('\n');
    let ghost head = line_of(
        left_in("Project"@, w) + " "@ + right_in("Target"@, 9) + "  "@ + "Last used"@,
    );
    assert(out@ == start + head);
    push_project_lines(out, projects, width, now);
    let ghost listed = head + project_lines(all, w, now);
    assert(out@ == start + listed);
    line(out, "");
    assert(out@ == start + (listed + line_of(""@)));
    let ghost before = out@;
    out.append("Projects: ");
    push_decimal(out, projects.len() as u128);
    out.push('\n');
    assert(out@ == before + line_of("Projects: "@ + decimal(all.len())));
    let ghost counted = out@;
    out.append("Combined target usage: ");
    let size = format_size(combined_bytes(projects));
    out.append(size.as_str());
    out.push('\n');
    assert(out@ == counted + line_of("Combined target usage: "@ + size@));
    assert(out@ == start + projects_part(all, shown@, now));
}

fn push_caches(out: &mut String, caches: Option<(u64, u64)>)
    requires
        caches matches Some((registry, git)) ==> registry + git <= u64::MAX,
    ensures
        final(out)@ == old(out)@ + caches_part(caches),
{
    let ghost start = out@;
    if let Some((registry, git)) = caches {
        if registry > 0 || git > 0 {
            line(out, "");
            line(out, "Cargo home");
            line(out, WIDE_RULE);
            line(out, "");
            let ghost head = line_of(""@) + line_of("Cargo home"@) + line_of(WIDE_RULE@) + line_of(
                ""@,
            );
            assert(out@ == start + head);
            let mut rows: Vec<(String, u64)> = Vec::new();
            if registry > 0 {
                rows.push(("registry/".to_owned(), registry));
            }
            if git > 0 {
                rows.push(("git/".to_owned(), git));
            }
            assert(views(rows@) =~~= cache_rows(registry, git));
            crate::layout::push_rows(out, rows.as_slice(), LABEL_WIDTH);
            row(out, "Total shared cache:", registry + git);
            assert(out@ == start + caches_part(caches));
            return;
        }
    }
    assert(out@ == start + caches_part(caches));
}

/// The report on every project under a directory that is written `shown`. `caches` holds
/// what the registry and the git checkouts in Cargo's home take up, if it has one.
pub fn scan_all(
    projects: Vec<Project>,
    shown: &str,
    now: Timestamp,
    caches: Option<(u64, u64)>,
) -> (text: String)
    requires
        combined(views(projects@)) <= u64::MAX,
        caches matches Some((registry, git)) ==> registry + git <= u64::MAX,
    ensures
        text@ == scan_text(views(projects@), shown@, now, caches),
{
    let ghost given = views(projects@);
    let mut projects = projects;
    sort(&mut projects);
    proof {
        lemma_combined_ranked(given);
    }
    let mut out = String::new();
    line(&mut out, "Cargo Disk — Projects");
    line(&mut out, WIDE_RULE);
    line(&mut out, "");
    let ghost head = line_of("Cargo Disk — Projects"@) + line_of(WIDE_RULE@) + line_of(""@);
    assert(out@ == head);
    push_projects(&mut out, projects.as_slice(), shown, now);
    push_caches(&mut out, caches);
    assert(out@ == scan_text(given, shown@, now, caches));
    out
}

// ---------------------------------------------------------------- Cargo's home
/// Where Cargo's home is.
#[derive(Clone, Copy, Debug, PartialEq, Eq, Structural)]
pub enum Home {
    /// At `CARGO_HOME`.
    Cargo,
    /// At `.cargo` in `HOME`.
    User,
    /// At `.cargo` in `USERPROFILE`.
    Profile,
    Unknown,
}

/// Where Cargo's home is, by which of `CARGO_HOME`, `HOME` and `USERPROFILE` are set.
pub fn cargo_home(cargo: bool, home: bool, user_profile: bool) -> (at: Home)
    ensures
        at == if cargo {
            Home::Cargo
        } else if home {
            Home::User
        } else if user_profile {
            Home::Profile
        } else {
            Home::Unknown
        },
{
    if cargo {
        Home::Cargo
    } else if home {
        Home::User
    } else if user_profile {
        Home::Profile
    } else {
        Home::Unknown
    }
}

} // verus!
