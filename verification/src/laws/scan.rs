//! Laws of ages, and of the report on every project under a directory.

use crate::layout::{line_of, row_in, rows_in, size_text, widest};
use crate::scan::{
    cache_rows, caches_part, combined, is_scanned, names_of, newest_of, project_line, project_lines,
    project_of, projects_below, projects_in, projects_part, ranked, scan_text, Folder, ProjectView,
};
use crate::text::{decimal, left_in, right_in};
use crate::time::{age_text, age_unit, elapsed, Timestamp};
use crate::usage::{total_bytes, EntryView};
use vstd::prelude::*;

verus! {

// ---------------------------------------------------------------- ages
/// An age is told in the largest unit of which it holds one, a month being thirty days and
/// a year 365: `n` whole units and `rest` seconds.
pub proof fn lemma_ages(secs: nat, n: nat, rest: nat)
    ensures
        secs < 120 ==> age_text(secs) == "just now"@,
        secs == n * 60 + rest && rest < 60 && 2 <= n < 60 ==> age_text(secs) == decimal(n)
            + " minutes ago"@,
        3_600 <= secs < 7_200 ==> age_text(secs) == decimal(1) + " hour ago"@,
        secs == n * 3_600 + rest && rest < 3_600 && 2 <= n < 24 ==> age_text(secs) == decimal(n)
            + " hours ago"@,
        86_400 <= secs < 172_800 ==> age_text(secs) == decimal(1) + " day ago"@,
        secs == n * 86_400 + rest && rest < 86_400 && 2 <= n < 60 ==> age_text(secs) == decimal(n)
            + " days ago"@,
        secs == n * 2_592_000 + rest && rest < 2_592_000 && 2 <= n && secs < 31_536_000
            ==> age_text(secs) == decimal(n) + " months ago"@,
        31_536_000 <= secs < 63_072_000 ==> age_text(secs) == decimal(1) + " year ago"@,
        secs == n * 31_536_000 + rest && rest < 31_536_000 && 2 <= n ==> age_text(secs) == decimal(
            n,
        ) + " years ago"@,
{
    reveal_strlit("");
    reveal_strlit("s");
    reveal_strlit(" ");
    reveal_strlit(" ago");
    reveal_strlit("minute");
    reveal_strlit("hour");
    reveal_strlit("day");
    reveal_strlit("month");
    reveal_strlit("year");
    reveal_strlit(" minutes ago");
    reveal_strlit(" hour ago");
    reveal_strlit(" hours ago");
    reveal_strlit(" day ago");
    reveal_strlit(" days ago");
    reveal_strlit(" months ago");
    reveal_strlit(" year ago");
    reveal_strlit(" years ago");
    let d = decimal(n);
    let one = decimal(1);
    assert(d + " "@ + "minute"@ + "s"@ + " ago"@ =~= d + " minutes ago"@);
    assert(d + " "@ + "hour"@ + "s"@ + " ago"@ =~= d + " hours ago"@);
    assert(d + " "@ + "day"@ + "s"@ + " ago"@ =~= d + " days ago"@);
    assert(d + " "@ + "month"@ + "s"@ + " ago"@ =~= d + " months ago"@);
    assert(d + " "@ + "year"@ + "s"@ + " ago"@ =~= d + " years ago"@);
    assert(one + " "@ + "hour"@ + ""@ + " ago"@ =~= one + " hour ago"@);
    assert(one + " "@ + "day"@ + ""@ + " ago"@ =~= one + " day ago"@);
    assert(one + " "@ + "year"@ + ""@ + " ago"@ =~= one + " year ago"@);
    if secs == n * 60 + rest && rest < 60 && 2 <= n < 60 {
        assert(age_unit(secs) == Some((60nat, "minute"@)));
        assert(secs / 60nat == n);
    }
    if 3_600 <= secs < 7_200 {
        assert(age_unit(secs) == Some((3_600nat, "hour"@)));
        assert(secs / 3_600nat == 1);
    }
    if secs == n * 3_600 + rest && rest < 3_600 && 2 <= n < 24 {
        assert(age_unit(secs) == Some((3_600nat, "hour"@)));
        assert(secs / 3_600nat == n);
    }
    if 86_400 <= secs < 172_800 {
        assert(age_unit(secs) == Some((86_400nat, "day"@)));
        assert(secs / 86_400nat == 1);
    }
    if secs == n * 86_400 + rest && rest < 86_400 && 2 <= n < 60 {
        assert(age_unit(secs) == Some((86_400nat, "day"@)));
        assert(secs / 86_400nat == n);
    }
    if secs == n * 2_592_000 + rest && rest < 2_592_000 && 2 <= n && secs < 31_536_000 {
        assert(age_unit(secs) == Some((2_592_000nat, "month"@)));
        assert(secs / 2_592_000nat == n);
    }
    if 31_536_000 <= secs < 63_072_000 {
        assert(age_unit(secs) == Some((31_536_000nat, "year"@)));
        assert(secs / 31_536_000nat == 1);
    }
    if secs == n * 31_536_000 + rest && rest < 31_536_000 && 2 <= n {
        assert(age_unit(secs) == Some((31_536_000nat, "year"@)));
        assert(secs / 31_536_000nat == n);
    }
}

/// The time between two points is their difference, and none where the first is not in the
/// past.
pub proof fn lemma_elapsed(then: Timestamp, now: Timestamp)
    ensures
        ({
            let nanos = (now.secs - then.secs) * 1_000_000_000 + (now.nanos - then.nanos);
            &&& nanos >= 0 ==> elapsed(then, now) == nanos
            &&& nanos < 0 ==> elapsed(then, now) == 0
        }),
{
}

// ---------------------------------------------------------------- finding projects
/// Projects are looked for everywhere but in hidden directories, node_modules and target.
pub proof fn lemma_scanned(name: Seq<char>, rest: Seq<char>)
    ensures
        !is_scanned("."@ + rest),
        !is_scanned("node_modules"@),
        !is_scanned("target"@),
        name.len() > 0 && name[0] != '.' && name != "node_modules"@ && name != "target"@
            ==> is_scanned(name),
        is_scanned(Seq::<char>::empty()),
{
    reveal_strlit(".");
    reveal_strlit("node_modules");
    reveal_strlit("target");
    assert(("."@ + rest)[0] == '.');
    assert("node_modules"@.len() == 12 && "target"@.len() == 6);
}

/// A directory is a project if it holds both a manifest and a target directory; its
/// projects are itself, then those of the directories in it that are scanned, in order.
pub proof fn lemma_projects_steps(folder: Folder, folders: Seq<Folder>)
    ensures
        folder.has_manifest && folder.has_target ==> projects_in(folder) == seq![folder.id]
            + projects_below(folder.folders@),
        !(folder.has_manifest && folder.has_target) ==> projects_in(folder) == projects_below(
            folder.folders@,
        ),
        projects_below(Seq::<Folder>::empty()) == Seq::<usize>::empty(),
        is_scanned(folder.name@) ==> projects_below(folders.push(folder)) == projects_below(
            folders,
        ) + projects_in(folder),
        !is_scanned(folder.name@) ==> projects_below(folders.push(folder)) == projects_below(
            folders,
        ),
{
    assert(folders.push(folder).drop_last() == folders);
    assert(Seq::<usize>::empty() + projects_below(folder.folders@) =~= projects_below(
        folder.folders@,
    ));
    assert(projects_below(folders) + Seq::<usize>::empty() =~= projects_below(folders));
}

/// A project has its name, what all files in its target directory add up to, and the time of
/// the latest one.
pub proof fn lemma_measured(name: Seq<char>, files: Seq<EntryView>, file: EntryView)
    requires
        total_bytes(files) <= u64::MAX,
    ensures
        project_of(name, files).name == name,
        project_of(name, files).bytes == total_bytes(files),
        newest_of(files) matches Some(time) ==> project_of(name, files).newest == time,
        files.len() == 0 ==> project_of(name, files).newest == (Timestamp { secs: 0, nanos: 0 }),
        newest_of(seq![file]) == Some(file.modified),
        newest_of(files) matches Some(time) ==> newest_of(files.push(file)) == Some(
            if time.total() > file.modified.total() {
                time
            } else {
                file.modified
            },
        ),
{
    assert(files.push(file).drop_last() == files);
    assert(seq![file].drop_last() =~= Seq::<EntryView>::empty());
    reveal_with_fuel(newest_of, 2);
}

// ---------------------------------------------------------------- the report
/// The line of a project: its name, its size and how long ago it was used.
pub proof fn lemma_project_line(project: ProjectView, width: int, now: Timestamp, secs: nat, rest: nat)
    requires
        elapsed(project.newest, now) == secs * 1_000_000_000 + rest,
        rest < 1_000_000_000,
    ensures
        project_line(project, width, now) == left_in(project.name, width) + " "@ + right_in(
            size_text(project.bytes as nat),
            9,
        ) + "  "@ + age_text(secs) + "\n"@,
{
    reveal_strlit("\n");
    assert(elapsed(project.newest, now) / 1_000_000_000 == secs);
    assert(project_line(project, width, now) =~= left_in(project.name, width) + " "@ + right_in(
        size_text(project.bytes as nat),
        9,
    ) + "  "@ + age_text(secs) + "\n"@);
}

/// Projects are listed one by one, and their sizes added up.
pub proof fn lemma_project_lines_steps(
    projects: Seq<ProjectView>,
    project: ProjectView,
    width: int,
    now: Timestamp,
)
    ensures
        project_lines(Seq::<ProjectView>::empty(), width, now) == Seq::<char>::empty(),
        project_lines(projects.push(project), width, now) == project_lines(projects, width, now)
            + project_line(project, width, now),
        combined(Seq::<ProjectView>::empty()) == 0,
        combined(projects.push(project)) == combined(projects) + project.bytes,
        names_of(projects.push(project)) == names_of(projects).push((project.name, project.bytes)),
{
    assert(projects.push(project).drop_last() == projects);
    assert(names_of(projects.push(project)) =~= names_of(projects).push(
        (project.name, project.bytes),
    ));
}

/// The table of projects has a heading, a line for each, their number and the sum of their
/// sizes.
pub proof fn lemma_projects_table(projects: Seq<ProjectView>, shown: Seq<char>, now: Timestamp)
    ensures
        projects.len() == 0 ==> projects_part(projects, shown, now)
            == "No Cargo projects with a target/ under "@ + shown + "\n"@,
        projects.len() > 0 ==> ({
            let width = widest(names_of(projects), 22) as int;
            projects_part(projects, shown, now) == left_in("Project"@, width)
                + "    Target  Last used\n"@ + project_lines(projects, width, now)
                + "\nProjects: "@ + decimal(projects.len()) + "\nCombined target usage: "@
                + size_text(combined(projects)) + "\n"@
        }),
{
    reveal_strlit("");
    reveal_strlit(" ");
    reveal_strlit("  ");
    reveal_strlit("\n");
    reveal_strlit("Target");
    reveal_strlit("Last used");
    reveal_strlit("    Target  Last used\n");
    reveal_strlit("Projects: ");
    reveal_strlit("\nProjects: ");
    reveal_strlit("Combined target usage: ");
    reveal_strlit("\nCombined target usage: ");
    if projects.len() == 0 {
        assert(projects_part(projects, shown, now)
            =~= "No Cargo projects with a target/ under "@ + shown + "\n"@);
    } else {
        let width = widest(names_of(projects), 22) as int;
        crate::laws::text::lemma_columns("Target"@, 9);
        let column = right_in("Target"@, 9);
        assert(column.len() == 9);
        assert(column =~= seq![' ', ' ', ' ', 'T', 'a', 'r', 'g', 'e', 't']) by {
            assert(column.skip(3) == "Target"@);
            assert(column.skip(3)[0] == column[3]);
            assert(column.skip(3)[1] == column[4]);
            assert(column.skip(3)[2] == column[5]);
            assert(column.skip(3)[3] == column[6]);
            assert(column.skip(3)[4] == column[7]);
            assert(column.skip(3)[5] == column[8]);
        }
        let head = left_in("Project"@, width);
        assert(line_of(head + " "@ + column + "  "@ + "Last used"@) =~= head
            + "    Target  Last used\n"@);
        assert(line_of(""@) + line_of("Projects: "@ + decimal(projects.len())) + line_of(
            "Combined target usage: "@ + size_text(combined(projects)),
        ) =~= "\nProjects: "@ + decimal(projects.len()) + "\nCombined target usage: "@ + size_text(
            combined(projects),
        ) + "\n"@);
        assert(projects_part(projects, shown, now) =~= head + "    Target  Last used\n"@
            + project_lines(projects, width, now) + (line_of(""@) + line_of(
            "Projects: "@ + decimal(projects.len()),
        ) + line_of("Combined target usage: "@ + size_text(combined(projects)))));
    }
}

/// What Cargo keeps for all projects is shown by kind, where there is any, and as a sum.
pub proof fn lemma_caches_table(registry: u64, git: u64)
    ensures
        ({
            let head = "\nCargo home\n"@ + "────────────────────────────────────────"@
                + "\n\n"@;
            let sum = row_in("Total shared cache:"@, (registry + git) as nat, 22);
            let a = row_in("registry/"@, registry as nat, 22);
            let b = row_in("git/"@, git as nat, 22);
            &&& caches_part(None) == Seq::<char>::empty()
            &&& registry == 0 && git == 0 ==> caches_part(Some((registry, git))) == Seq::<
                char,
            >::empty()
            &&& registry > 0 && git == 0 ==> caches_part(Some((registry, git))) == head + a + sum
            &&& registry == 0 && git > 0 ==> caches_part(Some((registry, git))) == head + b + sum
            &&& registry > 0 && git > 0 ==> caches_part(Some((registry, git))) == head + a + b
                + sum
        }),
{
    reveal_strlit("");
    reveal_strlit("\n\n");
    reveal_strlit("Cargo home");
    reveal_strlit("\nCargo home\n");
    reveal_with_fuel(rows_in, 3);
    let rule = "────────────────────────────────────────"@;
    let head = "\nCargo home\n"@ + rule + "\n\n"@;
    assert(line_of(""@) + line_of("Cargo home"@) + line_of(rule) + line_of(""@) =~= head);
    let a = row_in("registry/"@, registry as nat, 22);
    let b = row_in("git/"@, git as nat, 22);
    let rows = cache_rows(registry, git);
    if registry > 0 && git > 0 {
        assert(rows =~= seq![("registry/"@, registry), ("git/"@, git)]);
        assert(rows.drop_last() =~= seq![("registry/"@, registry)]);
        assert(rows.drop_last().drop_last() =~= Seq::<(Seq<char>, u64)>::empty());
        assert(rows_in(rows, 22) =~= a + b);
        assert(head + (a + b) =~= head + a + b);
    } else if registry > 0 {
        assert(rows =~= seq![("registry/"@, registry)]);
        assert(rows.drop_last() =~= Seq::<(Seq<char>, u64)>::empty());
        assert(rows_in(rows, 22) =~= a);
    } else if git > 0 {
        assert(rows =~= seq![("git/"@, git)]);
        assert(rows.drop_last() =~= Seq::<(Seq<char>, u64)>::empty());
        assert(rows_in(rows, 22) =~= b);
    }
}

/// The parts of the report on every project, in order.
pub proof fn lemma_scan_report(
    projects: Seq<ProjectView>,
    shown: Seq<char>,
    now: Timestamp,
    caches: Option<(u64, u64)>,
)
    ensures
        scan_text(projects, shown, now, caches) == "Cargo Disk — Projects"@ + "\n"@
            + "────────────────────────────────────────"@ + "\n\n"@ + projects_part(
            ranked(projects),
            shown,
            now,
        ) + caches_part(caches),
{
    reveal_strlit("");
    reveal_strlit("\n");
    reveal_strlit("\n\n");
    let rule = "────────────────────────────────────────"@;
    assert(line_of("Cargo Disk — Projects"@) + line_of(rule) + line_of(""@)
        =~= "Cargo Disk — Projects"@ + "\n"@ + rule + "\n\n"@);
}

} // verus!
