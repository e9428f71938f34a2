//! Laws of the report on one project.

use crate::layout::{line_of, row_in, rows_in, section_of, widest};
use crate::laws::layout::{lemma_heading, lemma_lines_and_plurals};
use crate::laws::text::lemma_prefix;
use crate::metadata::MetadataView;
use crate::path::{below, joined, label, Part};
use crate::report::{
    build_line, build_lines, builds_part, bytes_under, cleanup_part, crate_rows, crates_part,
    first_dir, largest_dir, name_of, named_in, orphan_rows, orphans_in, orphans_part, profile_of,
    profile_part, report_text, row_if_any, sections, titled, top_of, usage_part, usage_rows,
    without_slashes, SubjectView,
};
use crate::tally::{grouped, total};
use crate::text::{decimal, left_in, lines, right_in, trimmed, unquoted};
use crate::usage::{by_crate, by_top, bytes_in, counts, is_locked, Bucket, EntryView};
use vstd::prelude::*;

verus! {

// ---------------------------------------------------------------- sums
/// The sum of all figures, row by row.
pub open spec fn figures(rows: Seq<(Seq<char>, u64)>) -> nat {
    rows.fold_left(0nat, |sum: nat, row: (Seq<char>, u64)| (sum + row.1) as nat)
}

proof fn lemma_figures(rows: Seq<(Seq<char>, u64)>)
    ensures
        total(rows) == figures(rows),
        forall|i: int| 0 <= i < rows.len() ==> (#[trigger] rows[i]).1 <= total(rows),
        forall|i: int, j: int|
            0 <= i < rows.len() && 0 <= j < rows.len() && i != j ==> (#[trigger] rows[i]).1 + (
            #[trigger] rows[j]).1 <= total(rows),
    decreases rows.len(),
{
    let add = |sum: nat, row: (Seq<char>, u64)| (sum + row.1) as nat;
    reveal_with_fuel(Seq::fold_left, 1);
    if rows.len() > 0 {
        let rest = rows.drop_last();
        lemma_figures(rest);
        assert(figures(rest) == rest.fold_left(0nat, add));
        assert forall|i: int| 0 <= i < rows.len() implies (#[trigger] rows[i]).1 <= total(rows) by {
            if i < rest.len() {
                assert(rest[i] == rows[i]);
            }
        }
        assert forall|i: int, j: int|
            0 <= i < rows.len() && 0 <= j < rows.len() && i != j implies (#[trigger] rows[i]).1 + (
        #[trigger] rows[j]).1 <= total(rows) by {
            if i < rest.len() {
                assert(rest[i] == rows[i]);
            }
            if j < rest.len() {
                assert(rest[j] == rows[j]);
            }
        }
    }
}

/// The figure in the row below the orphans is the sum of the figures in all rows of the
/// section: it is at least each of them, and with two or more that hold anything it exceeds
/// each of them. The row counts the orphans.
pub proof fn lemma_orphans_add_up(orphans: Seq<(Seq<char>, u64)>)
    ensures
        orphans.len() == 0 ==> orphans_part(orphans) == Seq::<char>::empty(),
        orphans.len() > 0 ==> orphans_part(orphans) == section_of(
            "Potential orphaned crates"@,
            orphans,
        ) + "\n"@ + row_in(
            decimal(orphans.len()) + if orphans.len() == 1 {
                " crate"@
            } else {
                " crates"@
            },
            figures(orphans),
            widest(orphans, 22) as int,
        ),
        forall|i: int| 0 <= i < orphans.len() ==> (#[trigger] orphans[i]).1 <= figures(orphans),
        forall|i: int, j: int|
            0 <= i < orphans.len() && 0 <= j < orphans.len() && i != j && (
            #[trigger] orphans[j]).1 > 0 ==> (#[trigger] orphans[i]).1 < figures(orphans),
{
    lemma_figures(orphans);
    reveal_strlit("");
    reveal_strlit("s");
    reveal_strlit("\n");
    reveal_strlit(" crate");
    reveal_strlit(" crates");
    let n = decimal(orphans.len());
    assert(n + " crate"@ + ""@ =~= n + " crate"@);
    assert(n + " crate"@ + "s"@ =~= n + " crates"@);
    assert(line_of(""@) =~= "\n"@);
    assert forall|i: int, j: int|
        0 <= i < orphans.len() && 0 <= j < orphans.len() && i != j && (
        #[trigger] orphans[j]).1 > 0 implies (#[trigger] orphans[i]).1 < figures(orphans) by {
        assert(orphans[i].1 + orphans[j].1 <= total(orphans));
    }
}

/// A crate is an orphan exactly if neither the metadata nor the lockfile accounts for it and
/// its label is that of a crate. Orphans keep the order and the figures of their rows.
pub proof fn lemma_orphans_steps(
    rows: Seq<(Seq<char>, u64)>,
    row: (Seq<char>, u64),
    meta: MetadataView,
    lock: Option<Seq<char>>,
)
    ensures
        orphans_in(Seq::<(Seq<char>, u64)>::empty(), meta, lock) == Seq::<
            (Seq<char>, u64),
        >::empty(),
        ({
            let accounted = meta.artifact_names().contains(row.0) || (lock matches Some(text)
                && is_locked(text, row.0));
            let crate_like = row.0 != "(other)"@ && row.0 != "build_script_build"@ && row.0
                != "build_script_main"@;
            &&& !accounted && crate_like ==> orphans_in(rows.push(row), meta, lock) == orphans_in(
                rows,
                meta,
                lock,
            ).push(row)
            &&& accounted || !crate_like ==> orphans_in(rows.push(row), meta, lock) == orphans_in(
                rows,
                meta,
                lock,
            )
        }),
{
    assert(rows.push(row).drop_last() == rows);
}

/// Orphans are told from the rows of all crates, and only where there is metadata.
pub proof fn lemma_orphan_rows(s: SubjectView)
    ensures
        s.meta matches Some(meta) ==> orphan_rows(s) == orphans_in(
            grouped(by_crate(s.files, s.dirs)),
            meta,
            s.lock,
        ),
        s.meta is None ==> orphan_rows(s) == Seq::<(Seq<char>, u64)>::empty(),
        crate_rows(s) == grouped(by_crate(s.files, s.dirs)),
{
}

// ---------------------------------------------------------------- the name
/// The first line that begins with `name = ` gives the name of the project.
pub proof fn lemma_first_name(
    before: Seq<Seq<char>>,
    value: Seq<char>,
    after: Seq<Seq<char>>,
)
    requires
        forall|i: int|
            0 <= i < before.len() ==> !("name = "@).is_prefix_of(#[trigger] before[i]),
    ensures
        named_in(before) is None,
        named_in(before + seq!["name = "@ + value] + after) == Some(unquoted(trimmed(value))),
    decreases before.len(), after.len(),
{
    let line = "name = "@ + value;
    let all = before + seq![line] + after;
    if after.len() > 0 {
        lemma_first_name(before, value, after.drop_last());
        assert(all.drop_last() == before + seq![line] + after.drop_last());
    } else {
        assert(all.drop_last() == before);
        assert(all.last() == line);
        lemma_prefix(line, "name = "@, value);
        if before.len() > 0 {
            let rest = before.drop_last();
            assert forall|i: int| 0 <= i < rest.len() implies !("name = "@).is_prefix_of(
                #[trigger] rest[i],
            ) by {
                assert(rest[i] == before[i]);
            }
            lemma_first_name(rest, value, Seq::empty());
            assert(!("name = "@).is_prefix_of(before[before.len() - 1]));
        }
    }
}

/// A project without a manifest, or whose manifest names none, goes by its directory.
pub proof fn lemma_project_name(text: Seq<char>, root: Seq<Part>, dir: Seq<Part>, name: Seq<char>)
    requires
        root == dir.push(Part::Normal(name)),
    ensures
        name_of(None, root) == name,
        named_in(lines(text)) is None ==> name_of(Some(text), root) == name,
        named_in(lines(text)) matches Some(found) ==> name_of(Some(text), root) == found,
{
}

// ---------------------------------------------------------------- the output directories
/// What a directory takes up is what all files below it add up to.
pub proof fn lemma_bytes_under_steps(files: Seq<EntryView>, file: EntryView, dir: Seq<Part>)
    ensures
        bytes_under(Seq::<EntryView>::empty(), dir) == 0,
        dir.is_prefix_of(file.path) ==> bytes_under(files.push(file), dir) == bytes_under(
            files,
            dir,
        ) + file.bytes,
        !dir.is_prefix_of(file.path) ==> bytes_under(files.push(file), dir) == bytes_under(
            files,
            dir,
        ),
{
    assert(files.push(file).drop_last() == files);
}

/// The first output directory is called by its name alone, the second is marked as the
/// build directory. Each has a row of its own with what it takes up.
pub proof fn lemma_usage(files: Seq<EntryView>, dirs: Seq<Seq<Part>>, lock_size: Option<u64>)
    ensures
        dirs.len() == 0 ==> usage_part(files, dirs, None) == "Total disk usage"@ + "\n"@,
        dirs.len() == 1 ==> usage_part(files, dirs, None) == "Total disk usage"@ + "\n"@ + row_in(
            "  "@ + label(dirs[0]) + "/"@,
            bytes_under(files, dirs[0]),
            22,
        ),
        dirs.len() >= 2 ==> usage_part(files, dirs, None) == "Total disk usage"@ + "\n"@ + row_in(
            "  "@ + label(dirs[0]) + "/"@,
            bytes_under(files, dirs[0]),
            22,
        ) + row_in(
            "  "@ + label(dirs[1]) + "/ (build-dir)"@,
            bytes_under(files, dirs[1]),
            22,
        ),
        lock_size matches Some(bytes) ==> usage_part(files, dirs, lock_size) == usage_part(
            files,
            dirs,
            None,
        ) + row_in("  Cargo.lock"@, bytes as nat, 22),
{
    reveal_with_fuel(usage_rows, 3);
    reveal_strlit("");
    reveal_strlit("/");
    reveal_strlit(" (build-dir)");
    reveal_strlit("/ (build-dir)");
    lemma_lines_and_plurals("Total disk usage"@, 1);
    let a = "  "@ + label(dirs[0]) + "/"@;
    assert(a + ""@ =~= a);
    let b = "  "@ + label(dirs[1]) + "/"@;
    assert(b + " (build-dir)"@ =~= "  "@ + label(dirs[1]) + "/ (build-dir)"@);
    assert(usage_part(files, dirs, None) =~= "Total disk usage"@ + "\n"@ + usage_rows(
        files,
        dirs,
        titled(dirs),
    ));
    if dirs.len() >= 2 {
        let x = row_in(a, bytes_under(files, dirs[0]), 22);
        let y = row_in(b + " (build-dir)"@, bytes_under(files, dirs[1]), 22);
        assert(usage_rows(files, dirs, 2) =~= x + y);
        assert("Total disk usage"@ + "\n"@ + (x + y) =~= "Total disk usage"@ + "\n"@ + x + y);
    } else if dirs.len() == 1 {
        assert(usage_rows(files, dirs, 1) =~= row_in(a, bytes_under(files, dirs[0]), 22));
    } else {
        assert(usage_rows(files, dirs, 0) =~= Seq::<char>::empty());
    }
}

/// What stands directly in each output directory has a section of its own, the target
/// directory's first.
pub proof fn lemma_output_sections(files: Seq<EntryView>, dirs: Seq<Seq<Part>>)
    ensures
        dirs.len() == 0 ==> sections(files, dirs, titled(dirs)) == Seq::<char>::empty(),
        dirs.len() == 1 ==> sections(files, dirs, titled(dirs)) == section_of(
            "TARGET/"@,
            grouped(by_top(files, dirs[0])),
        ),
        dirs.len() >= 2 ==> sections(files, dirs, titled(dirs)) == section_of(
            "TARGET/"@,
            grouped(by_top(files, dirs[0])),
        ) + section_of("BUILD-DIR/"@, grouped(by_top(files, dirs[1]))),
{
    reveal_with_fuel(sections, 3);
    let x = section_of("TARGET/"@, grouped(by_top(files, dirs[0])));
    assert(Seq::<char>::empty() + x =~= x);
}

// ---------------------------------------------------------------- the largest profile
/// The first row of a directory is the first whose label ends in a slash.
pub proof fn lemma_first_dir(
    before: Seq<(Seq<char>, u64)>,
    name: Seq<char>,
    bytes: u64,
    after: Seq<(Seq<char>, u64)>,
)
    requires
        forall|i: int|
            0 <= i < before.len() ==> !((#[trigger] before[i]).0.len() > 0 && before[i].0.last()
                == '/'),
    ensures
        first_dir(before) is None,
        first_dir(before + seq![(name + "/"@, bytes)] + after) == Some((name + "/"@, bytes)),
    decreases before.len(), after.len(),
{
    reveal_strlit("/");
    let row = (name + "/"@, bytes);
    let all = before + seq![row] + after;
    if after.len() > 0 {
        lemma_first_dir(before, name, bytes, after.drop_last());
        assert(all.drop_last() == before + seq![row] + after.drop_last());
    } else {
        assert(all.drop_last() == before);
        assert(all.last() == row);
        if before.len() > 0 {
            let rest = before.drop_last();
            assert forall|i: int| 0 <= i < rest.len() implies !((#[trigger] rest[i]).0.len() > 0
                && rest[i].0.last() == '/') by {
                assert(rest[i] == before[i]);
            }
            lemma_first_dir(rest, name, bytes, Seq::empty());
            assert(before.last() == before[before.len() - 1]);
        }
    }
}

/// Of two output directories the second gives the profile only if its largest directory is
/// larger than that of the first.
pub proof fn lemma_profile(
    files: Seq<EntryView>,
    dirs: Seq<Seq<Part>>,
    a: Seq<char>,
    x: u64,
    b: Seq<char>,
    y: u64,
)
    requires
        a.len() > 0 ==> a.last() != '/',
        b.len() > 0 ==> b.last() != '/',
    ensures
        ({
            let first = first_dir(top_of(files, dirs[0]));
            let second = first_dir(top_of(files, dirs[1]));
            let one = first == Some((a + "/"@, x));
            let two = second == Some((b + "/"@, y));
            &&& dirs.len() == 0 ==> profile_of(files, dirs) is None
            &&& dirs.len() == 1 && one ==> profile_of(files, dirs) == Some((0int, a))
            &&& dirs.len() == 1 && first is None ==> profile_of(files, dirs) is None
            &&& dirs.len() >= 2 && one && (second is None || (two && x >= y)) ==> profile_of(
                files,
                dirs,
            ) == Some((0int, a))
            &&& dirs.len() >= 2 && two && (first is None || (one && x < y)) ==> profile_of(
                files,
                dirs,
            ) == Some((1int, b))
            &&& dirs.len() >= 2 && first is None && second is None ==> profile_of(
                files,
                dirs,
            ) is None
        }),
{
    reveal_with_fuel(largest_dir, 3);
    reveal_with_fuel(without_slashes, 2);
    reveal_strlit("/");
    assert((a + "/"@).drop_last() =~= a);
    assert((b + "/"@).drop_last() =~= b);
    assert((a + "/"@).last() == '/');
    assert((b + "/"@).last() == '/');
}

/// The section of a profile lists what stands directly in it.
pub proof fn lemma_profile_section(
    files: Seq<EntryView>,
    dirs: Seq<Seq<Part>>,
    upper: Seq<char>,
    k: int,
    name: Seq<char>,
)
    ensures
        profile_of(files, dirs) is None ==> profile_part(files, dirs, upper) == Seq::<
            char,
        >::empty(),
        profile_of(files, dirs) == Some((k, name)) ==> profile_part(files, dirs, upper)
            == section_of(upper + "/"@, grouped(by_top(files, joined(dirs[k], name)))),
{
}

// ---------------------------------------------------------------- the crates
/// The largest crates are the first ten rows, in a column of 30 characters.
pub proof fn lemma_ten_crates(
    rows: Seq<(Seq<char>, u64)>,
    more: Seq<(Seq<char>, u64)>,
)
    ensures
        crates_part(Seq::<(Seq<char>, u64)>::empty()) == Seq::<char>::empty(),
        0 < rows.len() <= 10 ==> crates_part(rows) == "\nLargest crates\n"@
            + "────────────────────────────────────"@ + "\n\n"@ + rows_in(rows, 30),
        rows.len() == 10 ==> crates_part(rows + more) == crates_part(rows),
{
    lemma_heading("Largest crates"@);
    reveal_strlit("");
    reveal_strlit("\n");
    reveal_strlit("Largest crates");
    reveal_strlit("\nLargest crates\n");
    let rule = "────────────────────────────────────"@;
    assert(line_of(""@) =~= "\n"@);
    assert("\n"@ + "Largest crates"@ + "\n"@ =~= "\nLargest crates\n"@);
    if 0 < rows.len() <= 10 {
        assert(rows.take(rows.len() as int) =~= rows);
        assert(crates_part(rows) =~= "\n"@ + ("Largest crates"@ + "\n"@ + rule + "\n\n"@)
            + rows_in(rows, 30));
        assert("\n"@ + ("Largest crates"@ + "\n"@ + rule + "\n\n"@) =~= "\n"@ + "Largest crates"@
            + "\n"@ + rule + "\n\n"@);
    }
    if rows.len() == 10 {
        assert((rows + more).take(10) =~= rows);
        assert(rows.take(10) =~= rows);
    }
}

/// A crate that was built several times has a line of its own, with its name in a column
/// of 30 characters and the number in one of four.
pub proof fn lemma_build_lines_steps(rows: Seq<(Seq<char>, usize)>, name: Seq<char>, n: usize)
    ensures
        builds_part(Seq::<(Seq<char>, usize)>::empty()) == Seq::<char>::empty(),
        builds_part(seq![(name, n)]) == "\nBuilds per crate\n"@
            + "────────────────────────────────────"@ + "\n\n"@ + build_line((name, n)),
        rows.len() > 0 ==> builds_part(rows.push((name, n))) == builds_part(rows) + build_line(
            (name, n),
        ),
        n != 1 ==> build_line((name, n)) == left_in(name, 30) + " "@ + right_in(
            decimal(n as nat),
            4,
        ) + " builds\n"@,
        build_line((name, 1)) == left_in(name, 30) + " "@ + right_in(decimal(1), 4) + " build\n"@,
{
    reveal_strlit("");
    reveal_strlit("s");
    reveal_strlit("\n");
    reveal_strlit(" build");
    reveal_strlit(" builds\n");
    reveal_strlit(" build\n");
    assert(build_line((name, 1)) =~= left_in(name, 30) + " "@ + right_in(decimal(1), 4)
        + " build\n"@);
    reveal_strlit("Builds per crate");
    reveal_strlit("\nBuilds per crate\n");
    lemma_heading("Builds per crate"@);
    let rule = "────────────────────────────────────"@;
    let row = (name, n);
    let one = seq![row];
    assert(one.drop_last() =~= Seq::<(Seq<char>, usize)>::empty());
    assert(rows.push(row).drop_last() =~= rows);
    assert(line_of(""@) =~= "\n"@);
    reveal_with_fuel(build_lines, 2);
    assert(build_lines(one) =~= build_line(row));
    assert("\n"@ + "Builds per crate"@ + "\n"@ =~= "\nBuilds per crate\n"@);
    assert(builds_part(one) =~= "\n"@ + ("Builds per crate"@ + "\n"@ + rule + "\n\n"@)
        + build_line(row));
    assert("\n"@ + ("Builds per crate"@ + "\n"@ + rule + "\n\n"@) =~= "\n"@ + "Builds per crate"@
        + "\n"@ + rule + "\n\n"@);
    if rows.len() > 0 {
        let head = line_of(""@) + crate::layout::heading("Builds per crate"@);
        assert(head + (build_lines(rows) + build_line(row)) =~= head + build_lines(rows)
            + build_line(row));
    }
    if n != 1 {
        assert(build_line(row) =~= left_in(name, 30) + " "@ + right_in(decimal(n as nat), 4)
            + " builds\n"@);
    }
}

// ---------------------------------------------------------------- cleaning up
/// What could be removed is shown by kind, where there is any, and as a sum.
pub proof fn lemma_cleanup(incremental: nat, old: nat)
    ensures
        ({
            let head = "\nPotential cleanup\n"@ + "────────────────────────────────────"@
                + "\n\n"@;
            let foot = "\nPotentially reclaimable:\n"@ + row_in(
                Seq::<char>::empty(),
                incremental + old,
                22,
            );
            &&& incremental == 0 && old == 0 ==> cleanup_part(incremental, old) == head
                + "Nothing to clean up.\n"@
            &&& incremental > 0 && old == 0 ==> cleanup_part(incremental, old) == head + row_in(
                "Incremental cache"@,
                incremental,
                22,
            ) + foot
            &&& incremental == 0 && old > 0 ==> cleanup_part(incremental, old) == head + row_in(
                "Artifacts >30 days"@,
                old,
                22,
            ) + foot
            &&& incremental > 0 && old > 0 ==> cleanup_part(incremental, old) == head + row_in(
                "Incremental cache"@,
                incremental,
                22,
            ) + row_in("Artifacts >30 days"@, old, 22) + foot
        }),
{
    reveal_strlit("");
    reveal_strlit("\n");
    reveal_strlit("Potential cleanup");
    reveal_strlit("\nPotential cleanup\n");
    reveal_strlit("Nothing to clean up.");
    reveal_strlit("Nothing to clean up.\n");
    reveal_strlit("Potentially reclaimable:");
    reveal_strlit("\nPotentially reclaimable:\n");
    lemma_heading("Potential cleanup"@);
    let rule = "────────────────────────────────────"@;
    let head = "\nPotential cleanup\n"@ + rule + "\n\n"@;
    assert(""@ =~= Seq::<char>::empty());
    let sum = row_in(""@, incremental + old, 22);
    let foot = "\nPotentially reclaimable:\n"@ + sum;
    assert(line_of(""@) + ("Potential cleanup"@ + "\n"@ + rule + "\n\n"@) =~= head);
    assert(line_of("Nothing to clean up."@) =~= "Nothing to clean up.\n"@);
    assert(line_of(""@) + line_of("Potentially reclaimable:"@) =~= "\nPotentially reclaimable:\n"@);
    if incremental + old > 0 {
        let x = row_if_any("Incremental cache"@, incremental);
        let y = row_if_any("Artifacts >30 days"@, old);
        assert(x + y + line_of(""@) + line_of("Potentially reclaimable:"@) + sum =~= x + y + (
        line_of(""@) + line_of("Potentially reclaimable:"@)) + sum);
        assert(cleanup_part(incremental, old) =~= head + (x + y + foot));
        assert(head + (x + y + foot) =~= head + x + y + foot);
        if incremental == 0 {
            assert(head + x + y + foot =~= head + y + foot);
        }
        if old == 0 {
            assert(head + x + y + foot =~= head + x + foot);
        }
    }
}

// ---------------------------------------------------------------- the whole
/// The parts of a report, in order.
pub proof fn lemma_report(s: SubjectView, upper: Seq<char>)
    ensures
        report_text(s, upper) == "Cargo Disk\n"@ + "────────────────────────────────────"@
            + "\n\nProject: "@ + s.name + "\n\n"@ + usage_part(s.files, s.dirs, s.lock_size)
            + sections(s.files, s.dirs, titled(s.dirs)) + profile_part(s.files, s.dirs, upper)
            + crates_part(grouped(by_crate(s.files, s.dirs))) + orphans_part(orphan_rows(s))
            + builds_part(counts(s.files, s.dirs)) + cleanup_part(
            bytes_in(s.files, s.dirs, s.now, Bucket::Incremental),
            bytes_in(s.files, s.dirs, s.now, Bucket::Old),
        ),
{
    reveal_strlit("");
    reveal_strlit("\n\n");
    reveal_strlit("Cargo Disk");
    reveal_strlit("Cargo Disk\n");
    reveal_strlit("Project: ");
    reveal_strlit("\n\nProject: ");
    let rule = "────────────────────────────────────"@;
    assert(line_of("Cargo Disk"@) + line_of(rule) + line_of(""@) + line_of("Project: "@ + s.name)
        + line_of(""@) =~= "Cargo Disk\n"@ + rule + "\n\nProject: "@ + s.name + "\n\n"@);
}

} // verus!
