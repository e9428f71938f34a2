//! The report on one project.

use crate::layout::{
    heading, line, line_of, plural, plural_of, push_heading, push_rows, row, row_at, row_in,
    rows_in, section, section_of, section_width, widest, CRATE_WIDTH, LABEL_WIDTH, RULE,
};
use crate::metadata::{Metadata, MetadataView};
use crate::path::{dir_label, join, joined, label, below, FilePath, Part};
use crate::tally::{grouped, lemma_grouped, lemma_grouped_total, sums_fit, total};
use crate::text::{
    chars_of, decimal, left_in, lines, opt_chars, push_decimal, push_left, push_right, right_in,
    split_lines, strip_prefix, text_of, trim, trim_quotes, trimmed, unquoted, views, without_prefix,
};
use crate::time::Timestamp;
use crate::usage::{
    breakdown, build_counts, by_crate, by_top, bytes_in, cleanup_buckets, counts, crate_label,
    is_locked, is_orphan, is_pseudo, known_crates, largest_crates, lemma_buckets_share_out,
    lemma_labelled_total, lemma_sums_fit, top_label, total_bytes, Bucket, Entry, EntryView,
};
use vstd::prelude::*;
use vstd::slice::slice_subrange;

verus! {

/// How many crates to list.
pub const TOP_CRATES: usize = 10;

// ---------------------------------------------------------------- the project
/// The value on the first of the lines that begins with `name = `.
pub open spec fn named_in(lines: Seq<Seq<char>>) -> Option<Seq<char>>
    decreases lines.len(),
{
    if lines.len() == 0 {
        None
    } else {
        match named_in(lines.drop_last()) {
            Some(name) => Some(name),
            None => match without_prefix(lines.last(), "name = "@) {
                Some(value) => Some(unquoted(trimmed(value))),
                None => None,
            },
        }
    }
}

/// The name of a project: the one in its manifest, if that can be read and has one,
/// else that of its directory.
pub open spec fn name_of(manifest: Option<Seq<char>>, root: Seq<Part>) -> Seq<char> {
    match manifest {
        Some(text) => match named_in(lines(text)) {
            Some(name) => name,
            None => label(root),
        },
        None => label(root),
    }
}

proof fn lemma_named_stays(lines: Seq<Seq<char>>, n: int)
    requires
        0 <= n <= lines.len(),
        named_in(lines.take(n)) is Some,
    ensures
        named_in(lines) == named_in(lines.take(n)),
    decreases lines.len() - n,
{
    if n < lines.len() {
        assert(lines.take(n + 1).drop_last() == lines.take(n));
        lemma_named_stays(lines, n + 1);
    } else {
        assert(lines.take(n) == lines);
    }
}

/// The name of the project in `root` whose manifest holds `manifest`.
pub fn project_name(manifest: Option<&str>, root: &FilePath) -> (name: String)
    ensures
        name@ == name_of(opt_chars(manifest), root@),
{
    if let Some(text) = manifest {
        let chars = chars_of(text);
        let found = split_lines(chars.as_slice());
        let ghost all = lines(text@);
        let mut i: usize = 0;
        while i < found.len()
            invariant
                i <= found@.len(),
                views(found@) == all,
                all == lines(text@),
                opt_chars(manifest) == Some(text@),
                named_in(all.take(i as int)) is None,
            decreases found@.len() - i,
        {
            assert(all.take(i + 1).drop_last() == all.take(i as int));
            assert(all.take(i + 1).last() == found@[i as int]@);
            if let Some(value) = strip_prefix(found[i], "name = ") {
                proof {
                    lemma_named_stays(all, i + 1);
                }
                return text_of(trim_quotes(trim(value)));
            }
            i += 1;
        }
        assert(all.take(i as int) == all);
    }
    dir_label(root)
}

// ---------------------------------------------------------------- the output directories
/// How many of the output directories are reported on by name.
pub open spec fn titled(dirs: Seq<Seq<Part>>) -> nat {
    if dirs.len() < 2 {
        dirs.len()
    } else {
        2
    }
}

/// The title of the `k`-th output directory.
pub open spec fn title_of(k: int) -> Seq<char> {
    if k == 0 {
        "TARGET/"@
    } else {
        "BUILD-DIR/"@
    }
}

/// What is added to the name of the `k`-th output directory.
pub open spec fn tag_of(k: int) -> Seq<char> {
    if k == 0 {
        ""@
    } else {
        " (build-dir)"@
    }
}

/// The bytes of the files in `dir`.
pub open spec fn bytes_under(files: Seq<EntryView>, dir: Seq<Part>) -> nat
    decreases files.len(),
{
    if files.len() == 0 {
        0
    } else {
        bytes_under(files.drop_last(), dir) + if below(files.last().path, dir) is Some {
            files.last().bytes as nat
        } else {
            0
        }
    }
}

/// The rows of the first `n` output directories.
pub open spec fn usage_rows(files: Seq<EntryView>, dirs: Seq<Seq<Part>>, n: nat) -> Seq<char>
    decreases n,
{
    if n == 0 {
        Seq::empty()
    } else {
        usage_rows(files, dirs, (n - 1) as nat) + row_in(
            "  "@ + label(dirs[n - 1]) + "/"@ + tag_of(n - 1),
            bytes_under(files, dirs[n - 1]),
            LABEL_WIDTH as int,
        )
    }
}

/// The part of the report on what everything takes up.
pub open spec fn usage_part(
    files: Seq<EntryView>,
    dirs: Seq<Seq<Part>>,
    lock_size: Option<u64>,
) -> Seq<char> {
    line_of("Total disk usage"@) + usage_rows(files, dirs, titled(dirs)) + match lock_size {
        Some(bytes) => row_in("  Cargo.lock"@, bytes as nat, LABEL_WIDTH as int),
        None => Seq::empty(),
    }
}

/// What stands directly in `dir`, the largest first.
pub open spec fn top_of(files: Seq<EntryView>, dir: Seq<Part>) -> Seq<(Seq<char>, u64)> {
    grouped(by_top(files, dir))
}

/// The sections of the first `n` output directories.
pub open spec fn sections(files: Seq<EntryView>, dirs: Seq<Seq<Part>>, n: nat) -> Seq<char>
    decreases n,
{
    if n == 0 {
        Seq::empty()
    } else {
        sections(files, dirs, (n - 1) as nat) + section_of(
            title_of(n - 1),
            top_of(files, dirs[n - 1]),
        )
    }
}

/// Whether a row is that of a directory.
pub open spec fn is_dir_row(row: (Seq<char>, u64)) -> bool {
    row.0.len() > 0 && row.0.last() == '/'
}

/// The first row of a directory.
pub open spec fn first_dir(rows: Seq<(Seq<char>, u64)>) -> Option<(Seq<char>, u64)>
    decreases rows.len(),
{
    if rows.len() == 0 {
        None
    } else {
        match first_dir(rows.drop_last()) {
            Some(row) => Some(row),
            None => if is_dir_row(rows.last()) {
                Some(rows.last())
            } else {
                None
            },
        }
    }
}

/// The largest directory directly in one of the first `n` output directories: which of
/// those it stands in, its row's label and its size. Of equal ones the first.
pub open spec fn largest_dir(files: Seq<EntryView>, dirs: Seq<Seq<Part>>, n: nat) -> Option<
    (int, Seq<char>, u64),
>
    decreases n,
{
    if n == 0 {
        None
    } else {
        let best = largest_dir(files, dirs, (n - 1) as nat);
        match first_dir(top_of(files, dirs[n - 1])) {
            Some((name, bytes)) => match best {
                Some((k, other, most)) => if bytes > most {
                    Some((n - 1, name, bytes))
                } else {
                    best
                },
                None => Some((n - 1, name, bytes)),
            },
            None => best,
        }
    }
}

/// `text` without slashes at its end.
pub open spec fn without_slashes(text: Seq<char>) -> Seq<char>
    decreases text.len(),
{
    if text.len() > 0 && text.last() == '/' {
        without_slashes(text.drop_last())
    } else {
        text
    }
}

/// The profile that takes up most: which output directory it stands in, and its name.
pub open spec fn profile_of(files: Seq<EntryView>, dirs: Seq<Seq<Part>>) -> Option<
    (int, Seq<char>),
> {
    match largest_dir(files, dirs, titled(dirs)) {
        Some((k, name, bytes)) => Some((k, without_slashes(name))),
        None => None,
    }
}

/// The directory of the profile that takes up most.
pub open spec fn profile_dir(dirs: Seq<Seq<Part>>, profile: (int, Seq<char>)) -> Seq<Part> {
    joined(dirs[profile.0], profile.1)
}

/// The section of the profile that takes up most, under the title `upper`.
pub open spec fn profile_part(
    files: Seq<EntryView>,
    dirs: Seq<Seq<Part>>,
    upper: Seq<char>,
) -> Seq<char> {
    match profile_of(files, dirs) {
        Some(profile) => section_of(upper + "/"@, top_of(files, profile_dir(dirs, profile))),
        None => Seq::empty(),
    }
}

// ---------------------------------------------------------------- the crates
/// The largest crates.
pub open spec fn crates_part(rows: Seq<(Seq<char>, u64)>) -> Seq<char> {
    if rows.len() == 0 {
        Seq::empty()
    } else {
        line_of(""@) + heading("Largest crates"@) + rows_in(
            rows.take(
                if rows.len() < TOP_CRATES {
                    rows.len() as int
                } else {
                    TOP_CRATES as int
                },
            ),
            CRATE_WIDTH as int,
        )
    }
}

/// Whether the metadata or the lockfile accounts for artifacts named `name`.
pub open spec fn is_known(meta: MetadataView, lock: Option<Seq<char>>, name: Seq<char>) -> bool {
    meta.artifact_names().contains(name) || (lock matches Some(text) && is_locked(text, name))
}

/// The rows of crates that nothing accounts for.
pub open spec fn orphans_in(
    rows: Seq<(Seq<char>, u64)>,
    meta: MetadataView,
    lock: Option<Seq<char>>,
) -> Seq<(Seq<char>, u64)>
    decreases rows.len(),
{
    if rows.len() == 0 {
        Seq::empty()
    } else {
        let others = orphans_in(rows.drop_last(), meta, lock);
        if !is_known(meta, lock, rows.last().0) && !is_pseudo(rows.last().0) {
            others.push(rows.last())
        } else {
            others
        }
    }
}

/// The part of the report on crates that nothing accounts for.
pub open spec fn orphans_part(orphans: Seq<(Seq<char>, u64)>) -> Seq<char> {
    if orphans.len() == 0 {
        Seq::empty()
    } else {
        section_of("Potential orphaned crates"@, orphans) + line_of(""@) + row_in(
            decimal(orphans.len()) + " crate"@ + plural_of(orphans.len()),
            total(orphans),
            widest(orphans, LABEL_WIDTH as nat) as int,
        )
    }
}

/// The lines of how often crates were built.
pub open spec fn build_lines(rows: Seq<(Seq<char>, usize)>) -> Seq<char>
    decreases rows.len(),
{
    if rows.len() == 0 {
        Seq::empty()
    } else {
        build_lines(rows.drop_last()) + build_line(rows.last())
    }
}

/// The line of how often one crate was built.
pub open spec fn build_line(row: (Seq<char>, usize)) -> Seq<char> {
    line_of(
        left_in(row.0, CRATE_WIDTH as int) + " "@ + right_in(decimal(row.1 as nat), 4)
            + " build"@ + plural_of(row.1 as nat),
    )
}

/// The part of the report on how often crates were built.
pub open spec fn builds_part(rows: Seq<(Seq<char>, usize)>) -> Seq<char> {
    if rows.len() == 0 {
        Seq::empty()
    } else {
        line_of(""@) + heading("Builds per crate"@) + build_lines(rows)
    }
}

/// A row, where there is anything to show.
pub open spec fn row_if_any(name: Seq<char>, bytes: nat) -> Seq<char> {
    if bytes > 0 {
        row_in(name, bytes, LABEL_WIDTH as int)
    } else {
        Seq::empty()
    }
}

/// The part of the report on what could be removed.
pub open spec fn cleanup_part(incremental: nat, old: nat) -> Seq<char> {
    line_of(""@) + heading("Potential cleanup"@) + if incremental + old == 0 {
        line_of("Nothing to clean up."@)
    } else {
        row_if_any("Incremental cache"@, incremental) + row_if_any("Artifacts >30 days"@, old)
            + line_of(""@) + line_of("Potentially reclaimable:"@) + row_in(
            ""@,
            incremental + old,
            LABEL_WIDTH as int,
        )
    }
}

// ---------------------------------------------------------------- the whole
/// What a report is made of.
#[verifier::ext_equal]
pub struct SubjectView {
    pub name: Seq<char>,
    pub files: Seq<EntryView>,
    pub dirs: Seq<Seq<Part>>,
    pub lock_size: Option<u64>,
    pub lock: Option<Seq<char>>,
    pub meta: Option<MetadataView>,
    pub now: Timestamp,
}

/// What a report is made of.
pub struct Subject<'a> {
    /// The name of the project.
    pub name: &'a str,
    /// The files in the output directories.
    pub files: &'a [Entry],
    /// The output directories.
    pub dirs: &'a [FilePath],
    /// The size of Cargo.lock, if there is one.
    pub lock_size: Option<u64>,
    /// What Cargo.lock holds, if it can be read.
    pub lock: Option<&'a str>,
    /// The full metadata, if it could be had.
    pub meta: Option<&'a Metadata>,
    /// The time of the report.
    pub now: Timestamp,
}

impl<'a> View for Subject<'a> {
    type V = SubjectView;

    open spec fn view(&self) -> SubjectView {
        SubjectView {
            name: self.name@,
            files: views(self.files@),
            dirs: views(self.dirs@),
            lock_size: self.lock_size,
            lock: opt_chars(self.lock),
            meta: match self.meta {
                Some(meta) => Some(meta@),
                None => None,
            },
            now: self.now,
        }
    }
}

/// The rows of all crates.
pub open spec fn crate_rows(s: SubjectView) -> Seq<(Seq<char>, u64)> {
    grouped(by_crate(s.files, s.dirs))
}

/// The rows of crates that nothing accounts for. Without metadata there are none
/// rather than wrong ones.
pub open spec fn orphan_rows(s: SubjectView) -> Seq<(Seq<char>, u64)> {
    match s.meta {
        Some(meta) => orphans_in(crate_rows(s), meta, s.lock),
        None => Seq::empty(),
    }
}

/// The report, with the section of the largest profile under the title `upper`.
pub open spec fn report_text(s: SubjectView, upper: Seq<char>) -> Seq<char> {
    line_of("Cargo Disk"@) + line_of(RULE@) + line_of(""@) + line_of("Project: "@ + s.name)
        + line_of(""@) + usage_part(s.files, s.dirs, s.lock_size) + sections(
        s.files,
        s.dirs,
        titled(s.dirs),
    ) + profile_part(s.files, s.dirs, upper) + crates_part(crate_rows(s)) + orphans_part(
        orphan_rows(s),
    ) + builds_part(counts(s.files, s.dirs)) + cleanup_part(
        bytes_in(s.files, s.dirs, s.now, Bucket::Incremental),
        bytes_in(s.files, s.dirs, s.now, Bucket::Old),
    )
}

/// Whether every figure in the sections of the output directories can be held.
pub open spec fn sections_fit(files: Seq<EntryView>, dirs: Seq<Seq<Part>>) -> bool {
    &&& forall|k: int|
        0 <= k < titled(dirs) ==> #[trigger] bytes_under(files, dirs[k]) <= u64::MAX && sums_fit(
            by_top(files, dirs[k]),
        )
    &&& profile_of(files, dirs) matches Some(profile) ==> sums_fit(
        by_top(files, profile_dir(dirs, profile)),
    )
}

/// Whether every figure of the report can be held.
pub open spec fn report_fits(s: SubjectView) -> bool {
    &&& sections_fit(s.files, s.dirs)
    &&& sums_fit(by_crate(s.files, s.dirs))
    &&& total(orphan_rows(s)) <= u64::MAX
    &&& bytes_in(s.files, s.dirs, s.now, Bucket::Incremental) + bytes_in(
        s.files,
        s.dirs,
        s.now,
        Bucket::Old,
    ) <= u64::MAX
}

/// Where all files together are a figure that can be held, so is every figure of the
/// report.
pub proof fn lemma_report_fits(s: SubjectView)
    requires
        total_bytes(s.files) <= u64::MAX,
    ensures
        report_fits(s),
{
    assert forall|k: int| 0 <= k < titled(s.dirs) implies #[trigger] bytes_under(
        s.files,
        s.dirs[k],
    ) <= u64::MAX && sums_fit(by_top(s.files, s.dirs[k])) by {
        lemma_bytes_under_at_most(s.files, s.dirs[k]);
        lemma_sums_fit(s.files, |file: EntryView| top_label(file, s.dirs[k]));
    }
    if let Some(profile) = profile_of(s.files, s.dirs) {
        lemma_sums_fit(
            s.files,
            |file: EntryView| top_label(file, profile_dir(s.dirs, profile)),
        );
    }
    lemma_sums_fit(s.files, |file: EntryView| crate_label(file, s.dirs));
    lemma_labelled_total(s.files, |file: EntryView| crate_label(file, s.dirs));
    lemma_grouped_total(by_crate(s.files, s.dirs));
    if let Some(meta) = s.meta {
        lemma_orphans_at_most(crate_rows(s), meta, s.lock);
    }
    lemma_buckets_share_out(s.files, s.dirs, s.now);
}

/// What one directory holds is no more than there is.
pub proof fn lemma_bytes_under_at_most(files: Seq<EntryView>, dir: Seq<Part>)
    ensures
        bytes_under(files, dir) <= total_bytes(files),
    decreases files.len(),
{
    if files.len() > 0 {
        lemma_bytes_under_at_most(files.drop_last(), dir);
    }
}

/// The orphans are some of the crates: each is a crate that nothing accounts for, and
/// together they hold no more than all crates do.
pub proof fn lemma_orphans_at_most(
    rows: Seq<(Seq<char>, u64)>,
    meta: MetadataView,
    lock: Option<Seq<char>>,
)
    ensures
        total(orphans_in(rows, meta, lock)) <= total(rows),
        forall|k: int|
            0 <= k < orphans_in(rows, meta, lock).len() ==> rows.contains(
                #[trigger] orphans_in(rows, meta, lock)[k],
            ) && !is_known(meta, lock, orphans_in(rows, meta, lock)[k].0),
    decreases rows.len(),
{
    if rows.len() > 0 {
        let rest = rows.drop_last();
        let others = orphans_in(rest, meta, lock);
        let all = orphans_in(rows, meta, lock);
        lemma_orphans_at_most(rest, meta, lock);
        if all.len() > others.len() {
            assert(all.drop_last() == others);
        }
        assert forall|k: int| 0 <= k < all.len() implies rows.contains(#[trigger] all[k])
            && !is_known(meta, lock, all[k].0) by {
            if k < others.len() {
                assert(all[k] == others[k]);
                assert(rest.contains(others[k]));
                let m = choose|m: int| 0 <= m < rest.len() && rest[m] == others[k];
                assert(rows[m] == all[k]);
            } else {
                assert(rows[rows.len() - 1] == all[k]);
            }
        }
    }
}

/// Without metadata no crate is called an orphan.
pub proof fn lemma_orphans_need_metadata(s: SubjectView)
    requires
        s.meta is None,
    ensures
        orphans_part(orphan_rows(s)) == Seq::<char>::empty(),
{
}

/// The rows of a directory add up to what it takes up.
pub proof fn lemma_top_accounts_for_all(files: Seq<EntryView>, dir: Seq<Part>)
    requires
        sums_fit(by_top(files, dir)),
        forall|k: int| 0 <= k < files.len() ==> (#[trigger] files[k]).path != dir,
    ensures
        total(top_of(files, dir)) == bytes_under(files, dir),
{
    lemma_grouped_total(by_top(files, dir));
    lemma_top_total(files, dir);
}

proof fn lemma_top_total(files: Seq<EntryView>, dir: Seq<Part>)
    requires
        forall|k: int| 0 <= k < files.len() ==> (#[trigger] files[k]).path != dir,
    ensures
        total(by_top(files, dir)) == bytes_under(files, dir),
    decreases files.len(),
{
    if files.len() > 0 {
        let before = files.drop_last();
        let file = files.last();
        assert forall|k: int| 0 <= k < before.len() implies (#[trigger] before[k]).path != dir by {
            assert(before[k] == files[k]);
        }
        lemma_top_total(before, dir);
        assert(files[files.len() - 1].path != dir);
        if let Some(rel) = below(file.path, dir) {
            if rel.len() == 0 {
                assert(file.path == dir);
            }
            assert(by_top(files, dir).drop_last() == by_top(before, dir));
        }
    }
}

/// No directory that stands directly in an output directory is larger than the profile
/// that is reported on.
pub proof fn lemma_largest_dir(
    files: Seq<EntryView>,
    dirs: Seq<Seq<Part>>,
    n: nat,
    k: int,
    row: (Seq<char>, u64),
)
    requires
        0 <= k < n,
        sums_fit(by_top(files, dirs[k])),
        top_of(files, dirs[k]).contains(row),
        is_dir_row(row),
    ensures
        largest_dir(files, dirs, n) matches Some((at, name, bytes)) && row.1 <= bytes,
    decreases n,
{
    if k < n - 1 {
        lemma_largest_dir(files, dirs, (n - 1) as nat, k, row);
    } else {
        let rows = top_of(files, dirs[k]);
        let i = choose|i: int| 0 <= i < rows.len() && rows[i] == row;
        lemma_first_dir(rows, i);
        lemma_grouped(by_top(files, dirs[k]));
        let first = choose|j: int|
            0 <= j <= i && first_dir(rows) == Some(#[trigger] rows[j]);
        if first < i {
            assert(rows[first].1 >= rows[i].1);
        }
    }
}

proof fn lemma_first_dir(rows: Seq<(Seq<char>, u64)>, i: int)
    requires
        0 <= i < rows.len(),
        is_dir_row(rows[i]),
    ensures
        exists|j: int| 0 <= j <= i && first_dir(rows) == Some(#[trigger] rows[j]),
    decreases rows.len(),
{
    let rest = rows.drop_last();
    if i < rest.len() {
        assert(rest[i] == rows[i]);
        lemma_first_dir(rest, i);
        let j = choose|j: int| 0 <= j <= i && first_dir(rest) == Some(#[trigger] rest[j]);
        assert(rows[j] == rest[j]);
    } else {
        lemma_first_dir_found(rest);
        match first_dir(rest) {
            Some(row) => {
                let j = choose|j: int| 0 <= j < rest.len() && #[trigger] rest[j] == row;
                assert(rows[j] == row);
            },
            None => {
                assert(first_dir(rows) == Some(rows[i]));
            },
        }
    }
}

proof fn lemma_first_dir_found(rows: Seq<(Seq<char>, u64)>)
    ensures
        first_dir(rows) matches Some(row) ==> exists|j: int|
            0 <= j < rows.len() && #[trigger] rows[j] == row,
    decreases rows.len(),
{
    if rows.len() > 0 {
        let rest = rows.drop_last();
        lemma_first_dir_found(rest);
        match first_dir(rest) {
            Some(row) => {
                let j = choose|j: int| 0 <= j < rest.len() && #[trigger] rest[j] == row;
                assert(rows[j] == row);
            },
            None => {
                assert(rows[rows.len() - 1] == rows.last());
            },
        }
    }
}

// ---------------------------------------------------------------- writing it
/// How many of the output directories are reported on by name.
fn count_titled(dirs: &[FilePath]) -> (n: usize)
    ensures
        n == titled(views(dirs@)),
        n <= dirs@.len(),
{
    if dirs.len() < 2 {
        dirs.len()
    } else {
        2
    }
}

proof fn lemma_bytes_under_grow(files: Seq<EntryView>, dir: Seq<Part>, n: int)
    requires
        0 <= n <= files.len(),
    ensures
        bytes_under(files.take(n), dir) <= bytes_under(files, dir),
    decreases files.len() - n,
{
    if n < files.len() {
        lemma_bytes_under_grow(files, dir, n + 1);
        assert(files.take(n + 1).drop_last() == files.take(n));
    } else {
        assert(files.take(n) == files);
    }
}

fn sum_under(files: &[Entry], dir: &FilePath) -> (sum: u64)
    requires
        bytes_under(views(files@), dir@) <= u64::MAX,
    ensures
        sum == bytes_under(views(files@), dir@),
{
    let ghost all = views(files@);
    let mut sum: u64 = 0;
    let mut i: usize = 0;
    while i < files.len()
        invariant
            i <= files@.len(),
            all == views(files@),
            bytes_under(all, dir@) <= u64::MAX,
            sum == bytes_under(all.take(i as int), dir@),
        decreases files@.len() - i,
    {
        proof {
            lemma_bytes_under_grow(all, dir@, i + 1);
            assert(all.take(i + 1).drop_last() == all.take(i as int));
            assert(all.take(i + 1).last() == files@[i as int]@);
        }
        if files[i].path.starts_with(dir) {
            sum += files[i].bytes;
        }
        i += 1;
    }
    assert(all.take(i as int) == all);
    sum
}

fn push_usage(out: &mut String, files: &[Entry], dirs: &[FilePath], lock_size: Option<u64>)
    requires
        sections_fit(views(files@), views(dirs@)),
    ensures
        final(out)@ == old(out)@ + usage_part(views(files@), views(dirs@), lock_size),
{
    let ghost start = out@;
    let ghost all = views(files@);
    let ghost outputs = views(dirs@);
    line(out, "Total disk usage");
    let ghost head = line_of("Total disk usage"@);
    let n: usize = count_titled(dirs);
    let mut k: usize = 0;
    assert(out@ == start + (head + usage_rows(all, outputs, 0)));
    while k < n
        invariant
            k <= n,
            n == titled(outputs),
            n <= dirs@.len(),
            all == views(files@),
            outputs == views(dirs@),
            sections_fit(all, outputs),
            out@ == start + (head + usage_rows(all, outputs, k as nat)),
        decreases n - k,
    {
        assert(outputs[k as int] == dirs@[k as int]@);
        assert(bytes_under(all, outputs[k as int]) <= u64::MAX);
        let mut name = String::new();
        name.append("  ");
        let shown = dir_label(&dirs[k]);
        name.append(shown.as_str());
        name.append("/");
        name.append(
            if k == 0 {
                ""
            } else {
                " (build-dir)"
            },
        );
        assert(name@ == "  "@ + label(outputs[k as int]) + "/"@ + tag_of(k as int));
        row(out, name.as_str(), sum_under(files, &dirs[k]));
        assert(out@ == start + (head + usage_rows(all, outputs, (k + 1) as nat)));
        k += 1;
    }
    if let Some(bytes) = lock_size {
        row(out, "  Cargo.lock", bytes);
    }
    assert(out@ == start + usage_part(all, outputs, lock_size));
}

fn is_directory(name: &str) -> (yes: bool)
    ensures
        yes == (name@.len() > 0 && name@.last() == '/'),
{
    let chars = chars_of(name);
    let n: usize = chars.len();
    n > 0 && chars[n - 1] == '/'
}

proof fn lemma_first_dir_stays(rows: Seq<(Seq<char>, u64)>, n: int)
    requires
        0 <= n <= rows.len(),
        first_dir(rows.take(n)) is Some,
    ensures
        first_dir(rows) == first_dir(rows.take(n)),
    decreases rows.len() - n,
{
    if n < rows.len() {
        assert(rows.take(n + 1).drop_last() == rows.take(n));
        lemma_first_dir_stays(rows, n + 1);
    } else {
        assert(rows.take(n) == rows);
    }
}

fn find_dir(rows: &[(String, u64)]) -> (at: Option<usize>)
    ensures
        match at {
            Some(i) => i < rows@.len() && first_dir(views(rows@)) == Some(rows@[i as int]@),
            None => first_dir(views(rows@)) is None,
        },
{
    let ghost all = views(rows@);
    let mut i: usize = 0;
    while i < rows.len()
        invariant
            i <= rows@.len(),
            all == views(rows@),
            first_dir(all.take(i as int)) is None,
        decreases rows@.len() - i,
    {
        assert(all.take(i + 1).drop_last() == all.take(i as int));
        assert(all.take(i + 1).last() == rows@[i as int]@);
        if is_directory(rows[i].0.as_str()) {
            proof {
                lemma_first_dir_stays(all, i + 1);
            }
            return Some(i);
        }
        i += 1;
    }
    assert(all.take(i as int) == all);
    None
}

fn trim_slashes(text: &str) -> (rest: String)
    ensures
        rest@ == without_slashes(text@),
{
    let chars = chars_of(text);
    let mut end: usize = chars.len();
    assert(chars@.take(end as int) == text@);
    while end > 0 && chars[end - 1] == '/'
        invariant
            end <= chars@.len(),
            without_slashes(text@) == without_slashes(chars@.take(end as int)),
        decreases end,
    {
        assert(chars@.take(end as int).drop_last() == chars@.take(end - 1));
        end -= 1;
    }
    let rest = slice_subrange(chars.as_slice(), 0, end);
    assert(rest@ == chars@.take(end as int));
    text_of(rest)
}

/// The profile that takes up most: which of the output directories it stands in, and
/// its name.
pub fn largest_profile(files: &[Entry], dirs: &[FilePath]) -> (profile: Option<(usize, String)>)
    requires
        sections_fit(views(files@), views(dirs@)),
    ensures
        match profile {
            Some((k, name)) => k < dirs@.len() && profile_of(views(files@), views(dirs@)) == Some(
                (k as int, name@),
            ),
            None => profile_of(views(files@), views(dirs@)) is None,
        },
{
    let ghost all = views(files@);
    let ghost outputs = views(dirs@);
    let n: usize = count_titled(dirs);
    let mut best: Option<(usize, String, u64)> = None;
    let mut k: usize = 0;
    while k < n
        invariant
            k <= n,
            n == titled(outputs),
            n <= dirs@.len(),
            all == views(files@),
            outputs == views(dirs@),
            sections_fit(all, outputs),
            match best {
                Some((at, name, bytes)) => at < k && largest_dir(all, outputs, k as nat) == Some(
                    (at as int, name@, bytes),
                ),
                None => largest_dir(all, outputs, k as nat) is None,
            },
        decreases n - k,
    {
        assert(outputs[k as int] == dirs@[k as int]@);
        assert(bytes_under(all, outputs[k as int]) <= u64::MAX);
        let top = breakdown(files, &dirs[k]);
        if let Some(i) = find_dir(top.as_slice()) {
            let bytes: u64 = top[i].1;
            let better = match &best {
                Some((_, _, most)) => bytes > *most,
                None => true,
            };
            if better {
                best = Some((k, top[i].0.clone(), bytes));
            }
        }
        k += 1;
    }
    match best {
        Some((at, name, _)) => Some((at, trim_slashes(name.as_str()))),
        None => None,
    }
}

fn push_sections(out: &mut String, files: &[Entry], dirs: &[FilePath])
    requires
        sections_fit(views(files@), views(dirs@)),
    ensures
        final(out)@ == old(out)@ + sections(
            views(files@),
            views(dirs@),
            titled(views(dirs@)),
        ),
{
    let ghost start = out@;
    let ghost all = views(files@);
    let ghost outputs = views(dirs@);
    let n: usize = count_titled(dirs);
    let mut k: usize = 0;
    assert(out@ == start + sections(all, outputs, 0));
    while k < n
        invariant
            k <= n,
            n == titled(outputs),
            n <= dirs@.len(),
            all == views(files@),
            outputs == views(dirs@),
            sections_fit(all, outputs),
            out@ == start + sections(all, outputs, k as nat),
        decreases n - k,
    {
        assert(outputs[k as int] == dirs@[k as int]@);
        assert(bytes_under(all, outputs[k as int]) <= u64::MAX);
        let top = breakdown(files, &dirs[k]);
        section(
            out,
            if k == 0 {
                "TARGET/"
            } else {
                "BUILD-DIR/"
            },
            top.as_slice(),
        );
        assert(out@ == start + sections(all, outputs, (k + 1) as nat));
        k += 1;
    }
}

fn push_profile(out: &mut String, files: &[Entry], dirs: &[FilePath], upper: &str)
    requires
        sections_fit(views(files@), views(dirs@)),
    ensures
        final(out)@ == old(out)@ + profile_part(views(files@), views(dirs@), upper@),
{
    let ghost start = out@;
    match largest_profile(files, dirs) {
        Some((k, name)) => {
            let mut title = upper.to_owned();
            title.append("/");
            let dir = join(&dirs[k], name.as_str());
            assert(views(dirs@)[k as int] == dirs@[k as int]@);
            let rows = breakdown(files, &dir);
            section(out, title.as_str(), rows.as_slice());
        },
        None => {
            assert(out@ == start + profile_part(views(files@), views(dirs@), upper@));
        },
    }
}

fn push_crates(out: &mut String, rows: &[(String, u64)])
    ensures
        final(out)@ == old(out)@ + crates_part(views(rows@)),
{
    let ghost start = out@;
    if rows.len() == 0 {
        assert(out@ == start + crates_part(views(rows@)));
        return;
    }
    push_heading(out, "Largest crates");
    let n: usize = if rows.len() < TOP_CRATES {
        rows.len()
    } else {
        TOP_CRATES
    };
    let first = slice_subrange(rows, 0, n);
    assert(views(first@) == views(rows@).take(n as int));
    push_rows(out, first, CRATE_WIDTH);
    assert(out@ == start + crates_part(views(rows@)));
}

fn find_orphans(rows: &[(String, u64)], meta: &Metadata, lock: Option<&str>) -> (orphans: Vec<
    (String, u64),
>)
    ensures
        views(orphans@) == orphans_in(views(rows@), meta@, opt_chars(lock)),
{
    let known = known_crates(lock, meta);
    let ghost all = views(rows@);
    let ghost text = opt_chars(lock);
    let mut orphans: Vec<(String, u64)> = Vec::new();
    let mut i: usize = 0;
    assert(views(orphans@) == orphans_in(all.take(0), meta@, text));
    assert forall|name: Seq<char>| #[trigger] known@.contains(name) <==> is_known(
        meta@,
        text,
        name,
    ) by {}
    while i < rows.len()
        invariant
            i <= rows@.len(),
            all == views(rows@),
            text == opt_chars(lock),
            forall|name: Seq<char>| #[trigger]
                known@.contains(name) <==> is_known(meta@, text, name),
            views(orphans@) == orphans_in(all.take(i as int), meta@, text),
        decreases rows@.len() - i,
    {
        assert(all.take(i + 1).drop_last() == all.take(i as int));
        assert(all.take(i + 1).last() == rows@[i as int]@);
        let ghost before = orphans@;
        if is_orphan(rows[i].0.as_str(), &known) {
            orphans.push((rows[i].0.clone(), rows[i].1));
            assert(views(orphans@) == views(before).push(all[i as int]));
        }
        i += 1;
    }
    assert(all.take(i as int) == all);
    orphans
}

proof fn lemma_rows_total_grows(rows: Seq<(Seq<char>, u64)>, n: int)
    requires
        0 <= n <= rows.len(),
    ensures
        total(rows.take(n)) <= total(rows),
    decreases rows.len() - n,
{
    if n < rows.len() {
        lemma_rows_total_grows(rows, n + 1);
        assert(rows.take(n + 1).drop_last() == rows.take(n));
    } else {
        assert(rows.take(n) == rows);
    }
}

fn rows_total(rows: &[(String, u64)]) -> (sum: u64)
    requires
        total(views(rows@)) <= u64::MAX,
    ensures
        sum == total(views(rows@)),
{
    let ghost all = views(rows@);
    let mut sum: u64 = 0;
    let mut i: usize = 0;
    while i < rows.len()
        invariant
            i <= rows@.len(),
            all == views(rows@),
            total(all) <= u64::MAX,
            sum == total(all.take(i as int)),
        decreases rows@.len() - i,
    {
        proof {
            lemma_rows_total_grows(all, i + 1);
            assert(all.take(i + 1).drop_last() == all.take(i as int));
            assert(all.take(i + 1).last() == rows@[i as int]@);
        }
        sum += rows[i].1;
        i += 1;
    }
    assert(all.take(i as int) == all);
    sum
}

fn push_orphans(out: &mut String, orphans: &[(String, u64)])
    requires
        total(views(orphans@)) <= u64::MAX,
    ensures
        final(out)@ == old(out)@ + orphans_part(views(orphans@)),
{
    let ghost start = out@;
    if orphans.len() == 0 {
        assert(out@ == start + orphans_part(views(orphans@)));
        return;
    }
    let n: usize = orphans.len();
    section(out, "Potential orphaned crates", orphans);
    line(out, "");
    let mut count = String::new();
    push_decimal(&mut count, n as u128);
    count.append(" crate");
    count.append(plural(n));
    assert(count@ == decimal(n as nat) + " crate"@ + plural_of(n as nat));
    row_at(out, count.as_str(), rows_total(orphans), section_width(orphans));
    assert(out@ == start + orphans_part(views(orphans@)));
}

fn push_build(out: &mut String, name: &str, count: usize)
    ensures
        final(out)@ == old(out)@ + build_line((name@, count)),
{
    let ghost start = out@;
    push_left(out, name, CRATE_WIDTH);
    out.append(" ");
    let mut digits = String::new();
    push_decimal(&mut digits, count as u128);
    assert(digits@ == decimal(count as nat));
    push_right(out, digits.as_str(), 4);
    out.append(" build");
    out.append(plural(count));
    out.push('\n');
    assert(out@ == start + build_line((name@, count)));
}

fn push_builds(out: &mut String, rows: &[(String, usize)])
    ensures
        final(out)@ == old(out)@ + builds_part(views(rows@)),
{
    let ghost start = out@;
    let ghost all = views(rows@);
    if rows.len() == 0 {
        assert(out@ == start + builds_part(all));
        return;
    }
    push_heading(out, "Builds per crate");
    let ghost head = line_of(""@) + heading("Builds per crate"@);
    let mut i: usize = 0;
    assert(out@ == start + (head + build_lines(all.take(0))));
    while i < rows.len()
        invariant
            i <= rows@.len(),
            all == views(rows@),
            out@ == start + (head + build_lines(all.take(i as int))),
        decreases rows@.len() - i,
    {
        assert(all.take(i + 1).drop_last() == all.take(i as int));
        assert(all.take(i + 1).last() == rows@[i as int]@);
        push_build(out, rows[i].0.as_str(), rows[i].1);
        assert(out@ == start + (head + build_lines(all.take(i + 1))));
        i += 1;
    }
    assert(all.take(i as int) == all);
}

fn push_cleanup(out: &mut String, incremental: u64, old_bytes: u64)
    requires
        incremental + old_bytes <= u64::MAX,
    ensures
        final(out)@ == old(out)@ + cleanup_part(incremental as nat, old_bytes as nat),
{
    let ghost start = out@;
    push_heading(out, "Potential cleanup");
    let ghost head = line_of(""@) + heading("Potential cleanup"@);
    assert(out@ == start + head);
    if incremental + old_bytes == 0 {
        line(out, "Nothing to clean up.");
    } else {
        if incremental > 0 {
            row(out, "Incremental cache", incremental);
        }
        assert(out@ == start + (head + row_if_any("Incremental cache"@, incremental as nat)));
        if old_bytes > 0 {
            row(out, "Artifacts >30 days", old_bytes);
        }
        assert(out@ == start + (head + (row_if_any("Incremental cache"@, incremental as nat)
            + row_if_any("Artifacts >30 days"@, old_bytes as nat))));
        line(out, "");
        line(out, "Potentially reclaimable:");
        row(out, "", incremental + old_bytes);
    }
    assert(out@ == start + cleanup_part(incremental as nat, old_bytes as nat));
}

/// The report on a project, with the section of its largest profile under the title
/// `upper`.
pub fn report_titled(s: &Subject, upper: &str) -> (text: String)
    requires
        report_fits(s@),
    ensures
        text@ == report_text(s@, upper@),
{
    let ghost v = s@;
    let mut out = String::new();
    line(&mut out, "Cargo Disk");
    line(&mut out, RULE);
    line(&mut out, "");
    out.append("Project: ");
    out.append(s.name);
    out.push('\n');
    line(&mut out, "");
    assert(out@ == line_of("Cargo Disk"@) + line_of(RULE@) + line_of(""@) + line_of(
        "Project: "@ + v.name,
    ) + line_of(""@));
    push_usage(&mut out, s.files, s.dirs, s.lock_size);
    push_sections(&mut out, s.files, s.dirs);
    push_profile(&mut out, s.files, s.dirs, upper);
    let crates = largest_crates(s.files, s.dirs);
    push_crates(&mut out, crates.as_slice());
    let ghost before = out@;
    if let Some(meta) = s.meta {
        let orphans = find_orphans(crates.as_slice(), meta, s.lock);
        push_orphans(&mut out, orphans.as_slice());
    }
    assert(out@ == before + orphans_part(orphan_rows(v)));
    let builds = build_counts(s.files, s.dirs);
    push_builds(&mut out, builds.as_slice());
    let (incremental, old_bytes) = cleanup_buckets(s.files, s.dirs, s.now);
    push_cleanup(&mut out, incremental, old_bytes);
    out
}

/// `text` in upper case.
pub uninterp spec fn uppercase(text: Seq<char>) -> Seq<char>;

/// `str::to_uppercase`: the upper case of a text is a function of its characters, by
/// Unicode's tables, which [`uppercase`] stands for. What those tables say is not stated.
#[verifier::external_body]
fn to_upper(text: &str) -> (upper: String)
    ensures
        upper@ == uppercase(text@),
{
    text.to_uppercase()
}

/// The title of the section of the largest profile.
pub open spec fn profile_title(s: SubjectView) -> Seq<char> {
    match profile_of(s.files, s.dirs) {
        Some((k, name)) => uppercase(name),
        None => ""@,
    }
}

/// The report on a project.
pub fn report(s: &Subject) -> (text: String)
    requires
        report_fits(s@),
    ensures
        text@ == report_text(s@, profile_title(s@)),
{
    match largest_profile(s.files, s.dirs) {
        Some((_, name)) => {
            let upper = to_upper(name.as_str());
            report_titled(s, upper.as_str())
        },
        None => report_titled(s, ""),
    }
}

} // verus!
