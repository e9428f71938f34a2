//! The report on dependencies: what is unused, what is outdated, and what to remove.

use crate::layout::{format_size, line, line_of, size_text, widest, WIDE_RULE};
use crate::metadata::{Kind, Metadata, MetadataView, PackageView};
use crate::order::{
    is_ranking, lemma_sorted_once, lemma_text_total, lemma_text_transitive, precedes, sort_once,
    sorted_once, text_before, Ranked, Total,
};
use crate::path::{FilePath, Part};
use crate::tally::sums_fit;
use crate::text::{
    chars_of, cut_at_first, decimal, eq_ignore_case, left_in, lines, number_up_to, opt_chars,
    parse_usize, push_decimal, push_left, push_right, right_in, same, same_ignoring_case, split_lines,
    split_once, strip_prefix, strip_suffix, text_of, trim, trimmed, views, without_prefix,
    without_suffix,
};
use crate::unused::{
    all_ignored, all_unused, figures_fit, find_unused, lemma_figures_fit, Unused, UnusedView,
};
use crate::usage::{
    by_owner, crate_sizes, lemma_labelled_total, lemma_sums_fit, owner, sums_by_label, total_bytes,
    Entry, EntryView,
};
use vstd::hash_set::StringHashSet;
use vstd::prelude::*;
use vstd::slice::slice_subrange;
use vstd::utf8::encode_utf8;

verus! {

// ---------------------------------------------------------------- what is outdated
/// The package, the version in use and the version that could be had, which a line of
/// what `cargo update --dry-run --verbose` prints tells.
pub open spec fn update_in(line: Seq<char>) -> Option<(Seq<char>, Seq<char>, Seq<char>)> {
    let text = trimmed(line);
    match without_prefix(text, "Unchanged "@) {
        Some(rest) => match cut_at_first(rest, " "@) {
            Some((name, rest)) => match cut_at_first(rest, " (available: "@) {
                Some((current, rest)) => match without_suffix(rest, ")"@) {
                    Some(available) => Some((name, current, available)),
                    None => None,
                },
                None => None,
            },
            None => None,
        },
        None => match without_prefix(text, "Updating "@) {
            Some(rest) => match cut_at_first(rest, " "@) {
                Some((name, rest)) => match cut_at_first(rest, " -> "@) {
                    Some((current, available)) => Some((name, current, available)),
                    None => None,
                },
                None => None,
            },
            None => None,
        },
    }
}

/// The updates that `lines` tell, as they stand.
pub open spec fn updates_in(lines: Seq<Seq<char>>) -> Seq<(Seq<char>, Seq<char>, Seq<char>)>
    decreases lines.len(),
{
    if lines.len() == 0 {
        Seq::empty()
    } else {
        let others = updates_in(lines.drop_last());
        match update_in(lines.last()) {
            Some(update) => others.push(update),
            None => others,
        }
    }
}

/// Whether the update `a` stands before `b`: by package, then by the two versions.
pub open spec fn update_before(
    a: (Seq<char>, Seq<char>, Seq<char>),
    b: (Seq<char>, Seq<char>, Seq<char>),
) -> bool {
    text_before(a.0, b.0) || (a.0 == b.0 && (text_before(a.1, b.1) || (a.1 == b.1 && text_before(
        a.2,
        b.2,
    ))))
}

impl Ranked for (String, String, String) {
    open spec fn ranks_before(
        a: (Seq<char>, Seq<char>, Seq<char>),
        b: (Seq<char>, Seq<char>, Seq<char>),
    ) -> bool {
        update_before(a, b)
    }

    fn goes_before(&self, other: &(String, String, String)) -> (yes: bool) {
        precedes(self.0.as_str(), other.0.as_str()) || (same(self.0.as_str(), other.0.as_str())
            && (precedes(self.1.as_str(), other.1.as_str()) || (same(
            self.1.as_str(),
            other.1.as_str(),
        ) && precedes(self.2.as_str(), other.2.as_str()))))
    }
}

impl Total for (String, String, String) {
    proof fn lemma_total(
        a: (Seq<char>, Seq<char>, Seq<char>),
        b: (Seq<char>, Seq<char>, Seq<char>),
    ) {
        lemma_text_total(a.0, b.0);
        lemma_text_total(a.1, b.1);
        lemma_text_total(a.2, b.2);
    }
}

/// The updates that the text tells: in order, each once.
pub open spec fn updates(text: Seq<char>) -> Seq<(Seq<char>, Seq<char>, Seq<char>)> {
    sorted_once(
        updates_in(lines(text)),
        |a: (Seq<char>, Seq<char>, Seq<char>), b: (Seq<char>, Seq<char>, Seq<char>)|
            <(String, String, String) as Ranked>::ranks_before(a, b),
    )
}

/// Updates are listed in order and without repetition, and all that the text tells are.
pub proof fn lemma_updates(text: Seq<char>)
    ensures
        forall|i: int, j: int|
            0 <= i < j < updates(text).len() ==> update_before(
                #[trigger] updates(text)[i],
                #[trigger] updates(text)[j],
            ),
        forall|u: (Seq<char>, Seq<char>, Seq<char>)| #[trigger]
            updates(text).contains(u) <==> updates_in(lines(text)).contains(u),
{
    let before = |a: (Seq<char>, Seq<char>, Seq<char>), b: (Seq<char>, Seq<char>, Seq<char>)|
        <(String, String, String) as Ranked>::ranks_before(a, b);
    assert(is_ranking(before)) by {
        assert forall|a: (Seq<char>, Seq<char>, Seq<char>), b: (Seq<char>, Seq<char>, Seq<char>)|
            #[trigger]
            before(a, b) implies !before(b, a) by {
            lemma_text_total(a.0, b.0);
            lemma_text_total(a.1, b.1);
            lemma_text_total(a.2, b.2);
        }
        assert forall|
            a: (Seq<char>, Seq<char>, Seq<char>),
            b: (Seq<char>, Seq<char>, Seq<char>),
            c: (Seq<char>, Seq<char>, Seq<char>),
        |
            #![trigger before(b, a), before(c, b)]
            !before(b, a) && !before(c, b) implies !before(c, a) by {
            lemma_three(a.0, b.0, c.0);
            lemma_three(a.1, b.1, c.1);
            lemma_three(a.2, b.2, c.2);
        }
    }
    lemma_sorted_once::<(String, String, String)>(updates_in(lines(text)));
}

proof fn lemma_three(a: Seq<char>, b: Seq<char>, c: Seq<char>)
    ensures
        a != b <==> text_before(a, b) || text_before(b, a),
        b != c <==> text_before(b, c) || text_before(c, b),
        a != c <==> text_before(a, c) || text_before(c, a),
        !(text_before(a, b) && text_before(b, a)),
        !(text_before(b, c) && text_before(c, b)),
        !(text_before(a, c) && text_before(c, a)),
        text_before(a, b) && text_before(b, c) ==> text_before(a, c),
{
    lemma_text_total(a, b);
    lemma_text_total(b, c);
    lemma_text_total(a, c);
    if text_before(a, b) && text_before(b, c) {
        lemma_text_transitive(a, b, c);
    }
}

fn read_update(line: &[char]) -> (update: Option<(String, String, String)>)
    ensures
        update matches Some(u) ==> update_in(line@) == Some((u.0@, u.1@, u.2@)),
        update is None ==> update_in(line@) is None,
{
    let text = trim(line);
    if let Some(rest) = strip_prefix(text, "Unchanged ") {
        if let Some((name, rest)) = split_once(rest, " ") {
            if let Some((current, rest)) = split_once(rest, " (available: ") {
                if let Some(available) = strip_suffix(rest, ")") {
                    return Some((text_of(name), text_of(current), text_of(available)));
                }
            }
        }
        return None;
    }
    if let Some(rest) = strip_prefix(text, "Updating ") {
        if let Some((name, rest)) = split_once(rest, " ") {
            if let Some((current, available)) = split_once(rest, " -> ") {
                return Some((text_of(name), text_of(current), text_of(available)));
            }
        }
    }
    None
}

/// (package, current, available) from `cargo update --dry-run --verbose`.
pub fn parse_update(text: &str) -> (found: Vec<(String, String, String)>)
    ensures
        views(found@) == updates(text@),
{
    let chars = chars_of(text);
    let listed = split_lines(chars.as_slice());
    let ghost all = lines(text@);
    let mut found: Vec<(String, String, String)> = Vec::new();
    let mut i: usize = 0;
    assert(views(found@) == updates_in(all.take(0)));
    while i < listed.len()
        invariant
            i <= listed@.len(),
            views(listed@) == all,
            views(found@) == updates_in(all.take(i as int)),
        decreases listed@.len() - i,
    {
        assert(all.take(i + 1).drop_last() == all.take(i as int));
        assert(all.take(i + 1).last() == listed@[i as int]@);
        let ghost before = found@;
        if let Some(update) = read_update(listed[i]) {
            let ghost u = (update.0@, update.1@, update.2@);
            found.push(update);
            assert(views(found@) == views(before).push(u));
        }
        i += 1;
    }
    assert(all.take(i as int) == all);
    sort_once(&mut found);
    found
}

// ---------------------------------------------------------------- direct dependencies
/// The members of the workspace that have a package.
pub open spec fn is_member(meta: MetadataView, package: PackageView) -> bool {
    exists|k: int|
        0 <= k < meta.members.len() && meta.package(#[trigger] meta.members[k]) == Some(package)
}

/// Whether some member of the workspace has a dependency.
pub open spec fn any_deps(meta: MetadataView) -> bool {
    exists|package: PackageView| #[trigger] is_member(meta, package) && package.deps.len() > 0
}

/// Whether a member of the workspace depends on `name` directly.
pub open spec fn is_direct(meta: MetadataView, name: Seq<char>) -> bool {
    exists|package: PackageView, k: int|
        #[trigger] is_member(meta, package) && 0 <= k < package.deps.len() && (
        #[trigger] package.deps[k]).name == name
}

/// The updates of packages that the workspace depends on directly.
pub open spec fn direct_updates(
    meta: MetadataView,
    found: Seq<(Seq<char>, Seq<char>, Seq<char>)>,
) -> Seq<(Seq<char>, Seq<char>, Seq<char>)>
    decreases found.len(),
{
    if found.len() == 0 {
        Seq::empty()
    } else {
        let others = direct_updates(meta, found.drop_last());
        if is_direct(meta, found.last().0) {
            others.push(found.last())
        } else {
            others
        }
    }
}

/// What is listed as outdated is exactly what could be updated of the direct
/// dependencies.
pub proof fn lemma_direct_updates(
    meta: MetadataView,
    found: Seq<(Seq<char>, Seq<char>, Seq<char>)>,
    u: (Seq<char>, Seq<char>, Seq<char>),
)
    ensures
        direct_updates(meta, found).contains(u) <==> found.contains(u) && is_direct(meta, u.0),
    decreases found.len(),
{
    if found.len() > 0 {
        let rest = found.drop_last();
        let others = direct_updates(meta, rest);
        let all = direct_updates(meta, found);
        lemma_direct_updates(meta, rest, u);
        if all.contains(u) {
            let k = choose|k: int| 0 <= k < all.len() && all[k] == u;
            if k < others.len() {
                assert(others[k] == u);
                let m = choose|m: int| 0 <= m < rest.len() && rest[m] == u;
                assert(found[m] == u);
            } else {
                assert(found[found.len() - 1] == u);
            }
        }
        if found.contains(u) && is_direct(meta, u.0) {
            let m = choose|m: int| 0 <= m < found.len() && found[m] == u;
            if m < rest.len() {
                assert(rest[m] == u);
                assert(others.contains(u));
                let k = choose|k: int| 0 <= k < others.len() && others[k] == u;
                assert(all[k] == u);
            } else {
                assert(all[others.len() as int] == u);
            }
        }
    }
}

/// Whether the project has any dependencies.
pub fn has_deps(meta: &Metadata) -> (yes: bool)
    ensures
        yes == any_deps(meta@),
{
    let ghost ids = meta@.members;
    let mut i: usize = 0;
    while i < meta.members.len()
        invariant
            i <= meta.members@.len(),
            ids == meta@.members,
            ids == views(meta.members@),
            forall|k: int|
                0 <= k < i ==> (meta@.package(#[trigger] ids[k]) matches Some(p) ==> p.deps.len()
                    == 0),
        decreases meta.members@.len() - i,
    {
        assert(ids[i as int] == meta.members@[i as int]@);
        if let Some(package) = meta.package(meta.members[i].as_str()) {
            if package.deps.len() > 0 {
                assert(is_member(meta@, package@));
                return true;
            }
        }
        i += 1;
    }
    false
}

fn direct_names(meta: &Metadata) -> (names: StringHashSet)
    ensures
        forall|name: Seq<char>| #[trigger] names@.contains(name) <==> is_direct(meta@, name),
{
    let ghost ids = meta@.members;
    let mut names = StringHashSet::new();
    let mut i: usize = 0;
    while i < meta.members.len()
        invariant
            i <= meta.members@.len(),
            ids == meta@.members,
            ids == views(meta.members@),
            forall|name: Seq<char>| #[trigger]
                names@.contains(name) ==> is_direct(meta@, name),
            forall|k: int, m: int|
                0 <= k < i && (meta@.package(#[trigger] ids[k]) matches Some(p) && 0 <= m
                    < p.deps.len()) ==> names@.contains(
                    (#[trigger] meta@.package(ids[k])->0.deps[m]).name,
                ),
        decreases meta.members@.len() - i,
    {
        assert(ids[i as int] == meta.members@[i as int]@);
        if let Some(package) = meta.package(meta.members[i].as_str()) {
            let ghost deps = package@.deps;
            assert(is_member(meta@, package@));
            let ghost was = names@;
            let mut j: usize = 0;
            while j < package.deps.len()
                invariant
                    j <= package.deps@.len(),
                    deps == package@.deps,
                    deps == views(package.deps@),
                    is_member(meta@, package@),
                    was.subset_of(names@),
                    forall|name: Seq<char>| #[trigger]
                        names@.contains(name) ==> is_direct(meta@, name),
                    forall|m: int| 0 <= m < j ==> names@.contains((#[trigger] deps[m]).name),
                decreases package.deps@.len() - j,
            {
                assert(deps[j as int] == package.deps@[j as int]@);
                names.insert(package.deps[j].name.clone());
                j += 1;
            }
            assert forall|k: int, m: int|
                0 <= k < i + 1 && (meta@.package(#[trigger] ids[k]) matches Some(p) && 0 <= m
                    < p.deps.len()) implies names@.contains(
                (#[trigger] meta@.package(ids[k])->0.deps[m]).name,
            ) by {
                if k < i {
                    assert(was.contains(meta@.package(ids[k])->0.deps[m].name));
                } else {
                    assert(meta@.package(ids[k]) == Some(package@));
                    assert(names@.contains(deps[m].name));
                }
            }
        }
        i += 1;
    }
    assert forall|name: Seq<char>| is_direct(meta@, name) implies #[trigger] names@.contains(
        name,
    ) by {
        let (package, m) = choose|package: PackageView, m: int|
            #[trigger] is_member(meta@, package) && 0 <= m < package.deps.len() && (
            #[trigger] package.deps[m]).name == name;
        let k = choose|k: int|
            0 <= k < ids.len() && meta@.package(#[trigger] ids[k]) == Some(package);
        assert(names@.contains(meta@.package(ids[k])->0.deps[m].name));
    }
    names
}

/// Those of `found` that the workspace depends on directly.
pub fn direct_only(meta: &Metadata, found: Vec<(String, String, String)>) -> (direct: Vec<
    (String, String, String),
>)
    ensures
        views(direct@) == direct_updates(meta@, views(found@)),
{
    let names = direct_names(meta);
    let ghost all = views(found@);
    let mut direct: Vec<(String, String, String)> = Vec::new();
    let mut i: usize = 0;
    assert(views(direct@) == direct_updates(meta@, all.take(0)));
    while i < found.len()
        invariant
            i <= found@.len(),
            all == views(found@),
            forall|name: Seq<char>| #[trigger] names@.contains(name) <==> is_direct(meta@, name),
            views(direct@) == direct_updates(meta@, all.take(i as int)),
        decreases found@.len() - i,
    {
        assert(all.take(i + 1).drop_last() == all.take(i as int));
        assert(all.take(i + 1).last() == found@[i as int]@);
        let ghost before = direct@;
        if names.contains(found[i].0.as_str()) {
            direct.push((found[i].0.clone(), found[i].1.clone(), found[i].2.clone()));
            assert(views(direct@) == views(before).push(all[i as int]));
        }
        i += 1;
    }
    assert(all.take(i as int) == all);
    direct
}

// ---------------------------------------------------------------- the report
/// What an unused dependency is listed as.
pub open spec fn label_of(u: UnusedView, workspace: bool) -> Seq<char> {
    let name = if workspace {
        u.member + ": "@ + u.key
    } else {
        u.key
    };
    let package = if u.key != u.package {
        " ("@ + u.package + ")"@
    } else {
        ""@
    };
    let kind = match u.kind {
        Kind::Dev => "  dev"@,
        Kind::Build => "  build"@,
        Kind::Normal => ""@,
    };
    name + package + kind
}

/// The labels of `unused`, with what each would free.
pub open spec fn labelled(unused: Seq<UnusedView>, workspace: bool) -> Seq<(Seq<char>, nat)> {
    unused.map_values(|u: UnusedView| (label_of(u, workspace), u.freed))
}

/// What a dependency would free.
pub open spec fn freed_text(freed: nat) -> Seq<char> {
    if freed == 0 {
        "—"@
    } else {
        "~"@ + size_text(freed)
    }
}

/// The line of one unused dependency.
pub open spec fn numbered_line(
    number: nat,
    label: Seq<char>,
    freed: nat,
    width: int,
) -> Seq<char> {
    line_of(
        right_in(decimal(number), 3) + "  "@ + left_in(label, width) + "  "@ + right_in(
            freed_text(freed),
            12,
        ),
    )
}

/// The numbered lines of the unused dependencies.
pub open spec fn numbered(rows: Seq<(Seq<char>, nat)>, width: int) -> Seq<char>
    decreases rows.len(),
{
    if rows.len() == 0 {
        Seq::empty()
    } else {
        numbered(rows.drop_last(), width) + numbered_line(
            rows.len(),
            rows.last().0,
            rows.last().1,
            width,
        )
    }
}

/// How the list of unused dependencies came about.
pub open spec fn explanation() -> Seq<char> {
    line_of("Found by searching the source for `name::`, `use name` and"@) + line_of(
        "`extern crate name`. A crate that is only linked (often `-sys`)"@,
    ) + line_of("or only enables a feature shows up here too; list it under"@) + line_of(
        "[package.metadata.cargo-disk] ignore = [\"name\"] in Cargo.toml."@,
    )
}

/// The part of the report on unused dependencies.
pub open spec fn unused_part(unused: Seq<UnusedView>, workspace: bool) -> Seq<char> {
    if unused.len() == 0 {
        line_of("No potentially unused dependencies."@)
    } else {
        let rows = labelled(unused, workspace);
        let width = widest(rows, 24) as int;
        line_of("Potentially unused"@ + right_in("freed if removed"@, width + 1)) + numbered(
            rows,
            width,
        ) + line_of(""@) + explanation()
    }
}

/// The part of the report on dependencies that were left alone.
pub open spec fn ignored_part(ignored: nat) -> Seq<char> {
    if ignored == 0 {
        Seq::empty()
    } else {
        line_of(""@) + line_of(
            decimal(ignored) + " dependenc"@ + (if ignored == 1 {
                "y"@
            } else {
                "ies"@
            }) + " ignored via [package.metadata.cargo-disk]"@,
        )
    }
}

/// The length in bytes of the longest of the names.
pub open spec fn name_bytes(list: Seq<(Seq<char>, Seq<char>, Seq<char>)>) -> nat
    decreases list.len(),
{
    if list.len() == 0 {
        0
    } else {
        larger(name_bytes(list.drop_last()), encode_utf8(list.last().0).len())
    }
}

/// The length in bytes of the longest of the versions in use.
pub open spec fn version_bytes(list: Seq<(Seq<char>, Seq<char>, Seq<char>)>) -> nat
    decreases list.len(),
{
    if list.len() == 0 {
        0
    } else {
        larger(version_bytes(list.drop_last()), encode_utf8(list.last().1).len())
    }
}

/// The larger of two numbers.
pub open spec fn larger(a: nat, b: nat) -> nat {
    if b > a {
        b
    } else {
        a
    }
}

/// The lines of the outdated dependencies.
pub open spec fn outdated_lines(
    list: Seq<(Seq<char>, Seq<char>, Seq<char>)>,
    names: int,
    versions: int,
) -> Seq<char>
    decreases list.len(),
{
    if list.len() == 0 {
        Seq::empty()
    } else {
        outdated_lines(list.drop_last(), names, versions) + line_of(
            "     "@ + left_in(list.last().0, names) + "  "@ + left_in(list.last().1, versions)
                + " → "@ + list.last().2,
        )
    }
}

/// The part of the report on outdated dependencies.
pub open spec fn outdated_part(
    outdated: Option<Seq<(Seq<char>, Seq<char>, Seq<char>)>>,
) -> Seq<char> {
    line_of(""@) + line_of("Outdated (direct dependencies)"@) + match outdated {
        None => line_of("  couldn't check for updates (offline?)"@),
        Some(list) => if list.len() == 0 {
            line_of("  all up to date"@)
        } else {
            outdated_lines(list, name_bytes(list) as int, version_bytes(list) as int)
        },
    } + line_of(""@)
}

/// The report on dependencies.
pub open spec fn deps_text(
    unused: Seq<UnusedView>,
    ignored: nat,
    outdated: Option<Seq<(Seq<char>, Seq<char>, Seq<char>)>>,
    workspace: bool,
) -> Seq<char> {
    line_of("Cargo Disk — Dependencies"@) + line_of(WIDE_RULE@) + line_of(""@) + unused_part(
        unused,
        workspace,
    ) + ignored_part(ignored) + outdated_part(outdated)
}

fn make_label(u: &Unused, workspace: bool) -> (label: String)
    ensures
        label@ == label_of(u@, workspace),
{
    let mut label = String::new();
    if workspace {
        label.append(u.member.as_str());
        label.append(": ");
    }
    label.append(u.key.as_str());
    if !same(u.key.as_str(), u.package.as_str()) {
        label.append(" (");
        label.append(u.package.as_str());
        label.append(")");
    } else {
        label.append("");
    }
    match u.kind {
        Kind::Dev => label.append("  dev"),
        Kind::Build => label.append("  build"),
        Kind::Normal => label.append(""),
    }
    assert(label@ == label_of(u@, workspace));
    label
}

fn make_labels(unused: &[Unused], workspace: bool) -> (labels: Vec<String>)
    ensures
        labels@.len() == unused@.len(),
        forall|k: int|
            0 <= k < unused@.len() ==> (#[trigger] labels@[k])@ == label_of(
                unused@[k]@,
                workspace,
            ),
{
    let mut labels: Vec<String> = Vec::new();
    let mut i: usize = 0;
    while i < unused.len()
        invariant
            i <= unused@.len(),
            labels@.len() == i,
            forall|k: int|
                0 <= k < i ==> (#[trigger] labels@[k])@ == label_of(unused@[k]@, workspace),
        decreases unused@.len() - i,
    {
        labels.push(make_label(&unused[i], workspace));
        i += 1;
    }
    labels
}

fn label_width(labels: &[String], Ghost(rows): Ghost<Seq<(Seq<char>, nat)>>) -> (width: usize)
    requires
        labels@.len() == rows.len(),
        forall|k: int| 0 <= k < rows.len() ==> (#[trigger] labels@[k])@ == rows[k].0,
    ensures
        width == widest(rows, 24),
{
    let mut width: usize = 24;
    let mut i: usize = 0;
    while i < labels.len()
        invariant
            i <= labels@.len(),
            labels@.len() == rows.len(),
            forall|k: int| 0 <= k < rows.len() ==> (#[trigger] labels@[k])@ == rows[k].0,
            width == widest(rows.take(i as int), 24),
        decreases labels@.len() - i,
    {
        assert(rows.take(i + 1).drop_last() == rows.take(i as int));
        assert(rows.take(i + 1).last() == rows[i as int]);
        assert(labels@[i as int]@ == rows[i as int].0);
        let n: usize = labels[i].as_str().unicode_len();
        if n > width {
            width = n;
        }
        i += 1;
    }
    assert(rows.take(i as int) == rows);
    width
}

fn push_numbered(out: &mut String, number: usize, label: &str, freed: u64, width: usize)
    ensures
        final(out)@ == old(out)@ + numbered_line(
            number as nat,
            label@,
            freed as nat,
            width as int,
        ),
{
    let ghost before = out@;
    let mut digits = String::new();
    push_decimal(&mut digits, number as u128);
    assert(digits@ == decimal(number as nat));
    let mut size = String::new();
    if freed == 0 {
        size.append("—");
    } else {
        size.append("~");
        let text = format_size(freed);
        size.append(text.as_str());
    }
    assert(size@ == freed_text(freed as nat));
    push_right(out, digits.as_str(), 3);
    out.append("  ");
    push_left(out, label, width);
    out.append("  ");
    push_right(out, size.as_str(), 12);
    out.push('\n');
    assert(out@ == before + numbered_line(number as nat, label@, freed as nat, width as int));
}

fn push_unused(out: &mut String, unused: &[Unused], workspace: bool)
    ensures
        final(out)@ == old(out)@ + unused_part(views(unused@), workspace),
{
    let ghost all = views(unused@);
    if unused.len() == 0 {
        line(out, "No potentially unused dependencies.");
        return;
    }
    let ghost rows = labelled(all, workspace);
    let labels = make_labels(unused, workspace);
    assert forall|k: int| 0 <= k < rows.len() implies (#[trigger] labels@[k])@ == rows[k].0 by {
        assert(all[k] == unused@[k]@);
    }
    let width: usize = label_width(labels.as_slice(), Ghost(rows));
    let ghost w = width as int;
    let ghost start = out@;
    proof {
        crate::layout::lemma_widest(rows, 24);
    }
    out.append("Potentially unused ");
    push_right(out, "freed if removed", width);
    out.push('\n');
    let ghost head = line_of("Potentially unused"@ + right_in("freed if removed"@, w + 1));
    assert(out@ == start + head) by {
        reveal_strlit("freed if removed");
        reveal_strlit("Potentially unused ");
        reveal_strlit("Potentially unused");
        assert("Potentially unused "@ == "Potentially unused"@.push(' '));
        assert(seq![' '] + right_in("freed if removed"@, w) == right_in(
            "freed if removed"@,
            w + 1,
        ));
        assert(start + "Potentially unused "@ + right_in("freed if removed"@, w) == start + (
        "Potentially unused"@ + (seq![' '] + right_in("freed if removed"@, w))));
    }
    let mut i: usize = 0;
    assert(start + head + numbered(rows.take(0), w) == start + head);
    while i < unused.len()
        invariant
            i <= unused@.len(),
            all == views(unused@),
            rows == labelled(all, workspace),
            labels@.len() == unused@.len(),
            forall|k: int| 0 <= k < rows.len() ==> (#[trigger] labels@[k])@ == rows[k].0,
            w == width,
            out@ == start + head + numbered(rows.take(i as int), w),
        decreases unused@.len() - i,
    {
        assert(rows.take(i + 1).drop_last() == rows.take(i as int));
        assert(rows.take(i + 1).last() == rows[i as int]);
        assert(all[i as int] == unused@[i as int]@);
        assert(labels@[i as int]@ == rows[i as int].0);
        push_numbered(out, i + 1, labels[i].as_str(), unused[i].freed, width);
        assert(out@ == start + head + numbered(rows.take(i + 1), w)) by {
            assert(rows[i as int].1 == unused@[i as int].freed);
            vstd::seq_lib::lemma_concat_associative(
                start + head,
                numbered(rows.take(i as int), w),
                numbered_line((i + 1) as nat, rows[i as int].0, rows[i as int].1, w),
            );
        }
        i += 1;
    }
    assert(rows.take(i as int) == rows);
    line(out, "");
    let ghost listed = out@;
    line(out, "Found by searching the source for `name::`, `use name` and");
    line(out, "`extern crate name`. A crate that is only linked (often `-sys`)");
    line(out, "or only enables a feature shows up here too; list it under");
    line(out, "[package.metadata.cargo-disk] ignore = [\"name\"] in Cargo.toml.");
    assert(out@ == listed + explanation());
    assert(out@ == start + unused_part(all, workspace));
}

fn push_ignored(out: &mut String, ignored: usize)
    ensures
        final(out)@ == old(out)@ + ignored_part(ignored as nat),
{
    if ignored == 0 {
        assert(out@ == old(out)@ + ignored_part(0));
        return;
    }
    line(out, "");
    push_decimal(out, ignored as u128);
    out.append(" dependenc");
    out.append(
        if ignored == 1 {
            "y"
        } else {
            "ies"
        },
    );
    out.append(" ignored via [package.metadata.cargo-disk]");
    out.push('\n');
    assert(out@ == old(out)@ + ignored_part(ignored as nat));
}

fn outdated_widths(list: &[(String, String, String)]) -> (widths: (usize, usize))
    ensures
        widths.0 == name_bytes(views(list@)),
        widths.1 == version_bytes(views(list@)),
{
    let ghost all = views(list@);
    let mut names: usize = 0;
    let mut versions: usize = 0;
    let mut i: usize = 0;
    while i < list.len()
        invariant
            i <= list@.len(),
            all == views(list@),
            names == name_bytes(all.take(i as int)),
            versions == version_bytes(all.take(i as int)),
        decreases list@.len() - i,
    {
        assert(all.take(i + 1).drop_last() == all.take(i as int));
        assert(all.take(i + 1).last() == list@[i as int]@);
        let name: usize = list[i].0.as_str().as_bytes().len();
        let version: usize = list[i].1.as_str().as_bytes().len();
        if name > names {
            names = name;
        }
        if version > versions {
            versions = version;
        }
        i += 1;
    }
    assert(all.take(i as int) == all);
    (names, versions)
}

/// The characters of a list of updates, if there is one.
pub open spec fn opt_updates(
    outdated: Option<&[(String, String, String)]>,
) -> Option<Seq<(Seq<char>, Seq<char>, Seq<char>)>> {
    match outdated {
        Some(list) => Some(views(list@)),
        None => None,
    }
}

fn push_outdated(out: &mut String, outdated: Option<&[(String, String, String)]>)
    ensures
        final(out)@ == old(out)@ + outdated_part(opt_updates(outdated)),
{
    let ghost start = out@;
    line(out, "");
    line(out, "Outdated (direct dependencies)");
    let ghost head = line_of(""@) + line_of("Outdated (direct dependencies)"@);
    assert(out@ == start + head);
    match outdated {
        None => {
            line(out, "  couldn't check for updates (offline?)");
            assert(out@ == start + (head + line_of("  couldn't check for updates (offline?)"@)));
        },
        Some(list) => {
            if list.len() == 0 {
                line(out, "  all up to date");
                assert(out@ == start + (head + line_of("  all up to date"@)));
            } else {
                let ghost all = views(list@);
                let (names, versions) = outdated_widths(list);
                let mut i: usize = 0;
                assert(start + (head + outdated_lines(all.take(0), names as int, versions as int))
                    == start + head);
                while i < list.len()
                    invariant
                        i <= list@.len(),
                        all == views(list@),
                        out@ == start + (head + outdated_lines(
                            all.take(i as int),
                            names as int,
                            versions as int,
                        )),
                    decreases list@.len() - i,
                {
                    assert(all.take(i + 1).drop_last() == all.take(i as int));
                    assert(all.take(i + 1).last() == list@[i as int]@);
                    let ghost before = out@;
                    out.append("     ");
                    push_left(out, list[i].0.as_str(), names);
                    out.append("  ");
                    push_left(out, list[i].1.as_str(), versions);
                    out.append(" → ");
                    out.append(list[i].2.as_str());
                    out.push('\n');
                    let ghost row = "     "@ + left_in(all[i as int].0, names as int) + "  "@
                        + left_in(all[i as int].1, versions as int) + " → "@ + all[i as int].2;
                    assert(out@ == before + line_of(row));
                    assert(out@ == start + (head + outdated_lines(
                        all.take(i + 1),
                        names as int,
                        versions as int,
                    )));
                    i += 1;
                }
                assert(all.take(i as int) == all);
            }
        },
    }
    line(out, "");
    assert(out@ == start + outdated_part(opt_updates(outdated)));
}

/// Appends the report on dependencies.
pub fn render(
    out: &mut String,
    unused: &[Unused],
    ignored: usize,
    outdated: Option<&[(String, String, String)]>,
    workspace: bool,
)
    ensures
        final(out)@ == old(out)@ + deps_text(
            views(unused@),
            ignored as nat,
            opt_updates(outdated),
            workspace,
        ),
{
    let ghost start = out@;
    line(out, "Cargo Disk — Dependencies");
    line(out, WIDE_RULE);
    line(out, "");
    let ghost head = line_of("Cargo Disk — Dependencies"@) + line_of(WIDE_RULE@) + line_of(""@);
    assert(out@ == start + head);
    push_unused(out, unused, workspace);
    push_ignored(out, ignored);
    push_outdated(out, outdated);
    assert(out@ == start + deps_text(
        views(unused@),
        ignored as nat,
        opt_updates(outdated),
        workspace,
    ));
}

/// How to begin.
pub enum Start {
    /// Report on this.
    Go(Metadata),
    /// The metadata could not be had: print the message and fail.
    Failed(String),
    /// There is nothing to report on: print the message.
    NoDeps(String),
}

impl Start {
    /// The exit code, where there is nothing more to do.
    pub fn exit_code(&self) -> (code: Option<i32>)
        ensures
            code == match *self {
                Start::Go(_) => None,
                Start::Failed(_) => Some(1i32),
                Start::NoDeps(_) => Some(0i32),
            },
    {
        match self {
            Start::Go(_) => None,
            Start::Failed(_) => Some(1),
            Start::NoDeps(_) => Some(0),
        }
    }
}

/// What is said where the metadata could not be had.
pub open spec fn unresolved(error: Seq<char>) -> Seq<char> {
    line_of("cargo-disk: "@ + error)
        + "cargo-disk: `deps` needs a resolved Cargo.lock — run `cargo build` first"@
}

/// How to begin with the metadata that was asked for.
pub fn start(loaded: Result<Metadata, String>) -> (start: Start)
    ensures
        match loaded {
            Err(error) => start matches Start::Failed(text) && text@ == unresolved(error@),
            Ok(meta) => if any_deps(meta@) {
                start == Start::Go(meta)
            } else {
                start matches Start::NoDeps(text) && text@ == "This project has no dependencies."@
            },
        },
{
    match loaded {
        Err(error) => {
            let mut text = String::new();
            text.append("cargo-disk: ");
            text.append(error.as_str());
            text.push('\n');
            text.append("cargo-disk: `deps` needs a resolved Cargo.lock — run `cargo build` first");
            assert(text@ == unresolved(error@));
            Start::Failed(text)
        },
        Ok(meta) => if has_deps(&meta) {
            Start::Go(meta)
        } else {
            Start::NoDeps("This project has no dependencies.".to_owned())
        },
    }
}

/// What to do after the report.
pub enum After {
    /// Remove nothing, and end with this exit code.
    Stop(i32),
    /// Ask what to remove.
    Offer,
}

/// What to do after the report: removal is offered exactly if something is unused and
/// there is a terminal to ask on.
pub fn after_report(unused: &[Unused], terminal: bool) -> (next: After)
    ensures
        next == (if unused@.len() == 0 || !terminal {
            After::Stop(0)
        } else {
            After::Offer
        }),
{
    if unused.len() == 0 || !terminal {
        After::Stop(0)
    } else {
        After::Offer
    }
}

/// What is outdated, by what `cargo update --dry-run --verbose` printed, if it could run.
pub open spec fn outdated_in(
    meta: MetadataView,
    update: Option<Seq<char>>,
) -> Option<Seq<(Seq<char>, Seq<char>, Seq<char>)>> {
    match update {
        Some(text) => Some(direct_updates(meta, updates(text))),
        None => None,
    }
}

/// The report on the dependencies of a project with the files `files` in the output
/// directories `dirs`, and the dependencies that could be removed. `sources` holds the
/// source of each member of the workspace, `update` what
/// `cargo update --dry-run --verbose` printed, if it could run.
pub fn run(
    meta: &Metadata,
    files: &[Entry],
    dirs: &[FilePath],
    sources: &[String],
    update: Option<&str>,
) -> (found: (String, Vec<Unused>))
    requires
        sources@.len() == meta.members@.len(),
        sums_fit(by_owner(views(files@), views(dirs@))),
        figures_fit(
            all_unused(
                meta@,
                views(sources@),
                sums_by_label(by_owner(views(files@), views(dirs@))),
                sources@.len(),
            ),
        ),
        all_ignored(meta@, views(sources@), sources@.len()) <= usize::MAX,
    ensures
        views(found.1@) == all_unused(
            meta@,
            views(sources@),
            sums_by_label(by_owner(views(files@), views(dirs@))),
            sources@.len(),
        ),
        found.0@ == deps_text(
            views(found.1@),
            all_ignored(meta@, views(sources@), sources@.len()),
            outdated_in(meta@, opt_chars(update)),
            meta@.members.len() > 1,
        ),
{
    let sizes = crate_sizes(files, dirs);
    let (unused, ignored) = find_unused(meta, sources, &sizes);
    let mut out = String::new();
    let workspace = meta.members.len() > 1;
    match update {
        Some(text) => {
            let outdated = direct_only(meta, parse_update(text));
            render(
                &mut out,
                unused.as_slice(),
                ignored,
                Some(outdated.as_slice()),
                workspace,
            );
        },
        None => {
            render(&mut out, unused.as_slice(), ignored, None, workspace);
        },
    }
    assert(out@ == deps_text(
        views(unused@),
        ignored as nat,
        outdated_in(meta@, opt_chars(update)),
        workspace,
    ));
    (out, unused)
}

/// Where all files together are a figure that can be held, so is every figure of the
/// report on dependencies.
pub proof fn lemma_run_fits(
    meta: MetadataView,
    files: Seq<EntryView>,
    dirs: Seq<Seq<Part>>,
    sources: Seq<Seq<char>>,
)
    requires
        total_bytes(files) <= u64::MAX,
    ensures
        sums_fit(by_owner(files, dirs)),
        figures_fit(
            all_unused(meta, sources, sums_by_label(by_owner(files, dirs)), sources.len()),
        ),
{
    lemma_sums_fit(files, |file: EntryView| owner(file, dirs));
    lemma_labelled_total(files, |file: EntryView| owner(file, dirs));
    lemma_figures_fit(meta, sources, by_owner(files, dirs), sources.len());
}

// ---------------------------------------------------------------- what to remove
/// Whether `c` parts the numbers of a selection.
pub open spec fn is_separator(c: char) -> bool {
    c == ',' || c == ' '
}

/// How many characters stand before the first separator.
pub open spec fn word_len(text: Seq<char>) -> nat
    decreases text.len(),
{
    if text.len() == 0 || is_separator(text[0]) {
        0
    } else {
        1 + word_len(text.skip(1))
    }
}

/// The words of a selection.
pub open spec fn words(text: Seq<char>) -> Seq<Seq<char>>
    decreases text.len(),
{
    if text.len() == 0 {
        Seq::empty()
    } else if word_len(text) == 0 || word_len(text) > text.len() {
        words(text.skip(1))
    } else {
        seq![text.take(word_len(text) as int)] + words(text.skip(word_len(text) as int))
    }
}

/// The number from 1 to `max` that a word spells.
pub open spec fn choice(word: Seq<char>, max: usize) -> Option<usize> {
    match number_up_to(word, usize::MAX as nat) {
        Some(n) => if 1 <= n <= max {
            Some(n as usize)
        } else {
            None
        },
        None => None,
    }
}

/// The first of the words that is not a number from 1 to `max`.
pub open spec fn first_bad(words: Seq<Seq<char>>, max: usize) -> Option<Seq<char>>
    decreases words.len(),
{
    if words.len() == 0 {
        None
    } else {
        match first_bad(words.drop_last(), max) {
            Some(word) => Some(word),
            None => if choice(words.last(), max) is None {
                Some(words.last())
            } else {
                None
            },
        }
    }
}

/// The numbers that the words spell.
pub open spec fn choices(words: Seq<Seq<char>>, max: usize) -> Seq<usize> {
    words.map_values(|word: Seq<char>| choice(word, max)->0)
}

/// Whether an answer selects nothing.
pub open spec fn is_none_answer(text: Seq<char>) -> bool {
    text.len() == 0 || same_ignoring_case(text, "none"@) || same_ignoring_case(text, "n"@)
}

/// The numbers that an answer selects, in order and each once, or what is wrong with it.
pub open spec fn selection(input: Seq<char>, max: usize) -> Result<Seq<usize>, Seq<char>> {
    let text = trimmed(input);
    if is_none_answer(text) {
        Ok(Seq::empty())
    } else {
        match first_bad(words(text), max) {
            Some(word) => Err(
                "`"@ + word + "` is not a number from 1 to "@ + decimal(max as nat),
            ),
            None => Ok(
                sorted_once(
                    choices(words(text), max),
                    |a: usize, b: usize| <usize as Ranked>::ranks_before(a, b),
                ),
            ),
        }
    }
}

impl Ranked for usize {
    open spec fn ranks_before(a: usize, b: usize) -> bool {
        a < b
    }

    fn goes_before(&self, other: &usize) -> (yes: bool) {
        *self < *other
    }
}

impl Total for usize {
    proof fn lemma_total(a: usize, b: usize) {
    }
}

/// What is selected stands in order, each number once, is a number that can be chosen,
/// and is every number that the answer spells.
pub proof fn lemma_selection(input: Seq<char>, max: usize)
    ensures
        selection(input, max) matches Ok(picked) ==> {
            &&& forall|i: int, j: int|
                0 <= i < j < picked.len() ==> #[trigger] picked[i] < #[trigger] picked[j]
            &&& forall|i: int| 0 <= i < picked.len() ==> 1 <= #[trigger] picked[i] <= max
            &&& !is_none_answer(trimmed(input)) ==> forall|n: usize| #[trigger]
                picked.contains(n) <==> choices(words(trimmed(input)), max).contains(n)
        },
{
    let text = trimmed(input);
    let found = words(text);
    if !is_none_answer(text) && first_bad(found, max) is None {
        let before = |a: usize, b: usize| <usize as Ranked>::ranks_before(a, b);
        assert(is_ranking(before));
        lemma_sorted_once::<usize>(choices(found, max));
        let picked = sorted_once(choices(found, max), before);
        assert forall|i: int| 0 <= i < picked.len() implies 1 <= #[trigger] picked[i] <= max by {
            assert(picked.contains(picked[i]));
            assert(choices(found, max).contains(picked[i]));
            let k = choose|k: int|
                0 <= k < choices(found, max).len() && choices(found, max)[k] == picked[i];
            lemma_no_bad(found, max, k);
            assert(choice(found[k], max) is Some);
        }
    }
}

proof fn lemma_no_bad(words: Seq<Seq<char>>, max: usize, k: int)
    requires
        first_bad(words, max) is None,
        0 <= k < words.len(),
    ensures
        choice(words[k], max) is Some,
    decreases words.len(),
{
    if k < words.len() - 1 {
        lemma_no_bad(words.drop_last(), max, k);
        assert(words.drop_last()[k] == words[k]);
    }
}

proof fn lemma_first_bad_stays(words: Seq<Seq<char>>, max: usize, n: int)
    requires
        0 <= n <= words.len(),
        first_bad(words.take(n), max) is Some,
    ensures
        first_bad(words, max) == first_bad(words.take(n), max),
    decreases words.len() - n,
{
    if n < words.len() {
        assert(words.take(n + 1).drop_last() == words.take(n));
        lemma_first_bad_stays(words, max, n + 1);
    } else {
        assert(words.take(n) == words);
    }
}

fn separates(c: char) -> (yes: bool)
    ensures
        yes == is_separator(c),
{
    c == ',' || c == ' '
}

fn leading_word(text: &[char]) -> (n: usize)
    ensures
        n == word_len(text@),
        n <= text@.len(),
{
    let mut n: usize = 0;
    assert(text@.skip(0) == text@);
    while n < text.len() && !separates(text[n])
        invariant
            n <= text@.len(),
            word_len(text@) == n + word_len(text@.skip(n as int)),
        decreases text@.len() - n,
    {
        assert(text@.skip(n as int).skip(1) == text@.skip(n + 1));
        n += 1;
    }
    n
}

fn split_words(text: &[char]) -> (found: Vec<&[char]>)
    ensures
        views(found@) == words(text@),
{
    let mut found: Vec<&[char]> = Vec::new();
    let mut rest = text;
    assert(views(found@) + words(rest@) == words(text@));
    while rest.len() > 0
        invariant
            views(found@) + words(rest@) == words(text@),
        decreases rest@.len(),
    {
        let total: usize = rest.len();
        let n: usize = leading_word(rest);
        if n == 0 {
            let next = slice_subrange(rest, 1, total);
            assert(next@ == rest@.skip(1));
            rest = next;
        } else {
            let word = slice_subrange(rest, 0, n);
            let next = slice_subrange(rest, n, total);
            assert(word@ == rest@.take(n as int));
            assert(next@ == rest@.skip(n as int));
            let ghost before = found@;
            found.push(word);
            assert(views(found@) == views(before).push(word@));
            assert(views(found@) + words(next@) == views(before) + words(rest@));
            rest = next;
        }
    }
    assert(views(found@) == words(text@));
    found
}

/// What an answer to the prompt selects.
pub open spec fn selects(picked: Result<Vec<usize>, String>) -> Result<Seq<usize>, Seq<char>> {
    match picked {
        Ok(numbers) => Ok(numbers@),
        Err(message) => Err(message@),
    }
}

/// "1,3" / "1 3" / "none" / "" → 1-based indices, sorted and unique.
pub fn parse_selection(input: &str, max: usize) -> (picked: Result<Vec<usize>, String>)
    ensures
        selects(picked) == selection(input@, max),
{
    let chars = chars_of(input);
    let text = trim(chars.as_slice());
    if text.len() == 0 || eq_ignore_case(text, "none") || eq_ignore_case(text, "n") {
        return Ok(Vec::new());
    }
    let found = split_words(text);
    let ghost all = words(text@);
    let mut picked: Vec<usize> = Vec::new();
    let mut i: usize = 0;
    while i < found.len()
        invariant
            i <= found@.len(),
            views(found@) == all,
            all == words(trimmed(input@)),
            !is_none_answer(trimmed(input@)),
            first_bad(all.take(i as int), max) is None,
            picked@ == choices(all.take(i as int), max),
        decreases found@.len() - i,
    {
        assert(all.take(i + 1).drop_last() == all.take(i as int));
        assert(all.take(i + 1).last() == found@[i as int]@);
        let number = parse_usize(found[i]);
        let good = match number {
            Some(n) => 1 <= n && n <= max,
            None => false,
        };
        if !good {
            proof {
                lemma_first_bad_stays(all, max, i + 1);
            }
            let word = text_of(found[i]);
            let mut message = String::new();
            message.append("`");
            message.append(word.as_str());
            message.append("` is not a number from 1 to ");
            push_decimal(&mut message, max as u128);
            assert(message@ == "`"@ + word@ + "` is not a number from 1 to "@ + decimal(
                max as nat,
            ));
            return Err(message);
        }
        picked.push(number.unwrap());
        assert(choices(all.take(i + 1), max) == choices(all.take(i as int), max).push(
            choice(all[i as int], max)->0,
        ));
        i += 1;
    }
    assert(all.take(i as int) == all);
    assert(views(picked@) == picked@);
    sort_once(&mut picked);
    assert(views(picked@) == picked@);
    Ok(picked)
}

/// What to do after an answer to the prompt.
pub enum Choice {
    /// The answer could not be read.
    Unread,
    /// The answer is wrong: print the message.
    Wrong(String),
    /// Nothing is to be removed.
    Nothing,
    /// These are to be removed, counted from one.
    Remove(Vec<usize>),
}

impl Choice {
    /// The exit code, where nothing is removed.
    pub fn exit_code(&self) -> (code: Option<i32>)
        ensures
            code == match *self {
                Choice::Unread => Some(1i32),
                Choice::Wrong(_) => Some(2i32),
                Choice::Nothing => Some(0i32),
                Choice::Remove(_) => None,
            },
    {
        match self {
            Choice::Unread => Some(1),
            Choice::Wrong(_) => Some(2),
            Choice::Nothing => Some(0),
            Choice::Remove(_) => None,
        }
    }
}

/// What an answer to the prompt leads to.
pub fn choose_removal(answer: Option<&str>, max: usize) -> (chosen: Choice)
    ensures
        match answer {
            None => chosen is Unread,
            Some(text) => match selection(text@, max) {
                Err(message) => chosen matches Choice::Wrong(line) && line@ == "cargo-disk: "@
                    + message + " — nothing removed"@,
                Ok(picked) => if picked.len() == 0 {
                    chosen is Nothing
                } else {
                    chosen matches Choice::Remove(numbers) && numbers@ == picked
                },
            },
        },
{
    match answer {
        None => Choice::Unread,
        Some(text) => match parse_selection(text, max) {
            Err(message) => {
                let mut line = String::new();
                line.append("cargo-disk: ");
                line.append(message.as_str());
                line.append(" — nothing removed");
                assert(line@ == "cargo-disk: "@ + message@ + " — nothing removed"@);
                Choice::Wrong(line)
            },
            Ok(picked) => if picked.len() == 0 {
                Choice::Nothing
            } else {
                Choice::Remove(picked)
            },
        },
    }
}

/// The dependency that is listed under `number`.
pub fn chosen_row<'a>(unused: &'a [Unused], number: usize) -> (row: &'a Unused)
    requires
        1 <= number <= unused@.len(),
    ensures
        *row == unused@[number - 1],
{
    &unused[number - 1]
}

/// What `cargo` is called with to remove a dependency.
pub open spec fn removal(u: UnusedView) -> Seq<Seq<char>> {
    let kind = match u.kind {
        Kind::Dev => seq!["--dev"@],
        Kind::Build => seq!["--build"@],
        Kind::Normal => Seq::empty(),
    };
    let target = match u.target {
        Some(target) => seq!["--target"@, target],
        None => Seq::empty(),
    };
    seq!["remove"@, "--manifest-path"@, u.manifest] + kind + target + seq![u.key]
}

fn push_text(list: &mut Vec<String>, text: &str)
    ensures
        views(final(list)@) == views(old(list)@).push(text@),
{
    list.push(text.to_owned());
    assert(views(list@) == views(old(list)@).push(text@));
}

/// What to call `cargo` with to remove a dependency.
pub fn removal_args(u: &Unused) -> (args: Vec<String>)
    ensures
        views(args@) == removal(u@),
{
    let mut args: Vec<String> = Vec::new();
    push_text(&mut args, "remove");
    push_text(&mut args, "--manifest-path");
    push_text(&mut args, u.manifest.as_str());
    match u.kind {
        Kind::Dev => push_text(&mut args, "--dev"),
        Kind::Build => push_text(&mut args, "--build"),
        Kind::Normal => {},
    }
    if let Some(target) = &u.target {
        push_text(&mut args, "--target");
        push_text(&mut args, target.as_str());
    }
    push_text(&mut args, u.key.as_str());
    assert(views(args@) == removal(u@));
    args
}

/// The manifests that removals have touched, after one more.
pub open spec fn touching(touched: Seq<Seq<char>>, manifest: Seq<char>) -> Seq<Seq<char>> {
    if touched.contains(manifest) {
        touched
    } else {
        touched.push(manifest)
    }
}

/// Notes that a removal touches `manifest`.
fn touch(touched: &mut Vec<String>, manifest: &str)
    ensures
        views(final(touched)@) == touching(views(old(touched)@), manifest@),
{
    let ghost all = views(touched@);
    let mut i: usize = 0;
    while i < touched.len()
        invariant
            i <= touched@.len(),
            all == views(touched@),
            all == views(old(touched)@),
            forall|k: int| 0 <= k < i ==> #[trigger] all[k] != manifest@,
        decreases touched@.len() - i,
    {
        assert(all[i as int] == touched@[i as int]@);
        if same(touched[i].as_str(), manifest) {
            assert(all.contains(all[i as int]));
            return;
        }
        i += 1;
    }
    push_text(touched, manifest);
}

/// The texts with a space after each.
pub open spec fn spaced(texts: Seq<Seq<char>>) -> Seq<char>
    decreases texts.len(),
{
    if texts.len() == 0 {
        Seq::empty()
    } else {
        spaced(texts.drop_last()) + texts.last() + " "@
    }
}

/// What is said after removals that touched `touched`.
pub open spec fn removed_text(touched: Seq<Seq<char>>) -> Seq<char> {
    line_of(""@) + line_of("Run `cargo build` to confirm it still compiles."@) + line_of(
        "Undo with `git checkout "@ + spaced(touched) + "Cargo.lock`."@,
    )
}

/// How to go on after removals that touched `touched`.
fn after_removal(touched: &[String]) -> (text: String)
    ensures
        text@ == removed_text(views(touched@)),
{
    let mut out = String::new();
    line(&mut out, "");
    line(&mut out, "Run `cargo build` to confirm it still compiles.");
    let ghost head = line_of(""@) + line_of("Run `cargo build` to confirm it still compiles."@);
    assert(out@ == head);
    out.append("Undo with `git checkout ");
    let ghost all = views(touched@);
    let mut i: usize = 0;
    assert(out@ == head + ("Undo with `git checkout "@ + spaced(all.take(0))));
    while i < touched.len()
        invariant
            i <= touched@.len(),
            all == views(touched@),
            out@ == head + ("Undo with `git checkout "@ + spaced(all.take(i as int))),
        decreases touched@.len() - i,
    {
        assert(all.take(i + 1).drop_last() == all.take(i as int));
        assert(all.take(i + 1).last() == touched@[i as int]@);
        out.append(touched[i].as_str());
        out.append(" ");
        assert(out@ == head + ("Undo with `git checkout "@ + spaced(all.take(i + 1))));
        i += 1;
    }
    assert(all.take(i as int) == all);
    out.append("Cargo.lock`.");
    out.push('\n');
    assert(out@ == removed_text(all));
    out
}

/// How far the removal of dependencies has come.
pub struct Removal {
    /// The manifests touched so far.
    pub touched: Vec<String>,
    pub failed: bool,
}

impl Removal {
    pub fn new() -> (removal: Removal)
        ensures
            removal.touched@.len() == 0,
            !removal.failed,
    {
        Removal { touched: Vec::new(), failed: false }
    }

    /// Notes that a dependency is about to be removed from the manifest that is written
    /// `manifest`; what is to be printed about it.
    pub fn begin(&mut self, u: &Unused, manifest: &str) -> (text: String)
        ensures
            views(final(self).touched@) == touching(views(old(self).touched@), manifest@),
            final(self).failed == old(self).failed,
            text@ == "Running: cargo remove "@ + u@.key,
    {
        touch(&mut self.touched, manifest);
        let mut text = "Running: cargo remove ".to_owned();
        text.append(u.key.as_str());
        text
    }

    /// Notes whether a dependency was removed; what is to be printed if it was not.
    pub fn end(&mut self, u: &Unused, removed: bool) -> (message: Option<String>)
        ensures
            final(self).touched == old(self).touched,
            final(self).failed == (old(self).failed || !removed),
            match message {
                Some(text) => !removed && text@ == "cargo-disk: removing "@ + u@.key + " failed"@,
                None => removed,
            },
    {
        if removed {
            return None;
        }
        self.failed = true;
        let mut text = "cargo-disk: removing ".to_owned();
        text.append(u.key.as_str());
        text.append(" failed");
        Some(text)
    }

    /// What is said at the end, and the exit code.
    pub fn finish(&self) -> (end: (String, i32))
        ensures
            end.0@ == removed_text(views(self.touched@)),
            end.1 == if self.failed {
                1int
            } else {
                0
            },
    {
        (
            after_removal(self.touched.as_slice()),
            if self.failed {
                1
            } else {
                0
            },
        )
    }
}

/// No manifest is named twice, however often it is touched, and none is forgotten.
pub proof fn lemma_touching(touched: Seq<Seq<char>>, manifest: Seq<char>)
    requires
        touched.no_duplicates(),
    ensures
        touching(touched, manifest).no_duplicates(),
        forall|m: Seq<char>| #[trigger]
            touching(touched, manifest).contains(m) <==> touched.contains(m) || m == manifest,
{
    if !touched.contains(manifest) {
        let longer = touched.push(manifest);
        assert forall|m: Seq<char>| #[trigger] longer.contains(m) <==> touched.contains(m) || m
            == manifest by {
            if touched.contains(m) {
                let k = choose|k: int| 0 <= k < touched.len() && touched[k] == m;
                assert(longer[k] == m);
            }
            assert(longer[touched.len() as int] == manifest);
            if longer.contains(m) {
                let k = choose|k: int| 0 <= k < longer.len() && longer[k] == m;
                if k < touched.len() {
                    assert(touched[k] == m);
                }
            }
        }
        assert forall|i: int, j: int|
            0 <= i < longer.len() && 0 <= j < longer.len() && i != j implies longer[i]
            != longer[j] by {
            if i < touched.len() {
                assert(touched.contains(touched[i]));
            }
            if j < touched.len() {
                assert(touched.contains(touched[j]));
            }
        }
    }
}

} // verus!
