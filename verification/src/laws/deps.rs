//! Laws of the report on dependencies, and of removing them.

use crate::deps::{
    any_deps, choice, choices, deps_text, direct_updates, first_bad, freed_text, ignored_part,
    is_direct, is_member, label_of, labelled, name_bytes, numbered, outdated_in, outdated_lines,
    outdated_part, removal, removed_text, selection, spaced, touching, unresolved, unused_part,
    update_in, updates, updates_in, version_bytes, word_len, words,
};
use crate::laws::text::{
    all_space, lemma_cut_first, lemma_cut_first_char, lemma_cut_nowhere, lemma_prefix, lemma_suffix,
    lemma_trimmed,
};
use crate::layout::{line_of, size_text, widest};
use crate::metadata::{MetadataView, PackageView};
use crate::text::{
    cut_at_first, decimal, is_space, left_in, number_up_to, occurs_at, right_in, same_ignoring_case,
    trimmed, without_prefix, without_suffix,
};
use crate::unused::UnusedView;
use vstd::prelude::*;
use vstd::utf8::encode_utf8;

verus! {

// ---------------------------------------------------------------- what is outdated
proof fn lemma_no_space(text: Seq<char>, part: Seq<char>, after: Seq<char>)
    requires
        !text.contains(' '),
        part.len() > 0,
        part[0] == ' ',
    ensures
        cut_at_first(text + part + after, part) == Some((text, after)),
{
    let all = text + part + after;
    assert forall|k: int| 0 <= k < text.len() implies !#[trigger] occurs_at(all, part, k) by {
        if occurs_at(all, part, k) {
            assert(all[k] == text[k]);
            assert(all.subrange(k, k + part.len())[0] == all[k]);
            assert(text.contains(text[k]));
        }
    }
    lemma_cut_first(text, part, after);
}

/// A line tells of a package whose newer version is held back, or of one that would be
/// updated, with the version in use and the one that could be had; space around it counts
/// for nothing.
pub proof fn lemma_update_line(
    before: Seq<char>,
    name: Seq<char>,
    current: Seq<char>,
    available: Seq<char>,
    after: Seq<char>,
)
    requires
        all_space(before),
        all_space(after),
        !name.contains(' '),
        !current.contains(' '),
        available.len() > 0,
        !is_space(available.last()),
    ensures
        update_in(
            before + ("Unchanged "@ + name + " "@ + current + " (available: "@ + available + ")"@)
                + after,
        ) == Some((name, current, available)),
        update_in(
            before + ("Updating "@ + name + " "@ + current + " -> "@ + available) + after,
        ) == Some((name, current, available)),
{
    reveal_strlit("Unchanged ");
    reveal_strlit("Updating ");
    reveal_strlit(" ");
    reveal_strlit(" (available: ");
    reveal_strlit(" -> ");
    reveal_strlit(")");
    let held = "Unchanged "@ + name + " "@ + current + " (available: "@ + available + ")"@;
    let free = "Updating "@ + name + " "@ + current + " -> "@ + available;
    assert(held[0] == 'U' && held.last() == ')');
    assert(free[0] == 'U' && free.last() == available.last());
    assert(!is_space('U') && !is_space(')'));
    lemma_trimmed(before, held, after);
    lemma_trimmed(before, free, after);
    let versions = current + " (available: "@ + (available + ")"@);
    let named = name + " "@ + versions;
    assert(held =~= "Unchanged "@ + named);
    lemma_prefix(held, "Unchanged "@, named);
    lemma_no_space(name, " "@, versions);
    lemma_no_space(current, " (available: "@, available + ")"@);
    lemma_suffix(available + ")"@, ")"@, available);
    let newer = current + " -> "@ + available;
    let other = name + " "@ + newer;
    assert(free =~= "Updating "@ + other);
    lemma_prefix(free, "Updating "@, other);
    lemma_no_space(name, " "@, newer);
    lemma_no_space(current, " -> "@, available);
    assert(free[1] == 'p');
    assert("Unchanged "@[1] == 'n');
    assert(without_prefix(free, "Unchanged "@) is None) by {
        if let Some(rest) = without_prefix(free, "Unchanged "@) {
            lemma_prefix(free, "Unchanged "@, rest);
            assert(free[1] == ("Unchanged "@ + rest)[1]);
        }
    }
}

/// A line that begins with neither word tells of no update.
pub proof fn lemma_other_line(line: Seq<char>)
    requires
        !("Unchanged "@).is_prefix_of(trimmed(line)),
        !("Updating "@).is_prefix_of(trimmed(line)),
    ensures
        update_in(line) is None,
{
}

/// A line that breaks off tells of no update: one without a version, without the version
/// that could be had, or without the bracket behind it.
pub proof fn lemma_broken_line(
    before: Seq<char>,
    name: Seq<char>,
    rest: Seq<char>,
    after: Seq<char>,
)
    requires
        all_space(before),
        all_space(after),
        !name.contains(' '),
        name.len() > 0,
        !is_space(name.last()),
        rest.len() > 0,
        !is_space(rest.last()),
    ensures
        update_in(before + ("Unchanged "@ + name) + after) is None,
        update_in(before + ("Updating "@ + name) + after) is None,
        (forall|k: int| !#[trigger] occurs_at(rest, " (available: "@, k)) ==> update_in(
            before + ("Unchanged "@ + name + " "@ + rest) + after,
        ) is None,
        rest.last() != ')' ==> update_in(
            before + ("Unchanged "@ + name + " "@ + rest) + after,
        ) is None,
        (forall|k: int| !#[trigger] occurs_at(rest, " -> "@, k)) ==> update_in(
            before + ("Updating "@ + name + " "@ + rest) + after,
        ) is None,
{
    reveal_strlit("Unchanged ");
    reveal_strlit("Updating ");
    reveal_strlit(" ");
    reveal_strlit(")");
    reveal_strlit(" (available: ");
    assert(!is_space('U'));
    assert(" "@ =~= seq![' ']);
    let held = "Unchanged "@ + name;
    let free = "Updating "@ + name;
    assert(held[0] == 'U' && held.last() == name.last());
    assert(free[0] == 'U' && free.last() == name.last());
    lemma_trimmed(before, held, after);
    lemma_trimmed(before, free, after);
    lemma_prefix(held, "Unchanged "@, name);
    lemma_prefix(free, "Updating "@, name);
    lemma_cut_first_char(name, ' ', rest);
    let long = held + " "@ + rest;
    let other = free + " "@ + rest;
    assert(long[0] == 'U' && long.last() == rest.last());
    assert(other[0] == 'U' && other.last() == rest.last());
    lemma_trimmed(before, long, after);
    lemma_trimmed(before, other, after);
    assert(long =~= "Unchanged "@ + (name + " "@ + rest));
    assert(other =~= "Updating "@ + (name + " "@ + rest));
    lemma_prefix(long, "Unchanged "@, name + " "@ + rest);
    lemma_prefix(other, "Updating "@, name + " "@ + rest);
    lemma_no_space(name, " "@, rest);
    lemma_not_unchanged(free);
    lemma_not_unchanged(other);
    if forall|k: int| !#[trigger] occurs_at(rest, " (available: "@, k) {
        lemma_cut_nowhere(rest, " (available: "@);
    }
    if forall|k: int| !#[trigger] occurs_at(rest, " -> "@, k) {
        lemma_cut_nowhere(rest, " -> "@);
    }
    if rest.last() != ')' {
        if let Some((current, tail)) = cut_at_first(rest, " (available: "@) {
            if let Some(available) = without_suffix(tail, ")"@) {
                lemma_suffix(tail, ")"@, available);
                assert(tail.last() == ')');
                lemma_cut_is_suffix(rest, " (available: "@, current, tail);
            }
        }
    }
}

proof fn lemma_not_unchanged(text: Seq<char>)
    requires
        text.len() > 1,
        text[1] == 'p',
    ensures
        without_prefix(text, "Unchanged "@) is None,
{
    reveal_strlit("Unchanged ");
    if let Some(rest) = without_prefix(text, "Unchanged "@) {
        lemma_prefix(text, "Unchanged "@, rest);
        assert(text[1] == ("Unchanged "@ + rest)[1]);
        assert("Unchanged "@[1] == 'n');
    }
}

proof fn lemma_cut_is_suffix(text: Seq<char>, part: Seq<char>, head: Seq<char>, tail: Seq<char>)
    requires
        cut_at_first(text, part) == Some((head, tail)),
        tail.len() > 0,
    ensures
        text.len() > 0 && text.last() == tail.last(),
{
    crate::text::lemma_index_from(text, part, 0);
}

/// Updates are read line by line, and kept where a member of the workspace depends on the
/// package itself.
pub proof fn lemma_updates_steps(
    lines: Seq<Seq<char>>,
    line: Seq<char>,
    meta: MetadataView,
    found: Seq<(Seq<char>, Seq<char>, Seq<char>)>,
    update: (Seq<char>, Seq<char>, Seq<char>),
)
    ensures
        updates_in(Seq::<Seq<char>>::empty()) == Seq::<(Seq<char>, Seq<char>, Seq<char>)>::empty(),
        update_in(line) matches Some(u) ==> updates_in(lines.push(line)) == updates_in(lines).push(
            u,
        ),
        update_in(line) is None ==> updates_in(lines.push(line)) == updates_in(lines),
        direct_updates(meta, Seq::<(Seq<char>, Seq<char>, Seq<char>)>::empty()) == Seq::<
            (Seq<char>, Seq<char>, Seq<char>),
        >::empty(),
        is_direct(meta, update.0) ==> direct_updates(meta, found.push(update)) == direct_updates(
            meta,
            found,
        ).push(update),
        !is_direct(meta, update.0) ==> direct_updates(meta, found.push(update)) == direct_updates(
            meta,
            found,
        ),
{
    assert(lines.push(line).drop_last() == lines);
    assert(found.push(update).drop_last() == found);
}

/// The workspace depends on what its members name, and on nothing else; without a
/// dependency of some member there are none.
pub proof fn lemma_direct(meta: MetadataView, m: int, package: PackageView, d: int, name: Seq<char>)
    ensures
        0 <= m < meta.members.len() && meta.package(meta.members[m]) == Some(package) && 0 <= d
            < package.deps.len() ==> is_direct(meta, package.deps[d].name) && any_deps(meta),
        meta.members.len() == 0 ==> !is_direct(meta, name) && !any_deps(meta),
        (forall|k: int|
            0 <= k < meta.members.len() ==> (meta.package(#[trigger] meta.members[k]) matches Some(
                p,
            ) ==> p.deps.len() == 0)) ==> !any_deps(meta),
        is_direct(meta, name) ==> exists|k: int, p: PackageView, i: int|
            0 <= k < meta.members.len() && #[trigger] meta.package(meta.members[k]) == Some(p) && 0
                <= i < p.deps.len() && (#[trigger] p.deps[i]).name == name,
{
    if 0 <= m < meta.members.len() && meta.package(meta.members[m]) == Some(package) && 0 <= d
        < package.deps.len() {
        assert(is_member(meta, package));
        assert(package.deps[d].name == package.deps[d].name);
    }
    if any_deps(meta) {
        let p = choose|p: PackageView| #[trigger] is_member(meta, p) && p.deps.len() > 0;
        let k = choose|k: int|
            0 <= k < meta.members.len() && meta.package(#[trigger] meta.members[k]) == Some(p);
        assert(meta.package(meta.members[k]) == Some(p));
    }
    if is_direct(meta, name) {
        let (p, i) = choose|p: PackageView, i: int|
            #[trigger] is_member(meta, p) && 0 <= i < p.deps.len() && (#[trigger] p.deps[i]).name
                == name;
        let k = choose|k: int|
            0 <= k < meta.members.len() && meta.package(#[trigger] meta.members[k]) == Some(p);
        assert(meta.package(meta.members[k]) == Some(p) && p.deps[i].name == name);
    }
}

/// What is outdated is what the text tells of direct dependencies; nothing is known where
/// there is no text.
pub proof fn lemma_outdated(meta: MetadataView, text: Seq<char>)
    ensures
        outdated_in(meta, Some(text)) == Some(direct_updates(meta, updates(text))),
        outdated_in(meta, None) is None,
{
}

// ---------------------------------------------------------------- the report
/// An unused dependency goes by its key, after its member in a workspace, followed by its
/// package where that has another name, and by the table it stands in.
pub proof fn lemma_labels_of_unused(u: UnusedView)
    ensures
        u.key == u.package && u.kind is Normal ==> label_of(u, false) == u.key && label_of(u, true)
            == u.member + ": "@ + u.key,
        u.key == u.package && u.kind is Dev ==> label_of(u, false) == u.key + "  dev"@ && label_of(
            u,
            true,
        ) == u.member + ": "@ + u.key + "  dev"@,
        u.key == u.package && u.kind is Build ==> label_of(u, false) == u.key + "  build"@
            && label_of(u, true) == u.member + ": "@ + u.key + "  build"@,
        u.key != u.package && u.kind is Normal ==> label_of(u, false) == u.key + " ("@ + u.package
            + ")"@ && label_of(u, true) == u.member + ": "@ + u.key + " ("@ + u.package + ")"@,
        u.key != u.package && u.kind is Dev ==> label_of(u, false) == u.key + " ("@ + u.package
            + ")  dev"@,
        u.key != u.package && u.kind is Build ==> label_of(u, false) == u.key + " ("@ + u.package
            + ")  build"@,
        label_of(u, true) == u.member + ": "@ + label_of(u, false),
{
    reveal_strlit("");
    reveal_strlit(")");
    reveal_strlit("  dev");
    reveal_strlit("  build");
    reveal_strlit(")  dev");
    reveal_strlit(")  build");
    let name = u.member + ": "@ + u.key;
    assert(u.key + ""@ + ""@ =~= u.key);
    assert(name + ""@ + ""@ =~= name);
    assert(u.key + ""@ + "  dev"@ =~= u.key + "  dev"@);
    assert(name + ""@ + "  dev"@ =~= name + "  dev"@);
    assert(u.key + ""@ + "  build"@ =~= u.key + "  build"@);
    assert(name + ""@ + "  build"@ =~= name + "  build"@);
    let package = " ("@ + u.package + ")"@;
    assert(u.key + package + ""@ =~= u.key + " ("@ + u.package + ")"@);
    assert(name + package + ""@ =~= name + " ("@ + u.package + ")"@);
    assert(u.key + package + "  dev"@ =~= u.key + " ("@ + u.package + ")  dev"@);
    assert(u.key + package + "  build"@ =~= u.key + " ("@ + u.package + ")  build"@);
    assert(label_of(u, true) =~= u.member + ": "@ + label_of(u, false));
}

/// What would be freed is written as a size, or as a dash where it is nothing.
pub proof fn lemma_freed_text(freed: nat)
    ensures
        freed_text(0) == "—"@,
        freed > 0 ==> freed_text(freed) == "~"@ + size_text(freed),
{
}

/// Unused dependencies are numbered from one on, one line each.
pub proof fn lemma_numbered_steps(
    rows: Seq<(Seq<char>, nat)>,
    label: Seq<char>,
    freed: nat,
    width: int,
)
    ensures
        numbered(Seq::<(Seq<char>, nat)>::empty(), width) == Seq::<char>::empty(),
        numbered(rows.push((label, freed)), width) == numbered(rows, width) + right_in(
            decimal((rows.len() + 1) as nat),
            3,
        ) + "  "@ + left_in(label, width) + "  "@ + right_in(freed_text(freed), 12) + "\n"@,
{
    reveal_strlit("\n");
    let all = rows.push((label, freed));
    assert(all.drop_last() =~= rows);
    assert(all.last() == (label, freed));
    assert(numbered(all, width) =~= numbered(rows, width) + right_in(
        decimal((rows.len() + 1) as nat),
        3,
    ) + "  "@ + left_in(label, width) + "  "@ + right_in(freed_text(freed), 12) + "\n"@);
}

/// The rows of unused dependencies hold their labels and what each would free.
pub proof fn lemma_labelled_steps(unused: Seq<UnusedView>, u: UnusedView, workspace: bool)
    ensures
        labelled(unused.push(u), workspace) == labelled(unused, workspace).push(
            (label_of(u, workspace), u.freed),
        ),
        labelled(Seq::<UnusedView>::empty(), workspace) == Seq::<(Seq<char>, nat)>::empty(),
{
    assert(labelled(unused.push(u), workspace) =~= labelled(unused, workspace).push(
        (label_of(u, workspace), u.freed),
    ));
    assert(labelled(Seq::<UnusedView>::empty(), workspace) =~= Seq::<(Seq<char>, nat)>::empty());
}

/// The table of unused dependencies has a heading, its lines and how they were found.
pub proof fn lemma_unused_table(unused: Seq<UnusedView>, workspace: bool)
    ensures
        unused.len() == 0 ==> unused_part(unused, workspace)
            == "No potentially unused dependencies.\n"@,
        unused.len() > 0 ==> ({
            let rows = labelled(unused, workspace);
            let width = widest(rows, 24) as int;
            unused_part(unused, workspace) == "Potentially unused"@ + right_in(
                "freed if removed"@,
                width + 1,
            ) + "\n"@ + numbered(rows, width) + "\n"@
                + "Found by searching the source for `name::`, `use name` and\n"@
                + "`extern crate name`. A crate that is only linked (often `-sys`)\n"@
                + "or only enables a feature shows up here too; list it under\n"@
                + "[package.metadata.cargo-disk] ignore = [\"name\"] in Cargo.toml.\n"@
        }),
{
    reveal_strlit("");
    reveal_strlit("\n");
    reveal_strlit("No potentially unused dependencies.");
    reveal_strlit("No potentially unused dependencies.\n");
    reveal_strlit("Found by searching the source for `name::`, `use name` and");
    reveal_strlit("Found by searching the source for `name::`, `use name` and\n");
    reveal_strlit("`extern crate name`. A crate that is only linked (often `-sys`)");
    reveal_strlit("`extern crate name`. A crate that is only linked (often `-sys`)\n");
    reveal_strlit("or only enables a feature shows up here too; list it under");
    reveal_strlit("or only enables a feature shows up here too; list it under\n");
    reveal_strlit("[package.metadata.cargo-disk] ignore = [\"name\"] in Cargo.toml.");
    reveal_strlit("[package.metadata.cargo-disk] ignore = [\"name\"] in Cargo.toml.\n");
    assert(line_of("No potentially unused dependencies."@)
        =~= "No potentially unused dependencies.\n"@);
    assert(line_of("Found by searching the source for `name::`, `use name` and"@)
        =~= "Found by searching the source for `name::`, `use name` and\n"@);
    assert(line_of("`extern crate name`. A crate that is only linked (often `-sys`)"@)
        =~= "`extern crate name`. A crate that is only linked (often `-sys`)\n"@);
    assert(line_of("or only enables a feature shows up here too; list it under"@)
        =~= "or only enables a feature shows up here too; list it under\n"@);
    assert(line_of("[package.metadata.cargo-disk] ignore = [\"name\"] in Cargo.toml."@)
        =~= "[package.metadata.cargo-disk] ignore = [\"name\"] in Cargo.toml.\n"@);
    if unused.len() > 0 {
        let rows = labelled(unused, workspace);
        let width = widest(rows, 24) as int;
        let a = "Found by searching the source for `name::`, `use name` and\n"@;
        let b = "`extern crate name`. A crate that is only linked (often `-sys`)\n"@;
        let c = "or only enables a feature shows up here too; list it under\n"@;
        let d = "[package.metadata.cargo-disk] ignore = [\"name\"] in Cargo.toml.\n"@;
        let head = "Potentially unused"@ + right_in("freed if removed"@, width + 1);
        assert(line_of(head) =~= head + "\n"@);
        assert(line_of(""@) =~= "\n"@);
        let body = head + "\n"@ + numbered(rows, width) + "\n"@;
        assert(body + (a + b + c + d) =~= body + a + b + c + d);
    }
}

/// Dependencies that were left alone are counted.
pub proof fn lemma_ignored(n: nat)
    ensures
        ignored_part(0) == Seq::<char>::empty(),
        ignored_part(1) == "\n"@ + decimal(1)
            + " dependency ignored via [package.metadata.cargo-disk]\n"@,
        n > 1 ==> ignored_part(n) == "\n"@ + decimal(n)
            + " dependencies ignored via [package.metadata.cargo-disk]\n"@,
{
    reveal_strlit("");
    reveal_strlit("\n");
    reveal_strlit("y");
    reveal_strlit("ies");
    reveal_strlit(" dependenc");
    reveal_strlit(" ignored via [package.metadata.cargo-disk]");
    reveal_strlit(" dependency ignored via [package.metadata.cargo-disk]\n");
    reveal_strlit(" dependencies ignored via [package.metadata.cargo-disk]\n");
    assert(ignored_part(1) =~= "\n"@ + decimal(1)
        + " dependency ignored via [package.metadata.cargo-disk]\n"@);
    if n > 1 {
        assert(ignored_part(n) =~= "\n"@ + decimal(n)
            + " dependencies ignored via [package.metadata.cargo-disk]\n"@);
    }
}

/// Outdated dependencies stand one below the other; their columns are as wide as the
/// longest name and version in use, in bytes.
pub proof fn lemma_outdated_steps(
    list: Seq<(Seq<char>, Seq<char>, Seq<char>)>,
    name: Seq<char>,
    current: Seq<char>,
    available: Seq<char>,
    names: int,
    versions: int,
)
    ensures
        outdated_lines(Seq::<(Seq<char>, Seq<char>, Seq<char>)>::empty(), names, versions) == Seq::<
            char,
        >::empty(),
        outdated_lines(list.push((name, current, available)), names, versions) == outdated_lines(
            list,
            names,
            versions,
        ) + "     "@ + left_in(name, names) + "  "@ + left_in(current, versions) + " → "@
            + available + "\n"@,
        name_bytes(Seq::<(Seq<char>, Seq<char>, Seq<char>)>::empty()) == 0,
        version_bytes(Seq::<(Seq<char>, Seq<char>, Seq<char>)>::empty()) == 0,
        encode_utf8(name).len() > name_bytes(list) ==> name_bytes(
            list.push((name, current, available)),
        ) == encode_utf8(name).len(),
        encode_utf8(name).len() <= name_bytes(list) ==> name_bytes(
            list.push((name, current, available)),
        ) == name_bytes(list),
        encode_utf8(current).len() > version_bytes(list) ==> version_bytes(
            list.push((name, current, available)),
        ) == encode_utf8(current).len(),
        encode_utf8(current).len() <= version_bytes(list) ==> version_bytes(
            list.push((name, current, available)),
        ) == version_bytes(list),
{
    reveal_strlit("\n");
    let all = list.push((name, current, available));
    assert(all.drop_last() =~= list);
    assert(all.last() == (name, current, available));
    assert(outdated_lines(all, names, versions) =~= outdated_lines(list, names, versions)
        + "     "@ + left_in(name, names) + "  "@ + left_in(current, versions) + " → "@
        + available + "\n"@);
}

/// What is said of outdated dependencies: that it is not known, that there are none, or
/// which.
pub proof fn lemma_outdated_table(list: Seq<(Seq<char>, Seq<char>, Seq<char>)>)
    ensures
        ({
            let head = "\nOutdated (direct dependencies)\n"@;
            &&& outdated_part(None) == head + "  couldn't check for updates (offline?)\n\n"@
            &&& list.len() == 0 ==> outdated_part(Some(list)) == head + "  all up to date\n\n"@
            &&& list.len() > 0 ==> outdated_part(Some(list)) == head + outdated_lines(
                list,
                name_bytes(list) as int,
                version_bytes(list) as int,
            ) + "\n"@
        }),
{
    reveal_strlit("");
    reveal_strlit("\n");
    reveal_strlit("Outdated (direct dependencies)");
    reveal_strlit("\nOutdated (direct dependencies)\n");
    reveal_strlit("  couldn't check for updates (offline?)");
    reveal_strlit("  couldn't check for updates (offline?)\n\n");
    reveal_strlit("  all up to date");
    reveal_strlit("  all up to date\n\n");
    let head = "\nOutdated (direct dependencies)\n"@;
    assert(line_of(""@) + line_of("Outdated (direct dependencies)"@) =~= head);
    assert(line_of(""@) =~= "\n"@);
    assert(line_of("  couldn't check for updates (offline?)"@) + line_of(""@)
        =~= "  couldn't check for updates (offline?)\n\n"@);
    assert(line_of("  all up to date"@) + line_of(""@) =~= "  all up to date\n\n"@);
    assert(outdated_part(None) =~= head + (line_of("  couldn't check for updates (offline?)"@)
        + line_of(""@)));
    if list.len() == 0 {
        assert(outdated_part(Some(list)) =~= head + (line_of("  all up to date"@) + line_of(""@)));
    }
}

/// The parts of the report on dependencies, in order.
pub proof fn lemma_deps_report(
    unused: Seq<UnusedView>,
    ignored: nat,
    outdated: Option<Seq<(Seq<char>, Seq<char>, Seq<char>)>>,
    workspace: bool,
)
    ensures
        deps_text(unused, ignored, outdated, workspace) == "Cargo Disk — Dependencies"@ + "\n"@
            + "────────────────────────────────────────"@ + "\n\n"@ + unused_part(
            unused,
            workspace,
        ) + ignored_part(ignored) + outdated_part(outdated),
{
    reveal_strlit("");
    reveal_strlit("\n");
    reveal_strlit("\n\n");
    let rule = "────────────────────────────────────────"@;
    assert(line_of("Cargo Disk — Dependencies"@) + line_of(rule) + line_of(""@)
        =~= "Cargo Disk — Dependencies"@ + "\n"@ + rule + "\n\n"@);
}

/// What is said where the metadata could not be had.
pub proof fn lemma_unresolved(error: Seq<char>)
    ensures
        unresolved(error) == "cargo-disk: "@ + error + "\n"@
            + "cargo-disk: `deps` needs a resolved Cargo.lock — run `cargo build` first"@,
{
    reveal_strlit("\n");
    assert(line_of("cargo-disk: "@ + error) =~= "cargo-disk: "@ + error + "\n"@);
}

// ---------------------------------------------------------------- selecting
proof fn lemma_word_len(word: Seq<char>, rest: Seq<char>)
    requires
        !word.contains(',') && !word.contains(' '),
        rest.len() == 0 || rest[0] == ',' || rest[0] == ' ',
    ensures
        word_len(word + rest) == word.len(),
    decreases word.len(),
{
    let all = word + rest;
    if word.len() > 0 {
        let more = word.skip(1);
        assert(all.skip(1) =~= more + rest);
        assert(all[0] == word[0]);
        assert(word.contains(word[0]));
        assert forall|c: char| more.contains(c) implies word.contains(c) by {
            let k = choose|k: int| 0 <= k < more.len() && more[k] == c;
            assert(word[k + 1] == c);
        }
        lemma_word_len(more, rest);
    } else {
        assert(all =~= rest);
    }
}

/// Commas and spaces, any number of them, part the words of a selection.
pub proof fn lemma_words(word: Seq<char>, c: char, rest: Seq<char>)
    requires
        word.len() > 0,
        !word.contains(',') && !word.contains(' '),
        c == ',' || c == ' ',
    ensures
        words(Seq::<char>::empty()) == Seq::<Seq<char>>::empty(),
        words(seq![c] + rest) == words(rest),
        words(word) == seq![word],
        words(word + seq![c] + rest) == seq![word] + words(rest),
{
    let lead = seq![c] + rest;
    assert(lead[0] == c);
    assert(lead.skip(1) =~= rest);
    let none = Seq::<char>::empty();
    lemma_word_len(word, none);
    assert(word + none =~= word);
    assert(word.take(word.len() as int) =~= word);
    assert(word.skip(word.len() as int) =~= none);
    assert(seq![word] + words(none) =~= seq![word]);
    let all = word + lead;
    assert(word + seq![c] + rest =~= all);
    lemma_word_len(word, lead);
    assert(all.take(word.len() as int) =~= word);
    assert(all.skip(word.len() as int) =~= lead);
    assert(word_len(lead) == 0);
    assert(words(lead) == words(rest));
    assert(all.len() > 0 && word_len(all) == word.len());
    assert(words(all) == seq![word] + words(lead));
}

/// A word selects a row exactly if it spells a number from 1 to the number of rows.
pub proof fn lemma_choice(n: nat, max: usize, word: Seq<char>)
    ensures
        1 <= n <= max ==> choice(decimal(n), max) == Some(n as usize),
        n == 0 || n > max ==> choice(decimal(n), max) is None,
        number_up_to(word, usize::MAX as nat) is None ==> choice(word, max) is None,
{
    crate::laws::text::lemma_number_reads_back(n, usize::MAX as nat);
}

/// The first word that selects no row is the one that is named.
pub proof fn lemma_first_bad(
    before: Seq<Seq<char>>,
    word: Seq<char>,
    after: Seq<Seq<char>>,
    max: usize,
)
    requires
        forall|i: int| 0 <= i < before.len() ==> choice(#[trigger] before[i], max) is Some,
        choice(word, max) is None,
    ensures
        first_bad(before, max) is None,
        first_bad(before + seq![word] + after, max) == Some(word),
    decreases before.len(), after.len(),
{
    let all = before + seq![word] + after;
    if after.len() > 0 {
        lemma_first_bad(before, word, after.drop_last(), max);
        assert(all.drop_last() =~= before + seq![word] + after.drop_last());
    } else {
        assert(all.drop_last() =~= before);
        assert(all.last() == word);
        if before.len() > 0 {
            let rest = before.drop_last();
            assert forall|i: int| 0 <= i < rest.len() implies choice(
                #[trigger] rest[i],
                max,
            ) is Some by {
                assert(rest[i] == before[i]);
            }
            lemma_first_bad(rest, word, Seq::empty(), max);
            assert(choice(before[before.len() - 1], max) is Some);
        }
    }
}

/// An empty answer, `none` and `n` select nothing; one wrong word makes the whole answer
/// wrong.
pub proof fn lemma_answers(input: Seq<char>, max: usize, word: Seq<char>)
    ensures
        trimmed(input).len() == 0 ==> selection(input, max) == Ok::<Seq<usize>, Seq<char>>(
            Seq::empty(),
        ),
        same_ignoring_case(trimmed(input), "none"@) || same_ignoring_case(trimmed(input), "n"@)
            ==> selection(input, max) == Ok::<Seq<usize>, Seq<char>>(Seq::empty()),
        trimmed(input).len() > 0 && !same_ignoring_case(trimmed(input), "none"@)
            && !same_ignoring_case(trimmed(input), "n"@) && first_bad(words(trimmed(input)), max)
            == Some(word) ==> selection(input, max) == Err::<Seq<usize>, Seq<char>>(
            "`"@ + word + "` is not a number from 1 to "@ + decimal(max as nat),
        ),
{
}

/// An answer of which every word selects a row selects exactly those rows.
pub proof fn lemma_right_answer(input: Seq<char>, max: usize, n: usize)
    requires
        trimmed(input).len() > 0,
        !same_ignoring_case(trimmed(input), "none"@),
        !same_ignoring_case(trimmed(input), "n"@),
        forall|i: int|
            0 <= i < words(trimmed(input)).len() ==> choice(
                #[trigger] words(trimmed(input))[i],
                max,
            ) is Some,
    ensures
        selection(input, max) matches Ok(picked) && (picked.contains(n) <==> exists|i: int|
            0 <= i < words(trimmed(input)).len() && choice(
                #[trigger] words(trimmed(input))[i],
                max,
            ) == Some(n)),
{
    let all = words(trimmed(input));
    lemma_first_bad_none(all, max);
    crate::deps::lemma_selection(input, max);
    let list = choices(all, max);
    match selection(input, max) {
        Ok(picked) => {
            assert(picked.contains(n) <==> list.contains(n));
            if list.contains(n) {
                let k = choose|k: int| 0 <= k < list.len() && list[k] == n;
                assert(choice(all[k], max) is Some);
                assert(choice(all[k], max) == Some(n));
            }
            if exists|i: int| 0 <= i < all.len() && choice(#[trigger] all[i], max) == Some(n) {
                let i = choose|i: int|
                    0 <= i < all.len() && choice(#[trigger] all[i], max) == Some(n);
                assert(list[i] == n);
            }
        },
        Err(_) => {},
    }
}

proof fn lemma_first_bad_none(all: Seq<Seq<char>>, max: usize)
    requires
        forall|i: int| 0 <= i < all.len() ==> choice(#[trigger] all[i], max) is Some,
    ensures
        first_bad(all, max) is None,
    decreases all.len(),
{
    if all.len() > 0 {
        let rest = all.drop_last();
        assert forall|i: int| 0 <= i < rest.len() implies choice(
            #[trigger] rest[i],
            max,
        ) is Some by {
            assert(rest[i] == all[i]);
        }
        lemma_first_bad_none(rest, max);
        assert(choice(all[all.len() - 1], max) is Some);
    }
}

// ---------------------------------------------------------------- removing
/// What `cargo` is called with: the manifest, the table and the target that the dependency
/// stands under, and its key last.
pub proof fn lemma_removal(u: UnusedView, target: Seq<char>)
    ensures
        u.kind is Normal && u.target is None ==> removal(u) == seq![
            "remove"@,
            "--manifest-path"@,
            u.manifest,
            u.key,
        ],
        u.kind is Dev && u.target is None ==> removal(u) == seq![
            "remove"@,
            "--manifest-path"@,
            u.manifest,
            "--dev"@,
            u.key,
        ],
        u.kind is Build && u.target is None ==> removal(u) == seq![
            "remove"@,
            "--manifest-path"@,
            u.manifest,
            "--build"@,
            u.key,
        ],
        u.kind is Normal && u.target == Some(target) ==> removal(u) == seq![
            "remove"@,
            "--manifest-path"@,
            u.manifest,
            "--target"@,
            target,
            u.key,
        ],
        u.kind is Dev && u.target == Some(target) ==> removal(u) == seq![
            "remove"@,
            "--manifest-path"@,
            u.manifest,
            "--dev"@,
            "--target"@,
            target,
            u.key,
        ],
        u.kind is Build && u.target == Some(target) ==> removal(u) == seq![
            "remove"@,
            "--manifest-path"@,
            u.manifest,
            "--build"@,
            "--target"@,
            target,
            u.key,
        ],
{
}

/// A manifest that was touched is named once, after those before it; what is said at the
/// end names them all, and the lockfile.
pub proof fn lemma_touched(touched: Seq<Seq<char>>, manifest: Seq<char>)
    ensures
        touched.contains(manifest) ==> touching(touched, manifest) == touched,
        !touched.contains(manifest) ==> touching(touched, manifest) == touched + seq![manifest],
        spaced(Seq::<Seq<char>>::empty()) == Seq::<char>::empty(),
        spaced(touched.push(manifest)) == spaced(touched) + manifest + " "@,
        removed_text(touched)
            == "\nRun `cargo build` to confirm it still compiles.\nUndo with `git checkout "@
            + spaced(touched) + "Cargo.lock`.\n"@,
{
    reveal_strlit("");
    reveal_strlit("Run `cargo build` to confirm it still compiles.");
    reveal_strlit("Undo with `git checkout ");
    reveal_strlit("\nRun `cargo build` to confirm it still compiles.\nUndo with `git checkout ");
    reveal_strlit("Cargo.lock`.");
    reveal_strlit("Cargo.lock`.\n");
    assert(touched.push(manifest).drop_last() =~= touched);
    assert(touched.push(manifest) =~= touched + seq![manifest]);
    assert(removed_text(touched)
        =~= "\nRun `cargo build` to confirm it still compiles.\nUndo with `git checkout "@
        + spaced(touched) + "Cargo.lock`.\n"@);
}

} // verus!
