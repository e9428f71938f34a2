//! Laws of reading what `cargo metadata` prints.

use crate::json::{document, JsonView};
use crate::metadata::{
    arguments, dep_of, edge_names, edge_of, kind_of, load_result, metadata_of, node_of,
    package_names, package_of, read_each, target_of, text_at, texts_in, CargoOutput, EdgeView, Kind,
    MetadataView, Mode, NodeView, PackageView, TargetView,
};
use crate::text::{lines, underscored};
use vstd::prelude::*;

verus! {

// ---------------------------------------------------------------- fields
/// A field is found by its key, and is the first that has it.
pub proof fn lemma_field(fields: Seq<(Seq<char>, JsonView)>, i: int)
    requires
        0 <= i < fields.len(),
        forall|j: int| 0 <= j < i ==> (#[trigger] fields[j]).0 != fields[i].0,
    ensures
        JsonView::Obj(fields).get(fields[i].0) == Some(fields[i].1),
    decreases fields.len(),
{
    if i > 0 {
        let rest = fields.skip(1);
        assert(fields[0].0 != fields[i].0);
        assert forall|j: int| 0 <= j < i - 1 implies (#[trigger] rest[j]).0 != rest[i - 1].0 by {
            assert(rest[j] == fields[j + 1]);
        }
        lemma_field(rest, i - 1);
    }
}

/// A key that no field has is not found, and nothing but an object has fields.
pub proof fn lemma_no_field(fields: Seq<(Seq<char>, JsonView)>, key: Seq<char>, other: JsonView)
    requires
        forall|j: int| 0 <= j < fields.len() ==> (#[trigger] fields[j]).0 != key,
        !(other is Obj),
    ensures
        JsonView::Obj(fields).get(key) is None,
        other.get(key) is None,
    decreases fields.len(),
{
    if fields.len() > 0 {
        let rest = fields.skip(1);
        assert(fields[0].0 != key);
        assert forall|j: int| 0 <= j < rest.len() implies (#[trigger] rest[j]).0 != key by {
            assert(rest[j] == fields[j + 1]);
        }
        lemma_no_field(rest, key, other);
    }
}

// ---------------------------------------------------------------- dependencies
/// The three tables of a manifest are told apart: a dependency of the kind "build" is one
/// of [build-dependencies], one of the kind "dev" of [dev-dependencies], and every other
/// of [dependencies].
pub proof fn lemma_tables(d: JsonView, name: Seq<char>)
    requires
        d.get("name"@) == Some(JsonView::Str(name)),
    ensures
        d.get("kind"@) == Some(JsonView::Str("build"@)) ==> (dep_of(d) matches Some(dep) && dep.kind
            == Kind::Build),
        d.get("kind"@) == Some(JsonView::Str("dev"@)) ==> (dep_of(d) matches Some(dep) && dep.kind
            == Kind::Dev),
        d.get("kind"@) != Some(JsonView::Str("build"@)) && d.get("kind"@) != Some(
            JsonView::Str("dev"@),
        ) ==> (dep_of(d) matches Some(dep) && dep.kind == Kind::Normal),
{
    lemma_kinds_differ();
    if let Some(v) = d.get("kind"@) {
        if let Some(text) = v.str() {
            assert(v == JsonView::Str(text));
        }
    }
}

proof fn lemma_kinds_differ()
    ensures
        "dev"@ != "build"@,
{
    reveal_strlit("dev");
    reveal_strlit("build");
    assert("dev"@.len() == 3);
    assert("build"@.len() == 5);
}

/// A dependency has the name, the rename and the target that its fields say.
pub proof fn lemma_dependency(d: JsonView)
    ensures
        dep_of(d) is Some <==> (d.get("name"@) matches Some(v) && v is Str),
        dep_of(d) matches Some(dep) ==> {
            &&& d.get("name"@) == Some(JsonView::Str(dep.name))
            &&& dep.rename == match d.get("rename"@) {
                Some(JsonView::Str(text)) => Some(text),
                _ => None,
            }
            &&& dep.target == match d.get("target"@) {
                Some(JsonView::Str(text)) => Some(text),
                _ => None,
            }
        },
{
}

/// A target is a library exactly if its kinds hold "lib", "rlib" or "proc-macro".
pub proof fn lemma_library(t: JsonView, name: Seq<char>, kinds: Seq<JsonView>)
    requires
        t.get("name"@) == Some(JsonView::Str(name)),
        t.get("kind"@) == Some(JsonView::Arr(kinds)),
    ensures
        target_of(t) matches Some(target) && target.name == name && (target.is_lib
            <==> kinds.contains(JsonView::Str("lib"@)) || kinds.contains(JsonView::Str("rlib"@))
            || kinds.contains(JsonView::Str("proc-macro"@))),
{
    let target = target_of(t)->0;
    if target.is_lib {
        let i = choose|i: int|
            0 <= i < kinds.len() && ((#[trigger] kinds[i]).str() == Some("lib"@) || kinds[i].str()
                == Some("rlib"@) || kinds[i].str() == Some("proc-macro"@));
        assert(kinds[i] == JsonView::Str(kinds[i].str()->0));
        assert(kinds.contains(kinds[i]));
    }
    if kinds.contains(JsonView::Str("lib"@)) {
        let i = choose|i: int| 0 <= i < kinds.len() && kinds[i] == JsonView::Str("lib"@);
        assert(kinds[i].str() == Some("lib"@));
    }
    if kinds.contains(JsonView::Str("rlib"@)) {
        let i = choose|i: int| 0 <= i < kinds.len() && kinds[i] == JsonView::Str("rlib"@);
        assert(kinds[i].str() == Some("rlib"@));
    }
    if kinds.contains(JsonView::Str("proc-macro"@)) {
        let i = choose|i: int| 0 <= i < kinds.len() && kinds[i] == JsonView::Str("proc-macro"@);
        assert(kinds[i].str() == Some("proc-macro"@));
    }
}

/// A resolved edge goes by its name to its package, and is of the kinds that its
/// `dep_kinds` list, one for each.
pub proof fn lemma_edge(
    d: JsonView,
    name: Seq<char>,
    pkg: Seq<char>,
    kinds: Seq<JsonView>,
    i: int,
)
    requires
        d.get("name"@) == Some(JsonView::Str(name)),
        d.get("pkg"@) == Some(JsonView::Str(pkg)),
        d.get("dep_kinds"@) == Some(JsonView::Arr(kinds)),
        0 <= i < kinds.len(),
    ensures
        edge_of(d) matches Some(edge) && edge.name == name && edge.pkg == pkg && edge.kinds.len()
            == kinds.len() && {
            &&& kinds[i].get("kind"@) == Some(JsonView::Str("build"@)) ==> edge.kinds[i]
                == Kind::Build
            &&& kinds[i].get("kind"@) == Some(JsonView::Str("dev"@)) ==> edge.kinds[i] == Kind::Dev
            &&& kinds[i].get("kind"@) != Some(JsonView::Str("build"@)) && kinds[i].get("kind"@)
                != Some(JsonView::Str("dev"@)) ==> edge.kinds[i] == Kind::Normal
        },
{
    lemma_kinds_differ();
    let edge = edge_of(d)->0;
    assert(edge.kinds[i] == kind_of(kinds[i].get("kind"@)));
    if let Some(v) = kinds[i].get("kind"@) {
        if let Some(text) = v.str() {
            assert(v == JsonView::Str(text));
        }
    }
}

// ---------------------------------------------------------------- lists
/// Whatever can be read is read, in order, and nothing else.
pub proof fn lemma_read_each<T>(
    items: Seq<JsonView>,
    item: JsonView,
    read: spec_fn(JsonView) -> Option<T>,
)
    ensures
        read_each(Seq::<JsonView>::empty(), read) == Seq::<T>::empty(),
        read(item) matches Some(x) ==> read_each(items.push(item), read) == read_each(
            items,
            read,
        ).push(x),
        read(item) is None ==> read_each(items.push(item), read) == read_each(items, read),
{
    assert(items.push(item).drop_last() == items);
}

/// The texts of a list are read, in order, and nothing else.
pub proof fn lemma_texts(items: Seq<JsonView>, text: Seq<char>, other: JsonView)
    requires
        !(other is Str),
    ensures
        texts_in(Seq::<JsonView>::empty()) == Seq::<Seq<char>>::empty(),
        texts_in(items.push(JsonView::Str(text))) == texts_in(items).push(text),
        texts_in(items.push(other)) == texts_in(items),
{
    assert(items.push(JsonView::Str(text)).drop_last() == items);
    assert(items.push(other).drop_last() == items);
}

// ---------------------------------------------------------------- packages and nodes
/// A package is what its fields say.
pub proof fn lemma_package(
    p: JsonView,
    id: Seq<char>,
    name: Seq<char>,
    manifest: Seq<char>,
    targets: Seq<JsonView>,
    deps: Seq<JsonView>,
)
    requires
        p.get("id"@) == Some(JsonView::Str(id)),
        p.get("name"@) == Some(JsonView::Str(name)),
        p.get("manifest_path"@) == Some(JsonView::Str(manifest)),
        p.get("targets"@) == Some(JsonView::Arr(targets)),
        p.get("dependencies"@) == Some(JsonView::Arr(deps)),
    ensures
        package_of(p) matches Some(package) && {
            &&& package.id == id
            &&& package.name == name
            &&& package.manifest_path == manifest
            &&& package.targets == read_each(targets, |t: JsonView| target_of(t))
            &&& package.deps == read_each(deps, |d: JsonView| dep_of(d))
        },
{
}

/// The dependencies to leave alone stand in `metadata`, `cargo-disk`, `ignore`.
pub proof fn lemma_ignore_list(p: JsonView, meta: JsonView, own: JsonView, list: Seq<JsonView>)
    requires
        package_of(p) is Some,
    ensures
        p.get("metadata"@) == Some(meta) && meta.get("cargo-disk"@) == Some(own) && own.get(
            "ignore"@,
        ) == Some(JsonView::Arr(list)) ==> package_of(p)->0.ignore == texts_in(list),
        p.get("metadata"@) is None ==> package_of(p)->0.ignore == Seq::<Seq<char>>::empty(),
{
}

/// A node is what its fields say.
pub proof fn lemma_node(n: JsonView, id: Seq<char>, deps: Seq<JsonView>)
    requires
        n.get("id"@) == Some(JsonView::Str(id)),
        n.get("deps"@) == Some(JsonView::Arr(deps)),
    ensures
        node_of(n) matches Some(node) && node.id == id && node.deps == read_each(
            deps,
            |d: JsonView| edge_of(d),
        ),
{
}

/// A document says where the output goes, which packages there are, which of them are
/// members of the workspace, and how they depend on each other.
pub proof fn lemma_document(
    doc: JsonView,
    target: Seq<char>,
    build: Seq<char>,
    packages: Seq<JsonView>,
    members: Seq<JsonView>,
    resolve: JsonView,
    nodes: Seq<JsonView>,
)
    requires
        doc.get("target_directory"@) == Some(JsonView::Str(target)),
        doc.get("packages"@) == Some(JsonView::Arr(packages)),
    ensures
        metadata_of(doc) matches Some(meta) && {
            &&& meta.target_dir == target
            &&& meta.packages == read_each(packages, |p: JsonView| package_of(p))
            &&& doc.get("workspace_members"@) == Some(JsonView::Arr(members)) ==> meta.members
                == texts_in(members)
            &&& doc.get("resolve"@) == Some(resolve) && resolve.get("nodes"@) == Some(
                JsonView::Arr(nodes),
            ) ==> meta.nodes == read_each(nodes, |n: JsonView| node_of(n))
            &&& doc.get("resolve"@) is None ==> meta.nodes == Seq::<NodeView>::empty()
            &&& doc.get("build_directory"@) == Some(JsonView::Str(build)) ==> meta.build_dir
                == build
            &&& doc.get("build_directory"@) is None ==> meta.build_dir == target
        },
{
}

/// A document without a target directory or without packages says nothing.
pub proof fn lemma_no_document(doc: JsonView)
    requires
        text_at(doc, "target_directory"@) is None || doc.get("packages"@) is None,
    ensures
        metadata_of(doc) is None,
{
}

// ---------------------------------------------------------------- names
/// Whether `name` is that of a package, of a target or of an edge.
pub open spec fn is_named(meta: MetadataView, name: Seq<char>) -> bool {
    ||| exists|i: int| 0 <= i < meta.packages.len() && (#[trigger] meta.packages[i]).name == name
    ||| exists|i: int, j: int|
        0 <= i < meta.packages.len() && 0 <= j < meta.packages[i].targets.len() && (
        #[trigger] meta.packages[i].targets[j]).name == name
    ||| exists|i: int, j: int|
        0 <= i < meta.nodes.len() && 0 <= j < meta.nodes[i].deps.len() && (
        #[trigger] meta.nodes[i].deps[j]).name == name
}

/// Every package, target and edge counts among the names that artifacts may carry, with
/// underscores for hyphens, and nothing else does.
pub proof fn lemma_names(meta: MetadataView, file_name: Seq<char>)
    ensures
        meta.artifact_names().contains(file_name) <==> exists|name: Seq<char>| #[trigger]
            is_named(meta, name) && underscored(name) == file_name,
{
    let raw = package_names(meta.packages) + edge_names(meta.nodes);
    let names = meta.artifact_names();
    if names.contains(file_name) {
        let k = choose|k: int| 0 <= k < names.len() && names[k] == file_name;
        let name = raw[k];
        assert(names[k] == underscored(name));
        if k < package_names(meta.packages).len() {
            assert(package_names(meta.packages)[k] == name);
            assert(package_names(meta.packages).contains(name));
        } else {
            let m = k - package_names(meta.packages).len();
            assert(edge_names(meta.nodes)[m] == name);
            assert(edge_names(meta.nodes).contains(name));
        }
        lemma_package_names_are(meta.packages, name);
        lemma_edge_names_are(meta.nodes, name);
        assert(is_named(meta, name));
    }
    if exists|name: Seq<char>| #[trigger] is_named(meta, name) && underscored(name) == file_name {
        let name = choose|name: Seq<char>| #[trigger]
            is_named(meta, name) && underscored(name) == file_name;
        lemma_package_names_are(meta.packages, name);
        lemma_edge_names_are(meta.nodes, name);
        if package_names(meta.packages).contains(name) {
            let k = choose|k: int|
                0 <= k < package_names(meta.packages).len() && package_names(meta.packages)[k]
                    == name;
            assert(raw[k] == name);
            assert(names[k] == file_name);
        } else {
            let k = choose|k: int|
                0 <= k < edge_names(meta.nodes).len() && edge_names(meta.nodes)[k] == name;
            assert(raw[package_names(meta.packages).len() + k] == name);
            assert(names[package_names(meta.packages).len() + k] == file_name);
        }
    }
}

proof fn lemma_package_names_are(packages: Seq<PackageView>, name: Seq<char>)
    ensures
        package_names(packages).contains(name) <==> (exists|i: int|
            0 <= i < packages.len() && (#[trigger] packages[i]).name == name) || (exists|
            i: int,
            j: int,
        |
            0 <= i < packages.len() && 0 <= j < packages[i].targets.len() && (
            #[trigger] packages[i].targets[j]).name == name),
    decreases packages.len(),
{
    if packages.len() > 0 {
        let rest = packages.drop_last();
        let last = packages.last();
        let n = packages.len() - 1;
        lemma_package_names_are(rest, name);
        let others = package_names(rest);
        let own = last.targets.map_values(|t: TargetView| t.name);
        let all = package_names(packages);
        assert(all == others.push(last.name) + own);
        assert forall|i: int| 0 <= i < rest.len() implies #[trigger] rest[i] == packages[i] by {}
        if all.contains(name) {
            let k = choose|k: int| 0 <= k < all.len() && all[k] == name;
            if k < others.len() {
                assert(others[k] == name);
                assert(others.contains(name));
                if exists|i: int| 0 <= i < rest.len() && (#[trigger] rest[i]).name == name {
                    let i = choose|i: int| 0 <= i < rest.len() && (#[trigger] rest[i]).name == name;
                    assert(packages[i].name == name);
                } else {
                    let (i, j) = choose|i: int, j: int|
                        0 <= i < rest.len() && 0 <= j < rest[i].targets.len() && (
                        #[trigger] rest[i].targets[j]).name == name;
                    assert(packages[i].targets[j].name == name);
                }
            } else if k == others.len() {
                assert(packages[n].name == name);
            } else {
                assert(own[k - others.len() - 1] == name);
                assert(packages[n].targets[k - others.len() - 1].name == name);
            }
        }
        if exists|i: int| 0 <= i < packages.len() && (#[trigger] packages[i]).name == name {
            let i = choose|i: int| 0 <= i < packages.len() && (#[trigger] packages[i]).name == name;
            if i < n {
                assert(rest[i].name == name);
                assert(others.contains(name));
                let k = choose|k: int| 0 <= k < others.len() && others[k] == name;
                assert(all[k] == name);
            } else {
                assert(all[others.len() as int] == name);
            }
        }
        if exists|i: int, j: int|
            0 <= i < packages.len() && 0 <= j < packages[i].targets.len() && (
            #[trigger] packages[i].targets[j]).name == name {
            let (i, j) = choose|i: int, j: int|
                0 <= i < packages.len() && 0 <= j < packages[i].targets.len() && (
                #[trigger] packages[i].targets[j]).name == name;
            if i < n {
                assert(rest[i].targets[j].name == name);
                assert(others.contains(name));
                let k = choose|k: int| 0 <= k < others.len() && others[k] == name;
                assert(all[k] == name);
            } else {
                assert(own[j] == name);
                assert(all[others.len() + 1 + j] == name);
            }
        }
    }
}

proof fn lemma_edge_names_are(nodes: Seq<NodeView>, name: Seq<char>)
    ensures
        edge_names(nodes).contains(name) <==> exists|i: int, j: int|
            0 <= i < nodes.len() && 0 <= j < nodes[i].deps.len() && (
            #[trigger] nodes[i].deps[j]).name == name,
    decreases nodes.len(),
{
    if nodes.len() > 0 {
        let rest = nodes.drop_last();
        let n = nodes.len() - 1;
        lemma_edge_names_are(rest, name);
        let others = edge_names(rest);
        let own = nodes.last().deps.map_values(|d: EdgeView| d.name);
        let all = edge_names(nodes);
        assert(all == others + own);
        assert forall|i: int| 0 <= i < rest.len() implies #[trigger] rest[i] == nodes[i] by {}
        if all.contains(name) {
            let k = choose|k: int| 0 <= k < all.len() && all[k] == name;
            if k < others.len() {
                assert(others[k] == name);
                assert(others.contains(name));
                let (i, j) = choose|i: int, j: int|
                    0 <= i < rest.len() && 0 <= j < rest[i].deps.len() && (
                    #[trigger] rest[i].deps[j]).name == name;
                assert(nodes[i].deps[j].name == name);
            } else {
                assert(own[k - others.len()] == name);
                assert(nodes[n].deps[k - others.len()].name == name);
            }
        }
        if exists|i: int, j: int|
            0 <= i < nodes.len() && 0 <= j < nodes[i].deps.len() && (
            #[trigger] nodes[i].deps[j]).name == name {
            let (i, j) = choose|i: int, j: int|
                0 <= i < nodes.len() && 0 <= j < nodes[i].deps.len() && (
                #[trigger] nodes[i].deps[j]).name == name;
            if i < n {
                assert(rest[i].deps[j].name == name);
                assert(others.contains(name));
                let k = choose|k: int| 0 <= k < others.len() && others[k] == name;
                assert(all[k] == name);
            } else {
                assert(own[j] == name);
                assert(all[others.len() + j] == name);
            }
        }
    }
}

/// The artifacts of a package go by its name and by those of its libraries, and by no
/// other of its targets.
pub proof fn lemma_names_of_package(package: PackageView, file_name: Seq<char>)
    ensures
        package.artifact_names().contains(file_name) <==> file_name == underscored(package.name)
            || exists|i: int|
            0 <= i < package.targets.len() && (#[trigger] package.targets[i]).is_lib && file_name
                == underscored(package.targets[i].name),
{
    crate::metadata::lemma_package_names(package);
    let libs = package.targets.filter(|t: TargetView| t.is_lib);
    let names = package.lib_names();
    if names.contains(file_name) {
        let k = choose|k: int| 0 <= k < names.len() && names[k] == file_name;
        assert(libs.contains(libs[k]));
        package.targets.lemma_filter_contains_rev(|t: TargetView| t.is_lib, libs[k]);
        package.targets.lemma_filter_pred(|t: TargetView| t.is_lib, k);
        let i = choose|i: int| 0 <= i < package.targets.len() && package.targets[i] == libs[k];
        assert(package.targets[i].is_lib);
    }
    if exists|i: int|
        0 <= i < package.targets.len() && (#[trigger] package.targets[i]).is_lib && file_name
            == underscored(package.targets[i].name) {
        let i = choose|i: int|
            0 <= i < package.targets.len() && (#[trigger] package.targets[i]).is_lib && file_name
                == underscored(package.targets[i].name);
        package.targets.lemma_filter_contains(|t: TargetView| t.is_lib, i);
        let k = choose|k: int| 0 <= k < libs.len() && libs[k] == package.targets[i];
        assert(names[k] == file_name);
    }
}

// ---------------------------------------------------------------- asking Cargo
/// A report never touches the network, and a list of dependencies never rewrites the
/// lockfile.
pub proof fn lemma_arguments(mode: Mode)
    ensures
        mode is NoDeps ==> arguments(mode).contains("--no-deps"@) && arguments(mode).contains(
            "--offline"@,
        ),
        mode is Offline ==> arguments(mode).contains("--frozen"@),
        mode is Online ==> arguments(mode).contains("--locked"@),
        arguments(mode).take(3) == seq!["metadata"@, "--format-version"@, "1"@],
        mode is NoDeps ==> arguments(mode).len() == 5,
        !(mode is NoDeps) ==> arguments(mode).len() == 4,
{
    let args = arguments(mode);
    assert(args.take(3) == seq!["metadata"@, "--format-version"@, "1"@]);
    match mode {
        Mode::NoDeps => {
            assert(args[3] == "--no-deps"@);
            assert(args[4] == "--offline"@);
        },
        Mode::Offline => {
            assert(args[3] == "--frozen"@);
        },
        Mode::Online => {
            assert(args[3] == "--locked"@);
        },
    }
}

/// Where Cargo fails, the first line that it complains with is the reason.
pub proof fn lemma_first_complaint(stderr: String, why: String)
    ensures
        lines(stderr@).len() > 0 ==> load_result(CargoOutput::Failed(stderr)) == Err::<
            MetadataView,
            Seq<char>,
        >(lines(stderr@)[0]),
        stderr@.len() == 0 ==> load_result(CargoOutput::Failed(stderr)) == Err::<
            MetadataView,
            Seq<char>,
        >("cargo metadata failed"@),
        load_result(CargoOutput::NotRun(why)) == Err::<MetadataView, Seq<char>>(
            "could not run cargo: "@ + why@,
        ),
{
}

/// What Cargo prints has to be text, a document, and one that says what is needed.
pub proof fn lemma_loaded(stdout: String, doc: JsonView)
    ensures
        load_result(CargoOutput::Done(None)) == Err::<MetadataView, Seq<char>>(
            "cargo metadata: not UTF-8"@,
        ),
        document(stdout@) is None ==> load_result(CargoOutput::Done(Some(stdout))) == Err::<
            MetadataView,
            Seq<char>,
        >("cargo metadata: unreadable output"@),
        document(stdout@) == Some(doc) && metadata_of(doc) is None ==> load_result(
            CargoOutput::Done(Some(stdout)),
        ) == Err::<MetadataView, Seq<char>>("cargo metadata: unexpected format"@),
        document(stdout@) == Some(doc) ==> (metadata_of(doc) matches Some(meta) ==> load_result(
            CargoOutput::Done(Some(stdout)),
        ) == Ok::<MetadataView, Seq<char>>(meta)),
{
}

} // verus!
