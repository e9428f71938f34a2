//! Laws of what the workspace reaches, and of what a removal frees.

use crate::graph::{depends_on, is_edge, lemma_reached_steps, reached};
use crate::metadata::{
    first_index, lemma_first_index, DepView, EdgeView, MetadataView, NodeView, PackageView,
};
use crate::search::used_from;
use crate::text::underscored;
use crate::unused::{
    all_ignored, all_unused, edge_for, entries_for, freed, freed_names, ignored_in, is_ignored,
    is_repeated, key_of, lemma_sum_list, lemma_sum_sizes_remove, name_of, resolves, sum_list,
    unused_in, unused_of, verdict, UnusedView, Verdict,
};
use vstd::prelude::*;

verus! {

// ---------------------------------------------------------------- the graph
/// The edges of a package are those of its last node, less the one that is left out.
pub proof fn lemma_edges(
    nodes: Seq<NodeView>,
    skip: Option<(Seq<char>, Seq<char>)>,
    i: int,
    to: Seq<char>,
)
    requires
        0 <= i < nodes.len(),
        forall|j: int| i < j < nodes.len() ==> (#[trigger] nodes[j]).id != nodes[i].id,
    ensures
        is_edge(nodes, skip, nodes[i].id, to) <==> skip != Some((nodes[i].id, to)) && exists|k: int|
            0 <= k < nodes[i].deps.len() && (#[trigger] nodes[i].deps[k]).pkg == to,
{
    lemma_last_node(nodes, i);
}

proof fn lemma_last_node(nodes: Seq<NodeView>, i: int)
    requires
        0 <= i < nodes.len(),
        forall|j: int| i < j < nodes.len() ==> (#[trigger] nodes[j]).id != nodes[i].id,
    ensures
        depends_on(nodes, nodes[i].id) == nodes[i].deps,
    decreases nodes.len(),
{
    if i < nodes.len() - 1 {
        let rest = nodes.drop_last();
        assert(nodes[nodes.len() - 1].id != nodes[i].id);
        assert forall|j: int| i < j < rest.len() implies (#[trigger] rest[j]).id != rest[i].id by {
            assert(rest[j] == nodes[j]);
        }
        lemma_last_node(rest, i);
    }
}

/// A package without a node has no edges.
pub proof fn lemma_no_edges(
    nodes: Seq<NodeView>,
    skip: Option<(Seq<char>, Seq<char>)>,
    from: Seq<char>,
    to: Seq<char>,
)
    requires
        forall|j: int| 0 <= j < nodes.len() ==> (#[trigger] nodes[j]).id != from,
    ensures
        !is_edge(nodes, skip, from, to),
{
    lemma_no_node(nodes, from);
}

proof fn lemma_no_node(nodes: Seq<NodeView>, from: Seq<char>)
    requires
        forall|j: int| 0 <= j < nodes.len() ==> (#[trigger] nodes[j]).id != from,
    ensures
        depends_on(nodes, from).len() == 0,
    decreases nodes.len(),
{
    if nodes.len() > 0 {
        let rest = nodes.drop_last();
        assert(nodes[nodes.len() - 1].id != from);
        assert forall|j: int| 0 <= j < rest.len() implies (#[trigger] rest[j]).id != from by {
            assert(rest[j] == nodes[j]);
        }
        lemma_no_node(rest, from);
    }
}

/// However many edges lie between, the end of a chain that starts at a member is reached.
pub proof fn lemma_chain_is_reached(
    nodes: Seq<NodeView>,
    roots: Seq<Seq<char>>,
    skip: Option<(Seq<char>, Seq<char>)>,
    chain: Seq<Seq<char>>,
)
    requires
        chain.len() > 0,
        roots.contains(chain[0]),
        forall|k: int|
            0 <= k < chain.len() - 1 ==> is_edge(nodes, skip, #[trigger] chain[k], chain[k + 1]),
    ensures
        reached(nodes, roots, skip, chain.last()),
    decreases chain.len(),
{
    lemma_reached_steps(nodes, roots, skip, chain.last());
    if chain.len() > 1 {
        let shorter = chain.drop_last();
        assert forall|k: int| 0 <= k < shorter.len() - 1 implies is_edge(
            nodes,
            skip,
            #[trigger] shorter[k],
            shorter[k + 1],
        ) by {
            assert(is_edge(nodes, skip, chain[k], chain[k + 1]));
        }
        lemma_chain_is_reached(nodes, roots, skip, shorter);
        let last = chain.len() - 2;
        assert(is_edge(nodes, skip, chain[last], chain[last + 1]));
        assert(shorter.last() == chain[last]);
    }
}

// ---------------------------------------------------------------- packages
/// A package is found by its id, and is the first that has it.
pub proof fn lemma_package_found(meta: MetadataView, id: Seq<char>)
    ensures
        meta.package(id) matches Some(package) ==> package.id == id && meta.packages.contains(
            package,
        ),
        forall|i: int|
            0 <= i < meta.packages.len() && (forall|j: int|
                0 <= j < i ==> (#[trigger] meta.packages[j]).id != (
                #[trigger] meta.packages[i]).id) && meta.packages[i].id == id ==> meta.package(id)
                == Some(meta.packages[i]),
        (forall|i: int| 0 <= i < meta.packages.len() ==> (#[trigger] meta.packages[i]).id != id)
            ==> meta.package(id) is None,
{
    let ids = meta.packages.map_values(|p: PackageView| p.id);
    lemma_first_index(ids, id);
    assert forall|i: int| 0 <= i < ids.len() implies #[trigger] ids[i] == meta.packages[i].id by {}
    assert forall|i: int|
        0 <= i < meta.packages.len() && (forall|j: int|
            0 <= j < i ==> (#[trigger] meta.packages[j]).id != (#[trigger] meta.packages[i]).id)
            && meta.packages[i].id == id implies meta.package(id) == Some(meta.packages[i]) by {
        assert(ids[i] == id);
        assert(ids.contains(ids[i]));
        let k = first_index(ids, id)->0;
        if k < i {
            assert(meta.packages[k].id == id);
        }
    }
    if let Some(k) = first_index(ids, id) {
        assert(ids[k] == id);
        assert(meta.packages[k].id == id);
    }
}

/// A node is found by its id.
pub proof fn lemma_node_found(meta: MetadataView, id: Seq<char>)
    ensures
        meta.node(id) matches Some(node) ==> node.id == id && meta.nodes.contains(node),
        (exists|i: int| 0 <= i < meta.nodes.len() && (#[trigger] meta.nodes[i]).id == id) ==> (
        meta.node(id) is Some),
{
    let ids = meta.nodes.map_values(|n: NodeView| n.id);
    lemma_first_index(ids, id);
    if exists|i: int| 0 <= i < meta.nodes.len() && (#[trigger] meta.nodes[i]).id == id {
        let i = choose|i: int| 0 <= i < meta.nodes.len() && (#[trigger] meta.nodes[i]).id == id;
        assert(ids[i] == id);
        assert(ids.contains(ids[i]));
    }
}

// ---------------------------------------------------------------- what a removal frees
/// Whether only packages that go with the edge from `member` to `pkg` leave artifacts
/// called `name`: one that is reached now and is not without the edge does, and none that
/// is reached without the edge does.
pub open spec fn goes(
    meta: MetadataView,
    member: Seq<char>,
    pkg: Seq<char>,
    name: Seq<char>,
) -> bool {
    &&& exists|id: Seq<char>, package: PackageView|
        reached(meta.nodes, meta.members, None, id) && !reached(
            meta.nodes,
            meta.members,
            Some((member, pkg)),
            id,
        ) && #[trigger] meta.package(id) == Some(package)
            && #[trigger] package.artifact_names().contains(name)
    &&& forall|id: Seq<char>, package: PackageView|
        reached(meta.nodes, meta.members, Some((member, pkg)), id) && #[trigger] meta.package(id)
            == Some(package) ==> !#[trigger] package.artifact_names().contains(name)
}

proof fn lemma_goes(meta: MetadataView, member: Seq<char>, pkg: Seq<char>, name: Seq<char>)
    ensures
        goes(meta, member, pkg, name) <==> freed_names(meta, (member, pkg)).contains(name),
{
    let gap = (member, pkg);
    if goes(meta, member, pkg, name) {
        let (id, package) = choose|id: Seq<char>, package: PackageView|
            reached(meta.nodes, meta.members, None, id) && !reached(
                meta.nodes,
                meta.members,
                Some((member, pkg)),
                id,
            ) && #[trigger] meta.package(id) == Some(package)
                && #[trigger] package.artifact_names().contains(name);
        assert(crate::unused::needed(meta, id) && !crate::unused::kept(meta, gap, id)
            && crate::unused::builds(meta, id, name));
        if crate::unused::is_kept_name(meta, gap, name) {
            let other = choose|other: Seq<char>| #[trigger]
                crate::unused::kept(meta, gap, other) && crate::unused::builds(meta, other, name);
            assert(meta.package(other)->0.artifact_names().contains(name));
        }
    }
    if freed_names(meta, gap).contains(name) {
        let id = choose|id: Seq<char>| #[trigger]
            crate::unused::needed(meta, id) && !crate::unused::kept(meta, gap, id)
                && crate::unused::builds(meta, id, name);
        let package = meta.package(id)->0;
        assert(meta.package(id) == Some(package) && package.artifact_names().contains(name));
        assert forall|other: Seq<char>, theirs: PackageView|
            reached(meta.nodes, meta.members, Some((member, pkg)), other) && #[trigger] meta.package(
                other,
            ) == Some(theirs) implies !#[trigger] theirs.artifact_names().contains(name) by {
            if theirs.artifact_names().contains(name) {
                assert(crate::unused::kept(meta, gap, other) && crate::unused::builds(
                    meta,
                    other,
                    name,
                ));
            }
        }
    }
}

/// All names of the artifacts of `packages`.
spec fn names_of_all(packages: Seq<PackageView>) -> Set<Seq<char>>
    decreases packages.len(),
{
    if packages.len() == 0 {
        Set::empty()
    } else {
        names_of_all(packages.drop_last()).union(packages.last().artifact_names().to_set())
    }
}

proof fn lemma_names_of_all(packages: Seq<PackageView>, i: int, name: Seq<char>)
    ensures
        names_of_all(packages).finite(),
        0 <= i < packages.len() && packages[i].artifact_names().contains(name) ==> names_of_all(
            packages,
        ).contains(name),
    decreases packages.len(),
{
    if packages.len() > 0 {
        lemma_names_of_all(packages.drop_last(), i, name);
        vstd::seq_lib::seq_to_set_is_finite(packages.last().artifact_names());
        if 0 <= i < packages.len() - 1 {
            assert(packages.drop_last()[i] == packages[i]);
        }
    }
}

proof fn lemma_freed_finite(meta: MetadataView, member: Seq<char>, pkg: Seq<char>)
    ensures
        freed_names(meta, (member, pkg)).finite(),
{
    let all = names_of_all(meta.packages);
    let some = freed_names(meta, (member, pkg));
    lemma_names_of_all(meta.packages, 0, Seq::empty());
    assert forall|name: Seq<char>| some.contains(name) implies all.contains(name) by {
        lemma_goes(meta, member, pkg, name);
        let (id, package) = choose|id: Seq<char>, package: PackageView|
            reached(meta.nodes, meta.members, None, id) && !reached(
                meta.nodes,
                meta.members,
                Some((member, pkg)),
                id,
            ) && #[trigger] meta.package(id) == Some(package)
                && #[trigger] package.artifact_names().contains(name);
        lemma_package_found(meta, id);
        let i = choose|i: int| 0 <= i < meta.packages.len() && meta.packages[i] == package;
        lemma_names_of_all(meta.packages, i, name);
    }
    vstd::set_lib::lemma_set_subset_finite(all, some);
}

/// Whether the manifest of a member has two entries for one package.
pub open spec fn wired_twice(deps: Seq<DepView>, name: Option<Seq<char>>) -> bool {
    exists|i: int, j: int|
        0 <= i < j < deps.len() && name == Some((#[trigger] deps[i]).name) && name == Some(
            (#[trigger] deps[j]).name,
        )
}

proof fn lemma_entries(deps: Seq<DepView>, name: Option<Seq<char>>)
    ensures
        entries_for(deps, name) > 1 <==> wired_twice(deps, name),
        entries_for(deps, name) > 0 <==> exists|i: int|
            0 <= i < deps.len() && name == Some((#[trigger] deps[i]).name),
    decreases deps.len(),
{
    if deps.len() > 0 {
        let rest = deps.drop_last();
        lemma_entries(rest, name);
        let n = deps.len() - 1;
        assert forall|i: int| 0 <= i < rest.len() implies #[trigger] rest[i] == deps[i] by {}
        if entries_for(rest, name) > 1 {
            let (i, j) = choose|i: int, j: int|
                0 <= i < j < rest.len() && name == Some((#[trigger] rest[i]).name) && name == Some(
                    (#[trigger] rest[j]).name,
                );
            assert(deps[i] == rest[i] && deps[j] == rest[j]);
        }
        if entries_for(rest, name) > 0 {
            let i = choose|i: int|
                0 <= i < rest.len() && name == Some((#[trigger] rest[i]).name);
            assert(deps[i] == rest[i]);
            if name == Some(deps.last().name) {
                assert(name == Some(deps[i].name) && name == Some(deps[n].name));
            }
        }
        if name == Some(deps.last().name) {
            assert(name == Some(deps[n].name));
        }
        if wired_twice(deps, name) {
            let (i, j) = choose|i: int, j: int|
                0 <= i < j < deps.len() && name == Some((#[trigger] deps[i]).name) && name == Some(
                    (#[trigger] deps[j]).name,
                );
            assert(rest[i] == deps[i]);
            if j < n {
                assert(rest[j] == deps[j]);
            }
        }
        if exists|i: int| 0 <= i < deps.len() && name == Some((#[trigger] deps[i]).name) {
            let i = choose|i: int|
                0 <= i < deps.len() && name == Some((#[trigger] deps[i]).name);
            if i < n {
                assert(rest[i] == deps[i]);
            }
        }
    }
}

/// A package that another entry of the manifest wires in too frees nothing.
pub proof fn lemma_wired_twice_frees_nothing(
    meta: MetadataView,
    member: PackageView,
    pkg: Seq<char>,
    sizes: Map<Seq<char>, u64>,
    i: int,
    j: int,
)
    requires
        0 <= i < j < member.deps.len(),
        meta.package(pkg) matches Some(package) && package.name == member.deps[i].name
            && package.name == member.deps[j].name,
    ensures
        freed(meta, member, pkg, sizes) == 0,
{
    lemma_entries(member.deps, name_of(meta, pkg));
    assert(name_of(meta, pkg) == Some(member.deps[i].name));
}

/// What a removal frees is what the artifacts that go with the dependency take up: each
/// name counts once, and no other counts.
pub proof fn lemma_freed_is_what_goes(
    meta: MetadataView,
    member: PackageView,
    pkg: Seq<char>,
    sizes: Map<Seq<char>, u64>,
    names: Seq<Seq<char>>,
)
    requires
        !wired_twice(member.deps, name_of(meta, pkg)),
        names.no_duplicates(),
        forall|name: Seq<char>| #[trigger]
            names.contains(name) <==> goes(meta, member.id, pkg, name),
    ensures
        freed(meta, member, pkg, sizes) == sum_list(sizes, names),
{
    lemma_entries(member.deps, name_of(meta, pkg));
    lemma_sum_list(sizes, names);
    assert(names.to_set() =~= freed_names(meta, (member.id, pkg))) by {
        assert forall|name: Seq<char>| names.to_set().contains(name) <==> freed_names(
            meta,
            (member.id, pkg),
        ).contains(name) by {
            lemma_goes(meta, member.id, pkg, name);
            assert(names.contains(name) <==> goes(meta, member.id, pkg, name));
        }
    }
}

/// What the names of a list take up: each what the sizes say, nothing where they say
/// nothing.
pub proof fn lemma_sum_list_steps(
    sizes: Map<Seq<char>, u64>,
    names: Seq<Seq<char>>,
    name: Seq<char>,
)
    ensures
        sum_list(sizes, Seq::<Seq<char>>::empty()) == 0,
        sum_list(sizes, names.push(name)) == sum_list(sizes, names) + if sizes.contains_key(name) {
            sizes[name] as nat
        } else {
            0nat
        },
{
    assert(names.push(name).drop_last() == names);
}

/// A package that only the removed dependency pulls in counts, however many edges lie
/// between them: its size is part of what is freed, unless a package that stays leaves
/// artifacts of the same name.
pub proof fn lemma_pulled_in_is_freed(
    meta: MetadataView,
    member: PackageView,
    pkg: Seq<char>,
    sizes: Map<Seq<char>, u64>,
    chain: Seq<Seq<char>>,
    package: PackageView,
    name: Seq<char>,
)
    requires
        !wired_twice(member.deps, name_of(meta, pkg)),
        chain.len() > 0,
        meta.members.contains(chain[0]),
        forall|k: int|
            0 <= k < chain.len() - 1 ==> is_edge(
                meta.nodes,
                None,
                #[trigger] chain[k],
                chain[k + 1],
            ),
        !reached(meta.nodes, meta.members, Some((member.id, pkg)), chain.last()),
        meta.package(chain.last()) == Some(package),
        package.artifact_names().contains(name),
        forall|id: Seq<char>, other: PackageView|
            reached(meta.nodes, meta.members, Some((member.id, pkg)), id)
                && #[trigger] meta.package(id) == Some(other)
                ==> !#[trigger] other.artifact_names().contains(name),
        sizes.contains_key(name),
    ensures
        freed(meta, member, pkg, sizes) >= sizes[name],
{
    let gap = (member.id, pkg);
    lemma_chain_is_reached(meta.nodes, meta.members, None, chain);
    lemma_entries(member.deps, name_of(meta, pkg));
    lemma_goes(meta, member.id, pkg, name);
    lemma_freed_finite(meta, member.id, pkg);
    lemma_sum_sizes_remove(sizes, freed_names(meta, gap), name);
}

/// Two different names that go count both.
pub proof fn lemma_freed_adds_up(
    meta: MetadataView,
    member: PackageView,
    pkg: Seq<char>,
    sizes: Map<Seq<char>, u64>,
    one: Seq<char>,
    two: Seq<char>,
)
    requires
        !wired_twice(member.deps, name_of(meta, pkg)),
        goes(meta, member.id, pkg, one),
        goes(meta, member.id, pkg, two),
        one != two,
        sizes.contains_key(one),
        sizes.contains_key(two),
    ensures
        freed(meta, member, pkg, sizes) >= sizes[one] + sizes[two],
{
    let names = freed_names(meta, (member.id, pkg));
    lemma_entries(member.deps, name_of(meta, pkg));
    lemma_goes(meta, member.id, pkg, one);
    lemma_goes(meta, member.id, pkg, two);
    lemma_freed_finite(meta, member.id, pkg);
    lemma_sum_sizes_remove(sizes, names, one);
    lemma_sum_sizes_remove(sizes, names.remove(one), two);
}

// ---------------------------------------------------------------- what is unused
/// The key of an entry is its rename, if it has one, else the name of the package.
pub proof fn lemma_key(dep: DepView)
    ensures
        dep.rename is None ==> key_of(dep) == dep.name,
        dep.rename matches Some(name) ==> key_of(dep) == name,
{
}

/// An entry is judged by the first resolved edge of its kind to a package of its name;
/// where it is renamed, the edge goes by that name.
pub proof fn lemma_edge_for(meta: MetadataView, edges: Seq<EdgeView>, dep: DepView, i: int)
    requires
        0 <= i < edges.len(),
        edges[i].kinds.contains(dep.kind),
        meta.package(edges[i].pkg) matches Some(package) && package.name == dep.name,
        dep.rename matches Some(name) ==> underscored(name) == edges[i].name,
    ensures
        edge_for(meta, edges, dep) is Some,
        (forall|j: int| 0 <= j < i ==> !resolves(meta, #[trigger] edges[j], dep)) ==> edge_for(
            meta,
            edges,
            dep,
        ) == Some(edges[i]),
    decreases edges.len(),
{
    let rest = edges.drop_last();
    assert(resolves(meta, edges[i], dep));
    if i < rest.len() {
        assert(rest[i] == edges[i]);
        assert forall|j: int|
            (forall|j: int| 0 <= j < i ==> !resolves(meta, #[trigger] edges[j], dep)) && 0 <= j
                < i implies !resolves(meta, #[trigger] rest[j], dep) by {
            assert(rest[j] == edges[j]);
        }
        lemma_edge_for(meta, rest, dep, i);
    } else {
        if forall|j: int| 0 <= j < i ==> !resolves(meta, #[trigger] edges[j], dep) {
            assert forall|j: int| 0 <= j < rest.len() implies !resolves(
                meta,
                #[trigger] rest[j],
                dep,
            ) by {
                assert(rest[j] == edges[j]);
            }
            lemma_edge_for_none(meta, rest, dep);
        }
    }
}

proof fn lemma_edge_for_none(meta: MetadataView, edges: Seq<EdgeView>, dep: DepView)
    requires
        forall|j: int| 0 <= j < edges.len() ==> !resolves(meta, #[trigger] edges[j], dep),
    ensures
        edge_for(meta, edges, dep) is None,
    decreases edges.len(),
{
    if edges.len() > 0 {
        let rest = edges.drop_last();
        assert(!resolves(meta, edges[edges.len() - 1], dep));
        assert forall|j: int| 0 <= j < rest.len() implies !resolves(
            meta,
            #[trigger] rest[j],
            dep,
        ) by {
            assert(rest[j] == edges[j]);
        }
        lemma_edge_for_none(meta, rest, dep);
    }
}

/// What an edge that is judged must have: the kind of the entry, a package of its name,
/// and its rename, where it has one.
pub proof fn lemma_edge_fits(meta: MetadataView, edges: Seq<EdgeView>, dep: DepView)
    ensures
        edge_for(meta, edges, dep) matches Some(edge) ==> {
            &&& edges.contains(edge)
            &&& edge.kinds.contains(dep.kind)
            &&& meta.package(edge.pkg) matches Some(package) && package.name == dep.name
            &&& dep.rename matches Some(name) ==> underscored(name) == edge.name
        },
    decreases edges.len(),
{
    if edges.len() > 0 {
        let rest = edges.drop_last();
        lemma_edge_fits(meta, rest, dep);
        if let Some(edge) = edge_for(meta, rest, dep) {
            let k = choose|k: int| 0 <= k < rest.len() && rest[k] == edge;
            assert(edges[k] == edge);
        }
        assert(edges[edges.len() - 1] == edges.last());
    }
}

/// An entry counts as unused exactly if it is the first for its key in its table, is not
/// on the ignore list by key or package, was resolved, and is not named by the source.
pub proof fn lemma_verdict(
    meta: MetadataView,
    member: PackageView,
    node: NodeView,
    source: Seq<char>,
    i: int,
)
    requires
        0 <= i < member.deps.len(),
    ensures
        ({
            let dep = member.deps[i];
            let first = forall|j: int|
                0 <= j < i ==> key_of(#[trigger] member.deps[j]) != key_of(dep)
                    || member.deps[j].kind != dep.kind || member.deps[j].target != dep.target;
            let ignored = member.ignore.contains(key_of(dep)) || member.ignore.contains(dep.name);
            &&& verdict(meta, member, node, source, i) is Unused <==> first && !ignored && (
            edge_for(meta, node.deps, dep) matches Some(edge) && !used_from(source, edge.name, 0))
            &&& verdict(meta, member, node, source, i) is Ignored <==> first && ignored
            &&& verdict(meta, member, node, source, i) matches Verdict::Unused(pkg) ==> (edge_for(
                meta,
                node.deps,
                dep,
            ) matches Some(edge) && edge.pkg == pkg)
        }),
{
    let dep = member.deps[i];
    if is_repeated(member.deps, i) {
        let j = choose|j: int|
            0 <= j < i && crate::unused::same_entry(#[trigger] member.deps[j], member.deps[i]);
        assert(key_of(member.deps[j]) == key_of(dep));
    } else {
        assert forall|j: int| 0 <= j < i implies key_of(#[trigger] member.deps[j]) != key_of(dep)
            || member.deps[j].kind != dep.kind || member.deps[j].target != dep.target by {
            assert(!crate::unused::same_entry(member.deps[j], member.deps[i]));
        }
    }
    assert(is_ignored(member, dep) == (member.ignore.contains(key_of(dep))
        || member.ignore.contains(dep.name)));
}

/// What is said of an unused dependency is what the manifest says of it.
pub proof fn lemma_row_of_unused(
    meta: MetadataView,
    member: PackageView,
    dep: DepView,
    pkg: Seq<char>,
    sizes: Map<Seq<char>, u64>,
)
    ensures
        ({
            let row = unused_of(meta, member, dep, pkg, sizes);
            &&& row.member == member.name
            &&& row.manifest == member.manifest_path
            &&& row.package == dep.name
            &&& row.kind == dep.kind
            &&& row.target == dep.target
            &&& row.freed == freed(meta, member, pkg, sizes)
            &&& dep.rename is None ==> row.key == dep.name
            &&& dep.rename matches Some(name) ==> row.key == name
        }),
{
}

/// Entries are judged one by one: each adds its row if it is unused, counts if it is to be
/// left alone, and else adds nothing.
pub proof fn lemma_entries_one_by_one(
    meta: MetadataView,
    member: PackageView,
    node: NodeView,
    source: Seq<char>,
    sizes: Map<Seq<char>, u64>,
    n: nat,
)
    ensures
        unused_in(meta, member, node, source, sizes, 0) == Seq::<UnusedView>::empty(),
        ignored_in(meta, member, node, source, 0) == 0,
        match verdict(meta, member, node, source, n as int) {
            Verdict::Unused(pkg) => unused_in(meta, member, node, source, sizes, n + 1) == unused_in(
                meta,
                member,
                node,
                source,
                sizes,
                n,
            ).push(unused_of(meta, member, member.deps[n as int], pkg, sizes)),
            _ => unused_in(meta, member, node, source, sizes, n + 1) == unused_in(
                meta,
                member,
                node,
                source,
                sizes,
                n,
            ),
        },
        ignored_in(meta, member, node, source, n + 1) == ignored_in(meta, member, node, source, n)
            + if verdict(meta, member, node, source, n as int) is Ignored {
            1nat
        } else {
            0nat
        },
{
}

/// Members are judged one by one, each by all its entries and by its own source; one
/// without a package or a node adds nothing.
pub proof fn lemma_members_one_by_one(
    meta: MetadataView,
    sources: Seq<Seq<char>>,
    sizes: Map<Seq<char>, u64>,
    n: nat,
)
    ensures
        all_unused(meta, sources, sizes, 0) == Seq::<UnusedView>::empty(),
        all_ignored(meta, sources, 0) == 0,
        match meta.package(meta.members[n as int]) {
            Some(member) => match meta.node(member.id) {
                Some(node) => {
                    &&& all_unused(meta, sources, sizes, n + 1) == all_unused(
                        meta,
                        sources,
                        sizes,
                        n,
                    ) + unused_in(
                        meta,
                        member,
                        node,
                        sources[n as int],
                        sizes,
                        member.deps.len(),
                    )
                    &&& all_ignored(meta, sources, n + 1) == all_ignored(meta, sources, n)
                        + ignored_in(meta, member, node, sources[n as int], member.deps.len())
                },
                None => all_unused(meta, sources, sizes, n + 1) == all_unused(
                    meta,
                    sources,
                    sizes,
                    n,
                ) && all_ignored(meta, sources, n + 1) == all_ignored(meta, sources, n),
            },
            None => all_unused(meta, sources, sizes, n + 1) == all_unused(meta, sources, sizes, n)
                && all_ignored(meta, sources, n + 1) == all_ignored(meta, sources, n),
        },
{
}

} // verus!
