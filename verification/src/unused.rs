//! Dependencies that nothing in the source names, and what they take up.

use crate::graph::{lemma_fewer_edges_reach_less, reach, reached, Skip};
use crate::metadata::{
    opt_text, Dep, DepView, EdgeView, Kind, Metadata, MetadataView, Node, NodeDep, NodeView,
    Package, PackageView,
};
use crate::search::{used_from, uses};
use crate::tally::{
    labels, lemma_sum_of_absent, lemma_sum_over_at_most, sum_of, sum_over, sums_fit, total,
};
use crate::text::{chars_of, same, underscore, underscored, views};
use crate::usage::sums_by_label;
use vstd::hash_map::StringHashMap;
use vstd::hash_set::StringHashSet;
use vstd::prelude::*;

verus! {

// ---------------------------------------------------------------- what a removal frees
/// Whether the package `id` leaves artifacts called `name`.
pub open spec fn builds(meta: MetadataView, id: Seq<char>, name: Seq<char>) -> bool {
    match meta.package(id) {
        Some(package) => package.artifact_names().contains(name),
        None => false,
    }
}

/// Whether the workspace reaches the package `id`.
pub open spec fn needed(meta: MetadataView, id: Seq<char>) -> bool {
    reached(meta.nodes, meta.members, None, id)
}

/// Whether the workspace still reaches the package `id` without the edge `gap`.
pub open spec fn kept(meta: MetadataView, gap: (Seq<char>, Seq<char>), id: Seq<char>) -> bool {
    reached(meta.nodes, meta.members, Some(gap), id)
}

/// Whether a package that stays leaves artifacts called `name`.
pub open spec fn is_kept_name(
    meta: MetadataView,
    gap: (Seq<char>, Seq<char>),
    name: Seq<char>,
) -> bool {
    exists|id: Seq<char>| #[trigger] kept(meta, gap, id) && builds(meta, id, name)
}

/// Whether only packages that the edge `gap` pulls in leave artifacts called `name`.
pub open spec fn is_freed_name(
    meta: MetadataView,
    gap: (Seq<char>, Seq<char>),
    name: Seq<char>,
) -> bool {
    &&& exists|id: Seq<char>| #[trigger]
        needed(meta, id) && !kept(meta, gap, id) && builds(meta, id, name)
    &&& !is_kept_name(meta, gap, name)
}

/// The names of the artifacts that go with the edge `gap`.
pub open spec fn freed_names(meta: MetadataView, gap: (Seq<char>, Seq<char>)) -> Set<Seq<char>> {
    Set::new(|name: Seq<char>| is_freed_name(meta, gap, name))
}

/// What the artifacts called `name` take up.
pub open spec fn size_of(sizes: Map<Seq<char>, u64>, name: Seq<char>) -> nat {
    if sizes.contains_key(name) {
        sizes[name] as nat
    } else {
        0
    }
}

/// What the artifacts called `names` take up together.
pub open spec fn sum_sizes(sizes: Map<Seq<char>, u64>, names: Set<Seq<char>>) -> nat
    decreases names.len(),
{
    if names.finite() && names.len() > 0 {
        let name = names.choose();
        size_of(sizes, name) + sum_sizes(sizes, names.remove(name))
    } else {
        0
    }
}

/// How many entries of `deps` are for the package called `name`.
pub open spec fn entries_for(deps: Seq<DepView>, name: Option<Seq<char>>) -> nat
    decreases deps.len(),
{
    if deps.len() == 0 {
        0
    } else {
        entries_for(deps.drop_last(), name) + if name == Some(deps.last().name) {
            1nat
        } else {
            0
        }
    }
}

/// The name of the package `id`.
pub open spec fn name_of(meta: MetadataView, id: Seq<char>) -> Option<Seq<char>> {
    match meta.package(id) {
        Some(package) => Some(package.name),
        None => None,
    }
}

/// The bytes of the crates that only this dependency pulls in: everything reached from
/// the workspace now, without what stays reached once the edge is gone. A package that
/// is wired in by another entry too frees nothing.
pub open spec fn freed(
    meta: MetadataView,
    member: PackageView,
    pkg: Seq<char>,
    sizes: Map<Seq<char>, u64>,
) -> nat {
    if entries_for(member.deps, name_of(meta, pkg)) > 1 {
        0
    } else {
        sum_sizes(sizes, freed_names(meta, (member.id, pkg)))
    }
}

/// No name counts as freed that a package which stays may have left: the estimate can
/// only be low, never high.
pub proof fn lemma_freed_is_not_shared(
    meta: MetadataView,
    gap: (Seq<char>, Seq<char>),
    name: Seq<char>,
    id: Seq<char>,
)
    requires
        freed_names(meta, gap).contains(name),
        needed(meta, id),
        builds(meta, id, name),
    ensures
        !kept(meta, gap, id),
{
}

/// What stays reached was reached before, so a package is either kept or freed.
pub proof fn lemma_kept_was_needed(
    meta: MetadataView,
    gap: (Seq<char>, Seq<char>),
    id: Seq<char>,
)
    requires
        kept(meta, gap, id),
    ensures
        needed(meta, id),
{
    lemma_fewer_edges_reach_less(meta.nodes, meta.members, gap, id);
}

/// Each name counts on its own.
pub proof fn lemma_sum_sizes_remove(
    sizes: Map<Seq<char>, u64>,
    names: Set<Seq<char>>,
    name: Seq<char>,
)
    requires
        names.finite(),
        names.contains(name),
    ensures
        sum_sizes(sizes, names) == size_of(sizes, name) + sum_sizes(sizes, names.remove(name)),
    decreases names.len(),
{
    let first = names.choose();
    assert(names.contains(first));
    assert(names.len() > 0) by {
        if names.len() == 0 {
            assert(names =~= Set::<Seq<char>>::empty());
        }
    }
    if first != name {
        lemma_sum_sizes_remove(sizes, names.remove(first), name);
        lemma_sum_sizes_remove(sizes, names.remove(name), first);
        assert(names.remove(first).remove(name) =~= names.remove(name).remove(first));
    }
}

/// What the artifacts called `names` take up, one after the other.
pub open spec fn sum_list(sizes: Map<Seq<char>, u64>, names: Seq<Seq<char>>) -> nat
    decreases names.len(),
{
    if names.len() == 0 {
        0
    } else {
        sum_list(sizes, names.drop_last()) + size_of(sizes, names.last())
    }
}

/// The order in which names are counted does not matter.
pub proof fn lemma_sum_list(sizes: Map<Seq<char>, u64>, names: Seq<Seq<char>>)
    requires
        names.no_duplicates(),
    ensures
        sum_list(sizes, names) == sum_sizes(sizes, names.to_set()),
    decreases names.len(),
{
    vstd::seq_lib::seq_to_set_is_finite(names);
    if names.len() > 0 {
        let rest = names.drop_last();
        lemma_sum_list(sizes, rest);
        assert(names.to_set().contains(names.last())) by {
            assert(names[names.len() - 1] == names.last());
        }
        lemma_sum_sizes_remove(sizes, names.to_set(), names.last());
        assert(names.to_set().remove(names.last()) =~= rest.to_set()) by {
            assert forall|x: Seq<char>| names.to_set().remove(names.last()).contains(x)
                <==> rest.to_set().contains(x) by {
                if names.to_set().remove(names.last()).contains(x) {
                    let k = choose|k: int| 0 <= k < names.len() && names[k] == x;
                    assert(rest[k] == x);
                }
                if rest.to_set().contains(x) {
                    let k = choose|k: int| 0 <= k < rest.len() && rest[k] == x;
                    assert(names[k] == x);
                }
            }
        }
    } else {
        assert(names.to_set() =~= Set::<Seq<char>>::empty());
    }
}

proof fn lemma_sum_list_grows(sizes: Map<Seq<char>, u64>, names: Seq<Seq<char>>, n: int)
    requires
        0 <= n <= names.len(),
    ensures
        sum_list(sizes, names.take(n)) <= sum_list(sizes, names),
    decreases names.len() - n,
{
    if n < names.len() {
        lemma_sum_list_grows(sizes, names, n + 1);
        assert(names.take(n + 1).drop_last() == names.take(n));
    } else {
        assert(names.take(n) == names);
    }
}

/// The names that the packages `ids` leave artifacts under.
fn names_built(meta: &Metadata, ids: &[String]) -> (names: StringHashSet)
    ensures
        forall|name: Seq<char>| #[trigger]
            names@.contains(name) <==> exists|k: int|
                0 <= k < ids@.len() && builds(meta@, (#[trigger] ids@[k])@, name),
{
    let mut names = StringHashSet::new();
    let mut i: usize = 0;
    while i < ids.len()
        invariant
            i <= ids@.len(),
            forall|name: Seq<char>| #[trigger]
                names@.contains(name) <==> exists|k: int|
                    0 <= k < i && builds(meta@, (#[trigger] ids@[k])@, name),
        decreases ids@.len() - i,
    {
        let ghost was = names@;
        if let Some(package) = meta.package(ids[i].as_str()) {
            let own = package.artifact_names();
            let ghost all = package@.artifact_names();
            let mut j: usize = 0;
            while j < own.len()
                invariant
                    j <= own@.len(),
                    views(own@) == all,
                    forall|name: Seq<char>| #[trigger]
                        names@.contains(name) <==> was.contains(name) || exists|m: int|
                            0 <= m < j && #[trigger] all[m] == name,
                decreases own@.len() - j,
            {
                let ghost now = names@;
                assert(all[j as int] == own@[j as int]@);
                names.insert(own[j].clone());
                assert forall|name: Seq<char>| #[trigger] names@.contains(name) <==> was.contains(
                    name,
                ) || exists|m: int| 0 <= m < j + 1 && #[trigger] all[m] == name by {
                    if names@.contains(name) && !was.contains(name) {
                        if now.contains(name) {
                            let m = choose|m: int| 0 <= m < j && #[trigger] all[m] == name;
                            assert(all[m] == name);
                        } else {
                            assert(all[j as int] == name);
                        }
                    }
                    if exists|m: int| 0 <= m < j + 1 && #[trigger] all[m] == name {
                        let m = choose|m: int| 0 <= m < j + 1 && #[trigger] all[m] == name;
                        if m < j {
                            assert(now.contains(name));
                        }
                    }
                    if was.contains(name) {
                        assert(now.contains(name));
                    }
                }
                j += 1;
            }
            assert forall|name: Seq<char>| #[trigger] names@.contains(name) <==> was.contains(name)
                || builds(meta@, ids@[i as int]@, name) by {}
        }
        assert forall|name: Seq<char>| #[trigger] names@.contains(name) <==> exists|k: int|
            0 <= k < i + 1 && builds(meta@, (#[trigger] ids@[k])@, name) by {
            if names@.contains(name) {
                if was.contains(name) {
                    let k = choose|k: int|
                        0 <= k < i && builds(meta@, (#[trigger] ids@[k])@, name);
                    assert(builds(meta@, ids@[k]@, name));
                } else {
                    assert(builds(meta@, ids@[i as int]@, name));
                }
            }
            if exists|k: int| 0 <= k < i + 1 && builds(meta@, (#[trigger] ids@[k])@, name) {
                let k = choose|k: int|
                    0 <= k < i + 1 && builds(meta@, (#[trigger] ids@[k])@, name);
                if k < i {
                    assert(was.contains(name));
                }
            }
        }
        i += 1;
    }
    names
}

/// The members of `ids` that are not among `others`.
fn without(ids: &[String], others: &[String]) -> (rest: Vec<String>)
    ensures
        forall|id: Seq<char>| #[trigger]
            views(rest@).contains(id) <==> views(ids@).contains(id) && !views(others@).contains(
                id,
            ),
{
    let mut known = StringHashSet::new();
    let ghost out = views(others@);
    let mut i: usize = 0;
    while i < others.len()
        invariant
            i <= others@.len(),
            out == views(others@),
            forall|id: Seq<char>| #[trigger]
                known@.contains(id) <==> out.take(i as int).contains(id),
        decreases others@.len() - i,
    {
        known.insert(others[i].clone());
        assert forall|id: Seq<char>| #[trigger] known@.contains(id) <==> out.take(
            i + 1,
        ).contains(id) by {
            lemma_take_contains(out, i as int, id);
        }
        i += 1;
    }
    assert(out.take(i as int) == out);
    let ghost all = views(ids@);
    let mut rest: Vec<String> = Vec::new();
    let mut k: usize = 0;
    while k < ids.len()
        invariant
            k <= ids@.len(),
            all == views(ids@),
            forall|id: Seq<char>| #[trigger] known@.contains(id) <==> out.contains(id),
            forall|id: Seq<char>| #[trigger]
                views(rest@).contains(id) <==> all.take(k as int).contains(id) && !out.contains(id),
        decreases ids@.len() - k,
    {
        let ghost before = rest@;
        if !known.contains(ids[k].as_str()) {
            rest.push(ids[k].clone());
            assert(views(rest@) == views(before).push(all[k as int]));
        }
        assert forall|id: Seq<char>| #[trigger] views(rest@).contains(id) <==> all.take(
            k + 1,
        ).contains(id) && !out.contains(id) by {
            lemma_take_contains(all, k as int, id);
            if views(rest@).contains(id) && !views(before).contains(id) {
                let m = choose|m: int| 0 <= m < views(rest@).len() && views(rest@)[m] == id;
                if m < before.len() {
                    assert(views(before)[m] == id);
                }
            }
            if views(before).contains(id) {
                let m = choose|m: int| 0 <= m < views(before).len() && views(before)[m] == id;
                assert(views(rest@)[m] == id);
            }
            if id == all[k as int] && !out.contains(id) {
                assert(views(rest@)[before.len() as int] == id);
            }
        }
        k += 1;
    }
    assert(all.take(k as int) == all);
    rest
}

proof fn lemma_take_contains(all: Seq<Seq<char>>, n: int, x: Seq<char>)
    requires
        0 <= n < all.len(),
    ensures
        all.take(n + 1).contains(x) <==> all.take(n).contains(x) || x == all[n],
{
    let shorter = all.take(n);
    let longer = all.take(n + 1);
    if longer.contains(x) {
        let k = choose|k: int| 0 <= k < longer.len() && longer[k] == x;
        if k < n {
            assert(shorter[k] == x);
        }
    }
    if shorter.contains(x) {
        let k = choose|k: int| 0 <= k < shorter.len() && shorter[k] == x;
        assert(longer[k] == x);
    }
    assert(longer[n] == all[n]);
}

/// The names that the packages `ids` leave artifacts under, without those of `shared`,
/// each once.
fn names_freed(meta: &Metadata, ids: &[String], shared: &StringHashSet) -> (names: Vec<String>)
    ensures
        views(names@).no_duplicates(),
        forall|name: Seq<char>| #[trigger]
            views(names@).contains(name) <==> !shared@.contains(name) && exists|k: int|
                0 <= k < ids@.len() && builds(meta@, (#[trigger] ids@[k])@, name),
{
    let mut seen = StringHashSet::new();
    let mut names: Vec<String> = Vec::new();
    let mut i: usize = 0;
    while i < ids.len()
        invariant
            i <= ids@.len(),
            views(names@).no_duplicates(),
            forall|name: Seq<char>| #[trigger]
                seen@.contains(name) <==> views(names@).contains(name),
            forall|name: Seq<char>| #[trigger]
                seen@.contains(name) <==> !shared@.contains(name) && exists|k: int|
                    0 <= k < i && builds(meta@, (#[trigger] ids@[k])@, name),
        decreases ids@.len() - i,
    {
        let ghost was = seen@;
        if let Some(package) = meta.package(ids[i].as_str()) {
            let own = package.artifact_names();
            let ghost all = package@.artifact_names();
            let mut j: usize = 0;
            while j < own.len()
                invariant
                    j <= own@.len(),
                    views(own@) == all,
                    views(names@).no_duplicates(),
                    forall|name: Seq<char>| #[trigger]
                        seen@.contains(name) <==> views(names@).contains(name),
                    forall|name: Seq<char>| #[trigger]
                        seen@.contains(name) <==> was.contains(name) || (!shared@.contains(name)
                            && all.take(j as int).contains(name)),
                decreases own@.len() - j,
            {
                let ghost before = names@;
                assert(all[j as int] == own@[j as int]@);
                if !shared.contains(own[j].as_str()) && !seen.contains(own[j].as_str()) {
                    seen.insert(own[j].clone());
                    names.push(own[j].clone());
                    proof {
                        lemma_push_once(views(before), all[j as int]);
                        assert(views(names@) == views(before).push(all[j as int]));
                    }
                }
                assert forall|name: Seq<char>| #[trigger] seen@.contains(name) <==> was.contains(
                    name,
                ) || (!shared@.contains(name) && all.take(j + 1).contains(name)) by {
                    lemma_take_contains(all, j as int, name);
                }
                j += 1;
            }
            assert(all.take(j as int) == all);
            assert forall|name: Seq<char>| #[trigger] seen@.contains(name) <==> was.contains(name)
                || (!shared@.contains(name) && builds(meta@, ids@[i as int]@, name)) by {}
        }
        assert forall|name: Seq<char>| #[trigger] seen@.contains(name) <==> !shared@.contains(name)
            && exists|k: int| 0 <= k < i + 1 && builds(meta@, (#[trigger] ids@[k])@, name) by {
            if seen@.contains(name) {
                if was.contains(name) {
                    let k = choose|k: int|
                        0 <= k < i && builds(meta@, (#[trigger] ids@[k])@, name);
                    assert(builds(meta@, ids@[k]@, name));
                } else {
                    assert(builds(meta@, ids@[i as int]@, name));
                }
            }
            if !shared@.contains(name) && exists|k: int|
                0 <= k < i + 1 && builds(meta@, (#[trigger] ids@[k])@, name) {
                let k = choose|k: int|
                    0 <= k < i + 1 && builds(meta@, (#[trigger] ids@[k])@, name);
                if k < i {
                    assert(was.contains(name));
                }
            }
        }
        i += 1;
    }
    assert forall|name: Seq<char>| #[trigger] views(names@).contains(name) <==> !shared@.contains(
        name,
    ) && exists|k: int| 0 <= k < ids@.len() && builds(meta@, (#[trigger] ids@[k])@, name) by {
        assert(seen@.contains(name) <==> views(names@).contains(name));
    }
    names
}

proof fn lemma_push_once(names: Seq<Seq<char>>, name: Seq<char>)
    requires
        names.no_duplicates(),
        !names.contains(name),
    ensures
        names.push(name).no_duplicates(),
        forall|x: Seq<char>| #[trigger]
            names.push(name).contains(x) <==> names.contains(x) || x == name,
{
    let longer = names.push(name);
    assert forall|i: int, j: int|
        0 <= i < longer.len() && 0 <= j < longer.len() && i != j implies longer[i]
        != longer[j] by {
        if i < names.len() {
            assert(names.contains(names[i]));
        }
        if j < names.len() {
            assert(names.contains(names[j]));
        }
    }
    assert forall|x: Seq<char>| #[trigger] longer.contains(x) <==> names.contains(x) || x
        == name by {
        if names.contains(x) {
            let k = choose|k: int| 0 <= k < names.len() && names[k] == x;
            assert(longer[k] == x);
        }
        assert(longer[names.len() as int] == name);
        if longer.contains(x) {
            let k = choose|k: int| 0 <= k < longer.len() && longer[k] == x;
            if k < names.len() {
                assert(names[k] == x);
            }
        }
    }
}

fn sum_of_sizes(sizes: &StringHashMap<u64>, names: &[String]) -> (sum: u64)
    requires
        sum_list(sizes@, views(names@)) <= u64::MAX,
    ensures
        sum == sum_list(sizes@, views(names@)),
{
    let ghost all = views(names@);
    let mut sum: u64 = 0;
    let mut i: usize = 0;
    while i < names.len()
        invariant
            i <= names@.len(),
            all == views(names@),
            sum_list(sizes@, all) <= u64::MAX,
            sum == sum_list(sizes@, all.take(i as int)),
        decreases names@.len() - i,
    {
        proof {
            lemma_sum_list_grows(sizes@, all, i + 1);
            assert(all.take(i + 1).drop_last() == all.take(i as int));
            assert(all.take(i + 1).last() == names@[i as int]@);
        }
        if let Some(size) = sizes.get(names[i].as_str()) {
            sum += *size;
        }
        i += 1;
    }
    assert(all.take(i as int) == all);
    sum
}

fn count_entries(deps: &[Dep], package: Option<&Package>) -> (n: usize)
    ensures
        n == entries_for(
            views(deps@),
            match package {
                Some(p) => Some(p@.name),
                None => None,
            },
        ),
{
    let ghost all = views(deps@);
    let ghost name: Option<Seq<char>> = match package {
        Some(p) => Some(p@.name),
        None => None,
    };
    let mut n: usize = 0;
    let mut i: usize = 0;
    while i < deps.len()
        invariant
            i <= deps@.len(),
            n <= i,
            all == views(deps@),
            name == match package {
                Some(p) => Some(p@.name),
                None => None,
            },
            n == entries_for(all.take(i as int), name),
        decreases deps@.len() - i,
    {
        assert(all.take(i + 1).drop_last() == all.take(i as int));
        assert(all.take(i + 1).last() == deps@[i as int]@);
        if let Some(p) = package {
            if same(p.name.as_str(), deps[i].name.as_str()) {
                n += 1;
            }
        }
        i += 1;
    }
    assert(all.take(i as int) == all);
    n
}

/// Bytes in target/ belonging to crates that only this dependency pulls in. Approximate:
/// dropping a crate can change the features of shared ones.
pub fn freed_if_removed(
    meta: &Metadata,
    member: &Package,
    dep_pkg: &str,
    sizes: &StringHashMap<u64>,
) -> (bytes: u64)
    requires
        freed(meta@, member@, dep_pkg@, sizes@) <= u64::MAX,
    ensures
        bytes == freed(meta@, member@, dep_pkg@, sizes@),
{
    // Still wired in under another kind (e.g. both [dependencies] and
    // [dev-dependencies]): removing this entry frees nothing.
    let edges: usize = count_entries(member.deps.as_slice(), meta.package(dep_pkg));
    if edges > 1 {
        return 0;
    }
    let ghost gap = (member@.id, dep_pkg@);
    let nodes = meta.nodes.as_slice();
    let members = meta.members.as_slice();
    let all = reach(nodes, members, None);
    let stay = reach(nodes, members, Some(Skip { from: member.id.as_str(), to: dep_pkg }));
    // Artifact names still owned by a kept package are shared, e.g. two
    // versions of rand both building `rand`: count none of those bytes rather
    // than guess, so the estimate can only be low, never high.
    let shared = names_built(meta, stay.as_slice());
    let gone = without(all.as_slice(), stay.as_slice());
    let names = names_freed(meta, gone.as_slice(), &shared);
    proof {
        let listed = views(names@);
        assert forall|id: Seq<char>| views(stay@).contains(id) <==> #[trigger] kept(
            meta@,
            gap,
            id,
        ) by {}
        assert forall|id: Seq<char>| views(all@).contains(id) <==> #[trigger] needed(meta@, id) by {}
        assert forall|name: Seq<char>| #[trigger] shared@.contains(name) <==> is_kept_name(
            meta@,
            gap,
            name,
        ) by {
            if shared@.contains(name) {
                let k = choose|k: int|
                    0 <= k < stay@.len() && builds(meta@, (#[trigger] stay@[k])@, name);
                assert(views(stay@)[k] == stay@[k]@);
                assert(views(stay@).contains(stay@[k]@));
                assert(kept(meta@, gap, stay@[k]@));
            }
            if is_kept_name(meta@, gap, name) {
                let id = choose|id: Seq<char>| #[trigger]
                    kept(meta@, gap, id) && builds(meta@, id, name);
                assert(views(stay@).contains(id));
                let k = choose|k: int| 0 <= k < views(stay@).len() && views(stay@)[k] == id;
                assert(builds(meta@, stay@[k]@, name));
            }
        }
        assert forall|name: Seq<char>| #[trigger] listed.contains(name) <==> is_freed_name(
            meta@,
            gap,
            name,
        ) by {
            if listed.contains(name) {
                let k = choose|k: int|
                    0 <= k < gone@.len() && builds(meta@, (#[trigger] gone@[k])@, name);
                assert(views(gone@)[k] == gone@[k]@);
                assert(views(gone@).contains(gone@[k]@));
                assert(needed(meta@, gone@[k]@));
                assert(!kept(meta@, gap, gone@[k]@));
                assert(!shared@.contains(name));
            }
            if is_freed_name(meta@, gap, name) {
                let id = choose|id: Seq<char>| #[trigger]
                    needed(meta@, id) && !kept(meta@, gap, id) && builds(meta@, id, name);
                assert(views(gone@).contains(id));
                let k = choose|k: int| 0 <= k < views(gone@).len() && views(gone@)[k] == id;
                assert(builds(meta@, gone@[k]@, name));
                assert(!shared@.contains(name));
            }
        }
        assert(listed.to_set() =~= freed_names(meta@, gap));
        lemma_sum_list(sizes@, listed);
    }
    sum_of_sizes(sizes, names.as_slice())
}

// ---------------------------------------------------------------- what nothing names
/// A dependency that the source of its package does not name.
pub struct Unused {
    pub member: String,
    pub manifest: String,
    /// The key in Cargo.toml: the rename if there is one, else the package name.
    pub key: String,
    pub package: String,
    pub kind: Kind,
    pub target: Option<String>,
    pub freed: u64,
}

/// What an [`Unused`] holds.
#[verifier::ext_equal]
pub struct UnusedView {
    pub member: Seq<char>,
    pub manifest: Seq<char>,
    pub key: Seq<char>,
    pub package: Seq<char>,
    pub kind: Kind,
    pub target: Option<Seq<char>>,
    pub freed: nat,
}

impl View for Unused {
    type V = UnusedView;

    open spec fn view(&self) -> UnusedView {
        UnusedView {
            member: self.member@,
            manifest: self.manifest@,
            key: self.key@,
            package: self.package@,
            kind: self.kind,
            target: opt_text(self.target),
            freed: self.freed as nat,
        }
    }
}

/// The key of a dependency in Cargo.toml.
pub open spec fn key_of(dep: DepView) -> Seq<char> {
    match dep.rename {
        Some(name) => name,
        None => dep.name,
    }
}

/// Whether two entries are for the same key in the same table.
pub open spec fn same_entry(a: DepView, b: DepView) -> bool {
    key_of(a) == key_of(b) && a.kind == b.kind && a.target == b.target
}

/// Whether an entry before the `i`-th is for the same key in the same table.
pub open spec fn is_repeated(deps: Seq<DepView>, i: int) -> bool {
    exists|j: int| 0 <= j < i && same_entry(#[trigger] deps[j], deps[i])
}

/// Whether the manifest says that the dependency is to be left alone.
pub open spec fn is_ignored(member: PackageView, dep: DepView) -> bool {
    member.ignore.contains(key_of(dep)) || member.ignore.contains(dep.name)
}

/// Whether the resolved edge `edge` is the one for the manifest entry `dep`.
pub open spec fn resolves(meta: MetadataView, edge: EdgeView, dep: DepView) -> bool {
    &&& edge.kinds.contains(dep.kind)
    &&& name_of(meta, edge.pkg) == Some(dep.name)
    &&& dep.rename matches Some(name) ==> underscored(name) == edge.name
}

/// The first of `edges` that is the one for the manifest entry `dep`.
pub open spec fn edge_for(
    meta: MetadataView,
    edges: Seq<EdgeView>,
    dep: DepView,
) -> Option<EdgeView>
    decreases edges.len(),
{
    if edges.len() == 0 {
        None
    } else {
        match edge_for(meta, edges.drop_last(), dep) {
            Some(edge) => Some(edge),
            None => if resolves(meta, edges.last(), dep) {
                Some(edges.last())
            } else {
                None
            },
        }
    }
}

/// What becomes of a manifest entry.
pub enum Verdict {
    /// An earlier entry stands for it.
    Repeated,
    /// The manifest says to leave it alone.
    Ignored,
    /// It was never activated, so there is nothing built to judge.
    Inactive,
    /// The source names it.
    Used,
    /// Nothing names it.
    Unused(Seq<char>),
}

/// What becomes of the `i`-th manifest entry of `member`.
pub open spec fn verdict(
    meta: MetadataView,
    member: PackageView,
    node: NodeView,
    source: Seq<char>,
    i: int,
) -> Verdict {
    let dep = member.deps[i];
    if is_repeated(member.deps, i) {
        Verdict::Repeated
    } else if is_ignored(member, dep) {
        Verdict::Ignored
    } else {
        match edge_for(meta, node.deps, dep) {
            None => Verdict::Inactive,
            Some(edge) => if used_from(source, edge.name, 0) {
                Verdict::Used
            } else {
                Verdict::Unused(edge.pkg)
            },
        }
    }
}

/// What is said of an unused dependency of `member`.
pub open spec fn unused_of(
    meta: MetadataView,
    member: PackageView,
    dep: DepView,
    pkg: Seq<char>,
    sizes: Map<Seq<char>, u64>,
) -> UnusedView {
    UnusedView {
        member: member.name,
        manifest: member.manifest_path,
        key: key_of(dep),
        package: dep.name,
        kind: dep.kind,
        target: dep.target,
        freed: freed(meta, member, pkg, sizes),
    }
}

/// The unused among the first `n` entries of `member`.
pub open spec fn unused_in(
    meta: MetadataView,
    member: PackageView,
    node: NodeView,
    source: Seq<char>,
    sizes: Map<Seq<char>, u64>,
    n: nat,
) -> Seq<UnusedView>
    decreases n,
{
    if n == 0 {
        Seq::empty()
    } else {
        let others = unused_in(meta, member, node, source, sizes, (n - 1) as nat);
        match verdict(meta, member, node, source, n - 1) {
            Verdict::Unused(pkg) => others.push(
                unused_of(meta, member, member.deps[n - 1], pkg, sizes),
            ),
            _ => others,
        }
    }
}

/// How many of the first `n` entries of `member` are to be left alone.
pub open spec fn ignored_in(
    meta: MetadataView,
    member: PackageView,
    node: NodeView,
    source: Seq<char>,
    n: nat,
) -> nat
    decreases n,
{
    if n == 0 {
        0
    } else {
        ignored_in(meta, member, node, source, (n - 1) as nat) + if verdict(
            meta,
            member,
            node,
            source,
            n - 1,
        ) is Ignored {
            1nat
        } else {
            0
        }
    }
}

/// The package and the node of the workspace member `id`.
pub open spec fn judged(meta: MetadataView, id: Seq<char>) -> Option<(PackageView, NodeView)> {
    match meta.package(id) {
        Some(member) => match meta.node(member.id) {
            Some(node) => Some((member, node)),
            None => None,
        },
        None => None,
    }
}

/// The unused dependencies of the first `n` members of the workspace.
pub open spec fn all_unused(
    meta: MetadataView,
    sources: Seq<Seq<char>>,
    sizes: Map<Seq<char>, u64>,
    n: nat,
) -> Seq<UnusedView>
    decreases n,
{
    if n == 0 {
        Seq::empty()
    } else {
        let others = all_unused(meta, sources, sizes, (n - 1) as nat);
        match judged(meta, meta.members[n - 1]) {
            Some((member, node)) => others + unused_in(
                meta,
                member,
                node,
                sources[n - 1],
                sizes,
                member.deps.len(),
            ),
            None => others,
        }
    }
}

/// How many dependencies of the first `n` members are to be left alone.
pub open spec fn all_ignored(meta: MetadataView, sources: Seq<Seq<char>>, n: nat) -> nat
    decreases n,
{
    if n == 0 {
        0
    } else {
        all_ignored(meta, sources, (n - 1) as nat) + match judged(meta, meta.members[n - 1]) {
            Some((member, node)) => ignored_in(
                meta,
                member,
                node,
                sources[n - 1],
                member.deps.len(),
            ),
            None => 0,
        }
    }
}

/// Whether every figure in `found` can be held.
pub open spec fn figures_fit(found: Seq<UnusedView>) -> bool {
    forall|k: int| 0 <= k < found.len() ==> (#[trigger] found[k]).freed <= u64::MAX
}

/// What is listed as unused stands in the manifest of a member, was resolved, is not to
/// be left alone, and is not named by the member's source.
pub proof fn lemma_unused(
    meta: MetadataView,
    member: PackageView,
    node: NodeView,
    source: Seq<char>,
    sizes: Map<Seq<char>, u64>,
    n: nat,
    k: int,
)
    requires
        n <= member.deps.len(),
        0 <= k < unused_in(meta, member, node, source, sizes, n).len(),
    ensures
        exists|i: int, pkg: Seq<char>|
            0 <= i < n && #[trigger] unused_of(meta, member, member.deps[i], pkg, sizes)
                == unused_in(meta, member, node, source, sizes, n)[k] && !is_ignored(
                member,
                member.deps[i],
            ) && (edge_for(meta, node.deps, member.deps[i]) matches Some(edge) && edge.pkg == pkg
                && !used_from(source, edge.name, 0)),
    decreases n,
{
    let others = unused_in(meta, member, node, source, sizes, (n - 1) as nat);
    if k < others.len() {
        lemma_unused(meta, member, node, source, sizes, (n - 1) as nat, k);
        let (i, pkg) = choose|i: int, pkg: Seq<char>|
            0 <= i < n - 1 && #[trigger] unused_of(meta, member, member.deps[i], pkg, sizes)
                == others[k] && !is_ignored(member, member.deps[i]) && (edge_for(
                meta,
                node.deps,
                member.deps[i],
            ) matches Some(edge) && edge.pkg == pkg && !used_from(source, edge.name, 0));
        assert(unused_of(meta, member, member.deps[i], pkg, sizes) == unused_in(
            meta,
            member,
            node,
            source,
            sizes,
            n,
        )[k]);
    } else {
        match verdict(meta, member, node, source, n - 1) {
            Verdict::Unused(pkg) => {
                assert(unused_of(meta, member, member.deps[n - 1], pkg, sizes) == unused_in(
                    meta,
                    member,
                    node,
                    source,
                    sizes,
                    n,
                )[k]);
            },
            _ => {},
        }
    }
}

proof fn lemma_unused_in_grow(
    meta: MetadataView,
    member: PackageView,
    node: NodeView,
    source: Seq<char>,
    sizes: Map<Seq<char>, u64>,
    n: nat,
    all: nat,
)
    requires
        n <= all,
    ensures
        unused_in(meta, member, node, source, sizes, n).is_prefix_of(
            unused_in(meta, member, node, source, sizes, all),
        ),
        ignored_in(meta, member, node, source, n) <= ignored_in(meta, member, node, source, all),
    decreases all - n,
{
    if n < all {
        lemma_unused_in_grow(meta, member, node, source, sizes, n, (all - 1) as nat);
    }
}

proof fn lemma_all_unused_grow(
    meta: MetadataView,
    sources: Seq<Seq<char>>,
    sizes: Map<Seq<char>, u64>,
    n: nat,
    all: nat,
)
    requires
        n <= all,
    ensures
        all_unused(meta, sources, sizes, n).is_prefix_of(all_unused(meta, sources, sizes, all)),
        all_ignored(meta, sources, n) <= all_ignored(meta, sources, all),
    decreases all - n,
{
    if n < all {
        lemma_all_unused_grow(meta, sources, sizes, n, (all - 1) as nat);
    }
}

fn same_option(a: &Option<String>, b: &Option<String>) -> (yes: bool)
    ensures
        yes == (opt_text(*a) == opt_text(*b)),
{
    match (a, b) {
        (Some(a), Some(b)) => same(a.as_str(), b.as_str()),
        (None, None) => true,
        _ => false,
    }
}

fn same_kind(a: Kind, b: Kind) -> (yes: bool)
    ensures
        yes == (a == b),
{
    match (a, b) {
        (Kind::Normal, Kind::Normal) => true,
        (Kind::Dev, Kind::Dev) => true,
        (Kind::Build, Kind::Build) => true,
        _ => false,
    }
}

fn key_in(dep: &Dep) -> (key: &str)
    ensures
        key@ == key_of(dep@),
{
    match &dep.rename {
        Some(name) => name.as_str(),
        None => dep.name.as_str(),
    }
}

fn repeated(deps: &[Dep], i: usize) -> (yes: bool)
    requires
        i < deps@.len(),
    ensures
        yes == is_repeated(views(deps@), i as int),
{
    let ghost all = views(deps@);
    let mut j: usize = 0;
    while j < i
        invariant
            j <= i < deps@.len(),
            all == views(deps@),
            forall|k: int| 0 <= k < j ==> !same_entry(#[trigger] all[k], all[i as int]),
        decreases i - j,
    {
        assert(all[j as int] == deps@[j as int]@);
        assert(all[i as int] == deps@[i as int]@);
        if same(key_in(&deps[j]), key_in(&deps[i])) && same_kind(deps[j].kind, deps[i].kind)
            && same_option(&deps[j].target, &deps[i].target) {
            assert(same_entry(all[j as int], all[i as int]));
            return true;
        }
        j += 1;
    }
    false
}

fn holds_text(texts: &[String], text: &str) -> (yes: bool)
    ensures
        yes == views(texts@).contains(text@),
{
    let ghost all = views(texts@);
    let mut i: usize = 0;
    while i < texts.len()
        invariant
            i <= texts@.len(),
            all == views(texts@),
            forall|k: int| 0 <= k < i ==> #[trigger] all[k] != text@,
        decreases texts@.len() - i,
    {
        assert(all[i as int] == texts@[i as int]@);
        if same(texts[i].as_str(), text) {
            assert(all.contains(all[i as int]));
            return true;
        }
        i += 1;
    }
    false
}

fn holds_kind(kinds: &[Kind], kind: Kind) -> (yes: bool)
    ensures
        yes == kinds@.contains(kind),
{
    let mut i: usize = 0;
    while i < kinds.len()
        invariant
            i <= kinds@.len(),
            forall|k: int| 0 <= k < i ==> #[trigger] kinds@[k] != kind,
        decreases kinds@.len() - i,
    {
        if same_kind(kinds[i], kind) {
            assert(kinds@.contains(kinds@[i as int]));
            return true;
        }
        i += 1;
    }
    false
}

fn resolved(meta: &Metadata, edge: &NodeDep, dep: &Dep) -> (yes: bool)
    ensures
        yes == resolves(meta@, edge@, dep@),
{
    if !holds_kind(edge.kinds.as_slice(), dep.kind) {
        return false;
    }
    match meta.package(edge.pkg.as_str()) {
        Some(package) => {
            if !same(package.name.as_str(), dep.name.as_str()) {
                return false;
            }
        },
        None => {
            return false;
        },
    }
    match &dep.rename {
        Some(name) => {
            let chars = chars_of(name.as_str());
            let ident = underscore(chars.as_slice());
            same(ident.as_str(), edge.name.as_str())
        },
        None => true,
    }
}

fn find_edge<'a>(meta: &Metadata, edges: &'a [NodeDep], dep: &Dep) -> (found: Option<&'a NodeDep>)
    ensures
        found matches Some(edge) ==> edge_for(meta@, views(edges@), dep@) == Some(edge@),
        found is None ==> edge_for(meta@, views(edges@), dep@) is None,
{
    let ghost all = views(edges@);
    let mut i: usize = 0;
    while i < edges.len()
        invariant
            i <= edges@.len(),
            all == views(edges@),
            edge_for(meta@, all.take(i as int), dep@) is None,
        decreases edges@.len() - i,
    {
        assert(all.take(i + 1).drop_last() == all.take(i as int));
        assert(all.take(i + 1).last() == edges@[i as int]@);
        if resolved(meta, &edges[i], dep) {
            proof {
                lemma_edge_stays(meta@, all, dep@, i + 1);
            }
            return Some(&edges[i]);
        }
        i += 1;
    }
    assert(all.take(i as int) == all);
    None
}

proof fn lemma_edge_stays(meta: MetadataView, edges: Seq<EdgeView>, dep: DepView, n: int)
    requires
        0 <= n <= edges.len(),
        edge_for(meta, edges.take(n), dep) is Some,
    ensures
        edge_for(meta, edges, dep) == edge_for(meta, edges.take(n), dep),
    decreases edges.len() - n,
{
    if n < edges.len() {
        assert(edges.take(n + 1).drop_last() == edges.take(n));
        lemma_edge_stays(meta, edges, dep, n + 1);
    } else {
        assert(edges.take(n) == edges);
    }
}

fn copy_option(text: &Option<String>) -> (copy: Option<String>)
    ensures
        opt_text(copy) == opt_text(*text),
{
    match text {
        Some(text) => Some(text.clone()),
        None => None,
    }
}

fn judge_member(
    meta: &Metadata,
    member: &Package,
    node: &Node,
    source: &str,
    sizes: &StringHashMap<u64>,
    unused: &mut Vec<Unused>,
    ignored: &mut usize,
)
    requires
        figures_fit(unused_in(meta@, member@, node@, source@, sizes@, member@.deps.len())),
        *old(ignored) + ignored_in(meta@, member@, node@, source@, member@.deps.len())
            <= usize::MAX,
    ensures
        views(final(unused)@) == views(old(unused)@) + unused_in(
            meta@,
            member@,
            node@,
            source@,
            sizes@,
            member@.deps.len(),
        ),
        *final(ignored) == *old(ignored) + ignored_in(
            meta@,
            member@,
            node@,
            source@,
            member@.deps.len(),
        ),
{
    let ghost before = views(unused@);
    let ghost count = *ignored as nat;
    let ghost deps = member@.deps;
    let ghost whole = unused_in(meta@, member@, node@, source@, sizes@, deps.len());
    let mut i: usize = 0;
    assert(before + unused_in(meta@, member@, node@, source@, sizes@, 0) == before);
    while i < member.deps.len()
        invariant
            i <= member.deps@.len(),
            deps == member@.deps,
            deps == views(member.deps@),
            whole == unused_in(meta@, member@, node@, source@, sizes@, deps.len()),
            figures_fit(whole),
            count + ignored_in(meta@, member@, node@, source@, deps.len()) <= usize::MAX,
            views(unused@) == before + unused_in(
                meta@,
                member@,
                node@,
                source@,
                sizes@,
                i as nat,
            ),
            *ignored == count + ignored_in(meta@, member@, node@, source@, i as nat),
        decreases member.deps@.len() - i,
    {
        proof {
            lemma_unused_in_grow(
                meta@,
                member@,
                node@,
                source@,
                sizes@,
                (i + 1) as nat,
                deps.len(),
            );
        }
        let dep = &member.deps[i];
        assert(deps[i as int] == dep@);
        if repeated(member.deps.as_slice(), i) {
        } else if holds_text(member.ignore.as_slice(), key_in(dep)) || holds_text(
            member.ignore.as_slice(),
            dep.name.as_str(),
        ) {
            *ignored += 1;
        } else if let Some(edge) = find_edge(meta, node.deps.as_slice(), dep) {
            if !uses(source, edge.name.as_str()) {
                let ghost known = unused_in(meta@, member@, node@, source@, sizes@, i as nat);
                let ghost row = unused_of(meta@, member@, dep@, edge@.pkg, sizes@);
                assert(unused_in(meta@, member@, node@, source@, sizes@, (i + 1) as nat)
                    == known.push(row));
                assert(whole[known.len() as int] == row) by {
                    assert(known.push(row)[known.len() as int] == row);
                }
                let ghost so_far = unused@;
                unused.push(
                    Unused {
                        member: member.name.clone(),
                        manifest: member.manifest_path.clone(),
                        key: key_in(dep).to_owned(),
                        package: dep.name.clone(),
                        kind: dep.kind,
                        target: copy_option(&dep.target),
                        freed: freed_if_removed(meta, member, edge.pkg.as_str(), sizes),
                    },
                );
                assert(unused@.last()@ == row);
                assert(views(unused@) == views(so_far).push(row));
                assert(before + known.push(row) == (before + known).push(row));
            }
        }
        i += 1;
    }
}

/// The dependencies that the source of their package does not name, and how many were
/// left alone on request. `sources` holds the source of each member of the workspace.
pub fn find_unused(meta: &Metadata, sources: &[String], sizes: &StringHashMap<u64>) -> (found: (
    Vec<Unused>,
    usize,
))
    requires
        sources@.len() == meta.members@.len(),
        figures_fit(all_unused(meta@, views(sources@), sizes@, sources@.len())),
        all_ignored(meta@, views(sources@), sources@.len()) <= usize::MAX,
    ensures
        views(found.0@) == all_unused(meta@, views(sources@), sizes@, sources@.len()),
        found.1 == all_ignored(meta@, views(sources@), sources@.len()),
{
    let ghost texts = views(sources@);
    let ghost whole = all_unused(meta@, texts, sizes@, texts.len());
    let mut unused: Vec<Unused> = Vec::new();
    let mut ignored: usize = 0;
    let mut i: usize = 0;
    assert(views(unused@) == all_unused(meta@, texts, sizes@, 0));
    while i < meta.members.len()
        invariant
            i <= meta.members@.len(),
            sources@.len() == meta.members@.len(),
            texts == views(sources@),
            whole == all_unused(meta@, texts, sizes@, texts.len()),
            figures_fit(whole),
            all_ignored(meta@, texts, texts.len()) <= usize::MAX,
            views(unused@) == all_unused(meta@, texts, sizes@, i as nat),
            ignored == all_ignored(meta@, texts, i as nat),
        decreases meta.members@.len() - i,
    {
        proof {
            lemma_all_unused_grow(meta@, texts, sizes@, (i + 1) as nat, texts.len());
            assert(meta@.members[i as int] == meta.members@[i as int]@);
            assert(texts[i as int] == sources@[i as int]@);
        }
        if let Some(member) = meta.package(meta.members[i].as_str()) {
            if let Some(node) = meta.node(member.id.as_str()) {
                proof {
                    let own = unused_in(
                        meta@,
                        member@,
                        node@,
                        texts[i as int],
                        sizes@,
                        member@.deps.len(),
                    );
                    let so_far = all_unused(meta@, texts, sizes@, i as nat);
                    assert forall|k: int| 0 <= k < own.len() implies (#[trigger] own[k]).freed
                        <= u64::MAX by {
                        assert((so_far + own)[so_far.len() + k] == own[k]);
                        assert(whole[so_far.len() + k] == own[k]);
                    }
                }
                judge_member(
                    meta,
                    member,
                    node,
                    sources[i].as_str(),
                    sizes,
                    &mut unused,
                    &mut ignored,
                );
            }
        }
        i += 1;
    }
    (unused, ignored)
}

// ---------------------------------------------------------------- what can be held
/// How many entries the manifests of the first `n` members have.
pub open spec fn declared(meta: MetadataView, n: nat) -> nat
    decreases n,
{
    if n == 0 {
        0
    } else {
        declared(meta, (n - 1) as nat) + match meta.package(meta.members[n - 1]) {
            Some(member) => member.deps.len(),
            None => 0,
        }
    }
}

/// No more entries are left alone than there are.
pub proof fn lemma_ignored_at_most(meta: MetadataView, sources: Seq<Seq<char>>, n: nat)
    ensures
        all_ignored(meta, sources, n) <= declared(meta, n),
    decreases n,
{
    if n > 0 {
        lemma_ignored_at_most(meta, sources, (n - 1) as nat);
        if let Some((member, node)) = judged(meta, meta.members[n - 1]) {
            lemma_ignored_in_at_most(meta, member, node, sources[n - 1], member.deps.len());
        }
    }
}

proof fn lemma_ignored_in_at_most(
    meta: MetadataView,
    member: PackageView,
    node: NodeView,
    source: Seq<char>,
    n: nat,
)
    ensures
        ignored_in(meta, member, node, source, n) <= n,
    decreases n,
{
    if n > 0 {
        lemma_ignored_in_at_most(meta, member, node, source, (n - 1) as nat);
    }
}

proof fn lemma_declared_grows(meta: MetadataView, n: nat, all: nat)
    requires
        n <= all,
    ensures
        declared(meta, n) <= declared(meta, all),
    decreases all - n,
{
    if n < all {
        lemma_declared_grows(meta, n, (all - 1) as nat);
    }
}

/// Whether the manifests of the workspace have no more entries than can be counted.
pub fn entries_fit(meta: &Metadata) -> (yes: bool)
    ensures
        yes == (declared(meta@, meta@.members.len()) <= usize::MAX),
{
    let mut sum: usize = 0;
    let mut i: usize = 0;
    while i < meta.members.len()
        invariant
            i <= meta.members@.len(),
            sum == declared(meta@, i as nat),
        decreases meta.members@.len() - i,
    {
        proof {
            assert(meta@.members[i as int] == meta.members@[i as int]@);
            lemma_declared_grows(meta@, (i + 1) as nat, meta@.members.len());
        }
        if let Some(member) = meta.package(meta.members[i].as_str()) {
            match sum.checked_add(member.deps.len()) {
                Some(more) => {
                    sum = more;
                },
                None => {
                    return false;
                },
            }
        }
        i += 1;
    }
    true
}

proof fn lemma_listed(names: Set<Seq<char>>) -> (list: Seq<Seq<char>>)
    requires
        names.finite(),
    ensures
        list.no_duplicates(),
        list.to_set() == names,
    decreases names.len(),
{
    if names.len() == 0 {
        assert(names =~= Set::<Seq<char>>::empty());
        let list = Seq::<Seq<char>>::empty();
        assert(list.to_set() =~= names);
        list
    } else {
        let name = names.choose();
        assert(names.contains(name));
        let rest = lemma_listed(names.remove(name));
        assert(!rest.contains(name)) by {
            if rest.contains(name) {
                assert(rest.to_set().contains(name));
            }
        }
        lemma_push_once(rest, name);
        let list = rest.push(name);
        assert forall|x: Seq<char>| list.to_set().contains(x) <==> names.contains(x) by {
            assert(list.contains(x) <==> rest.contains(x) || x == name);
            assert(rest.contains(x) <==> rest.to_set().contains(x));
        }
        assert(list.to_set() =~= names);
        list
    }
}

/// What is freed is no more than there is.
pub proof fn lemma_freed_at_most(
    meta: MetadataView,
    member: PackageView,
    pkg: Seq<char>,
    items: Seq<(Seq<char>, u64)>,
)
    requires
        sums_fit(items),
    ensures
        freed(meta, member, pkg, sums_by_label(items)) <= total(items),
{
    let names = freed_names(meta, (member.id, pkg));
    let sizes = sums_by_label(items);
    if names.finite() {
        let list = lemma_listed(names);
        lemma_sum_list(sizes, list);
        lemma_list_is_over(items, list);
        lemma_sum_over_at_most(items, list);
    }
}

proof fn lemma_list_is_over(items: Seq<(Seq<char>, u64)>, list: Seq<Seq<char>>)
    requires
        sums_fit(items),
    ensures
        sum_list(sums_by_label(items), list) == sum_over(items, list),
    decreases list.len(),
{
    if list.len() > 0 {
        lemma_list_is_over(items, list.drop_last());
        let name = list.last();
        assert(sum_of(items, name) <= u64::MAX);
        if !labels(items).contains(name) {
            lemma_sum_of_absent(items, name);
        }
    }
}

/// Where all that has an owner can be held together, every figure of a report on unused
/// dependencies can.
pub proof fn lemma_figures_fit(
    meta: MetadataView,
    sources: Seq<Seq<char>>,
    items: Seq<(Seq<char>, u64)>,
    n: nat,
)
    requires
        sums_fit(items),
        total(items) <= u64::MAX,
    ensures
        figures_fit(all_unused(meta, sources, sums_by_label(items), n)),
    decreases n,
{
    if n > 0 {
        let sizes = sums_by_label(items);
        lemma_figures_fit(meta, sources, items, (n - 1) as nat);
        if let Some((member, node)) = judged(meta, meta.members[n - 1]) {
            let own = unused_in(meta, member, node, sources[n - 1], sizes, member.deps.len());
            assert forall|k: int| 0 <= k < own.len() implies (#[trigger] own[k]).freed
                <= u64::MAX by {
                lemma_unused(
                    meta,
                    member,
                    node,
                    sources[n - 1],
                    sizes,
                    member.deps.len(),
                    k,
                );
                let (i, pkg) = choose|i: int, pkg: Seq<char>|
                    0 <= i < member.deps.len() && #[trigger] unused_of(
                        meta,
                        member,
                        member.deps[i],
                        pkg,
                        sizes,
                    ) == own[k];
                lemma_freed_at_most(meta, member, pkg, items);
            }
        }
    }
}

} // verus!
