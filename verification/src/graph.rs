//! What the workspace reaches in the dependency graph.

use crate::metadata::{EdgeView, Node, NodeView};
use crate::text::{same, views};
use vstd::hash_map::StringHashMap;
use vstd::hash_set::StringHashSet;
use vstd::prelude::*;

verus! {

/// The packages that the package `id` depends on directly: those of its last node.
pub open spec fn depends_on(nodes: Seq<NodeView>, id: Seq<char>) -> Seq<EdgeView>
    decreases nodes.len(),
{
    if nodes.len() == 0 {
        Seq::empty()
    } else if nodes.last().id == id {
        nodes.last().deps
    } else {
        depends_on(nodes.drop_last(), id)
    }
}

/// Whether `from` depends on `to` directly, other than by the edge `skip`.
pub open spec fn is_edge(
    nodes: Seq<NodeView>,
    skip: Option<(Seq<char>, Seq<char>)>,
    from: Seq<char>,
    to: Seq<char>,
) -> bool {
    &&& skip != Some((from, to))
    &&& exists|k: int|
        0 <= k < depends_on(nodes, from).len() && (#[trigger] depends_on(nodes, from)[k]).pkg == to
}

/// Whether `path` leads along edges from one of `roots` to `to`.
pub open spec fn is_path(
    nodes: Seq<NodeView>,
    roots: Seq<Seq<char>>,
    skip: Option<(Seq<char>, Seq<char>)>,
    path: Seq<Seq<char>>,
    to: Seq<char>,
) -> bool {
    &&& path.len() > 0
    &&& roots.contains(path[0])
    &&& path.last() == to
    &&& forall|k: int|
        0 <= k < path.len() - 1 ==> is_edge(nodes, skip, #[trigger] path[k], path[k + 1])
}

/// Whether some path leads to `to`.
pub open spec fn reached(
    nodes: Seq<NodeView>,
    roots: Seq<Seq<char>>,
    skip: Option<(Seq<char>, Seq<char>)>,
    to: Seq<char>,
) -> bool {
    exists|path: Seq<Seq<char>>| is_path(nodes, roots, skip, path, to)
}

/// What stays reached once an edge is gone was reached before.
pub proof fn lemma_fewer_edges_reach_less(
    nodes: Seq<NodeView>,
    roots: Seq<Seq<char>>,
    skip: (Seq<char>, Seq<char>),
    to: Seq<char>,
)
    requires
        reached(nodes, roots, Some(skip), to),
    ensures
        reached(nodes, roots, None, to),
{
    let path = choose|path: Seq<Seq<char>>| is_path(nodes, roots, Some(skip), path, to);
    assert(is_path(nodes, roots, None, path, to)) by {
        assert forall|k: int| 0 <= k < path.len() - 1 implies is_edge(
            nodes,
            None,
            #[trigger] path[k],
            path[k + 1],
        ) by {
            assert(is_edge(nodes, Some(skip), path[k], path[k + 1]));
        }
    }
}

/// The roots are reached, and so is whatever a reached package depends on.
pub proof fn lemma_reached_steps(
    nodes: Seq<NodeView>,
    roots: Seq<Seq<char>>,
    skip: Option<(Seq<char>, Seq<char>)>,
    to: Seq<char>,
)
    ensures
        roots.contains(to) ==> reached(nodes, roots, skip, to),
        forall|from: Seq<char>| #[trigger]
            reached(nodes, roots, skip, from) && is_edge(nodes, skip, from, to) ==> reached(
                nodes,
                roots,
                skip,
                to,
            ),
{
    if roots.contains(to) {
        assert(is_path(nodes, roots, skip, seq![to], to));
    }
    assert forall|from: Seq<char>| #[trigger]
        reached(nodes, roots, skip, from) && is_edge(nodes, skip, from, to) implies reached(
        nodes,
        roots,
        skip,
        to,
    ) by {
        let path = choose|path: Seq<Seq<char>>| is_path(nodes, roots, skip, path, from);
        let longer = path.push(to);
        assert(is_path(nodes, roots, skip, longer, to)) by {
            assert forall|k: int| 0 <= k < longer.len() - 1 implies is_edge(
                nodes,
                skip,
                #[trigger] longer[k],
                longer[k + 1],
            ) by {
                if k < path.len() - 1 {
                    assert(is_edge(nodes, skip, path[k], path[k + 1]));
                }
            }
        }
    }
}

/// A set that holds the roots and is closed under edges holds whatever is reached.
pub proof fn lemma_closed(
    nodes: Seq<NodeView>,
    roots: Seq<Seq<char>>,
    skip: Option<(Seq<char>, Seq<char>)>,
    seen: Set<Seq<char>>,
    to: Seq<char>,
)
    requires
        forall|k: int| 0 <= k < roots.len() ==> seen.contains(#[trigger] roots[k]),
        forall|a: Seq<char>, b: Seq<char>|
            seen.contains(a) && #[trigger] is_edge(nodes, skip, a, b) ==> seen.contains(b),
        reached(nodes, roots, skip, to),
    ensures
        seen.contains(to),
{
    let path = choose|path: Seq<Seq<char>>| is_path(nodes, roots, skip, path, to);
    lemma_path_stays(nodes, roots, skip, seen, path, to, path.len() - 1);
}

proof fn lemma_path_stays(
    nodes: Seq<NodeView>,
    roots: Seq<Seq<char>>,
    skip: Option<(Seq<char>, Seq<char>)>,
    seen: Set<Seq<char>>,
    path: Seq<Seq<char>>,
    to: Seq<char>,
    n: int,
)
    requires
        forall|k: int| 0 <= k < roots.len() ==> seen.contains(#[trigger] roots[k]),
        forall|a: Seq<char>, b: Seq<char>|
            seen.contains(a) && #[trigger] is_edge(nodes, skip, a, b) ==> seen.contains(b),
        is_path(nodes, roots, skip, path, to),
        0 <= n < path.len(),
    ensures
        seen.contains(path[n]),
    decreases n,
{
    if n > 0 {
        lemma_path_stays(nodes, roots, skip, seen, path, to, n - 1);
        assert(is_edge(nodes, skip, path[n - 1], path[n]));
    } else {
        let k = choose|k: int| 0 <= k < roots.len() && roots[k] == path[0];
        assert(seen.contains(roots[k]));
    }
}

/// The packages that some edge leads to.
spec fn ends(nodes: Seq<NodeView>) -> Seq<Seq<char>>
    decreases nodes.len(),
{
    if nodes.len() == 0 {
        Seq::empty()
    } else {
        ends(nodes.drop_last()) + nodes.last().deps.map_values(|edge: EdgeView| edge.pkg)
    }
}

proof fn lemma_ends(nodes: Seq<NodeView>, id: Seq<char>, k: int)
    requires
        0 <= k < depends_on(nodes, id).len(),
    ensures
        ends(nodes).contains(depends_on(nodes, id)[k].pkg),
    decreases nodes.len(),
{
    let before = ends(nodes.drop_last());
    let last = nodes.last().deps.map_values(|edge: EdgeView| edge.pkg);
    if nodes.last().id == id {
        assert(ends(nodes)[before.len() + k] == last[k]);
    } else {
        lemma_ends(nodes.drop_last(), id, k);
        let pkg = depends_on(nodes, id)[k].pkg;
        let m = choose|m: int| 0 <= m < before.len() && before[m] == pkg;
        assert(ends(nodes)[m] == pkg);
    }
}

proof fn lemma_room(order: Seq<Seq<char>>, all: Seq<Seq<char>>)
    requires
        order.no_duplicates(),
        forall|k: int| 0 <= k < order.len() ==> all.contains(#[trigger] order[k]),
    ensures
        order.len() <= all.len(),
{
    order.unique_seq_to_set();
    all.lemma_cardinality_of_set();
    vstd::seq_lib::seq_to_set_is_finite(all);
    assert(order.to_set().subset_of(all.to_set()));
    vstd::set_lib::lemma_len_subset(order.to_set(), all.to_set());
}

/// The position of the last node of each package.
fn last_nodes(nodes: &[Node]) -> (at: StringHashMap<usize>)
    ensures
        forall|id: Seq<char>| #[trigger]
            at@.contains_key(id) ==> at@[id] < nodes@.len() && depends_on(views(nodes@), id)
                == views(nodes@[at@[id] as int].deps@),
        forall|id: Seq<char>| !#[trigger] at@.contains_key(id) ==> depends_on(views(nodes@), id)
            == Seq::<EdgeView>::empty(),
{
    let ghost all = views(nodes@);
    let mut at: StringHashMap<usize> = StringHashMap::new();
    let mut i: usize = 0;
    while i < nodes.len()
        invariant
            i <= nodes@.len(),
            all == views(nodes@),
            forall|id: Seq<char>| #[trigger]
                at@.contains_key(id) ==> at@[id] < i && depends_on(all.take(i as int), id) == views(
                    nodes@[at@[id] as int].deps@,
                ),
            forall|id: Seq<char>| !#[trigger]
                at@.contains_key(id) ==> depends_on(all.take(i as int), id) == Seq::<
                EdgeView,
            >::empty(),
        decreases nodes@.len() - i,
    {
        let ghost was = at@;
        assert(all.take(i + 1).drop_last() == all.take(i as int));
        assert(all.take(i + 1).last() == nodes@[i as int]@);
        at.insert(nodes[i].id.clone(), i);
        assert forall|id: Seq<char>| #[trigger] at@.contains_key(id) implies at@[id] < i + 1
            && depends_on(all.take(i + 1), id) == views(nodes@[at@[id] as int].deps@) by {
            if id != nodes@[i as int].id@ {
                assert(was.contains_key(id));
            }
        }
        assert forall|id: Seq<char>| !#[trigger] at@.contains_key(id) implies depends_on(
            all.take(i + 1),
            id,
        ) == Seq::<EdgeView>::empty() by {
            assert(!was.contains_key(id));
        }
        i += 1;
    }
    assert(all.take(i as int) == all);
    at
}

/// An edge to leave out.
pub struct Skip<'a> {
    pub from: &'a str,
    pub to: &'a str,
}

/// The characters of the edge to leave out.
pub open spec fn skipped(skip: Option<Skip>) -> Option<(Seq<char>, Seq<char>)> {
    match skip {
        Some(edge) => Some((edge.from@, edge.to@)),
        None => None,
    }
}

fn is_skipped(skip: &Option<Skip>, from: &str, to: &str) -> (yes: bool)
    ensures
        yes == (skipped(*skip) == Some((from@, to@))),
{
    match skip {
        Some(edge) => same(edge.from, from) && same(edge.to, to),
        None => false,
    }
}

/// Whatever is reached from `roots`, each package once.
pub fn reach(nodes: &[Node], roots: &[String], skip: Option<Skip>) -> (order: Vec<String>)
    ensures
        views(order@).no_duplicates(),
        forall|id: Seq<char>| #[trigger]
            views(order@).contains(id) <==> reached(
                views(nodes@),
                views(roots@),
                skipped(skip),
                id,
            ),
{
    let ghost graph = views(nodes@);
    let ghost starts = views(roots@);
    let ghost gap = skipped(skip);
    let ghost universe = starts + ends(graph);
    let at = last_nodes(nodes);
    let mut seen = StringHashSet::new();
    let mut order: Vec<String> = Vec::new();
    let mut stack: Vec<String> = Vec::new();
    let mut i: usize = 0;
    while i < roots.len()
        invariant
            i <= roots@.len(),
            starts == views(roots@),
            views(stack@) == starts.take(i as int),
        decreases roots@.len() - i,
    {
        let ghost before = stack@;
        stack.push(roots[i].clone());
        assert(views(stack@) == views(before).push(starts[i as int]));
        assert(starts.take(i + 1) == starts.take(i as int).push(starts[i as int]));
        i += 1;
    }
    assert(starts.take(i as int) == starts);
    proof {
        assert forall|k: int| 0 <= k < stack@.len() implies reached(
            graph,
            starts,
            gap,
            #[trigger] stack@[k]@,
        ) && universe.contains(stack@[k]@) by {
            assert(views(stack@)[k] == stack@[k]@);
            assert(starts.contains(starts[k]));
            lemma_reached_steps(graph, starts, gap, starts[k]);
            assert(universe[k] == starts[k]);
        }
        assert forall|k: int| 0 <= k < starts.len() implies seen@.contains(#[trigger] starts[k])
            || views(stack@).contains(starts[k]) by {
            assert(views(stack@)[k] == starts[k]);
        }
    }
    while stack.len() > 0
        invariant
            graph == views(nodes@),
            starts == views(roots@),
            gap == skipped(skip),
            universe == starts + ends(graph),
            forall|id: Seq<char>| #[trigger]
                at@.contains_key(id) ==> at@[id] < nodes@.len() && depends_on(graph, id) == views(
                    nodes@[at@[id] as int].deps@,
                ),
            forall|id: Seq<char>| !#[trigger]
                at@.contains_key(id) ==> depends_on(graph, id) == Seq::<EdgeView>::empty(),
            views(order@).no_duplicates(),
            order@.len() <= universe.len(),
            forall|id: Seq<char>| #[trigger] seen@.contains(id) <==> views(order@).contains(id),
            forall|k: int|
                0 <= k < order@.len() ==> reached(graph, starts, gap, #[trigger] order@[k]@)
                    && universe.contains(order@[k]@),
            forall|k: int|
                0 <= k < stack@.len() ==> reached(graph, starts, gap, #[trigger] stack@[k]@)
                    && universe.contains(stack@[k]@),
            forall|k: int|
                0 <= k < starts.len() ==> seen@.contains(#[trigger] starts[k]) || views(
                    stack@,
                ).contains(starts[k]),
            forall|a: Seq<char>, b: Seq<char>|
                seen@.contains(a) && #[trigger] is_edge(graph, gap, a, b) ==> seen@.contains(b)
                    || views(stack@).contains(b),
        decreases universe.len() - order@.len(), stack@.len(),
    {
        let ghost full = stack@;
        let ghost was = seen@;
        let ghost old_order = order@;
        let id = stack.pop().unwrap();
        assert(full == stack@.push(id));
        assert(views(full) == views(stack@).push(id@));
        proof {
            assert(reached(graph, starts, gap, full[full.len() - 1]@));
            assert forall|x: Seq<char>| views(full).contains(x) implies x == id@ || views(
                stack@,
            ).contains(x) by {
                let k = choose|k: int| 0 <= k < views(full).len() && views(full)[k] == x;
                if k < stack@.len() {
                    assert(views(stack@)[k] == x);
                }
            }
            assert forall|k: int| 0 <= k < stack@.len() implies reached(
                graph,
                starts,
                gap,
                #[trigger] stack@[k]@,
            ) && universe.contains(stack@[k]@) by {
                assert(full[k] == stack@[k]);
            }
        }
        if !seen.contains(id.as_str()) {
            seen.insert(id.clone());
            order.push(id.clone());
            proof {
                assert(views(order@) == views(old_order).push(id@));
                assert forall|x: Seq<char>| #[trigger] seen@.contains(x) <==> views(
                    order@,
                ).contains(x) by {
                    if was.contains(x) {
                        let k = choose|k: int|
                            0 <= k < views(old_order).len() && views(old_order)[k] == x;
                        assert(views(order@)[k] == x);
                    }
                    if x == id@ {
                        assert(views(order@)[old_order.len() as int] == x);
                    }
                    if views(order@).contains(x) && x != id@ {
                        let k = choose|k: int|
                            0 <= k < views(order@).len() && views(order@)[k] == x;
                        assert(views(old_order)[k] == x);
                        assert(views(old_order).contains(x));
                    }
                }
                assert forall|k: int| 0 <= k < order@.len() implies reached(
                    graph,
                    starts,
                    gap,
                    #[trigger] order@[k]@,
                ) && universe.contains(order@[k]@) by {
                    if k < old_order.len() {
                        assert(order@[k] == old_order[k]);
                    }
                }
                assert(views(order@).no_duplicates()) by {
                    assert(!views(old_order).contains(id@));
                    assert forall|i: int, j: int|
                        0 <= i < views(order@).len() && 0 <= j < views(order@).len() && i
                            != j implies views(order@)[i] != views(order@)[j] by {
                        if i == old_order.len() {
                            assert(views(old_order)[j] == views(order@)[j]);
                        }
                        if j == old_order.len() {
                            assert(views(old_order)[i] == views(order@)[i]);
                        }
                        if i < old_order.len() && j < old_order.len() {
                            assert(views(old_order)[i] == views(order@)[i]);
                            assert(views(old_order)[j] == views(order@)[j]);
                        }
                    }
                }
                assert forall|k: int| 0 <= k < views(order@).len() implies universe.contains(
                    #[trigger] views(order@)[k],
                ) by {
                    assert(views(order@)[k] == order@[k]@);
                }
                lemma_room(views(order@), universe);
            }
            push_next(nodes, &at, id.as_str(), &skip, &mut stack);
            proof {
                let rest = full.drop_last();
                let edges = depends_on(graph, id@);
                assert forall|x: Seq<char>| views(rest).contains(x) implies views(
                    stack@,
                ).contains(x) by {
                    let k = choose|k: int| 0 <= k < views(rest).len() && views(rest)[k] == x;
                    assert(views(stack@)[k] == x);
                }
                assert forall|k: int| 0 <= k < stack@.len() implies reached(
                    graph,
                    starts,
                    gap,
                    #[trigger] stack@[k]@,
                ) && universe.contains(stack@[k]@) by {
                    assert(views(stack@)[k] == stack@[k]@);
                    if k < rest.len() {
                        assert(views(stack@)[k] == views(rest)[k]);
                        assert(rest[k] == full[k]);
                    } else {
                        let to = stack@[k]@;
                        assert(is_edge(graph, gap, id@, to));
                        lemma_reached_steps(graph, starts, gap, to);
                        assert(reached(graph, starts, gap, id@));
                        let m = choose|m: int|
                            0 <= m < edges.len() && (#[trigger] edges[m]).pkg == to;
                        lemma_ends(graph, id@, m);
                        let e = choose|e: int| 0 <= e < ends(graph).len() && ends(graph)[e] == to;
                        assert(universe[starts.len() + e] == to);
                    }
                }
            }
        }
    }
    proof {
        assert forall|k: int| 0 <= k < starts.len() implies seen@.contains(#[trigger] starts[k]) by {
            assert(!views(stack@).contains(starts[k]));
        }
        assert forall|a: Seq<char>, b: Seq<char>|
            seen@.contains(a) && #[trigger] is_edge(graph, gap, a, b) implies seen@.contains(b) by {
            assert(!views(stack@).contains(b));
        }
        assert forall|id: Seq<char>| #[trigger] views(order@).contains(id) <==> reached(
            graph,
            starts,
            gap,
            id,
        ) by {
            if reached(graph, starts, gap, id) {
                lemma_closed(graph, starts, gap, seen@, id);
            }
            if views(order@).contains(id) {
                let k = choose|k: int| 0 <= k < views(order@).len() && views(order@)[k] == id;
                assert(order@[k]@ == id);
            }
        }
    }
    order
}

/// Puts what `id` depends on directly on the stack.
fn push_next(
    nodes: &[Node],
    at: &StringHashMap<usize>,
    id: &str,
    skip: &Option<Skip>,
    stack: &mut Vec<String>,
)
    requires
        at@.contains_key(id@) ==> at@[id@] < nodes@.len() && depends_on(views(nodes@), id@)
            == views(nodes@[at@[id@] as int].deps@),
        !at@.contains_key(id@) ==> depends_on(views(nodes@), id@) == Seq::<EdgeView>::empty(),
    ensures
        old(stack)@.len() <= final(stack)@.len(),
        forall|k: int|
            0 <= k < old(stack)@.len() ==> #[trigger] views(final(stack)@)[k] == views(
                old(stack)@,
            )[k],
        forall|k: int|
            old(stack)@.len() <= k < final(stack)@.len() ==> is_edge(
                views(nodes@),
                skipped(*skip),
                id@,
                #[trigger] views(final(stack)@)[k],
            ),
        forall|to: Seq<char>| #[trigger]
            is_edge(views(nodes@), skipped(*skip), id@, to) ==> views(final(stack)@).contains(to),
{
    let ghost graph = views(nodes@);
    let ghost gap = skipped(*skip);
    let ghost before = stack@;
    let ghost edges = depends_on(graph, id@);
    if let Some(position) = at.get(id) {
        let node = &nodes[*position];
        let mut i: usize = 0;
        while i < node.deps.len()
            invariant
                i <= node.deps@.len(),
                edges == views(node.deps@),
                edges == depends_on(graph, id@),
                gap == skipped(*skip),
                before.len() <= stack@.len(),
                forall|k: int|
                    0 <= k < before.len() ==> #[trigger] views(stack@)[k] == views(before)[k],
                forall|k: int|
                    before.len() <= k < stack@.len() ==> is_edge(
                        graph,
                        gap,
                        id@,
                        #[trigger] views(stack@)[k],
                    ),
                forall|m: int|
                    0 <= m < i && gap != Some((id@, (#[trigger] edges[m]).pkg)) ==> views(
                        stack@,
                    ).contains(edges[m].pkg),
            decreases node.deps@.len() - i,
        {
            let ghost now = stack@;
            let next = node.deps[i].pkg.as_str();
            assert(edges[i as int].pkg == next@);
            if !is_skipped(skip, id, next) {
                stack.push(node.deps[i].pkg.clone());
                assert(views(stack@) == views(now).push(next@));
                assert(is_edge(graph, gap, id@, next@));
            }
            assert forall|m: int| 0 <= m < i + 1 && gap != Some(
                (id@, (#[trigger] edges[m]).pkg),
            ) implies views(stack@).contains(edges[m].pkg) by {
                if m < i {
                    assert(views(now).contains(edges[m].pkg));
                    let k = choose|k: int|
                        0 <= k < views(now).len() && views(now)[k] == edges[m].pkg;
                    assert(views(stack@)[k] == edges[m].pkg);
                } else {
                    assert(views(stack@)[now.len() as int] == edges[m].pkg);
                }
            }
            i += 1;
        }
    }
}

} // verus!
