//! Directed graphs over channel numbers: walks, reachability, and what keeps
//! a graph free of cycles.

use vstd::prelude::*;

verus! {

/// A set of directed links `(from, to)`.
pub type Links = Set<(int, int)>;

/// The node at position `at` of `walk` is linked to the next one.
pub open spec fn linked(links: Links, walk: Seq<int>, at: int) -> bool {
    links.contains((walk[at], walk[at + 1]))
}

/// `walk` is a non-empty sequence of nodes, each linked to the next.
pub open spec fn is_walk(links: Links, walk: Seq<int>) -> bool {
    &&& walk.len() >= 1
    &&& forall|i: int| 0 <= i < walk.len() - 1 ==> #[trigger] linked(links, walk, i)
}

/// `walk` leads from `from` to `to` along `links`.
pub open spec fn walks(links: Links, walk: Seq<int>, from: int, to: int) -> bool {
    &&& is_walk(links, walk)
    &&& walk[0] == from
    &&& walk[walk.len() - 1] == to
}

/// Some walk leads from `from` to `to`. Every node reaches itself.
pub open spec fn reaches(links: Links, from: int, to: int) -> bool {
    exists|walk: Seq<int>| #[trigger] walks(links, walk, from, to)
}

/// No link can be followed back to where it starts.
pub open spec fn acyclic(links: Links) -> bool {
    forall|a: int, b: int| #[trigger] links.contains((a, b)) ==> !reaches(links, b, a)
}

/// Every pair of a node of `sources` and a node of `targets`.
pub open spec fn product(sources: Set<int>, targets: Set<int>) -> Links {
    Set::new(|link: (int, int)| sources.contains(link.0) && targets.contains(link.1))
}

/// `nodes` holds the target of every link that starts in it.
pub open spec fn closed_under(links: Links, nodes: Set<int>) -> bool {
    forall|a: int, b: int| #[trigger] links.contains((a, b)) && nodes.contains(a) ==> nodes.contains(b)
}

/// A node reaches itself.
pub proof fn lemma_reaches_self(links: Links, node: int)
    ensures
        reaches(links, node, node),
{
    assert(walks(links, seq![node], node, node));
}

/// A walk can be extended by one link.
pub proof fn lemma_walk_push(links: Links, walk: Seq<int>, from: int, mid: int, to: int)
    requires
        walks(links, walk, from, mid),
        links.contains((mid, to)),
    ensures
        walks(links, walk.push(to), from, to),
{
    let longer = walk.push(to);
    assert forall|i: int| 0 <= i < longer.len() - 1 implies #[trigger] linked(links, longer, i) by {
        if i < walk.len() - 1 {
            assert(linked(links, walk, i));
        }
    }
}

/// Reachability can be extended by one link.
pub proof fn lemma_reaches_push(links: Links, from: int, mid: int, to: int)
    requires
        reaches(links, from, mid),
        links.contains((mid, to)),
    ensures
        reaches(links, from, to),
{
    let walk = choose|walk: Seq<int>| #[trigger] walks(links, walk, from, mid);
    lemma_walk_push(links, walk, from, mid, to);
}

/// Two walks that meet can be joined.
pub proof fn lemma_walk_join(links: Links, first: Seq<int>, second: Seq<int>, from: int, mid: int, to: int)
    requires
        walks(links, first, from, mid),
        walks(links, second, mid, to),
    ensures
        walks(links, first + second.skip(1), from, to),
{
    let joined = first + second.skip(1);
    assert forall|i: int| 0 <= i < joined.len() - 1 implies #[trigger] linked(links, joined, i) by {
        if i < first.len() - 1 {
            assert(linked(links, first, i));
        } else {
            let k = i - first.len() + 1;
            assert(linked(links, second, k));
        }
    }
}

/// A walk stays a walk when links are added.
pub proof fn lemma_walk_grow(small: Links, large: Links, walk: Seq<int>)
    requires
        is_walk(small, walk),
        small.subset_of(large),
    ensures
        is_walk(large, walk),
{
    assert forall|i: int| 0 <= i < walk.len() - 1 implies #[trigger] linked(large, walk, i) by {
        assert(linked(small, walk, i));
    }
}

/// A walk never leaves a set of nodes that is closed under the links.
pub proof fn lemma_walk_stays(links: Links, nodes: Set<int>, walk: Seq<int>, upto: int)
    requires
        is_walk(links, walk),
        closed_under(links, nodes),
        nodes.contains(walk[0]),
        0 <= upto < walk.len(),
    ensures
        nodes.contains(walk[upto]),
    decreases upto,
{
    if upto > 0 {
        lemma_walk_stays(links, nodes, walk, upto - 1);
        assert(linked(links, walk, upto - 1));
    }
}

/// What a closed set of nodes does not hold cannot be reached from inside it.
pub proof fn lemma_closed_bounds_reach(links: Links, nodes: Set<int>, from: int, to: int)
    requires
        closed_under(links, nodes),
        nodes.contains(from),
        !nodes.contains(to),
    ensures
        !reaches(links, from, to),
{
    if reaches(links, from, to) {
        let walk = choose|walk: Seq<int>| #[trigger] walks(links, walk, from, to);
        lemma_walk_stays(links, nodes, walk, walk.len() - 1);
    }
}

/// The first position at or after `start` whose link is not in `links`, or
/// the last position of the walk if there is none.
pub open spec fn first_foreign(links: Links, walk: Seq<int>, start: int) -> int
    decreases walk.len() - start,
{
    if start < 0 || start >= walk.len() - 1 {
        walk.len() - 1
    } else if !links.contains((walk[start], walk[start + 1])) {
        start
    } else {
        first_foreign(links, walk, start + 1)
    }
}

/// The last position before `end` whose link is not in `links`, or `-1` if
/// there is none.
pub open spec fn last_foreign(links: Links, walk: Seq<int>, end: int) -> int
    decreases end,
{
    if end <= 0 || end > walk.len() - 1 {
        -1
    } else if !links.contains((walk[end - 1], walk[end])) {
        end - 1
    } else {
        last_foreign(links, walk, end - 1)
    }
}

proof fn lemma_first_foreign(links: Links, walk: Seq<int>, start: int)
    requires
        0 <= start <= walk.len() - 1,
    ensures
        start <= first_foreign(links, walk, start) <= walk.len() - 1,
        first_foreign(links, walk, start) < walk.len() - 1 ==> !links.contains(
            (
                walk[first_foreign(links, walk, start)],
                walk[first_foreign(links, walk, start) + 1],
            ),
        ),
        is_walk(links, walk.subrange(start, first_foreign(links, walk, start) + 1)),
    decreases walk.len() - start,
{
    let stop = first_foreign(links, walk, start);
    if start >= walk.len() - 1 {
    } else if !links.contains((walk[start], walk[start + 1])) {
    } else {
        lemma_first_foreign(links, walk, start + 1);
        let part = walk.subrange(start, stop + 1);
        let rest = walk.subrange(start + 1, stop + 1);
        assert forall|i: int| 0 <= i < part.len() - 1 implies #[trigger] linked(links, part, i) by {
            if i > 0 {
                assert(linked(links, rest, i - 1));
            }
        }
    }
}

proof fn lemma_last_foreign(links: Links, walk: Seq<int>, end: int)
    requires
        0 <= end <= walk.len() - 1,
    ensures
        -1 <= last_foreign(links, walk, end) < end || (end == 0 && last_foreign(links, walk, end)
            == -1),
        last_foreign(links, walk, end) >= 0 ==> !links.contains(
            (walk[last_foreign(links, walk, end)], walk[last_foreign(links, walk, end) + 1]),
        ),
        is_walk(links, walk.subrange(last_foreign(links, walk, end) + 1, end + 1)),
    decreases end,
{
    let stop = last_foreign(links, walk, end);
    if end <= 0 {
    } else if !links.contains((walk[end - 1], walk[end])) {
    } else {
        lemma_last_foreign(links, walk, end - 1);
        let part = walk.subrange(stop + 1, end + 1);
        let rest = walk.subrange(stop + 1, end);
        assert forall|i: int| 0 <= i < part.len() - 1 implies #[trigger] linked(links, part, i) by {
            if i < rest.len() - 1 {
                assert(linked(links, rest, i));
            }
        }
    }
}

/// A graph without cycles stays so when every node of `sources` is linked
/// to every node of `targets`, provided that no target reached a source
/// before.
pub proof fn lemma_product_keeps_acyclic(links: Links, sources: Set<int>, targets: Set<int>)
    requires
        acyclic(links),
        forall|s: int, t: int|
            sources.contains(s) && targets.contains(t) ==> !#[trigger] reaches(links, t, s),
    ensures
        acyclic(links.union(product(sources, targets))),
{
    let grown = links.union(product(sources, targets));
    assert forall|a: int, b: int| #[trigger] grown.contains((a, b)) implies !reaches(
        grown,
        b,
        a,
    ) by {
        if reaches(grown, b, a) {
            let back = choose|walk: Seq<int>| #[trigger] walks(grown, walk, b, a);
            // The closed walk a -> b ~> a.
            let round = seq![a] + back;
            assert(is_walk(grown, round)) by {
                assert forall|i: int| 0 <= i < round.len() - 1 implies #[trigger] linked(grown, round, i) by {
                    if i > 0 {
                        assert(linked(grown, back, i - 1));
                    }
                }
            }
            let last = round.len() - 1;
            assert(round[0] == a && round[last] == a);
            lemma_first_foreign(links, round, 0);
            lemma_last_foreign(links, round, last);
            let i = first_foreign(links, round, 0);
            let j = last_foreign(links, round, last);
            if i >= last {
                // Every link of the round trip is an old one.
                assert(round.subrange(0, last + 1) =~= round);
                assert(linked(links, round, 0));
                let tail = round.subrange(1, last + 1);
                assert(is_walk(links, tail)) by {
                    assert forall|k: int| 0 <= k < tail.len() - 1 implies #[trigger] linked(links, tail, k) by {
                        assert(linked(links, round, k + 1));
                    }
                }
                assert(walks(links, tail, b, a));
            } else {
                assert(linked(grown, round, i));
                assert(sources.contains(round[i]));
                if j < 0 {
                    assert(round.subrange(0, last + 1) =~= round);
                    assert(linked(links, round, i));
                } else {
                    assert(linked(grown, round, j));
                    assert(targets.contains(round[j + 1]));
                    let head = round.subrange(0, i + 1);
                    let tail = round.subrange(j + 1, last + 1);
                    assert(walks(links, tail, round[j + 1], a));
                    assert(walks(links, head, a, round[i]));
                    lemma_walk_join(links, tail, head, round[j + 1], a, round[i]);
                    assert(reaches(links, round[j + 1], round[i]));
                }
            }
        }
    }
}

/// A permission: some subscriber, `by`, listens on channel `from` and may
/// emit into channel `to`.
pub struct Edge {
    pub from: usize,
    pub to: usize,
    pub by: String,
}

/// The links that a list of edges holds, whoever they are by.
pub open spec fn links_of(edges: Seq<Edge>) -> Links {
    Set::new(
        |link: (int, int)|
            exists|i: int|
                0 <= i < edges.len() && (#[trigger] edges[i]).from == link.0 && edges[i].to
                    == link.1,
    )
}

/// Every edge joins two of the first `nodes` channels.
pub open spec fn edges_within(edges: Seq<Edge>, nodes: int) -> bool {
    forall|i: int| 0 <= i < edges.len() ==> (#[trigger] edges[i]).from < nodes && edges[i].to < nodes
}

/// The edge at position `at` of `route` ends where the next one starts.
pub open spec fn chained(edges: Seq<Edge>, route: Seq<usize>, at: int) -> bool {
    edges[route[at] as int].to == edges[route[at + 1] as int].from
}

/// `route` numbers edges that lead, one after the other, from `from` to
/// `to`. The empty route leads from a node to itself.
pub open spec fn is_route(edges: Seq<Edge>, route: Seq<usize>, from: int, to: int) -> bool {
    if route.len() == 0 {
        from == to
    } else {
        &&& forall|k: int| 0 <= k < route.len() ==> #[trigger] route[k] < edges.len()
        &&& edges[route[0] as int].from == from
        &&& edges[route[route.len() - 1] as int].to == to
        &&& forall|k: int| 0 <= k < route.len() - 1 ==> #[trigger] chained(edges, route, k)
    }
}

/// The nodes that a route passes, its start included.
pub open spec fn route_nodes(edges: Seq<Edge>, route: Seq<usize>, from: int) -> Seq<int> {
    Seq::new(
        route.len() + 1,
        |k: int|
            if k == 0 {
                from
            } else {
                edges[route[k - 1] as int].to as int
            },
    )
}

/// Along a route its end is reached from its start.
pub proof fn lemma_route_reaches(edges: Seq<Edge>, route: Seq<usize>, from: int, to: int)
    requires
        is_route(edges, route, from, to),
    ensures
        walks(links_of(edges), route_nodes(edges, route, from), from, to),
        reaches(links_of(edges), from, to),
{
    let links = links_of(edges);
    let walk = route_nodes(edges, route, from);
    assert forall|i: int| 0 <= i < walk.len() - 1 implies #[trigger] linked(links, walk, i) by {
        let e = edges[route[i] as int];
        assert(route[i] < edges.len());
        if i > 0 {
            assert(chained(edges, route, i - 1));
        }
        assert(e.from == walk[i] && e.to == walk[i + 1]);
    }
    assert(walks(links, walk, from, to));
}

/// The mathematical value of an [`Edge`].
pub struct EdgeView {
    pub from: int,
    pub to: int,
    pub by: Seq<char>,
}

impl DeepView for Edge {
    type V = EdgeView;

    open spec fn deep_view(&self) -> EdgeView {
        EdgeView { from: self.from as int, to: self.to as int, by: self.by@ }
    }
}

/// The links that a set of edges holds, whoever they are by.
pub open spec fn links_in(edges: Set<EdgeView>) -> Links {
    Set::new(
        |link: (int, int)|
            exists|by: Seq<char>| edges.contains(EdgeView { from: link.0, to: link.1, by }),
    )
}

/// The edges of `path` are taken from `edges` and lead, one after the
/// other, from `from` to `to`. The empty path leads from a node to itself.
pub open spec fn is_path(edges: Set<EdgeView>, path: Seq<EdgeView>, from: int, to: int) -> bool {
    if path.len() == 0 {
        from == to
    } else {
        &&& forall|k: int| 0 <= k < path.len() ==> edges.contains(#[trigger] path[k])
        &&& path[0].from == from
        &&& path[path.len() - 1].to == to
        &&& forall|k: int| 0 <= k < path.len() - 1 ==> (#[trigger] path[k]).to == path[k + 1].from
    }
}

/// The edges of a list, as values.
pub open spec fn edge_set(edges: Seq<Edge>) -> Set<EdgeView> {
    Set::new(
        |edge: EdgeView| exists|i: int| 0 <= i < edges.len() && (#[trigger] edges[i]).deep_view() == edge,
    )
}

/// The edges that a route numbers, as values.
pub open spec fn route_edges(edges: Seq<Edge>, route: Seq<usize>) -> Seq<EdgeView> {
    Seq::new(route.len(), |k: int| edges[route[k] as int].deep_view())
}

/// A list of edges and the set of its values hold the same links.
pub proof fn lemma_links_agree(edges: Seq<Edge>)
    ensures
        links_in(edge_set(edges)) == links_of(edges),
{
    let a = links_in(edge_set(edges));
    let b = links_of(edges);
    assert forall|link: (int, int)| a.contains(link) <==> b.contains(link) by {
        if a.contains(link) {
            let by = choose|by: Seq<char>|
                edge_set(edges).contains(EdgeView { from: link.0, to: link.1, by });
            let edge = EdgeView { from: link.0, to: link.1, by };
            let i = choose|i: int| 0 <= i < edges.len() && (#[trigger] edges[i]).deep_view() == edge;
            assert(edges[i].from == link.0 && edges[i].to == link.1);
        }
        if b.contains(link) {
            let i = choose|i: int|
                0 <= i < edges.len() && (#[trigger] edges[i]).from == link.0 && edges[i].to
                    == link.1;
            assert(edge_set(edges).contains(edges[i].deep_view()));
            assert(edges[i].deep_view() == EdgeView { from: link.0, to: link.1, by: edges[i].by@ });
        }
    }
    assert(a =~= b);
}

/// The edges that a route numbers form a path.
pub proof fn lemma_route_is_path(edges: Seq<Edge>, route: Seq<usize>, from: int, to: int)
    requires
        is_route(edges, route, from, to),
    ensures
        is_path(edge_set(edges), route_edges(edges, route), from, to),
{
    let path = route_edges(edges, route);
    if route.len() > 0 {
        assert forall|k: int| 0 <= k < path.len() implies edge_set(edges).contains(
            #[trigger] path[k],
        ) by {
            assert(route[k] < edges.len());
            assert(edges[route[k] as int].deep_view() == path[k]);
        }
        assert forall|k: int| 0 <= k < path.len() - 1 implies (#[trigger] path[k]).to == path[k
            + 1].from by {
            assert(chained(edges, route, k));
        }
    }
}

/// No path from `from` to `to` has fewer edges than `path`.
pub open spec fn is_shortest(edges: Set<EdgeView>, path: Seq<EdgeView>, from: int, to: int) -> bool {
    forall|other: Seq<EdgeView>| #[trigger] is_path(edges, other, from, to) ==> path.len() <= other.len()
}

/// The nodes that a path passes, its start included.
pub open spec fn path_nodes(path: Seq<EdgeView>, from: int) -> Seq<int> {
    Seq::new(
        path.len() + 1,
        |k: int|
            if k == 0 {
                from
            } else {
                path[k - 1].to
            },
    )
}

/// Along a path its end is reached from its start, over one link for each
/// edge.
pub proof fn lemma_path_walks(edges: Set<EdgeView>, path: Seq<EdgeView>, from: int, to: int)
    requires
        is_path(edges, path, from, to),
    ensures
        walks(links_in(edges), path_nodes(path, from), from, to),
{
    let links = links_in(edges);
    let walk = path_nodes(path, from);
    assert forall|i: int| 0 <= i < walk.len() - 1 implies #[trigger] linked(links, walk, i) by {
        let edge = path[i];
        assert(edges.contains(edge));
        if i > 0 {
            assert(path[i - 1].to == path[i].from);
        }
        let link = (walk[i], walk[i + 1]);
        assert(edge == EdgeView { from: link.0, to: link.1, by: edge.by });
        assert(edges.contains(EdgeView { from: link.0, to: link.1, by: edge.by }));
        assert(links.contains(link));
    }
}

} // verus!
