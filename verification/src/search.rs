//! Breadth-first search for a shortest route between two channels.

use crate::graph::{
    chained, closed_under, edges_within, is_route, is_walk, lemma_closed_bounds_reach,
    lemma_reaches_self, lemma_route_reaches, linked, links_of, reaches, walks, Edge,
};
use vstd::prelude::*;
use vstd::set_lib::{lemma_int_range, set_int_range};

verus! {

/// What a search from the node `from` has found so far.
struct Found {
    /// Which nodes were found.
    seen: Seq<bool>,
    /// The nodes found, in the order in which they were found.
    queue: Seq<usize>,
    /// For each but the first, the position of the node it was found from.
    parent: Seq<usize>,
    /// For each but the first, the edge that led to it.
    via: Seq<usize>,
    /// For each, the number of edges on the way to it.
    depth: Seq<nat>,
    /// How many of the nodes found have had all their edges followed.
    head: int,
}

impl Found {
    /// Each node but the first was found over an edge from an earlier one,
    /// one edge deeper.
    spec fn is_tree(self, edges: Seq<Edge>) -> bool {
        &&& self.queue.len() >= 1
        &&& self.parent.len() == self.queue.len()
        &&& self.via.len() == self.queue.len()
        &&& self.depth.len() == self.queue.len()
        &&& self.depth[0] == 0
        &&& forall|k: int|
            1 <= k < self.queue.len() ==> {
                &&& #[trigger] self.parent[k] < k
                &&& self.via[k] < edges.len()
                &&& edges[self.via[k] as int].from == self.queue[self.parent[k] as int]
                &&& edges[self.via[k] as int].to == self.queue[k]
                &&& self.depth[k] == self.depth[self.parent[k] as int] + 1
            }
    }

    /// The nodes found are exactly those marked as seen.
    spec fn is_marked(self, nodes: int) -> bool {
        &&& self.seen.len() == nodes
        &&& forall|k: int|
            0 <= k < self.queue.len() ==> (#[trigger] self.queue[k]) < nodes
                && self.seen[self.queue[k] as int]
        &&& forall|v: int|
            0 <= v < nodes && #[trigger] self.seen[v] ==> exists|k: int|
                0 <= k < self.queue.len() && #[trigger] self.queue[k] == v
    }

    /// Nodes were found nearest first: depths never fall along the queue,
    /// and none is more than one edge deeper than the node whose edges are
    /// being followed.
    spec fn is_layered(self) -> bool {
        &&& forall|i: int, j: int|
            0 <= i <= j < self.depth.len() ==> #[trigger] self.depth[i] <= #[trigger] self.depth[j]
        &&& forall|j: int|
            0 <= j < self.depth.len() && 0 <= self.head < self.depth.len() ==> #[trigger] self.depth[j]
                <= self.depth[self.head] + 1
    }

    /// No walk to a node found has fewer edges than the depth says.
    spec fn is_nearest(self, edges: Seq<Edge>, from: int) -> bool {
        forall|k: int, walk: Seq<int>|
            0 <= k < self.queue.len() && #[trigger] walks(
                links_of(edges),
                walk,
                from,
                self.queue[k] as int,
            ) ==> self.depth[k] + 1 <= walk.len()
    }

    /// Every edge from a node before `head` leads to a node found.
    spec fn is_followed(self, edges: Seq<Edge>) -> bool {
        forall|k: int, e: int|
            0 <= k < self.head && 0 <= e < edges.len() && (#[trigger] edges[e]).from
                == #[trigger] self.queue[k] ==> self.seen[edges[e].to as int]
    }

    /// All of the above, for a search from `from` among `nodes` nodes.
    spec fn sound(self, edges: Seq<Edge>, nodes: int, from: int) -> bool {
        &&& 0 <= self.head <= self.queue.len()
        &&& self.queue[0] == from
        &&& self.is_tree(edges)
        &&& self.is_marked(nodes)
        &&& self.is_layered()
        &&& self.is_nearest(edges, from)
        &&& self.is_followed(edges)
    }

    /// The end of a walk from the start that is no longer than the way to
    /// the node whose edges are being followed was found already.
    proof fn lemma_near_is_seen(self, edges: Seq<Edge>, nodes: int, from: int, walk: Seq<int>)
        requires
            self.sound(edges, nodes, from),
            edges_within(edges, nodes),
            self.head < self.queue.len(),
            is_walk(links_of(edges), walk),
            walk[0] == from,
            walk.len() - 1 <= self.depth[self.head],
        ensures
            0 <= walk[walk.len() - 1] < nodes,
            self.seen[walk[walk.len() - 1]],
        decreases walk.len(),
    {
        let links = links_of(edges);
        if walk.len() == 1 {
            assert(self.seen[self.queue[0] as int]);
        } else {
            let shorter = walk.drop_last();
            assert(is_walk(links, shorter)) by {
                assert forall|i: int| 0 <= i < shorter.len() - 1 implies #[trigger] linked(
                    links,
                    shorter,
                    i,
                ) by {
                    assert(linked(links, walk, i));
                }
            }
            self.lemma_near_is_seen(edges, nodes, from, shorter);
            let mid = shorter[shorter.len() - 1];
            let end = walk[walk.len() - 1];
            let k = choose|k: int| 0 <= k < self.queue.len() && #[trigger] self.queue[k] == mid;
            assert(walks(links, shorter, from, self.queue[k] as int));
            assert(self.depth[k] + 1 <= shorter.len());
            if k >= self.head {
                assert(self.depth[self.head] <= self.depth[k]);
            }
            assert(linked(links, walk, walk.len() - 2));
            let e = choose|e: int|
                0 <= e < edges.len() && (#[trigger] edges[e]).from == mid && edges[e].to == end;
            assert(edges[e].from == self.queue[k]);
        }
    }
}

/// The route from the root of the tree to the node found at position `last`.
fn trace_back(
    edges: &Vec<Edge>,
    queue: &Vec<usize>,
    parent: &Vec<usize>,
    via: &Vec<usize>,
    last: usize,
    Ghost(found): Ghost<Found>,
) -> (route: Vec<usize>)
    requires
        found.is_tree(edges@),
        found.queue == queue@,
        found.parent == parent@,
        found.via == via@,
        1 <= last < queue.len(),
    ensures
        route.len() == found.depth[last as int],
        is_route(edges@, route@, queue[0] as int, queue[last as int] as int),
{
    let mut route: Vec<usize> = Vec::new();
    let mut k: usize = last;
    assert(found.depth[last as int] >= 1) by {
        assert(found.parent[last as int] < last);
    }
    while k > 0
        invariant
            found.is_tree(edges@),
            found.queue == queue@,
            found.parent == parent@,
            found.via == via@,
            k <= last < queue.len(),
            route.len() + found.depth[k as int] == found.depth[last as int],
            is_route(edges@, route@, queue[k as int] as int, queue[last as int] as int),
        decreases k,
    {
        let ghost before = route@;
        assert(parent[k as int] < k);
        route.insert(0, via[k]);
        proof {
            let after = route@;
            assert forall|i: int| 0 <= i < after.len() implies #[trigger] after[i] < edges.len() by {
                if i > 0 {
                    assert(after[i] == before[i - 1]);
                }
            }
            assert forall|i: int| 0 <= i < after.len() - 1 implies #[trigger] chained(
                edges@,
                after,
                i,
            ) by {
                if i > 0 {
                    assert(chained(edges@, before, i - 1));
                    assert(after[i] == before[i - 1]);
                    assert(after[i + 1] == before[i]);
                }
            }
            if before.len() > 0 {
                assert(after[after.len() - 1] == before[before.len() - 1]);
            }
        }
        k = parent[k];
    }
    route
}

/// Looks for a route from `from` to `to`, nearest nodes first. The route
/// found has as few edges as any.
pub(crate) fn find_route(edges: &Vec<Edge>, nodes: usize, from: usize, to: usize) -> (found:
    Option<Vec<usize>>)
    requires
        from < nodes,
        to < nodes,
        edges_within(edges@, nodes as int),
    ensures
        found is Some <==> reaches(links_of(edges@), from as int, to as int),
        found matches Some(route) ==> is_route(edges@, route@, from as int, to as int) && forall|
            walk: Seq<int>,
        | #[trigger]
            walks(links_of(edges@), walk, from as int, to as int) ==> route.len() + 1
                <= walk.len(),
{
    if from == to {
        proof {
            lemma_reaches_self(links_of(edges@), from as int);
        }
        return Some(Vec::new());
    }
    let mut seen: Vec<bool> = Vec::new();
    let mut n: usize = 0;
    while n < nodes
        invariant
            n <= nodes,
            seen.len() == n,
            forall|v: int| 0 <= v < n ==> !seen[v],
        decreases nodes - n,
    {
        seen.push(false);
        n += 1;
    }
    seen[from] = true;
    let mut queue: Vec<usize> = Vec::new();
    let mut parent: Vec<usize> = Vec::new();
    let mut via: Vec<usize> = Vec::new();
    queue.push(from);
    parent.push(0);
    via.push(0);
    let ghost links = links_of(edges@);
    let ghost mut depth: Seq<nat> = seq![0nat];
    let ghost mut unseen: Set<int> = set_int_range(0, nodes as int).remove(from as int);
    proof {
        lemma_int_range(0, nodes as int);
        let start = Found { seen: seen@, queue: queue@, parent: parent@, via: via@, depth, head: 0 };
        assert forall|v: int| 0 <= v < nodes && #[trigger] seen[v] implies exists|k: int|
            0 <= k < queue.len() && #[trigger] queue[k] == v by {
            assert(queue[0] == v);
        }
        assert(start.is_tree(edges@));
        assert(start.is_marked(nodes as int));
        assert(start.is_layered());
        assert(start.is_nearest(edges@, from as int));
        assert(start.is_followed(edges@));
        assert(start.sound(edges@, nodes as int, from as int));
    }
    let mut head: usize = 0;
    while head < queue.len()
        invariant
            from < nodes,
            to < nodes,
            from != to,
            edges_within(edges@, nodes as int),
            links == links_of(edges@),
            (Found { seen: seen@, queue: queue@, parent: parent@, via: via@, depth, head: head as int }).sound(
                edges@,
                nodes as int,
                from as int,
            ),
            unseen.finite(),
            unseen.len() + queue.len() == nodes,
            forall|v: int| unseen.contains(v) <==> 0 <= v < nodes && !seen[v],
            !seen[to as int],
        decreases nodes - head,
    {
        let at: usize = queue[head];
        let mut e: usize = 0;
        while e < edges.len()
            invariant
                from < nodes,
                to < nodes,
                from != to,
                edges_within(edges@, nodes as int),
                links == links_of(edges@),
                (Found {
                    seen: seen@,
                    queue: queue@,
                    parent: parent@,
                    via: via@,
                    depth,
                    head: head as int,
                }).sound(edges@, nodes as int, from as int),
                head < queue.len(),
                at == queue[head as int],
                e <= edges.len(),
                unseen.finite(),
                unseen.len() + queue.len() == nodes,
                forall|v: int| unseen.contains(v) <==> 0 <= v < nodes && !seen[v],
                !seen[to as int],
                forall|d: int|
                    0 <= d < e && (#[trigger] edges[d]).from == at ==> seen[edges[d].to as int],
            decreases edges.len() - e,
        {
            if edges[e].from == at {
                let next: usize = edges[e].to;
                assert(next < nodes);
                if !seen[next] {
                    let ghost was = Found {
                        seen: seen@,
                        queue: queue@,
                        parent: parent@,
                        via: via@,
                        depth,
                        head: head as int,
                    };
                    seen[next] = true;
                    queue.push(next);
                    parent.push(head);
                    via.push(e);
                    proof {
                        depth = depth.push(was.depth[head as int] + 1);
                        assert(unseen.contains(next as int));
                        unseen = unseen.remove(next as int);
                        let now = Found {
                            seen: seen@,
                            queue: queue@,
                            parent: parent@,
                            via: via@,
                            depth,
                            head: head as int,
                        };
                        let last = was.queue.len() as int;
                        assert forall|k: int| 1 <= k < now.queue.len() implies {
                            &&& #[trigger] now.parent[k] < k
                            &&& now.via[k] < edges.len()
                            &&& edges[now.via[k] as int].from == now.queue[now.parent[k] as int]
                            &&& edges[now.via[k] as int].to == now.queue[k]
                            &&& now.depth[k] == now.depth[now.parent[k] as int] + 1
                        } by {
                            if k < last {
                                assert(was.parent[k] < k);
                            }
                        }
                        assert forall|v: int| 0 <= v < nodes && #[trigger] now.seen[v] implies exists|
                            k: int,
                        | 0 <= k < now.queue.len() && #[trigger] now.queue[k] == v by {
                            if v == next {
                                assert(now.queue[last] == v);
                            } else {
                                assert(was.seen[v]);
                                let k = choose|k: int|
                                    0 <= k < was.queue.len() && #[trigger] was.queue[k] == v;
                                assert(now.queue[k] == v);
                            }
                        }
                        assert forall|k: int| 0 <= k < now.queue.len() implies (#[trigger] now.queue[k])
                            < nodes && now.seen[now.queue[k] as int] by {
                            if k < last {
                                assert(now.queue[k] == was.queue[k]);
                            }
                        }
                        assert forall|i: int, j: int| 0 <= i <= j < now.depth.len() implies #[trigger] now.depth[i]
                            <= #[trigger] now.depth[j] by {
                            if j < last {
                                assert(was.depth[i] <= was.depth[j]);
                            } else if i < last {
                                assert(was.depth[i] <= was.depth[head as int] + 1);
                            }
                        }
                        assert forall|j: int|
                            0 <= j < now.depth.len() && 0 <= now.head < now.depth.len() implies #[trigger] now.depth[j]
                            <= now.depth[now.head] + 1 by {
                            if j < last {
                                assert(was.depth[j] <= was.depth[head as int] + 1);
                            }
                        }
                        assert forall|k: int, walk: Seq<int>|
                            0 <= k < now.queue.len() && #[trigger] walks(
                                links,
                                walk,
                                from as int,
                                now.queue[k] as int,
                            ) implies now.depth[k] + 1 <= walk.len() by {
                            if k < last {
                                assert(walks(links, walk, from as int, was.queue[k] as int));
                            } else {
                                if walk.len() - 1 <= was.depth[head as int] {
                                    was.lemma_near_is_seen(edges@, nodes as int, from as int, walk);
                                }
                            }
                        }
                        assert forall|k: int, d: int|
                            0 <= k < now.head && 0 <= d < edges.len() && (#[trigger] edges[d]).from
                                == #[trigger] now.queue[k] implies now.seen[edges[d].to as int] by {
                            assert(now.queue[k] == was.queue[k]);
                        }
                        assert(now.sound(edges@, nodes as int, from as int));
                    }
                    if next == to {
                        let last: usize = queue.len() - 1;
                        let ghost now = Found {
                            seen: seen@,
                            queue: queue@,
                            parent: parent@,
                            via: via@,
                            depth,
                            head: head as int,
                        };
                        let route = trace_back(edges, &queue, &parent, &via, last, Ghost(now));
                        proof {
                            lemma_route_reaches(edges@, route@, from as int, to as int);
                            assert forall|walk: Seq<int>| #[trigger]
                                walks(links, walk, from as int, to as int) implies route.len() + 1
                                <= walk.len() by {
                                assert(walks(links, walk, from as int, now.queue[last as int] as int));
                            }
                        }
                        return Some(route);
                    }
                }
            }
            e += 1;
        }
        proof {
            let was = Found {
                seen: seen@,
                queue: queue@,
                parent: parent@,
                via: via@,
                depth,
                head: head as int,
            };
            let now = Found { head: head + 1, ..was };
            assert forall|k: int, d: int|
                0 <= k < now.head && 0 <= d < edges.len() && (#[trigger] edges[d]).from
                    == #[trigger] now.queue[k] implies now.seen[edges[d].to as int] by {
            }
            assert forall|j: int|
                0 <= j < now.depth.len() && 0 <= now.head < now.depth.len() implies #[trigger] now.depth[j]
                <= now.depth[now.head] + 1 by {
                assert(was.depth[j] <= was.depth[head as int] + 1);
                assert(was.depth[head as int] <= was.depth[head + 1]);
            }
            assert(now.sound(edges@, nodes as int, from as int));
        }
        head += 1;
    }
    proof {
        let found: Set<int> = Set::new(|v: int| 0 <= v < nodes && seen[v]);
        assert(closed_under(links, found)) by {
            assert forall|a: int, b: int| #[trigger]
                links.contains((a, b)) && found.contains(a) implies found.contains(b) by {
                let e = choose|i: int|
                    0 <= i < edges.len() && (#[trigger] edges[i]).from == a && edges[i].to == b;
                let k = choose|k: int| 0 <= k < queue.len() && #[trigger] queue[k] == a;
                assert(edges[e].from == queue[k]);
                assert(seen[edges[e].to as int]);
            }
        }
        assert(found.contains(from as int)) by {
            assert(seen[queue[0] as int]);
        }
        lemma_closed_bounds_reach(links, found, from as int, to as int);
    }
    None
}

} // verus!
