//! The manager of a hub: its channels, the permissions between them, the
//! subscriptions in progress and the subscribers of each channel.

use crate::error::{Error, Hop, HopView};
use crate::graph::{
    acyclic, edge_set, edges_within, is_path, is_route, is_shortest, lemma_links_agree,
    lemma_path_walks, lemma_product_keeps_acyclic, lemma_route_is_path, links_in, links_of,
    product, reaches, route_edges, Edge, EdgeView, Links,
};
use crate::list::{all_below, append_all, holds};
use crate::search::find_route;
use crate::shared::Shared;
use vstd::prelude::*;
use vstd::string::*;

verus! {

/// What a subscriber declares: its name, the channels it listens on and the
/// channels it may emit into.
struct Profile {
    name: String,
    listens: Vec<usize>,
    emits: Vec<usize>,
}

/// The mathematical value of a [`Profile`].
pub struct ProfileView {
    pub name: Seq<char>,
    pub listens: Seq<usize>,
    pub emits: Seq<usize>,
}

impl DeepView for Profile {
    type V = ProfileView;

    closed spec fn deep_view(&self) -> ProfileView {
        ProfileView { name: self.name@, listens: self.listens@, emits: self.emits@ }
    }
}

impl ProfileView {
    /// Every channel named is one of the first `channels`.
    pub open spec fn within(self, channels: int) -> bool {
        &&& forall|i: int| 0 <= i < self.listens.len() ==> #[trigger] self.listens[i] < channels
        &&& forall|j: int| 0 <= j < self.emits.len() ==> #[trigger] self.emits[j] < channels
    }

    /// The edges that the profile asks for: from each channel it listens on
    /// to each channel it may emit into.
    pub open spec fn edges(self) -> Set<EdgeView> {
        Set::new(
            |edge: EdgeView|
                edge.by == self.name && exists|i: int, j: int|
                    0 <= i < self.listens.len() && 0 <= j < self.emits.len()
                        && #[trigger] self.listens[i] == edge.from && #[trigger] self.emits[j]
                        == edge.to,
        )
    }

    /// Every permission that the profile asks for is among `links`.
    pub open spec fn granted(self, links: Links) -> bool {
        forall|i: int, j: int|
            0 <= i < self.listens.len() && 0 <= j < self.emits.len() ==> links.contains(
                (#[trigger] self.listens[i] as int, #[trigger] self.emits[j] as int),
            )
    }
}

/// The mathematical value of a [`Manager`].
pub struct ManagerView {
    /// What tells this manager from another.
    pub id: u64,
    /// The names of the channels; a channel's number is its position.
    pub channels: Seq<Seq<char>>,
    /// The committed permissions.
    pub edges: Set<EdgeView>,
    /// The subscriptions in progress, the innermost last.
    pub scopes: Seq<ProfileView>,
    /// The subscribers approved so far; a subscriber's number is its position.
    pub subscribers: Seq<ProfileView>,
    /// For each channel the subscribers registered in it, in dispatch order.
    pub members: Seq<Seq<usize>>,
}

impl ManagerView {
    /// The committed permission graph.
    pub open spec fn links(self) -> Links {
        links_in(self.edges)
    }

    /// No target of the pair `(i, j)` of the two lists reaches its source.
    pub open spec fn open_pair(self, listens: Seq<usize>, emits: Seq<usize>, i: int, j: int) -> bool {
        !reaches(self.links(), emits[j] as int, listens[i] as int)
    }

    /// Permissions from each of `listens` to each of `emits` would close no
    /// cycle.
    pub open spec fn accepts(self, listens: Seq<usize>, emits: Seq<usize>) -> bool {
        forall|i: int, j: int|
            0 <= i < listens.len() && 0 <= j < emits.len() ==> #[trigger] self.open_pair(
                listens,
                emits,
                i,
                j,
            )
    }

    /// The hops of the cycle that a new subscriber `name` would close by
    /// listening on `listen`, where `path` leads from a channel it may emit
    /// into back to `listen`.
    pub open spec fn cycle_hops(self, name: Seq<char>, listen: int, path: Seq<EdgeView>) -> Seq<
        HopView,
    > {
        seq![HopView { subscriber: name, channel: self.channels[listen] }] + Seq::new(
            path.len(),
            |k: int| HopView { subscriber: path[k].by, channel: self.channels[path[k].from] },
        )
    }

    /// `hops` is a shortest cycle that the pair `(i, j)` would close, and no
    /// pair before it, row by row, would close one.
    pub open spec fn closes_at(
        self,
        name: Seq<char>,
        listens: Seq<usize>,
        emits: Seq<usize>,
        i: int,
        j: int,
        hops: Seq<HopView>,
    ) -> bool {
        &&& 0 <= i < listens.len()
        &&& 0 <= j < emits.len()
        &&& forall|a: int, b: int|
            0 <= a < listens.len() && 0 <= b < emits.len() && (a < i || (a == i && b < j))
                ==> #[trigger] self.open_pair(listens, emits, a, b)
        &&& exists|path: Seq<EdgeView>|
            #![trigger self.cycle_hops(name, listens[i] as int, path)]
            is_path(self.edges, path, emits[j] as int, listens[i] as int) && is_shortest(
                self.edges,
                path,
                emits[j] as int,
                listens[i] as int,
            ) && hops == self.cycle_hops(name, listens[i] as int, path)
    }

    /// `hops` is the cycle that the first pair to close one would close.
    pub open spec fn closes(
        self,
        name: Seq<char>,
        listens: Seq<usize>,
        emits: Seq<usize>,
        hops: Seq<HopView>,
    ) -> bool {
        exists|i: int, j: int| #[trigger] self.closes_at(name, listens, emits, i, j, hops)
    }

    /// The state after the innermost subscription has also proposed to
    /// listen on `listen` and to emit into `emit`.
    pub open spec fn proposing(self, listen: Seq<usize>, emit: Seq<usize>) -> ManagerView {
        let top = self.scopes[self.scopes.len() - 1];
        ManagerView {
            scopes: self.scopes.drop_last().push(
                ProfileView {
                    name: top.name,
                    listens: top.listens + listen,
                    emits: top.emits + emit,
                },
            ),
            ..self
        }
    }

    /// The state after the innermost subscription was closed without a
    /// trace.
    pub open spec fn aborted(self) -> ManagerView {
        ManagerView { scopes: self.scopes.drop_last(), ..self }
    }

    /// The state after the innermost subscription was closed and all it
    /// proposed was committed: its edges are permissions, and its profile is
    /// that of a new subscriber.
    pub open spec fn committed(self) -> ManagerView {
        let top = self.scopes[self.scopes.len() - 1];
        ManagerView {
            scopes: self.scopes.drop_last(),
            edges: self.edges.union(top.edges()),
            subscribers: self.subscribers.push(top),
            ..self
        }
    }

    /// The subscriber `cell` declared to listen on `channel`.
    pub open spec fn listening(self, channel: usize, cell: usize) -> bool {
        &&& cell < self.subscribers.len()
        &&& self.subscribers[cell as int].listens.contains(channel)
    }

    /// The subscriber `cell` was granted to emit into `channel`.
    pub open spec fn grants(self, cell: usize, channel: usize) -> bool {
        &&& cell < self.subscribers.len()
        &&& self.subscribers[cell as int].emits.contains(channel)
    }

    /// The state in which `list` is the list of subscribers of `channel`.
    pub open spec fn enrolling(self, channel: int, list: Seq<usize>) -> ManagerView {
        ManagerView { members: self.members.update(channel, list), ..self }
    }

    /// The subscriber `cell` is registered in the channel `channel`.
    pub open spec fn member(self, channel: int, cell: int) -> bool {
        &&& 0 <= channel < self.members.len()
        &&& exists|k: int|
            0 <= k < self.members[channel].len() && #[trigger] self.members[channel][k] == cell
    }

    /// The subscriber `cell` is registered in some channel.
    pub open spec fn registered(self, cell: int) -> bool {
        exists|channel: int| #[trigger] self.member(channel, cell)
    }

    /// What holds of every manager: channel names are distinct, the
    /// committed graph joins known channels and has no cycle, every
    /// subscriber was granted all it declared, and a subscriber is
    /// registered only where it declared to listen.
    pub open spec fn valid(self) -> bool {
        &&& forall|a: int, b: int|
            0 <= a < b < self.channels.len() ==> #[trigger] self.channels[a]
                != #[trigger] self.channels[b]
        &&& self.members.len() == self.channels.len()
        &&& self.channels.len() <= usize::MAX
        &&& self.subscribers.len() <= usize::MAX
        &&& forall|edge: EdgeView| #[trigger]
            self.edges.contains(edge) ==> 0 <= edge.from < self.channels.len() && 0 <= edge.to
                < self.channels.len()
        &&& acyclic(self.links())
        &&& forall|s: int|
            0 <= s < self.scopes.len() ==> (#[trigger] self.scopes[s]).within(
                self.channels.len() as int,
            )
        &&& forall|p: int|
            0 <= p < self.subscribers.len() ==> (#[trigger] self.subscribers[p]).within(
                self.channels.len() as int,
            ) && self.subscribers[p].granted(self.links())
        &&& forall|c: int, k: int|
            0 <= c < self.members.len() && 0 <= k < self.members[c].len() ==> {
                &&& (#[trigger] self.members[c][k]) < self.subscribers.len()
                &&& self.subscribers[self.members[c][k] as int].listens.contains(c as usize)
            }
    }
}

/// The manager of one hub.
pub struct Manager {
    id: u64,
    names: Vec<String>,
    edges: Vec<Edge>,
    scopes: Vec<Profile>,
    profiles: Vec<Profile>,
    members: Vec<Vec<usize>>,
}

impl View for Manager {
    type V = ManagerView;

    closed spec fn view(&self) -> ManagerView {
        ManagerView {
            id: self.id,
            channels: self.names.deep_view(),
            edges: edge_set(self.edges@),
            scopes: self.scopes.deep_view(),
            subscribers: self.profiles.deep_view(),
            members: self.members.deep_view(),
        }
    }
}

impl Manager {
    /// The manager is in a state that its operations can work on.
    pub open spec fn wf(&self) -> bool {
        self@.valid()
    }

    /// A manager without channels, permissions or subscribers.
    pub fn new(id: u64) -> (manager: Manager)
        ensures
            manager.wf(),
            manager@ == (ManagerView {
                id,
                channels: Seq::empty(),
                edges: Set::empty(),
                scopes: Seq::empty(),
                subscribers: Seq::empty(),
                members: Seq::empty(),
            }),
    {
        let manager = Manager {
            id,
            names: Vec::new(),
            edges: Vec::new(),
            scopes: Vec::new(),
            profiles: Vec::new(),
            members: Vec::new(),
        };
        proof {
            let view = manager@;
            assert(view.channels =~= Seq::empty());
            assert(view.edges =~= Set::empty());
            assert(view.scopes =~= Seq::empty());
            assert(view.subscribers =~= Seq::empty());
            assert(view.members =~= Seq::empty());
            assert(view.links() =~= Set::empty());
        }
        manager
    }

    /// What tells this manager from another.
    pub fn id(&self) -> (id: u64)
        ensures
            id == self@.id,
    {
        self.id
    }

    /// The number of channels.
    pub fn channels(&self) -> (count: usize)
        ensures
            count == self@.channels.len(),
    {
        self.names.len()
    }

    /// The number of subscribers approved so far.
    pub fn subscribers(&self) -> (count: usize)
        ensures
            count == self@.subscribers.len(),
    {
        self.profiles.len()
    }

    /// The number of subscriptions in progress.
    pub fn depth(&self) -> (count: usize)
        ensures
            count == self@.scopes.len(),
    {
        self.scopes.len()
    }

    /// The number of the channel called `name`, which becomes a new channel
    /// without subscribers if there was none of that name.
    pub fn channel(&mut self, name: &str) -> (index: usize)
        requires
            old(self).wf(),
        ensures
            final(self).wf(),
            index < final(self)@.channels.len(),
            final(self)@.channels[index as int] == name@,
            old(self)@.channels.contains(name@) ==> final(self)@
                == old(self)@,
            !old(self)@.channels.contains(name@) ==> final(self)@ == (
            ManagerView {
                channels: old(self)@.channels.push(name@),
                members: old(self)@.members.push(Seq::empty()),
                ..old(self)@
            }),
    {
        let needle = String::from_str(name);
        let mut i: usize = 0;
        while i < self.names.len()
            invariant
                i <= self.names.len(),
                needle@ == name@,
                forall|k: int| 0 <= k < i ==> self@.channels[k] != name@,
                *self == *old(self),
                self.wf(),
            decreases self.names.len() - i,
        {
            if self.names[i] == needle {
                assert(self@.channels[i as int] == name@);
                return i;
            }
            i += 1;
        }
        let ghost before = self@;
        self.names.push(needle);
        self.members.push(Vec::new());
        proof {
            let after = self@;
            assert(after.channels.len() == self.names.len());
            assert(after.channels =~= before.channels.push(name@));
            assert(after.members =~~= before.members.push(Seq::empty()));
            assert(after.scopes == before.scopes);
            assert(after.subscribers == before.subscribers);
            assert(after.edges == before.edges);
            assert forall|c: int, k: int|
                0 <= c < after.members.len() && 0 <= k < after.members[c].len() implies {
                &&& (#[trigger] after.members[c][k]) < after.subscribers.len()
                &&& after.subscribers[after.members[c][k] as int].listens.contains(c as usize)
            } by {
                assert(after.members[c] == before.members[c]);
                assert(before.members[c][k] < before.subscribers.len());
            }
        }
        i
    }

    /// Opens the subscription of a subscriber called `name`, which has
    /// proposed nothing yet.
    pub fn begin_subscription(&mut self, name: &str)
        requires
            old(self).wf(),
        ensures
            final(self).wf(),
            final(self)@ == (ManagerView {
                scopes: old(self)@.scopes.push(
                    ProfileView { name: name@, listens: Seq::empty(), emits: Seq::empty() },
                ),
                ..old(self)@
            }),
    {
        let ghost before = self@;
        self.scopes.push(
            Profile { name: String::from_str(name), listens: Vec::new(), emits: Vec::new() },
        );
        proof {
            let after = self@;
            assert(after.scopes =~= before.scopes.push(
                ProfileView { name: name@, listens: Seq::empty(), emits: Seq::empty() },
            ));
        }
    }

    /// The hops of the cycle that `name` would close by listening on
    /// `listen`, given a route back to it.
    fn hops_along(&self, name: &String, listen: usize, route: &Vec<usize>) -> (hops: Vec<Hop>)
        requires
            self.wf(),
            listen < self.names.len(),
            forall|k: int| 0 <= k < route.len() ==> #[trigger] route[k] < self.edges.len(),
        ensures
            hops.deep_view() == self@.cycle_hops(
                name@,
                listen as int,
                route_edges(self.edges@, route@),
            ),
    {
        let ghost view = self@;
        let ghost path = route_edges(self.edges@, route@);
        let ghost goal = view.cycle_hops(name@, listen as int, path);
        let mut hops: Vec<Hop> = Vec::new();
        hops.push(Hop { subscriber: name.clone(), channel: self.names[listen].clone() });
        let mut k: usize = 0;
        while k < route.len()
            invariant
                k <= route.len(),
                self.wf(),
                view == self@,
                path == route_edges(self.edges@, route@),
                goal == view.cycle_hops(name@, listen as int, path),
                forall|k: int| 0 <= k < route.len() ==> #[trigger] route[k] < self.edges.len(),
                hops.len() == k + 1,
                forall|i: int| 0 <= i < hops.len() ==> (#[trigger] hops[i]).deep_view() == goal[i],
            decreases route.len() - k,
        {
            let edge = &self.edges[route[k]];
            proof {
                assert(edge_set(self.edges@).contains(edge.deep_view()));
                assert(view.edges.contains(edge.deep_view()));
            }
            hops.push(Hop { subscriber: edge.by.clone(), channel: self.names[edge.from].clone() });
            k += 1;
        }
        proof {
            assert(hops.deep_view() =~= goal);
        }
        hops
    }

    /// Looks, pair by pair and row by row, for a permission from one of
    /// `listens` to one of `emits` that would close a cycle.
    pub(crate) fn find_cycle(&self, name: &String, listens: &Vec<usize>, emits: &Vec<usize>) -> (found:
        Option<Vec<Hop>>)
        requires
            self.wf(),
            (ProfileView { name: name@, listens: listens@, emits: emits@ }).within(
                self@.channels.len() as int,
            ),
        ensures
            found is None <==> self@.accepts(listens@, emits@),
            found matches Some(hops) ==> self@.closes(
                name@,
                listens@,
                emits@,
                hops.deep_view(),
            ),
    {
        let ghost view = self@;
        proof {
            let profile = ProfileView { name: name@, listens: listens@, emits: emits@ };
            assert forall|a: int| 0 <= a < listens.len() implies #[trigger] listens[a]
                < self.names.len() by {
                assert(profile.listens[a] < self.names.len());
            }
            assert forall|b: int| 0 <= b < emits.len() implies #[trigger] emits[b]
                < self.names.len() by {
                assert(profile.emits[b] < self.names.len());
            }
            lemma_links_agree(self.edges@);
            assert forall|i: int| 0 <= i < self.edges.len() implies (#[trigger] self.edges[i]).from
                < self.names.len() && self.edges[i].to < self.names.len() by {
                assert(view.edges.contains(self.edges[i].deep_view()));
            }
        }
        let mut i: usize = 0;
        while i < listens.len()
            invariant
                i <= listens.len(),
                self.wf(),
                view == self@,
                view.links() == links_of(self.edges@),
                edges_within(self.edges@, self.names.len() as int),
                forall|a: int| 0 <= a < listens.len() ==> #[trigger] listens[a] < self.names.len(),
                forall|b: int| 0 <= b < emits.len() ==> #[trigger] emits[b] < self.names.len(),
                forall|a: int, b: int|
                    0 <= a < i && 0 <= b < emits.len() ==> #[trigger] view.open_pair(
                        listens@,
                        emits@,
                        a,
                        b,
                    ),
            decreases listens.len() - i,
        {
            let mut j: usize = 0;
            while j < emits.len()
                invariant
                    i < listens.len(),
                    j <= emits.len(),
                    self.wf(),
                    view == self@,
                    view.links() == links_of(self.edges@),
                    edges_within(self.edges@, self.names.len() as int),
                    forall|a: int| 0 <= a < listens.len() ==> #[trigger] listens[a] < self.names.len(),
                    forall|b: int| 0 <= b < emits.len() ==> #[trigger] emits[b] < self.names.len(),
                    forall|a: int, b: int|
                        0 <= a < listens.len() && 0 <= b < emits.len() && (a < i || (a == i && b
                            < j)) ==> #[trigger] view.open_pair(listens@, emits@, a, b),
                decreases emits.len() - j,
            {
                match find_route(&self.edges, self.names.len(), emits[j], listens[i]) {
                    Some(route) => {
                        let hops = self.hops_along(name, listens[i], &route);
                        proof {
                            let path = route_edges(self.edges@, route@);
                            lemma_route_is_path(
                                self.edges@,
                                route@,
                                emits[j as int] as int,
                                listens[i as int] as int,
                            );
                            assert forall|other: Seq<EdgeView>| #[trigger]
                                is_path(
                                    view.edges,
                                    other,
                                    emits[j as int] as int,
                                    listens[i as int] as int,
                                ) implies path.len() <= other.len() by {
                                lemma_path_walks(
                                    view.edges,
                                    other,
                                    emits[j as int] as int,
                                    listens[i as int] as int,
                                );
                            }
                            assert(hops.deep_view() == view.cycle_hops(
                                name@,
                                listens[i as int] as int,
                                path,
                            ));
                            assert(view.closes_at(
                                name@,
                                listens@,
                                emits@,
                                i as int,
                                j as int,
                                hops.deep_view(),
                            ));
                            assert(!view.open_pair(listens@, emits@, i as int, j as int));
                        }
                        return Some(hops);
                    },
                    None => {
                        assert(view.open_pair(listens@, emits@, i as int, j as int));
                    },
                }
                j += 1;
            }
            i += 1;
        }
        None
    }
}

/// Whether `edges` holds an edge from `from` to `to` by `by`.
fn has_edge(edges: &Vec<Edge>, from: usize, to: usize, by: &String) -> (found: bool)
    ensures
        found == edge_set(edges@).contains(EdgeView { from: from as int, to: to as int, by: by@ }),
{
    let ghost wanted = EdgeView { from: from as int, to: to as int, by: by@ };
    let mut k: usize = 0;
    while k < edges.len()
        invariant
            k <= edges.len(),
            wanted == (EdgeView { from: from as int, to: to as int, by: by@ }),
            forall|i: int| 0 <= i < k ==> (#[trigger] edges[i]).deep_view() != wanted,
        decreases edges.len() - k,
    {
        if edges[k].from == from && edges[k].to == to && edges[k].by == *by {
            assert(edges[k as int].deep_view() == wanted);
            return true;
        }
        k += 1;
    }
    false
}

/// The edges of `profile` for the pairs before `(i, j)`, row by row.
spec fn edges_before(profile: ProfileView, i: int, j: int) -> Set<EdgeView> {
    Set::new(
        |edge: EdgeView|
            edge.by == profile.name && exists|a: int, b: int|
                0 <= a < profile.listens.len() && 0 <= b < profile.emits.len() && (a < i || (a
                    == i && b < j)) && #[trigger] profile.listens[a] == edge.from
                    && #[trigger] profile.emits[b] == edge.to,
    )
}

/// The channels of a list, as a set of graph nodes.
pub open spec fn nodes_of(list: Seq<usize>) -> Set<int> {
    Set::new(|node: int| exists|k: int| 0 <= k < list.len() && #[trigger] list[k] == node)
}

/// Committing a profile adds the product of its two lists to the graph.
pub proof fn lemma_commit_links(edges: Set<EdgeView>, profile: ProfileView)
    ensures
        links_in(edges.union(profile.edges())) == links_in(edges).union(
            product(nodes_of(profile.listens), nodes_of(profile.emits)),
        ),
{
    let a = links_in(edges.union(profile.edges()));
    let b = links_in(edges).union(product(nodes_of(profile.listens), nodes_of(profile.emits)));
    assert forall|link: (int, int)| a.contains(link) <==> b.contains(link) by {
        if a.contains(link) {
            let by = choose|by: Seq<char>|
                edges.union(profile.edges()).contains(EdgeView { from: link.0, to: link.1, by });
            let edge = EdgeView { from: link.0, to: link.1, by };
            if edges.contains(edge) {
                assert(links_in(edges).contains(link));
            } else {
                assert(profile.edges().contains(edge));
                let (i, j) = choose|i: int, j: int|
                    0 <= i < profile.listens.len() && 0 <= j < profile.emits.len()
                        && #[trigger] profile.listens[i] == edge.from
                        && #[trigger] profile.emits[j] == edge.to;
                assert(nodes_of(profile.listens).contains(link.0));
                assert(nodes_of(profile.emits).contains(link.1));
            }
        }
        if b.contains(link) {
            if links_in(edges).contains(link) {
                let by = choose|by: Seq<char>|
                    edges.contains(EdgeView { from: link.0, to: link.1, by });
                assert(edges.union(profile.edges()).contains(
                    EdgeView { from: link.0, to: link.1, by },
                ));
            } else {
                let i = choose|k: int|
                    0 <= k < profile.listens.len() && #[trigger] profile.listens[k] == link.0;
                let j = choose|k: int|
                    0 <= k < profile.emits.len() && #[trigger] profile.emits[k] == link.1;
                let edge = EdgeView { from: link.0, to: link.1, by: profile.name };
                assert(profile.listens[i] == edge.from && profile.emits[j] == edge.to);
                assert(profile.edges().contains(edge));
                assert(edges.union(profile.edges()).contains(edge));
            }
        }
    }
    assert(a =~= b);
}

impl ManagerView {
    /// A valid state stays valid when the innermost subscription is
    /// committed, provided that it would close no cycle.
    pub proof fn lemma_commit_valid(self)
        requires
            self.valid(),
            self.scopes.len() > 0,
            self.subscribers.len() < usize::MAX,
            self.accepts(
                self.scopes[self.scopes.len() - 1].listens,
                self.scopes[self.scopes.len() - 1].emits,
            ),
        ensures
            self.committed().valid(),
    {
        let top = self.scopes[self.scopes.len() - 1];
        let after = self.committed();
        let sources = nodes_of(top.listens);
        let targets = nodes_of(top.emits);
        lemma_commit_links(self.edges, top);
        assert(top.within(self.channels.len() as int));
        assert forall|s: int, t: int| sources.contains(s) && targets.contains(t) implies !#[trigger] reaches(
            self.links(),
            t,
            s,
        ) by {
            let i = choose|k: int| 0 <= k < top.listens.len() && #[trigger] top.listens[k] == s;
            let j = choose|k: int| 0 <= k < top.emits.len() && #[trigger] top.emits[k] == t;
            assert(self.open_pair(top.listens, top.emits, i, j));
        }
        lemma_product_keeps_acyclic(self.links(), sources, targets);
        assert forall|edge: EdgeView| #[trigger] after.edges.contains(edge) implies 0 <= edge.from
            < after.channels.len() && 0 <= edge.to < after.channels.len() by {
            if !self.edges.contains(edge) {
                let (i, j) = choose|i: int, j: int|
                    0 <= i < top.listens.len() && 0 <= j < top.emits.len()
                        && #[trigger] top.listens[i] == edge.from && #[trigger] top.emits[j]
                        == edge.to;
            }
        }
        assert forall|s: int| 0 <= s < after.scopes.len() implies (#[trigger] after.scopes[s]).within(
            after.channels.len() as int,
        ) by {
            assert(after.scopes[s] == self.scopes[s]);
        }
        assert forall|p: int| 0 <= p < after.subscribers.len() implies (#[trigger] after.subscribers[p]).within(
            after.channels.len() as int,
        ) && after.subscribers[p].granted(after.links()) by {
            if p < self.subscribers.len() {
                assert(after.subscribers[p] == self.subscribers[p]);
                assert(self.subscribers[p].granted(self.links()));
            } else {
                assert(after.subscribers[p] == top);
                assert forall|i: int, j: int|
                    0 <= i < top.listens.len() && 0 <= j < top.emits.len() implies after.links().contains(
                    (#[trigger] top.listens[i] as int, #[trigger] top.emits[j] as int),
                ) by {
                    assert(sources.contains(top.listens[i] as int));
                    assert(targets.contains(top.emits[j] as int));
                }
            }
        }
        assert forall|c: int, k: int|
            0 <= c < after.members.len() && 0 <= k < after.members[c].len() implies {
            &&& (#[trigger] after.members[c][k]) < after.subscribers.len()
            &&& after.subscribers[after.members[c][k] as int].listens.contains(c as usize)
        } by {
            assert(self.members[c][k] < self.subscribers.len());
            assert(after.subscribers[self.members[c][k] as int] == self.subscribers[self.members[c][k] as int]);
        }
    }
}

impl Manager {
    /// Adds to what the innermost subscription proposes: permissions from
    /// each channel it listens on to each channel it may emit into, those
    /// proposed before included. Fails with the cycle if one of them would
    /// close one. The committed graph stays as it is either way.
    pub fn propose_edges(&mut self, listen: &Vec<usize>, emit: &Vec<usize>) -> (r: Result<
        (),
        Error,
    >)
        requires
            old(self).wf(),
        ensures
            final(self).wf(),
            r matches Err(Error::InactiveScope) <==> old(self)@.scopes.len() == 0 || !(
            ProfileView { name: Seq::empty(), listens: listen@, emits: emit@ }).within(
                old(self)@.channels.len() as int,
            ),
            r matches Err(Error::InactiveScope) ==> final(self)@ == old(self)@,
            !(r matches Err(Error::InactiveScope)) ==> {
                let after = old(self)@.proposing(listen@, emit@);
                let top = after.scopes[after.scopes.len() - 1];
                &&& final(self)@ == after
                &&& r is Ok <==> after.accepts(top.listens, top.emits)
                &&& r matches Err(error) ==> error matches Error::CycleDetected(hops)
                    && after.closes(top.name, top.listens, top.emits, hops.deep_view())
            },
    {
        let ghost before = self@;
        let ghost asked = ProfileView { name: Seq::empty(), listens: listen@, emits: emit@ };
        if self.scopes.len() == 0 {
            return Err(Error::InactiveScope);
        }
        let count = self.names.len();
        if !all_below(listen, count) || !all_below(emit, count) {
            proof {
                if asked.within(count as int) {
                    assert forall|k: int| 0 <= k < listen.len() implies #[trigger] listen[k] < count by {
                        assert(asked.listens[k] < count);
                    }
                    assert forall|k: int| 0 <= k < emit.len() implies #[trigger] emit[k] < count by {
                        assert(asked.emits[k] < count);
                    }
                }
            }
            return Err(Error::InactiveScope);
        }
        let last = self.scopes.len() - 1;
        let mut top = self.scopes.pop().unwrap();
        append_all(&mut top.listens, listen);
        append_all(&mut top.emits, emit);
        self.scopes.push(top);
        proof {
            let after = self@;
            let goal = before.proposing(listen@, emit@);
            assert(after.scopes =~= goal.scopes);
            assert(after == goal);
            assert(before.scopes[last as int].within(count as int));
            assert forall|s: int| 0 <= s < after.scopes.len() implies (#[trigger] after.scopes[s]).within(
                count as int,
            ) by {
                if s < last {
                    assert(after.scopes[s] == before.scopes[s]);
                }
            }
        }
        let scope = &self.scopes[last];
        match self.find_cycle(&scope.name, &scope.listens, &scope.emits) {
            Some(hops) => Err(Error::CycleDetected(hops)),
            None => Ok(()),
        }
    }

    /// Closes the innermost subscription. If all it proposed closes no
    /// cycle, that is committed to the graph, and the subscriber is approved
    /// and gets its handle; otherwise nothing is committed, and the cycle is
    /// the error.
    pub fn end_subscription(&mut self) -> (r: Result<Shared, Error>)
        requires
            old(self).wf(),
        ensures
            final(self).wf(),
            r matches Err(Error::InactiveScope) <==> old(self)@.scopes.len() == 0,
            r matches Err(Error::InactiveScope) ==> final(self)@ == old(self)@,
            !(r matches Err(Error::InactiveScope)) ==> {
                let before = old(self)@;
                let top = before.scopes[before.scopes.len() - 1];
                &&& r is Ok <==> before.accepts(top.listens, top.emits)
                &&& r matches Ok(shared) ==> shared == (Shared {
                    manager: before.id,
                    index: before.subscribers.len() as usize,
                }) && final(self)@ == before.committed()
                &&& r matches Err(error) ==> error matches Error::CycleDetected(hops)
                    && before.closes(top.name, top.listens, top.emits, hops.deep_view())
                    && final(self)@ == before.aborted()
            },
    {
        let ghost before = self@;
        if self.scopes.len() == 0 {
            return Err(Error::InactiveScope);
        }
        let ghost last = self.scopes.len() - 1;
        let scope = self.scopes.pop().unwrap();
        let ghost top = scope.deep_view();
        proof {
            assert(top == before.scopes[last]);
            assert(self@.scopes =~= before.scopes.drop_last());
            assert(self@ == before.aborted());
            assert(top.within(before.channels.len() as int));
            let popped = self@;
            assert forall|s: int| 0 <= s < popped.scopes.len() implies (#[trigger] popped.scopes[s]).within(
                before.channels.len() as int,
            ) by {
                assert(self@.scopes[s] == before.scopes[s]);
            }
            assert(self.wf());
            assert(before.aborted().links() == before.links());
        }
        match self.find_cycle(&scope.name, &scope.listens, &scope.emits) {
            Some(hops) => {
                proof {
                    assert(before.aborted().closes(
                        top.name,
                        top.listens,
                        top.emits,
                        hops.deep_view(),
                    ));
                    lemma_closes_frame(
                        before.aborted(),
                        before,
                        top.name,
                        top.listens,
                        top.emits,
                        hops.deep_view(),
                    );
                    lemma_accepts_frame(before.aborted(), before, top.listens, top.emits);
                }
                return Err(Error::CycleDetected(hops));
            },
            None => {},
        }
        proof {
            lemma_accepts_frame(before.aborted(), before, top.listens, top.emits);
        }
        let ghost old_edges = self.edges@;
        let mut i: usize = 0;
        while i < scope.listens.len()
            invariant
                i <= scope.listens.len(),
                top == scope.deep_view(),
                edge_set(self.edges@) == before.edges.union(edges_before(top, i as int, 0)),
                self.id == old(self).id,
                self.names == old(self).names,
                self.profiles == old(self).profiles,
                self.members == old(self).members,
                self.scopes.deep_view() == before.scopes.drop_last(),
            decreases scope.listens.len() - i,
        {
            let mut j: usize = 0;
            while j < scope.emits.len()
                invariant
                    i < scope.listens.len(),
                    j <= scope.emits.len(),
                    top == scope.deep_view(),
                    edge_set(self.edges@) == before.edges.union(edges_before(top, i as int, j as int)),
                    self.id == old(self).id,
                    self.names == old(self).names,
                    self.profiles == old(self).profiles,
                    self.members == old(self).members,
                    self.scopes.deep_view() == before.scopes.drop_last(),
                decreases scope.emits.len() - j,
            {
                let ghost pushed = self.edges@;
                let ghost value = EdgeView {
                    from: scope.listens[i as int] as int,
                    to: scope.emits[j as int] as int,
                    by: scope.name@,
                };
                if !has_edge(&self.edges, scope.listens[i], scope.emits[j], &scope.name) {
                    self.edges.push(
                        Edge { from: scope.listens[i], to: scope.emits[j], by: scope.name.clone() },
                    );
                }
                proof {
                    let now = edge_set(self.edges@);
                    let goal = before.edges.union(edges_before(top, i as int, j + 1));
                    assert forall|e: EdgeView| now.contains(e) <==> goal.contains(e) by {
                        if now.contains(e) {
                            let k = choose|k: int|
                                0 <= k < self.edges@.len() && (
                                #[trigger] self.edges@[k]).deep_view() == e;
                            if k < pushed.len() {
                                assert(pushed[k].deep_view() == e);
                                assert(edge_set(pushed).contains(e));
                            } else {
                                assert(e == value);
                                assert(top.listens[i as int] == e.from && top.emits[j as int] == e.to);
                                assert(edges_before(top, i as int, j + 1).contains(e));
                            }
                        }
                        if goal.contains(e) {
                            if edge_set(pushed).contains(e) {
                                let k = choose|k: int|
                                    0 <= k < pushed.len() && (#[trigger] pushed[k]).deep_view()
                                        == e;
                                assert(self.edges@[k].deep_view() == e);
                            } else {
                                let (a, b) = choose|a: int, b: int|
                                    0 <= a < top.listens.len() && 0 <= b < top.emits.len() && (a < i || (a
                                        == i && b < j + 1)) && #[trigger] top.listens[a] == e.from
                                        && #[trigger] top.emits[b] == e.to;
                                if a < i || (a == i && b < j) {
                                    assert(edges_before(top, i as int, j as int).contains(e));
                                } else {
                                    assert(e == value);
                                    if self.edges@.len() > pushed.len() {
                                        assert(self.edges@[pushed.len() as int].deep_view() == e);
                                    } else {
                                        assert(edge_set(pushed).contains(e));
                                    }
                                }
                            }
                        }
                    }
                    assert(now =~= goal);
                }
                j += 1;
            }
            proof {
                assert(edges_before(top, i as int, scope.emits.len() as int) =~= edges_before(top, i + 1, 0));
            }
            i += 1;
        }
        let index = self.profiles.len();
        self.profiles.push(scope);
        proof {
            assert(edges_before(top, top.listens.len() as int, 0) =~= top.edges());
            let after = self@;
            let goal = before.committed();
            assert(after.subscribers =~= goal.subscribers);
            assert(after.scopes =~= goal.scopes);
            assert(after == goal);
            assert(after.subscribers.len() == self.profiles.len());
            before.lemma_commit_valid();
        }
        Ok(Shared { manager: self.id, index })
    }
}

/// Whether a list of pairs closes a cycle depends on the graph alone.
pub proof fn lemma_accepts_frame(a: ManagerView, b: ManagerView, listens: Seq<usize>, emits: Seq<usize>)
    requires
        a.edges == b.edges,
    ensures
        a.accepts(listens, emits) == b.accepts(listens, emits),
{
    assert forall|i: int, j: int|
        a.open_pair(listens, emits, i, j) == b.open_pair(listens, emits, i, j) by {
    }
    if a.accepts(listens, emits) {
        assert forall|i: int, j: int|
            0 <= i < listens.len() && 0 <= j < emits.len() implies #[trigger] b.open_pair(
            listens,
            emits,
            i,
            j,
        ) by {
            assert(a.open_pair(listens, emits, i, j));
        }
    }
    if b.accepts(listens, emits) {
        assert forall|i: int, j: int|
            0 <= i < listens.len() && 0 <= j < emits.len() implies #[trigger] a.open_pair(
            listens,
            emits,
            i,
            j,
        ) by {
            assert(b.open_pair(listens, emits, i, j));
        }
    }
}

/// Which cycle is reported depends on the graph and the channel names alone.
pub proof fn lemma_closes_frame(
    a: ManagerView,
    b: ManagerView,
    name: Seq<char>,
    listens: Seq<usize>,
    emits: Seq<usize>,
    hops: Seq<HopView>,
)
    requires
        a.edges == b.edges,
        a.channels == b.channels,
        a.closes(name, listens, emits, hops),
    ensures
        b.closes(name, listens, emits, hops),
{
    let (i, j) = choose|i: int, j: int| #[trigger] a.closes_at(name, listens, emits, i, j, hops);
    let path = choose|path: Seq<EdgeView>|
        #![trigger a.cycle_hops(name, listens[i] as int, path)]
        is_path(a.edges, path, emits[j] as int, listens[i] as int) && is_shortest(
            a.edges,
            path,
            emits[j] as int,
            listens[i] as int,
        ) && hops == a.cycle_hops(name, listens[i] as int, path);
    assert(hops == b.cycle_hops(name, listens[i] as int, path));
    assert forall|x: int, y: int|
        0 <= x < listens.len() && 0 <= y < emits.len() && (x < i || (x == i && y < j))
        implies #[trigger] b.open_pair(listens, emits, x, y) by {
        assert(a.open_pair(listens, emits, x, y));
    }
    assert(b.closes_at(name, listens, emits, i, j, hops));
}

impl ManagerView {
    /// What a subscriber listens on and what it may emit into are joined in
    /// the committed graph.
    pub proof fn lemma_link(self, cell: usize, listen: usize, emit: usize)
        requires
            self.valid(),
            self.listening(listen, cell),
            self.grants(cell, emit),
        ensures
            self.links().contains((listen as int, emit as int)),
    {
        let profile = self.subscribers[cell as int];
        let i = choose|i: int| 0 <= i < profile.listens.len() && profile.listens[i] == listen;
        let j = choose|j: int| 0 <= j < profile.emits.len() && profile.emits[j] == emit;
        assert(profile.granted(self.links()));
        assert(self.links().contains((profile.listens[i] as int, profile.emits[j] as int)));
    }

    /// A member of a channel declared to listen on it.
    pub proof fn lemma_member_listens(self, channel: int, cell: int)
        requires
            self.valid(),
            self.member(channel, cell),
        ensures
            0 <= cell < self.subscribers.len(),
            0 <= channel < self.channels.len(),
            self.listening(channel as usize, cell as usize),
    {
        let k = choose|k: int|
            0 <= k < self.members[channel].len() && #[trigger] self.members[channel][k] == cell;
        assert(self.members[channel][k] < self.subscribers.len());
        let profile = self.subscribers[cell];
        assert(profile.within(self.channels.len() as int));
    }
}

impl Manager {
    /// The name of the channel numbered `channel`.
    pub fn channel_name(&self, channel: usize) -> (name: Option<String>)
        ensures
            name is Some <==> channel < self@.channels.len(),
            name matches Some(text) ==> text@ == self@.channels[channel as int],
    {
        if channel < self.names.len() {
            Some(self.names[channel].clone())
        } else {
            None
        }
    }

    /// The subscribers of the channel numbered `channel`, in dispatch order,
    /// if there is such a channel.
    pub fn members(&self, channel: usize) -> (list: Option<&Vec<usize>>)
        ensures
            list is Some <==> channel < self@.members.len(),
            list matches Some(members) ==> members@ == self@.members[channel as int],
    {
        if channel < self.members.len() {
            let list = &self.members[channel];
            proof {
                assert(list@ =~= self@.members[channel as int]);
            }
            Some(list)
        } else {
            None
        }
    }

    /// The subscribers of the channel numbered `channel`, in dispatch order.
    pub(crate) fn members_of(&self, channel: usize) -> (list: &Vec<usize>)
        requires
            self.wf(),
            channel < self@.channels.len(),
        ensures
            list@ == self@.members[channel as int],
    {
        let list = &self.members[channel];
        proof {
            assert(list@ =~= self@.members[channel as int]);
        }
        list
    }

    /// The channels that the subscriber numbered `cell` declared to listen on.
    pub(crate) fn listens_of(&self, cell: usize) -> (list: &Vec<usize>)
        requires
            cell < self@.subscribers.len(),
        ensures
            list@ == self@.subscribers[cell as int].listens,
    {
        &self.profiles[cell].listens
    }

    /// The channels that the subscriber numbered `cell` may emit into.
    pub(crate) fn emits_of(&self, cell: usize) -> (list: &Vec<usize>)
        requires
            cell < self@.subscribers.len(),
        ensures
            list@ == self@.subscribers[cell as int].emits,
    {
        &self.profiles[cell].emits
    }

    /// Whether the subscriber numbered `cell` was granted to emit into the
    /// channel numbered `channel`.
    pub fn is_granted(&self, cell: usize, channel: usize) -> (granted: bool)
        ensures
            granted == self@.grants(cell, channel),
    {
        if cell < self.profiles.len() {
            holds(self.emits_of(cell), channel)
        } else {
            false
        }
    }

    /// Whether the subscriber numbered `cell` is registered in the channel
    /// numbered `channel`.
    pub fn is_member(&self, channel: usize, cell: usize) -> (found: bool)
        requires
            self.wf(),
        ensures
            found == self@.member(channel as int, cell as int),
    {
        if channel >= self.members.len() {
            return false;
        }
        let list = self.members_of(channel);
        holds(list, cell)
    }

    /// Whether the subscriber numbered `cell` is registered in any channel.
    pub fn is_registered(&self, cell: usize) -> (found: bool)
        requires
            self.wf(),
        ensures
            found == self@.registered(cell as int),
    {
        let ghost view = self@;
        if cell >= self.profiles.len() {
            proof {
                if view.registered(cell as int) {
                    let channel = choose|channel: int| #[trigger] view.member(channel, cell as int);
                    view.lemma_member_listens(channel, cell as int);
                }
            }
            return false;
        }
        let listens = self.listens_of(cell);
        let mut k: usize = 0;
        while k < listens.len()
            invariant
                k <= listens.len(),
                self.wf(),
                view == self@,
                cell < view.subscribers.len(),
                listens@ == view.subscribers[cell as int].listens,
                forall|i: int| 0 <= i < k ==> !view.member(#[trigger] listens[i] as int, cell as int),
            decreases listens.len() - k,
        {
            if self.is_member(listens[k], cell) {
                return true;
            }
            k += 1;
        }
        proof {
            if view.registered(cell as int) {
                let channel = choose|channel: int| #[trigger] view.member(channel, cell as int);
                view.lemma_member_listens(channel, cell as int);
                assert(view.channels.len() == self.names.len());
                let i = choose|i: int| 0 <= i < listens.len() && listens[i] == channel as usize;
                assert(listens[i] as int == channel);
                assert(!view.member(listens[i] as int, cell as int));
            }
        }
        false
    }

    /// Makes `list` the list of subscribers of the channel numbered
    /// `channel`.
    pub(crate) fn enroll(&mut self, channel: usize, list: Vec<usize>)
        requires
            old(self).wf(),
            channel < old(self)@.channels.len(),
            forall|k: int|
                0 <= k < list.len() ==> old(self)@.listening(channel, #[trigger] list[k]),
        ensures
            final(self).wf(),
            final(self)@ == old(self)@.enrolling(channel as int, list@),
    {
        let ghost before = self@;
        let ghost items = list@;
        self.members[channel] = list;
        proof {
            let after = self@;
            let goal = before.enrolling(channel as int, items);
            assert(after.members =~~= goal.members);
            assert(after == goal);
            assert forall|c: int, k: int|
                0 <= c < after.members.len() && 0 <= k < after.members[c].len() implies {
                &&& (#[trigger] after.members[c][k]) < after.subscribers.len()
                &&& after.subscribers[after.members[c][k] as int].listens.contains(c as usize)
            } by {
                if c == channel {
                    assert(before.listening(channel, items[k]));
                } else {
                    assert(after.members[c] == before.members[c]);
                    assert(before.members[c][k] < before.subscribers.len());
                }
            }
        }
    }
}

impl ManagerView {
    /// Who is a member of which channel once `list` is the list of
    /// `channel`.
    pub proof fn lemma_enrolling_member(self, channel: int, list: Seq<usize>, other: int, cell: int)
        requires
            0 <= channel < self.members.len(),
        ensures
            self.enrolling(channel, list).member(other, cell) == if other == channel {
                exists|k: int| 0 <= k < list.len() && #[trigger] list[k] == cell
            } else {
                self.member(other, cell)
            },
    {
        let after = self.enrolling(channel, list);
        if other == channel {
            assert(after.members[other] == list);
        } else if 0 <= other < self.members.len() {
            assert(after.members[other] == self.members[other]);
        }
    }

    /// A subscriber that is registered in the same channels in two states
    /// is registered in both or in neither.
    pub proof fn lemma_registered_alike(self, other: ManagerView, cell: int)
        requires
            forall|channel: int| self.member(channel, cell) == other.member(channel, cell),
        ensures
            self.registered(cell) == other.registered(cell),
    {
        if self.registered(cell) {
            let channel = choose|channel: int| #[trigger] self.member(channel, cell);
            assert(other.member(channel, cell));
        }
        if other.registered(cell) {
            let channel = choose|channel: int| #[trigger] other.member(channel, cell);
            assert(self.member(channel, cell));
        }
    }
}

} // verus!
