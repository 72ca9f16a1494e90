//! How a subscriber comes into a hub and leaves it.

use crate::error::Error;
use crate::list::{lemma_take_next, lemma_without, others, without};
use crate::manager::{Manager, ManagerView, ProfileView};
use crate::shared::{Cells, CellsView, Shared};
use crate::topic::Topic;
use vstd::prelude::*;

verus! {

/// What a new subscriber is built with: views of the channels that it was
/// granted to emit into, and of no other.
#[derive(Debug, PartialEq, Eq)]
pub struct Node {
    pub topics: Vec<Topic>,
}

/// The node of a subscriber that emits into no channel.
#[derive(Debug, PartialEq, Eq)]
pub struct Null;

impl<T> From<&T> for Null {
    fn from(hub: &T) -> (null: Null) {
        Null
    }
}

impl<T> vstd::std_specs::convert::FromSpecImpl<&T> for Null {
    open spec fn obeys_from_spec() -> bool {
        true
    }

    open spec fn from_spec(hub: &T) -> Null {
        Null
    }
}

/// What makes the instance of a subscriber that was approved, from the
/// node that grants it its channels.
pub trait Builder<T>: Sized {
    /// What building may make of the builder (`self` before, `after` after)
    /// and which instance it may give for a node with the views `granted`.
    /// An implementation that does not say leaves all of it open.
    open spec fn built(self, after: Self, granted: Seq<Topic>, instance: T) -> bool {
        true
    }

    /// Makes the instance.
    fn build(&mut self, node: Node) -> (instance: T)
        ensures
            old(self).built(*final(self), node.topics@, instance),
    ;
}

/// A builder that makes every instance a copy of one value, whatever the
/// node, and counts the instances it has made.
pub struct Stamp<T: Copy> {
    pub pattern: T,
    pub made: usize,
}

impl<T: Copy> Builder<T> for Stamp<T> {
    open spec fn built(self, after: Self, granted: Seq<Topic>, instance: T) -> bool {
        &&& instance == self.pattern
        &&& after.pattern == self.pattern
        &&& after.made == if self.made < usize::MAX {
            self.made + 1
        } else {
            self.made as int
        }
    }

    fn build(&mut self, node: Node) -> (instance: T) {
        if self.made < usize::MAX {
            self.made = self.made + 1;
        }
        self.pattern
    }
}

/// The numbers of the channels of a list of views.
pub open spec fn indices(topics: Seq<Topic>) -> Seq<usize> {
    topics.map_values(|topic: Topic| topic.index)
}

/// Every view of the list is of a channel of the manager in the state
/// `manager`.
pub open spec fn all_owned(topics: Seq<Topic>, manager: ManagerView) -> bool {
    forall|k: int| 0 <= k < topics.len() ==> (#[trigger] topics[k]).owned_by(manager)
}

/// The numbers of the channels of `topics`, if all of them are of `manager`.
fn numbers(topics: &Vec<Topic>, manager: &Manager) -> (list: Option<Vec<usize>>)
    ensures
        list is Some <==> all_owned(topics@, manager@),
        list matches Some(numbers) ==> numbers@ == indices(topics@),
{
    let mut list: Vec<usize> = Vec::new();
    let mut k: usize = 0;
    while k < topics.len()
        invariant
            k <= topics.len(),
            list@ == indices(topics@.take(k as int)),
            all_owned(topics@.take(k as int), manager@),
        decreases topics.len() - k,
    {
        if !topics[k].is_owned_by(manager) {
            return None;
        }
        list.push(topics[k].index);
        proof {
            assert(topics@.take(k + 1) =~= topics@.take(k as int).push(topics[k as int]));
            assert(list@ =~= indices(topics@.take(k + 1)));
        }
        k += 1;
    }
    proof {
        assert(topics@.take(topics.len() as int) =~= topics@);
    }
    Some(list)
}

impl ManagerView {
    /// The state after a subscriber with the profile `profile` was approved:
    /// its edges are permissions, and it is the newest subscriber.
    pub open spec fn approving(self, profile: ProfileView) -> ManagerView {
        ManagerView {
            edges: self.edges.union(profile.edges()),
            subscribers: self.subscribers.push(profile),
            ..self
        }
    }
}

/// Approves a subscriber called `name` that listens on `listen` and may emit
/// into `emit`: checks that this closes no cycle, commits the permissions,
/// and returns the handle of the subscriber and the node to build it
/// with. A subscription that is rejected leaves the manager as it was.
pub fn approve(manager: &mut Manager, name: &str, listen: &Vec<Topic>, emit: &Vec<Topic>) -> (r:
    Result<(Shared, Node), Error>)
    requires
        old(manager).wf(),
    ensures
        final(manager).wf(),
        r matches Err(Error::InactiveScope) <==> !(all_owned(listen@, old(manager)@)
            && all_owned(emit@, old(manager)@)),
        r is Ok <==> all_owned(listen@, old(manager)@) && all_owned(
            emit@,
            old(manager)@,
        ) && old(manager)@.accepts(indices(listen@), indices(emit@)),
        r matches Err(error) ==> final(manager)@ == old(manager)@ && (error
            == Error::InactiveScope || (error matches Error::CycleDetected(hops) && old(
            manager,
        )@.closes(name@, indices(listen@), indices(emit@), hops.deep_view()))),
        r matches Ok((shared, node)) ==> {
            &&& shared == (Shared {
                manager: old(manager)@.id,
                index: old(manager)@.subscribers.len() as usize,
            })
            &&& node.topics@ == emit@
            &&& final(manager)@ == old(manager)@.approving(
                ProfileView { name: name@, listens: indices(listen@), emits: indices(emit@) },
            )
        },
{
    let ghost before = manager@;
    let listens = match numbers(listen, manager) {
        Some(list) => list,
        None => {
            return Err(Error::InactiveScope);
        },
    };
    let emits = match numbers(emit, manager) {
        Some(list) => list,
        None => {
            return Err(Error::InactiveScope);
        },
    };
    proof {
        let asked = ProfileView { name: Seq::empty(), listens: listens@, emits: emits@ };
        assert forall|i: int| 0 <= i < asked.listens.len() implies #[trigger] asked.listens[i]
            < before.channels.len() by {
            assert(listen@[i].owned_by(before));
        }
        assert forall|j: int| 0 <= j < asked.emits.len() implies #[trigger] asked.emits[j]
            < before.channels.len() by {
            assert(emit@[j].owned_by(before));
        }
    }
    manager.begin_subscription(name);
    let ghost begun = manager@;
    let proposed = manager.propose_edges(&listens, &emits);
    let ghost asked = manager@;
    let ghost top = asked.scopes[asked.scopes.len() - 1];
    proof {
        assert(asked == begun.proposing(listens@, emits@));
        assert(top.listens =~= listens@);
        assert(top.emits =~= emits@);
        assert(top == ProfileView { name: name@, listens: listens@, emits: emits@ });
        crate::manager::lemma_accepts_frame(asked, before, listens@, emits@);
        assert(asked.scopes.drop_last() =~= before.scopes);
    }
    let ended = manager.end_subscription();
    match proposed {
        Err(error) => {
            proof {
                assert(manager@ == before);
                if error is CycleDetected {
                    let hops = error->CycleDetected_0;
                    crate::manager::lemma_closes_frame(
                        asked,
                        before,
                        name@,
                        listens@,
                        emits@,
                        hops.deep_view(),
                    );
                }
            }
            Err(error)
        },
        Ok(()) => {
            match ended {
                Ok(shared) => {
                    proof {
                        assert(manager@ == before.approving(top));
                    }
                    let mut topics: Vec<Topic> = Vec::new();
                    let mut k: usize = 0;
                    while k < emit.len()
                        invariant
                            k <= emit.len(),
                            topics@ == emit@.take(k as int),
                            all_owned(emit@, manager@),
                        decreases emit.len() - k,
                    {
                        match emit[k].clone_activate(manager) {
                            Ok(view) => {
                                topics.push(view);
                            },
                            Err(_) => {
                                proof {
                                    assert(emit@[k as int].owned_by(manager@));
                                }
                            },
                        }
                        proof {
                            assert(topics@ =~= emit@.take(k + 1));
                        }
                        k += 1;
                    }
                    proof {
                        assert(emit@.take(emit.len() as int) =~= emit@);
                    }
                    Ok((shared, Node { topics }))
                },
                // What passed when it was proposed passes at the end.
                Err(error) => Err(error),
            }
        },
    }
}

impl ManagerView {
    /// The state after the subscriber `cell` was registered, after the
    /// subscribers that were there, in each of the first `upto` channels
    /// that it declared to listen on, once in each.
    pub open spec fn joined(self, cell: usize, upto: int) -> ManagerView {
        let listens = self.subscribers[cell as int].listens.take(upto);
        ManagerView {
            members: Seq::new(
                self.members.len(),
                |c: int|
                    if listens.contains(c as usize) {
                        self.members[c].push(cell)
                    } else {
                        self.members[c]
                    },
            ),
            ..self
        }
    }

    /// The state after the subscriber `cell` was registered in every channel
    /// that it declared to listen on.
    pub open spec fn joining(self, cell: usize) -> ManagerView {
        self.joined(cell, self.subscribers[cell as int].listens.len() as int)
    }

    /// The state after the subscriber `cell` was taken out of each of the
    /// first `upto` channels that it declared to listen on.
    pub open spec fn parted(self, cell: usize, upto: int) -> ManagerView {
        let listens = self.subscribers[cell as int].listens.take(upto);
        ManagerView {
            members: Seq::new(
                self.members.len(),
                |c: int|
                    if listens.contains(c as usize) {
                        others(self.members[c], cell)
                    } else {
                        self.members[c]
                    },
            ),
            ..self
        }
    }

    /// The state after the subscriber `cell` was taken out of every channel
    /// that it declared to listen on.
    pub open spec fn parting(self, cell: usize) -> ManagerView {
        self.parted(cell, self.subscribers[cell as int].listens.len() as int)
    }

    /// The subscriber `cell` is registered in every channel that it declared
    /// to listen on.
    pub open spec fn in_all(self, cell: usize) -> bool {
        forall|k: int|
            0 <= k < self.subscribers[cell as int].listens.len() ==> self.member(
                #[trigger] self.subscribers[cell as int].listens[k] as int,
                cell as int,
            )
    }

    /// The handle is one of a subscriber of this manager.
    pub open spec fn knows(self, shared: Shared) -> bool {
        shared.manager == self.id && shared.index < self.subscribers.len()
    }

    /// Who is a member of which channel once the subscriber `cell` has left
    /// the first `upto` channels that it listens on.
    pub proof fn lemma_parted_member(self, cell: usize, upto: int, channel: int, other: int)
        requires
            self.valid(),
            cell < self.subscribers.len(),
        ensures
            self.parted(cell, upto).member(channel, other) == (self.member(channel, other) && !(
            other == cell && self.subscribers[cell as int].listens.take(upto).contains(
                channel as usize,
            ))),
    {
        let after = self.parted(cell, upto);
        let listens = self.subscribers[cell as int].listens.take(upto);
        if 0 <= channel < self.members.len() {
            let old_list = self.members[channel];
            let new_list = after.members[channel];
            if listens.contains(channel as usize) {
                assert(new_list == others(old_list, cell));
                if 0 <= other <= usize::MAX {
                    lemma_without(old_list, cell, other as usize);
                }
                if self.member(channel, other) {
                    let i = choose|i: int| 0 <= i < old_list.len() && #[trigger] old_list[i] == other;
                    assert(old_list.contains(other as usize));
                }
                if after.member(channel, other) {
                    let i = choose|i: int| 0 <= i < new_list.len() && #[trigger] new_list[i] == other;
                    assert(new_list.contains(other as usize));
                    let j = choose|j: int| 0 <= j < old_list.len() && old_list[j] == other as usize;
                    assert(old_list[j] == other);
                }
                if self.member(channel, other) && other != cell {
                    let j = choose|j: int| 0 <= j < new_list.len() && new_list[j] == other as usize;
                    assert(new_list[j] == other);
                }
            } else {
                assert(new_list == old_list);
            }
        }
    }
}

/// Puts the instance of a subscriber that was approved into its cell, and
/// registers the subscriber in every channel that it declared to listen on.
/// A subscriber that listens on no channel is registered nowhere, and its
/// instance is destroyed at once.
pub fn install<T>(manager: &mut Manager, cells: &mut Cells<T>, shared: &Shared, instance: T) -> (r:
    Result<(), Error>)
    requires
        old(manager).wf(),
        old(cells).fits(old(manager)),
    ensures
        final(manager).wf(),
        final(cells).fits(final(manager)),
        r is Ok <==> old(manager)@.knows(*shared) && old(cells)@.idle() && !old(manager)@.registered(shared.index as int),
        r matches Err(error) ==> error == Error::InactiveScope && final(manager)@
            == old(manager)@ && final(cells)@ == old(cells)@,
        r is Ok ==> {
            let before = old(manager)@;
            &&& final(manager)@ == before.joining(shared.index)
            &&& final(cells)@ == if before.subscribers[shared.index as int].listens.len() > 0 {
                CellsView {
                    instances: old(cells)@.instances.insert(shared.index as int, instance),
                    ..old(cells)@
                }
            } else {
                old(cells)@
            }
        },
{
    let ghost before = manager@;
    let ghost held = cells@;
    if shared.manager != manager.id() || shared.index >= manager.subscribers() || cells.depth()
        != 0 {
        return Err(Error::InactiveScope);
    }
    if manager.is_registered(shared.index) {
        return Err(Error::InactiveScope);
    }
    let cell = shared.index;
    let count = manager.listens_of(cell).len();
    let ghost listens = before.subscribers[cell as int].listens;
    proof {
        assert(before.joined(cell, 0).members =~= before.members);
    }
    let mut k: usize = 0;
    while k < count
        invariant
            k <= count,
            count == listens.len(),
            manager.wf(),
            before.valid(),
            cell < before.subscribers.len(),
            listens == before.subscribers[cell as int].listens,
            !before.registered(cell as int),
            manager@ == before.joined(cell, k as int),
        decreases count - k,
    {
        let ghost now = manager@;
        let channel = manager.listens_of(cell)[k];
        proof {
            assert(before.subscribers[cell as int].within(before.channels.len() as int));
            assert(listens[k as int] < before.channels.len());
            assert(!before.member(channel as int, cell as int));
            lemma_take_next(listens, k as int, channel);
        }
        if manager.is_member(channel, cell) {
            proof {
                if !listens.take(k as int).contains(channel) {
                    assert(now.members[channel as int] == before.members[channel as int]);
                    assert(before.member(channel as int, cell as int));
                }
                assert forall|c: usize| listens.take(k + 1).contains(c) == listens.take(
                    k as int,
                ).contains(c) by {
                    lemma_take_next(listens, k as int, c);
                }
                assert(before.joined(cell, k + 1).members =~= now.members);
            }
        } else {
            proof {
                if listens.take(k as int).contains(channel) {
                    let pushed = before.members[channel as int].push(cell);
                    assert(now.members[channel as int] == pushed);
                    assert(pushed[pushed.len() - 1] == cell);
                    assert(now.member(channel as int, cell as int));
                }
                assert(now.members[channel as int] == before.members[channel as int]);
            }
            let mut list = manager.members_of(channel).clone();
            list.push(cell);
            let ghost items = list@;
            proof {
                assert(items =~= before.members[channel as int].push(cell));
                assert(listens.contains(channel)) by {
                    assert(listens[k as int] == channel);
                }
                assert forall|i: int| 0 <= i < items.len() implies now.listening(
                    channel,
                    #[trigger] items[i],
                ) by {
                    if i < items.len() - 1 {
                        assert(now.members[channel as int][i] == items[i]);
                    }
                }
            }
            manager.enroll(channel, list);
            proof {
                let after = manager@;
                let goal = before.joined(cell, k + 1);
                assert forall|c: int| 0 <= c < after.members.len() implies after.members[c]
                    == goal.members[c] by {
                    lemma_take_next(listens, k as int, c as usize);
                }
                assert(after.members =~= goal.members);
            }
        }
        k += 1;
    }
    let ghost after = manager@;
    proof {
        assert(after == before.joining(cell));
        assert(listens.take(listens.len() as int) =~= listens);
        assert forall|c: int, other: int| after.member(c, other) == (before.member(c, other) || (
        other == cell && 0 <= c < before.members.len() && listens.contains(c as usize))) by {
            if 0 <= c < before.members.len() {
                let old_list = before.members[c];
                let new_list = after.members[c];
                if listens.contains(c as usize) {
                    assert(new_list == old_list.push(cell));
                    if before.member(c, other) {
                        let i = choose|i: int| 0 <= i < old_list.len() && #[trigger] old_list[i] == other;
                        assert(new_list[i] == other);
                    }
                    if other == cell {
                        assert(new_list[new_list.len() - 1] == other);
                    }
                    if after.member(c, other) {
                        let i = choose|i: int| 0 <= i < new_list.len() && #[trigger] new_list[i] == other;
                        if i < old_list.len() {
                            assert(old_list[i] == other);
                        }
                    }
                } else {
                    assert(new_list == old_list);
                }
            }
        }
    }
    if count > 0 {
        cells.store(cell, instance);
    }
    proof {
        assert forall|other: int|
            #![trigger cells@.instances.dom().contains(other)]
            #![trigger after.registered(other)]
            cells@.instances.dom().contains(other) <==> after.registered(other) && !cells@.visiting(
                other,
            ) by {
            if other != cell {
                before.lemma_registered_alike(after, other);
            } else {
                if count > 0 {
                    let c = listens[0];
                    assert(listens.contains(c));
                    assert(c < before.channels.len());
                    assert(after.member(c as int, cell as int));
                } else {
                    if after.registered(other) {
                        let c = choose|c: int| #[trigger] after.member(c, other);
                        assert(listens.contains(c as usize));
                    }
                }
            }
        }
    }
    Ok(())
}

/// Cells that go with a manager go on to do so when a subscriber is
/// approved.
pub proof fn lemma_fits_approving<T>(cells: CellsView<T>, manager: ManagerView, profile: ProfileView)
    requires
        cells.fits(manager),
    ensures
        cells.fits(manager.approving(profile)),
{
    let after = manager.approving(profile);
    assert forall|channel: int, cell: int|
        #![trigger after.member(channel, cell)]
        #![trigger manager.member(channel, cell)]
        after.member(channel, cell) == manager.member(channel, cell) by {
    }
    cells.lemma_fits_alike(manager, after);
}

/// What `subscribe` leaves on success: the subscriber is approved and
/// registered where it listens, `builder` has made `instance` from a node
/// with views of `emit`, and the instance is in its cell, unless the
/// subscriber listens on no channel.
pub open spec fn subscribed<T, B: Builder<T>>(
    before: ManagerView,
    held: CellsView<T>,
    name: Seq<char>,
    listen: Seq<Topic>,
    emit: Seq<Topic>,
    builder: B,
    after: ManagerView,
    left: CellsView<T>,
    built: B,
    instance: T,
) -> bool {
    let cell = before.subscribers.len() as usize;
    &&& builder.built(built, emit, instance)
    &&& after == before.approving(
        ProfileView { name, listens: indices(listen), emits: indices(emit) },
    ).joining(cell)
    &&& left == if listen.len() > 0 {
        CellsView { instances: held.instances.insert(cell as int, instance), ..held }
    } else {
        held
    }
}

/// Subscribes a subscriber called `name` that listens on `listen` and may
/// emit into `emit`. If that closes no cycle, the permissions are committed,
/// `builder` makes the instance from its node, and the subscriber is
/// registered in the channels it listens on. Otherwise nothing has changed:
/// not the manager, not the cells, and not the builder, which was not asked.
pub fn subscribe<T, B: Builder<T>>(
    manager: &mut Manager,
    cells: &mut Cells<T>,
    name: &str,
    listen: &Vec<Topic>,
    emit: &Vec<Topic>,
    builder: &mut B,
) -> (r: Result<Shared, Error>)
    requires
        old(manager).wf(),
        old(cells).fits(old(manager)),
    ensures
        final(manager).wf(),
        final(cells).fits(final(manager)),
        r matches Err(Error::InactiveScope) <==> !(old(cells)@.idle() && all_owned(
            listen@,
            old(manager)@,
        ) && all_owned(emit@, old(manager)@)),
        r is Ok <==> old(cells)@.idle() && all_owned(listen@, old(manager)@)
            && all_owned(emit@, old(manager)@) && old(manager)@.accepts(
            indices(listen@),
            indices(emit@),
        ),
        r matches Err(error) ==> final(manager)@ == old(manager)@ && final(cells)@
            == old(cells)@ && *final(builder) == *old(builder) && (error == Error::InactiveScope || (
        error matches Error::CycleDetected(hops) && old(manager)@.closes(
            name@,
            indices(listen@),
            indices(emit@),
            hops.deep_view(),
        ))),
        r matches Ok(shared) ==> shared == (Shared {
            manager: old(manager)@.id,
            index: old(manager)@.subscribers.len() as usize,
        }) && exists|instance: T| #[trigger]
            subscribed(
                old(manager)@,
                old(cells)@,
                name@,
                listen@,
                emit@,
                *old(builder),
                final(manager)@,
                final(cells)@,
                *final(builder),
                instance,
            ),
{
    let ghost before = manager@;
    let ghost held = cells@;
    if cells.depth() != 0 {
        return Err(Error::InactiveScope);
    }
    let (shared, node) = match approve(manager, name, listen, emit) {
        Ok(pair) => pair,
        Err(error) => {
            return Err(error);
        },
    };
    let ghost profile = ProfileView { name: name@, listens: indices(listen@), emits: indices(emit@) };
    let ghost approved = manager@;
    proof {
        lemma_fits_approving(held, before, profile);
        if approved.registered(shared.index as int) {
            let c = choose|c: int| #[trigger] approved.member(c, shared.index as int);
            before.lemma_member_listens(c, shared.index as int);
        }
    }
    let instance = builder.build(node);
    let ghost made = instance;
    let installed = install(manager, cells, &shared, instance);
    proof {
        assert(approved.subscribers[shared.index as int] == profile);
        assert(profile.listens.len() == listen@.len());
        assert(subscribed(
            before,
            held,
            name@,
            listen@,
            emit@,
            *old(builder),
            manager@,
            cells@,
            *builder,
            made,
        ));
    }
    match installed {
        Ok(()) => Ok(shared),
        Err(error) => Err(error),
    }
}

/// Takes a subscriber out of every channel that it declared to listen on,
/// and destroys its instance. Fails, and changes nothing, if it is not
/// registered in one of them; a subscriber that listens on no channel can
/// leave any number of times.
pub fn unsubscribe<T>(manager: &mut Manager, cells: &mut Cells<T>, shared: &Shared) -> (r: Result<
    (),
    Error,
>)
    requires
        old(manager).wf(),
        old(cells).fits(old(manager)),
    ensures
        final(manager).wf(),
        final(cells).fits(final(manager)),
        r matches Err(Error::InactiveScope) <==> !(old(manager)@.knows(*shared)
            && old(cells)@.idle()),
        r matches Err(Error::UnknownSubscription) <==> old(manager)@.knows(*shared)
            && old(cells)@.idle() && !old(manager)@.in_all(shared.index),
        r matches Err(error) ==> (error == Error::InactiveScope || error
            == Error::UnknownSubscription) && final(manager)@
            == old(manager)@ && final(cells)@ == old(cells)@,
        r is Ok ==> {
            &&& final(manager)@ == old(manager)@.parting(shared.index)
            &&& !final(manager)@.registered(shared.index as int)
            &&& final(cells)@ == (CellsView {
                instances: old(cells)@.instances.remove(shared.index as int),
                ..old(cells)@
            })
        },
{
    let ghost before = manager@;
    if shared.manager != manager.id() || shared.index >= manager.subscribers() || cells.depth()
        != 0 {
        return Err(Error::InactiveScope);
    }
    let cell = shared.index;
    let count = manager.listens_of(cell).len();
    let ghost listens = before.subscribers[cell as int].listens;
    let mut k: usize = 0;
    while k < count
        invariant
            k <= count,
            count == listens.len(),
            manager.wf(),
            before == manager@,
            cells.fits(manager),
            cells@ == old(cells)@,
            cells@.idle(),
            before.knows(*shared),
            cell == shared.index,
            cell < before.subscribers.len(),
            listens == before.subscribers[cell as int].listens,
            forall|i: int| 0 <= i < k ==> before.member(#[trigger] listens[i] as int, cell as int),
        decreases count - k,
    {
        let channel = manager.listens_of(cell)[k];
        if !manager.is_member(channel, cell) {
            proof {
                assert(!before.member(listens[k as int] as int, cell as int));
            }
            return Err(Error::UnknownSubscription);
        }
        k += 1;
    }
    proof {
        assert(before.parted(cell, 0).members =~= before.members);
        assert(before.subscribers[cell as int].within(before.channels.len() as int));
    }
    let mut k: usize = 0;
    while k < count
        invariant
            k <= count,
            count == listens.len(),
            manager.wf(),
            before.valid(),
            before.in_all(cell),
            cell < before.subscribers.len(),
            listens == before.subscribers[cell as int].listens,
            forall|i: int| 0 <= i < listens.len() ==> #[trigger] listens[i] < before.channels.len(),
            manager@ == before.parted(cell, k as int),
        decreases count - k,
    {
        let ghost now = manager@;
        let channel = manager.listens_of(cell)[k];
        proof {
            assert(listens[k as int] < before.channels.len());
            assert(before.member(listens[k as int] as int, cell as int));
            lemma_take_next(listens, k as int, channel);
            lemma_without(before.members[channel as int], cell, cell);
        }
        if manager.is_member(channel, cell) {
            proof {
                if listens.take(k as int).contains(channel) {
                    let rest = others(before.members[channel as int], cell);
                    assert(now.members[channel as int] == rest);
                    let i = choose|i: int| 0 <= i < rest.len() && #[trigger] rest[i] == cell;
                    assert(rest.contains(cell));
                }
                assert(now.members[channel as int] == before.members[channel as int]);
            }
            let list = without(manager.members_of(channel), cell);
            let ghost items = list@;
            proof {
                assert forall|i: int| 0 <= i < items.len() implies now.listening(
                    channel,
                    #[trigger] items[i],
                ) by {
                    lemma_without(before.members[channel as int], cell, items[i]);
                    assert(items.contains(items[i]));
                    let j = choose|j: int|
                        0 <= j < before.members[channel as int].len()
                            && before.members[channel as int][j] == items[i];
                    assert(before.members[channel as int][j] == items[i]);
                    assert(before.member(channel as int, items[i] as int));
                    before.lemma_member_listens(channel as int, items[i] as int);
                }
            }
            manager.enroll(channel, list);
            proof {
                let after = manager@;
                let goal = before.parted(cell, k + 1);
                assert forall|c: int| 0 <= c < after.members.len() implies after.members[c]
                    == goal.members[c] by {
                    lemma_take_next(listens, k as int, c as usize);
                }
                assert(after.members =~= goal.members);
            }
        } else {
            proof {
                if !listens.take(k as int).contains(channel) {
                    assert(now.members[channel as int] == before.members[channel as int]);
                }
                assert forall|c: usize| listens.take(k + 1).contains(c) == listens.take(
                    k as int,
                ).contains(c) by {
                    lemma_take_next(listens, k as int, c);
                }
                assert(before.parted(cell, k + 1).members =~= now.members);
            }
        }
        k += 1;
    }
    let ghost after = manager@;
    proof {
        assert(listens.take(listens.len() as int) =~= listens);
        assert(after == before.parting(cell));
        assert forall|c: int, other: int| after.member(c, other) == (before.member(c, other)
            && other != cell) by {
            before.lemma_parted_member(cell, listens.len() as int, c, other);
            if before.member(c, other) && other == cell {
                before.lemma_member_listens(c, other);
                assert(listens.contains(c as usize));
            }
        }
        assert(!after.registered(cell as int)) by {
            if after.registered(cell as int) {
                let c = choose|c: int| #[trigger] after.member(c, cell as int);
            }
        }
    }
    cells.discard(cell);
    proof {
        assert forall|other: int|
            #![trigger cells@.instances.dom().contains(other)]
            #![trigger after.registered(other)]
            cells@.instances.dom().contains(other) <==> after.registered(other) && !cells@.visiting(
                other,
            ) by {
            if other != cell {
                before.lemma_registered_alike(after, other);
            }
        }
    }
    Ok(())
}

} // verus!
