//! Channels: views of them, and who is registered in them.

use crate::error::Error;
use crate::list::{holds, lemma_without, others, without};
use crate::manager::{Manager, ManagerView};
use crate::shared::{Cells, CellsView, Shared};
use vstd::prelude::*;

verus! {

/// A view of one channel of a hub: which manager owns it, and which of its
/// channels it is. Copies are views of the same channel: the subscribers
/// are kept by the manager, under the channel's number.
#[derive(Clone, Copy, Debug, PartialEq, Eq, Structural)]
pub struct Topic {
    pub manager: u64,
    pub index: usize,
}

/// Checks that the manager of the scope that is executing, `active`, is the
/// one called `manager`.
pub fn assert_active_manager(active: &Manager, manager: u64) -> (r: Result<(), Error>)
    ensures
        r is Ok <==> active@.id == manager,
        r matches Err(error) ==> error == Error::InactiveScope,
{
    if active.id() == manager {
        Ok(())
    } else {
        Err(Error::InactiveScope)
    }
}

impl Topic {
    /// The channel is one of the manager in the state `manager`.
    pub open spec fn owned_by(self, manager: ManagerView) -> bool {
        self.manager == manager.id && self.index < manager.channels.len()
    }

    /// The channel called `name` of `manager`, which becomes a new channel
    /// without subscribers if the manager had none of that name.
    pub fn new(name: &str, manager: &mut Manager) -> (topic: Topic)
        requires
            old(manager).wf(),
        ensures
            final(manager).wf(),
            topic.owned_by(final(manager)@),
            final(manager)@.channels[topic.index as int] == name@,
            old(manager)@.channels.contains(name@) ==> final(manager)@
                == old(manager)@,
            !old(manager)@.channels.contains(name@) ==> final(manager)@ == (
            ManagerView {
                channels: old(manager)@.channels.push(name@),
                members: old(manager)@.members.push(Seq::empty()),
                ..old(manager)@
            }),
    {
        let index = manager.channel(name);
        Topic { manager: manager.id(), index }
    }

    /// Whether the channel is one of `manager`.
    pub fn is_owned_by(&self, manager: &Manager) -> (owned: bool)
        ensures
            owned == self.owned_by(manager@),
    {
        assert_active_manager(manager, self.manager).is_ok() && self.index < manager.channels()
    }

    /// Another view of the same channel, to grant it to a subscriber.
    pub fn clone_activate(&self, manager: &Manager) -> (r: Result<Topic, Error>)
        ensures
            r is Ok <==> self.owned_by(manager@),
            r matches Ok(view) ==> view == *self,
            r matches Err(error) ==> error == Error::InactiveScope,
    {
        if self.is_owned_by(manager) {
            Ok(*self)
        } else {
            Err(Error::InactiveScope)
        }
    }

    /// The channel and the subscriber are of the manager in the state
    /// `manager`, and no visit is in progress in `cells`.
    pub open spec fn workable<T>(
        self,
        manager: ManagerView,
        cells: CellsView<T>,
        shared: Shared,
    ) -> bool {
        &&& self.owned_by(manager)
        &&& shared.manager == manager.id
        &&& cells.idle()
    }

    /// Registers a subscriber that is alive in this channel too, after the
    /// subscribers that the channel has. The subscriber must have declared to
    /// listen on the channel.
    pub fn subscribe<T>(&self, manager: &mut Manager, cells: &Cells<T>, shared: &Shared) -> (r:
        Result<(), Error>)
        requires
            old(manager).wf(),
            cells.fits(old(manager)),
        ensures
            final(manager).wf(),
            cells.fits(final(manager)),
            r matches Err(Error::InactiveScope) <==> !(self.workable(
                old(manager)@,
                cells@,
                *shared,
            ) && old(manager)@.listening(self.index, shared.index)),
            r matches Err(Error::UnknownSubscription) <==> self.workable(
                old(manager)@,
                cells@,
                *shared,
            ) && old(manager)@.listening(self.index, shared.index)
                && !cells@.instances.dom().contains(shared.index as int),
            r matches Err(error) ==> (error == Error::InactiveScope || error
                == Error::UnknownSubscription) && final(manager)@
                == old(manager)@,
            r is Ok ==> final(manager)@ == old(manager)@.enrolling(
                self.index as int,
                old(manager)@.members[self.index as int].push(shared.index),
            ),
    {
        let ghost before = manager@;
        if !self.is_owned_by(manager) || shared.manager != manager.id() || cells.depth() != 0 {
            return Err(Error::InactiveScope);
        }
        if shared.index >= manager.subscribers() {
            return Err(Error::InactiveScope);
        }
        if !holds(manager.listens_of(shared.index), self.index) {
            return Err(Error::InactiveScope);
        }
        if cells.peek(shared.index).is_none() {
            return Err(Error::UnknownSubscription);
        }
        let mut list = manager.members_of(self.index).clone();
        list.push(shared.index);
        let ghost items = list@;
        proof {
            assert(items =~= before.members[self.index as int].push(shared.index));
            assert forall|k: int| 0 <= k < items.len() implies before.listening(
                self.index,
                #[trigger] items[k],
            ) by {
                if k < items.len() - 1 {
                    assert(before.members[self.index as int][k] == items[k]);
                }
            }
        }
        manager.enroll(self.index, list);
        proof {
            let after = manager@;
            assert forall|cell: int|
                #![trigger cells@.instances.dom().contains(cell)]
                #![trigger after.registered(cell)]
                cells@.instances.dom().contains(cell) <==> after.registered(cell)
                    && !cells@.visiting(cell) by {
                assert forall|channel: int| before.member(channel, cell) implies after.member(
                    channel,
                    cell,
                ) by {
                    before.lemma_enrolling_member(self.index as int, items, channel, cell);
                    if channel == self.index && before.member(channel, cell) {
                        let k = choose|k: int|
                            0 <= k < before.members[channel].len()
                                && #[trigger] before.members[channel][k] == cell;
                        assert(items[k] == cell);
                    }
                }
                if before.registered(cell) {
                    let channel = choose|channel: int| #[trigger] before.member(channel, cell);
                    assert(after.member(channel, cell));
                }
                if after.registered(cell) && !before.registered(cell) {
                    let channel = choose|channel: int| #[trigger] after.member(channel, cell);
                    before.lemma_enrolling_member(self.index as int, items, channel, cell);
                    assert(!before.member(channel, cell));
                    let k = choose|k: int| 0 <= k < items.len() && #[trigger] items[k] == cell;
                    if k < items.len() - 1 {
                        assert(before.members[channel][k] == cell);
                    }
                    assert(cell == shared.index);
                }
            }
        }
        Ok(())
    }

    /// Takes a subscriber out of this channel. If it is then registered in
    /// no channel, its instance is destroyed.
    pub fn unsubscribe<T>(&self, manager: &mut Manager, cells: &mut Cells<T>, shared: &Shared) -> (r:
        Result<(), Error>)
        requires
            old(manager).wf(),
            old(cells).fits(old(manager)),
        ensures
            final(manager).wf(),
            final(cells).fits(final(manager)),
            r matches Err(Error::InactiveScope) <==> !self.workable(
                old(manager)@,
                old(cells)@,
                *shared,
            ),
            r matches Err(Error::UnknownSubscription) <==> self.workable(
                old(manager)@,
                old(cells)@,
                *shared,
            ) && !old(manager)@.member(self.index as int, shared.index as int),
            r matches Err(error) ==> (error == Error::InactiveScope || error
                == Error::UnknownSubscription) && final(manager)@
                == old(manager)@ && final(cells)@ == old(cells)@,
            r is Ok ==> {
                let after = old(manager)@.enrolling(
                    self.index as int,
                    others(old(manager)@.members[self.index as int], shared.index),
                );
                &&& final(manager)@ == after
                &&& !after.member(self.index as int, shared.index as int)
                &&& final(cells)@ == if after.registered(shared.index as int) {
                    old(cells)@
                } else {
                    CellsView {
                        instances: old(cells)@.instances.remove(shared.index as int),
                        ..old(cells)@
                    }
                }
            },
    {
        let ghost before = manager@;
        let ghost held = cells@;
        if !self.is_owned_by(manager) || shared.manager != manager.id() || cells.depth() != 0 {
            return Err(Error::InactiveScope);
        }
        if !manager.is_member(self.index, shared.index) {
            return Err(Error::UnknownSubscription);
        }
        let list = without(manager.members_of(self.index), shared.index);
        let ghost items = list@;
        proof {
            assert forall|k: int| 0 <= k < items.len() implies before.listening(
                self.index,
                #[trigger] items[k],
            ) by {
                lemma_without(before.members[self.index as int], shared.index, items[k]);
                assert(items.contains(items[k]));
                assert(before.member(self.index as int, items[k] as int)) by {
                    let j = choose|j: int|
                        0 <= j < before.members[self.index as int].len()
                            && before.members[self.index as int][j] == items[k];
                    assert(before.members[self.index as int][j] == items[k]);
                }
                before.lemma_member_listens(self.index as int, items[k] as int);
            }
        }
        manager.enroll(self.index, list);
        let ghost after = manager@;
        proof {
            assert forall|channel: int, cell: int|
                after.member(channel, cell) == (before.member(channel, cell) && !(channel
                    == self.index && cell == shared.index)) by {
                before.lemma_enrolling_member(self.index as int, items, channel, cell);
                if channel == self.index {
                    if 0 <= cell <= usize::MAX {
                        lemma_without(before.members[self.index as int], shared.index, cell as usize);
                        if before.member(channel, cell) {
                            let j = choose|j: int|
                                0 <= j < before.members[channel].len()
                                    && #[trigger] before.members[channel][j] == cell;
                            assert(before.members[channel].contains(cell as usize));
                        }
                        if items.contains(cell as usize) {
                            let j = choose|j: int|
                                0 <= j < before.members[channel].len()
                                    && before.members[channel][j] == cell as usize;
                            assert(before.members[channel][j] == cell);
                        }
                    }
                }
            }
        }
        let alive = manager.is_registered(shared.index);
        if !alive {
            cells.discard(shared.index);
        }
        proof {
            assert forall|cell: int|
                #![trigger cells@.instances.dom().contains(cell)]
                #![trigger after.registered(cell)]
                cells@.instances.dom().contains(cell) <==> after.registered(cell)
                    && !cells@.visiting(cell) by {
                if cell != shared.index {
                    before.lemma_registered_alike(after, cell);
                } else {
                    assert(before.member(self.index as int, cell));
                    assert(before.registered(cell));
                }
            }
        }
        Ok(())
    }
}

} // verus!
