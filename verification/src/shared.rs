//! Shared cells: the instances of the subscribers of a hub, the handles that
//! identify them, and why a dispatch never finds a cell empty.

use crate::error::Error;
use crate::graph::{lemma_reaches_push, lemma_reaches_self, reaches};
use crate::manager::{Manager, ManagerView};
use vstd::prelude::*;

verus! {

/// The handle of one subscriber: which manager approved it, and as which of
/// its subscribers. Two handles are the same subscriber exactly if they are
/// equal, whatever the instances hold.
#[derive(Clone, Copy, Debug, PartialEq, Eq, Structural)]
pub struct Shared {
    pub manager: u64,
    pub index: usize,
}

/// A visit in progress: the subscriber `cell` is being visited as a member
/// of the channel `channel`.
#[derive(Clone, Copy, Debug, PartialEq, Eq, Structural)]
pub struct Frame {
    pub channel: usize,
    pub cell: usize,
}

/// The shared cells of one hub: the instance of each subscriber that is
/// registered in a channel, and the visits in progress. The instance of a
/// subscriber that is being visited is out of its cell until the visit ends,
/// so nothing else can reach it meanwhile.
pub struct Cells<T> {
    manager: u64,
    slots: Vec<Option<T>>,
    stack: Vec<Frame>,
}

/// The mathematical value of [`Cells`].
pub struct CellsView<T> {
    /// The manager that these cells belong to.
    pub manager: u64,
    /// The instances in their cells, by the number of the subscriber.
    pub instances: Map<int, T>,
    /// The visits in progress, the innermost last.
    pub stack: Seq<Frame>,
}

impl<T> CellsView<T> {
    /// The subscriber `cell` is being visited.
    pub open spec fn visiting(self, cell: int) -> bool {
        exists|i: int| 0 <= i < self.stack.len() && (#[trigger] self.stack[i]).cell == cell
    }

    /// No visit is in progress.
    pub open spec fn idle(self) -> bool {
        self.stack.len() == 0
    }

    /// The state in which the visit of `cell` as a member of `channel` has
    /// begun: its instance is out of its cell.
    pub open spec fn enter(self, channel: usize, cell: usize) -> CellsView<T> {
        CellsView {
            instances: self.instances.remove(cell as int),
            stack: self.stack.push(Frame { channel, cell }),
            ..self
        }
    }

    /// The state in which the innermost visit has ended: `instance` is back
    /// in the cell of the subscriber visited.
    pub open spec fn leave(self, instance: T) -> CellsView<T> {
        CellsView {
            instances: self.instances.insert(
                self.stack[self.stack.len() - 1].cell as int,
                instance,
            ),
            stack: self.stack.drop_last(),
            ..self
        }
    }
}

impl<T> View for Cells<T> {
    type V = CellsView<T>;

    closed spec fn view(&self) -> CellsView<T> {
        CellsView {
            manager: self.manager,
            instances: Map::new(
                |cell: int| 0 <= cell < self.slots.len() && self.slots[cell] is Some,
                |cell: int| self.slots[cell]->0,
            ),
            stack: self.stack@,
        }
    }
}

impl<T> Cells<T> {
    /// The cells are in a state that their operations can work on.
    pub closed spec fn wf(&self) -> bool {
        forall|i: int| 0 <= i < self.stack.len() ==> (#[trigger] self.stack[i]).cell < self.slots.len()
    }

    /// Cells without instances or visits, for the manager called `manager`.
    fn empty(manager: u64) -> (cells: Cells<T>)
        ensures
            cells.wf(),
            cells@ == (CellsView::<T> { manager, instances: Map::empty(), stack: Seq::empty() }),
    {
        let cells = Cells { manager, slots: Vec::new(), stack: Vec::new() };
        proof {
            assert(cells@.instances =~= Map::empty());
        }
        cells
    }

    /// The manager that these cells belong to.
    pub fn manager(&self) -> (id: u64)
        ensures
            id == self@.manager,
    {
        self.manager
    }

    /// The number of visits in progress.
    pub fn depth(&self) -> (depth: usize)
        ensures
            depth == self@.stack.len(),
    {
        self.stack.len()
    }

    /// The innermost visit in progress.
    pub fn innermost(&self) -> (frame: Option<Frame>)
        ensures
            self@.stack.len() == 0 ==> frame is None,
            self@.stack.len() > 0 ==> frame == Some(self@.stack[self@.stack.len() - 1]),
    {
        if self.stack.len() == 0 {
            None
        } else {
            Some(self.stack[self.stack.len() - 1])
        }
    }

    /// The instance in the cell of the subscriber numbered `cell`, if one is
    /// there.
    pub(crate) fn peek(&self, cell: usize) -> (instance: Option<&T>)
        ensures
            instance is Some <==> self@.instances.dom().contains(cell as int),
            instance matches Some(held) ==> *held == self@.instances[cell as int],
    {
        if cell < self.slots.len() {
            self.slots[cell].as_ref()
        } else {
            None
        }
    }

    /// The instance of the subscriber `shared`, if it is in its cell: if the
    /// subscriber is of the manager of these cells, is registered in a
    /// channel, and is not being visited.
    pub fn get(&self, shared: &Shared) -> (instance: Option<&T>)
        ensures
            instance is Some <==> shared.manager == self@.manager && self@.instances.dom().contains(
                shared.index as int,
            ),
            instance matches Some(held) ==> *held == self@.instances[shared.index as int],
    {
        if shared.manager == self.manager {
            self.peek(shared.index)
        } else {
            None
        }
    }

    /// Puts `instance` into the cell of the subscriber numbered `cell`.
    pub(crate) fn store(&mut self, cell: usize, instance: T)
        requires
            old(self).wf(),
        ensures
            final(self).wf(),
            final(self)@ == (CellsView {
                instances: old(self)@.instances.insert(cell as int, instance),
                ..old(self)@
            }),
    {
        while self.slots.len() <= cell
            invariant
                self.wf(),
                self@ == old(self)@,
            decreases cell + 1 - self.slots.len(),
        {
            let ghost before = self@;
            self.slots.push(None);
            proof {
                assert(self@.instances =~= before.instances);
            }
        }
        let ghost before = self@;
        self.slots[cell] = Some(instance);
        proof {
            assert(self@.instances =~= before.instances.insert(cell as int, instance));
        }
    }

    /// Empties the cell of the subscriber numbered `cell`.
    pub(crate) fn discard(&mut self, cell: usize)
        requires
            old(self).wf(),
        ensures
            final(self).wf(),
            final(self)@ == (CellsView {
                instances: old(self)@.instances.remove(cell as int),
                ..old(self)@
            }),
    {
        let ghost before = self@;
        if cell < self.slots.len() {
            self.slots[cell] = None;
        }
        proof {
            assert(self@.instances =~= before.instances.remove(cell as int));
        }
    }

    /// Begins the visit of `cell` as a member of `channel`, and hands out
    /// its instance, if there is one in the cell.
    pub(crate) fn enter(&mut self, channel: usize, cell: usize) -> (instance: Option<T>)
        requires
            old(self).wf(),
        ensures
            final(self).wf(),
            instance is Some <==> old(self)@.instances.dom().contains(cell as int),
            instance matches Some(held) ==> held == old(self)@.instances[cell as int] && final(self)@
                == old(self)@.enter(channel, cell),
            instance is None ==> final(self)@ == old(self)@,
    {
        let ghost before = self@;
        if cell >= self.slots.len() {
            return None;
        }
        let taken = self.slots[cell].take();
        if taken.is_some() {
            self.stack.push(Frame { channel, cell });
        }
        proof {
            if taken is Some {
                assert(self@.instances =~= before.instances.remove(cell as int));
            } else {
                assert(self@.instances =~= before.instances);
            }
        }
        taken
    }

    /// Ends the innermost visit, and takes the instance back. Without a
    /// visit in progress the instance has no cell to go to.
    pub(crate) fn leave(&mut self, instance: T)
        requires
            old(self).wf(),
        ensures
            final(self).wf(),
            old(self)@.stack.len() > 0 ==> final(self)@ == old(self)@.leave(instance),
            old(self)@.stack.len() == 0 ==> final(self)@ == old(self)@,
    {
        let ghost before = self@;
        match self.stack.pop() {
            Some(frame) => {
                assert(frame == before.stack[before.stack.len() - 1]);
                self.slots[frame.cell] = Some(instance);
                proof {
                    assert(self@.instances =~= before.instances.insert(
                        frame.cell as int,
                        instance,
                    ));
                    assert(self@.stack =~= before.stack.drop_last());
                }
            },
            None => {
                proof {
                    assert(self@.stack =~= before.stack);
                }
            },
        }
    }
}

impl<T> CellsView<T> {
    /// The subscriber of the visit at position `at` was granted the channel
    /// of the visit that it led to.
    pub open spec fn granted_next(self, manager: ManagerView, at: int) -> bool {
        manager.grants(self.stack[at].cell, self.stack[at + 1].channel)
    }

    /// The cells go with the state `manager`: they belong to that manager; a
    /// cell holds an instance exactly if its subscriber is registered in some
    /// channel and is not being visited; and every visit in progress is the
    /// visit of a registered subscriber on a channel it listens on, begun
    /// through a channel that the subscriber of the visit around it was
    /// granted.
    pub open spec fn fits(self, manager: ManagerView) -> bool {
        &&& self.manager == manager.id
        &&& forall|cell: int|
            #![trigger self.instances.dom().contains(cell)]
            #![trigger manager.registered(cell)]
            self.instances.dom().contains(cell) <==> manager.registered(cell) && !self.visiting(
                cell,
            )
        &&& forall|i: int|
            0 <= i < self.stack.len() ==> manager.listening(
                (#[trigger] self.stack[i]).channel,
                self.stack[i].cell,
            ) && manager.registered(self.stack[i].cell as int)
        &&& forall|i: int| 0 <= i < self.stack.len() - 1 ==> #[trigger] self.granted_next(manager, i)
        &&& forall|i: int, j: int|
            0 <= i < j < self.stack.len() ==> (#[trigger] self.stack[i]).cell != (
            #[trigger] self.stack[j]).cell
    }

    /// The cells go with every state of their manager that has the same
    /// members in every channel and the same subscribers, with or without
    /// newer ones: with new channels, new permissions, other subscriptions in
    /// progress.
    pub proof fn lemma_fits_alike(self, before: ManagerView, after: ManagerView)
        requires
            self.fits(before),
            after.id == before.id,
            before.subscribers.len() <= after.subscribers.len(),
            forall|cell: int|
                0 <= cell < before.subscribers.len() ==> #[trigger] after.subscribers[cell]
                    == before.subscribers[cell],
            forall|channel: int, cell: int|
                #![trigger after.member(channel, cell)]
                #![trigger before.member(channel, cell)]
                after.member(channel, cell) == before.member(channel, cell),
        ensures
            self.fits(after),
    {
        assert forall|cell: int|
            #![trigger self.instances.dom().contains(cell)]
            #![trigger after.registered(cell)]
            self.instances.dom().contains(cell) <==> after.registered(cell) && !self.visiting(
                cell,
            ) by {
            before.lemma_registered_alike(after, cell);
        }
        assert forall|i: int| 0 <= i < self.stack.len() implies after.listening(
            (#[trigger] self.stack[i]).channel,
            self.stack[i].cell,
        ) && after.registered(self.stack[i].cell as int) by {
            before.lemma_registered_alike(after, self.stack[i].cell as int);
            assert(before.listening(self.stack[i].channel, self.stack[i].cell));
            assert(after.subscribers[self.stack[i].cell as int]
                == before.subscribers[self.stack[i].cell as int]);
        }
        assert forall|i: int| 0 <= i < self.stack.len() - 1 implies #[trigger] self.granted_next(
            after,
            i,
        ) by {
            assert(self.granted_next(before, i));
            assert(before.listening(self.stack[i].channel, self.stack[i].cell));
            assert(after.subscribers[self.stack[i].cell as int]
                == before.subscribers[self.stack[i].cell as int]);
        }
    }

    /// The cells go on to go with their manager when it gets a channel.
    pub proof fn lemma_fits_channel(self, before: ManagerView, name: Seq<char>)
        requires
            self.fits(before),
        ensures
            self.fits(
                ManagerView {
                    channels: before.channels.push(name),
                    members: before.members.push(Seq::empty()),
                    ..before
                },
            ),
    {
        let after = ManagerView {
            channels: before.channels.push(name),
            members: before.members.push(Seq::empty()),
            ..before
        };
        assert forall|channel: int, cell: int|
            #![trigger after.member(channel, cell)]
            #![trigger before.member(channel, cell)]
            after.member(channel, cell) == before.member(channel, cell) by {
            if 0 <= channel < before.members.len() {
                assert(after.members[channel] == before.members[channel]);
            }
        }
        self.lemma_fits_alike(before, after);
    }

    /// The cells go on to go with their manager whatever it does to the
    /// subscriptions in progress, and when it commits one.
    pub proof fn lemma_fits_scopes(self, before: ManagerView, after: ManagerView)
        requires
            self.fits(before),
            after.id == before.id,
            after.members == before.members,
            after.subscribers == before.subscribers || (before.scopes.len() > 0
                && after.subscribers == before.committed().subscribers),
        ensures
            self.fits(after),
    {
        assert forall|channel: int, cell: int|
            #![trigger after.member(channel, cell)]
            #![trigger before.member(channel, cell)]
            after.member(channel, cell) == before.member(channel, cell) by {
        }
        self.lemma_fits_alike(before, after);
    }

    /// A dispatch into `channel` may begin: no visit is in progress, or the
    /// subscriber of the innermost visit was granted the channel.
    pub open spec fn may_enter(self, manager: ManagerView, channel: usize) -> bool {
        self.stack.len() > 0 ==> manager.grants(self.stack[self.stack.len() - 1].cell, channel)
    }

    /// The channels of the visits in progress are joined, each to the next,
    /// in the committed graph.
    pub proof fn lemma_stack_reaches(self, manager: ManagerView, from: int, to: int)
        requires
            manager.valid(),
            self.fits(manager),
            0 <= from <= to < self.stack.len(),
        ensures
            reaches(
                manager.links(),
                self.stack[from].channel as int,
                self.stack[to].channel as int,
            ),
        decreases to - from,
    {
        if from == to {
            lemma_reaches_self(manager.links(), self.stack[from].channel as int);
        } else {
            self.lemma_stack_reaches(manager, from, to - 1);
            let prev = self.stack[to - 1];
            let next = self.stack[to];
            assert(self.granted_next(manager, to - 1));
            manager.lemma_link(prev.cell, prev.channel, next.channel);
            lemma_reaches_push(
                manager.links(),
                self.stack[from].channel as int,
                prev.channel as int,
                next.channel as int,
            );
        }
    }

    /// No member of a channel that a dispatch may enter is being visited:
    /// a dispatch never comes back to a subscriber that it has not left.
    pub proof fn lemma_never_reentered(self, manager: ManagerView, channel: usize, cell: usize)
        requires
            manager.valid(),
            self.fits(manager),
            self.may_enter(manager, channel),
            manager.member(channel as int, cell as int),
        ensures
            !self.visiting(cell as int),
            self.instances.dom().contains(cell as int),
    {
        manager.lemma_member_listens(channel as int, cell as int);
        if self.visiting(cell as int) {
            let links = manager.links();
            let i = choose|i: int| 0 <= i < self.stack.len() && (#[trigger] self.stack[i]).cell == cell;
            let last = self.stack.len() - 1;
            let top = self.stack[last];
            if i == last {
                manager.lemma_link(cell, channel, channel);
                lemma_reaches_self(links, channel as int);
            } else {
                let next = self.stack[i + 1].channel;
                assert(self.granted_next(manager, i));
                manager.lemma_link(cell, channel, next);
                self.lemma_stack_reaches(manager, i + 1, last);
                manager.lemma_link(top.cell, top.channel, channel);
                lemma_reaches_push(links, next as int, top.channel as int, channel as int);
            }
            assert(false);
        }
        assert(manager.registered(cell as int));
    }
}

impl<T> Cells<T> {
    /// The cells are well formed and go with `manager`.
    pub open spec fn fits(&self, manager: &Manager) -> bool {
        self.wf() && self@.fits(manager@)
    }

    /// Cells for the subscribers of `manager`, in which no subscriber may be
    /// registered yet: their instances would be missing.
    pub fn new(manager: &Manager) -> (r: Result<Cells<T>, Error>)
        requires
            manager.wf(),
        ensures
            r is Ok <==> forall|cell: int| !manager@.registered(cell),
            r matches Ok(cells) ==> cells.fits(manager) && cells@ == (CellsView::<T> {
                manager: manager@.id,
                instances: Map::empty(),
                stack: Seq::empty(),
            }),
            r matches Err(error) ==> error == Error::InactiveScope,
    {
        let ghost view = manager@;
        let mut c: usize = 0;
        while c < manager.channels()
            invariant
                c <= view.channels.len(),
                manager.wf(),
                view == manager@,
                forall|d: int| 0 <= d < c ==> (#[trigger] view.members[d]).len() == 0,
            decreases view.channels.len() - c,
        {
            if manager.members_of(c).len() != 0 {
                proof {
                    let cell = view.members[c as int][0];
                    assert(view.member(c as int, cell as int));
                    assert(view.registered(cell as int));
                }
                return Err(Error::InactiveScope);
            }
            c += 1;
        }
        proof {
            assert forall|cell: int| !view.registered(cell) by {
                if view.registered(cell) {
                    let d = choose|d: int| #[trigger] view.member(d, cell);
                    assert(view.members[d].len() == 0);
                }
            }
        }
        Ok(Cells::empty(manager.id()))
    }
}

} // verus!
