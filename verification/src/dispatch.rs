//! Dispatch: one visit for every subscriber of a channel.

use crate::error::Error;
use crate::manager::{Manager, ManagerView};
use crate::shared::{Cells, CellsView};
use crate::topic::Topic;
use crate::visitor::Visitor;
use vstd::prelude::*;

verus! {

/// One visit: the instance of `cell` leaves its cell, is visited as
/// `visited` allows, which leaves the cells as `inner` with the instance as
/// `changed`, and goes back.
pub open spec fn visit_by<T, V: Visitor<T>>(
    channel: usize,
    cell: usize,
    v0: V,
    c0: CellsView<T>,
    v1: V,
    c1: CellsView<T>,
    changed: T,
    inner: CellsView<T>,
) -> bool {
    &&& v0.visited(v1, c0.instances[cell as int], changed, c0.enter(channel, cell), inner)
    &&& inner.stack == c0.enter(channel, cell).stack
    &&& c1 == inner.leave(changed)
}

/// One visit of the subscriber `cell` as a member of `channel` leads from
/// the visitor `v0` and the cells `c0` to `v1` and `c1`.
pub open spec fn visit_step<T, V: Visitor<T>>(
    channel: usize,
    cell: usize,
    v0: V,
    c0: CellsView<T>,
    v1: V,
    c1: CellsView<T>,
) -> bool {
    &&& c0.instances.dom().contains(cell as int)
    &&& exists|changed: T, inner: CellsView<T>| #[trigger]
        visit_by(channel, cell, v0, c0, v1, c1, changed, inner)
}

/// Visits of the first `n` subscribers of `order`, one each and in that
/// order, lead from the visitor `v0` and the cells `c0` to `v1` and `c1`.
pub open spec fn dispatched<T, V: Visitor<T>>(
    channel: usize,
    order: Seq<usize>,
    n: nat,
    v0: V,
    c0: CellsView<T>,
    v1: V,
    c1: CellsView<T>,
) -> bool
    decreases n,
{
    if n == 0 {
        v1 == v0 && c1 == c0
    } else {
        &&& n <= order.len()
        &&& exists|vm: V, cm: CellsView<T>|
            dispatched(channel, order, (n - 1) as nat, v0, c0, vm, cm) && #[trigger] visit_step(
                channel,
                order[n - 1],
                vm,
                cm,
                v1,
                c1,
            )
    }
}

/// A dispatch goes on by one more visit.
pub proof fn lemma_dispatched_next<T, V: Visitor<T>>(
    channel: usize,
    order: Seq<usize>,
    n: nat,
    v0: V,
    c0: CellsView<T>,
    vm: V,
    cm: CellsView<T>,
    v1: V,
    c1: CellsView<T>,
)
    requires
        n < order.len(),
        dispatched(channel, order, n, v0, c0, vm, cm),
        visit_step(channel, order[n as int], vm, cm, v1, c1),
    ensures
        dispatched(channel, order, n + 1, v0, c0, v1, c1),
{
    let m = n + 1;
    assert((m - 1) as nat == n);
    assert(dispatched(channel, order, (m - 1) as nat, v0, c0, vm, cm));
    assert(visit_step(channel, order[m - 1], vm, cm, v1, c1));
}

/// The cells still go with the manager when a visit begins that the
/// dispatch may begin.
pub proof fn lemma_enter_fits<T>(cells: CellsView<T>, manager: ManagerView, channel: usize, cell: usize)
    requires
        manager.valid(),
        cells.fits(manager),
        cells.may_enter(manager, channel),
        manager.member(channel as int, cell as int),
    ensures
        cells.enter(channel, cell).fits(manager),
{
    cells.lemma_never_reentered(manager, channel, cell);
    manager.lemma_member_listens(channel as int, cell as int);
    let after = cells.enter(channel, cell);
    let n = cells.stack.len() as int;
    assert forall|i: int| 0 <= i < after.stack.len() implies manager.listening(
        (#[trigger] after.stack[i]).channel,
        after.stack[i].cell,
    ) && manager.registered(after.stack[i].cell as int) by {
        if i < n {
            assert(after.stack[i] == cells.stack[i]);
        }
    }
    assert forall|i: int| 0 <= i < after.stack.len() - 1 implies #[trigger] after.granted_next(
        manager,
        i,
    ) by {
        if i < n - 1 {
            assert(cells.granted_next(manager, i));
        }
    }
    assert forall|i: int, j: int| 0 <= i < j < after.stack.len() implies (#[trigger] after.stack[i]).cell
        != (#[trigger] after.stack[j]).cell by {
        if j < n {
            assert(cells.stack[i].cell != cells.stack[j].cell);
        } else {
            assert(cells.stack[i].cell != cell);
        }
    }
    assert forall|other: int|
        #![trigger after.instances.dom().contains(other)]
        #![trigger manager.registered(other)]
        after.instances.dom().contains(other) <==> manager.registered(other) && !after.visiting(
            other,
        ) by {
        if other == cell {
            assert(after.stack[n].cell == cell);
        } else {
            if cells.visiting(other) {
                let i = choose|i: int| 0 <= i < cells.stack.len() && (#[trigger] cells.stack[i]).cell == other;
                assert(after.stack[i].cell == other);
            }
            if after.visiting(other) {
                let i = choose|i: int| 0 <= i < after.stack.len() && (#[trigger] after.stack[i]).cell == other;
                assert(cells.stack[i].cell == other);
            }
        }
    }
}

/// The cells still go with the manager when the innermost visit ends.
pub proof fn lemma_leave_fits<T>(cells: CellsView<T>, manager: ManagerView, instance: T)
    requires
        cells.fits(manager),
        cells.stack.len() > 0,
    ensures
        cells.leave(instance).fits(manager),
{
    let after = cells.leave(instance);
    let n = after.stack.len() as int;
    let cell = cells.stack[n].cell as int;
    assert forall|i: int| 0 <= i < after.stack.len() implies manager.listening(
        (#[trigger] after.stack[i]).channel,
        after.stack[i].cell,
    ) && manager.registered(after.stack[i].cell as int) by {
        assert(after.stack[i] == cells.stack[i]);
    }
    assert forall|i: int| 0 <= i < after.stack.len() - 1 implies #[trigger] after.granted_next(
        manager,
        i,
    ) by {
        assert(cells.granted_next(manager, i));
    }
    assert forall|i: int, j: int| 0 <= i < j < after.stack.len() implies (#[trigger] after.stack[i]).cell
        != (#[trigger] after.stack[j]).cell by {
        assert(cells.stack[i].cell != cells.stack[j].cell);
    }
    assert forall|other: int|
        #![trigger after.instances.dom().contains(other)]
        #![trigger manager.registered(other)]
        after.instances.dom().contains(other) <==> manager.registered(other) && !after.visiting(
            other,
        ) by {
        if other == cell {
            if after.visiting(other) {
                let i = choose|i: int| 0 <= i < after.stack.len() && (#[trigger] after.stack[i]).cell == other;
                assert(cells.stack[i].cell != cells.stack[n].cell);
            }
        } else {
            if cells.visiting(other) {
                let i = choose|i: int| 0 <= i < cells.stack.len() && (#[trigger] cells.stack[i]).cell == other;
                assert(after.stack[i].cell == other);
            }
            if after.visiting(other) {
                let i = choose|i: int| 0 <= i < after.stack.len() && (#[trigger] after.stack[i]).cell == other;
                assert(cells.stack[i].cell == other);
            }
        }
    }
}

impl Topic {
    /// Applies `visitor` once to every subscriber of the channel, in the
    /// channel's order. Inside a visit only a channel that the subscriber
    /// visited was granted can be dispatched into.
    pub fn emit<T, V: Visitor<T>>(
        &self,
        manager: &Manager,
        cells: &mut Cells<T>,
        visitor: &mut V,
    ) -> (r: Result<(), Error>)
        requires
            manager.wf(),
            old(cells).fits(manager),
        ensures
            final(cells).fits(manager),
            final(cells)@.stack == old(cells)@.stack,
            r matches Err(Error::InactiveScope) <==> !self.owned_by(manager@),
            r matches Err(Error::NotGranted) <==> self.owned_by(manager@)
                && !old(cells)@.may_enter(manager@, self.index),
            r matches Err(error) ==> (error == Error::InactiveScope || error == Error::NotGranted)
                && *final(visitor) == *old(visitor) && final(cells)@ == old(cells)@,
            r is Ok ==> dispatched(
                self.index,
                manager@.members[self.index as int],
                manager@.members[self.index as int].len(),
                *old(visitor),
                old(cells)@,
                *final(visitor),
                final(cells)@,
            ),
    {
        let ghost view = manager@;
        if !self.is_owned_by(manager) {
            return Err(Error::InactiveScope);
        }
        match cells.innermost() {
            Some(frame) => {
                if !manager.is_granted(frame.cell, self.index) {
                    return Err(Error::NotGranted);
                }
            },
            None => {},
        }
        let order = manager.members_of(self.index);
        let mut k: usize = 0;
        while k < order.len()
            invariant
                k <= order.len(),
                manager.wf(),
                view == manager@,
                self.owned_by(view),
                cells.fits(manager),
                cells@.stack == old(cells)@.stack,
                cells@.may_enter(view, self.index),
                order@ == view.members[self.index as int],
                dispatched(self.index, order@, k as nat, *old(visitor), old(cells)@, *visitor, cells@),
            decreases order.len() - k,
        {
            let cell = order[k];
            let ghost vm = *visitor;
            let ghost cm = cells@;
            proof {
                assert(view.members[self.index as int][k as int] == cell);
                assert(view.member(self.index as int, cell as int));
                cm.lemma_never_reentered(view, self.index, cell);
                lemma_enter_fits(cm, view, self.index, cell);
            }
            let mut instance = match cells.enter(self.index, cell) {
                Some(instance) => instance,
                None => {
                    // Only cells that do not go with this manager lack the
                    // instance of a member.
                    return Err(Error::InactiveScope);
                },
            };
            visitor.visit(&mut instance, manager, cells);
            let ghost inner = cells@;
            cells.leave(instance);
            proof {
                lemma_leave_fits(inner, view, instance);
                assert(cells@.stack =~= cm.stack);
                assert(visit_by(self.index, cell, vm, cm, *visitor, cells@, instance, inner));
                assert(visit_step(self.index, cell, vm, cm, *visitor, cells@));
                lemma_dispatched_next(
                    self.index,
                    order@,
                    k as nat,
                    *old(visitor),
                    old(cells)@,
                    vm,
                    cm,
                    *visitor,
                    cells@,
                );
            }
            k += 1;
        }
        Ok(())
    }
}

} // verus!
