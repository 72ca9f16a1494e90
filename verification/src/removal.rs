//! Removal of the subscribers of a channel that a predicate names.

use crate::dispatch::{lemma_enter_fits, lemma_leave_fits};
use crate::error::Error;
use crate::manager::{Manager, ManagerView};
use crate::shared::{Cells, CellsView};
use crate::topic::Topic;
use crate::visitor::Predicate;
use vstd::prelude::*;

verus! {

/// One test: the instance of `cell` leaves its cell, is tested as `tested`
/// allows, which leaves the cells as `inner` with the instance as `changed`,
/// and goes back.
pub open spec fn test_by<T, P: Predicate<T>>(
    channel: usize,
    cell: usize,
    p0: P,
    c0: CellsView<T>,
    p1: P,
    c1: CellsView<T>,
    verdict: bool,
    changed: T,
    inner: CellsView<T>,
) -> bool {
    &&& p0.tested(p1, c0.instances[cell as int], changed, verdict, c0.enter(channel, cell), inner)
    &&& inner.stack == c0.enter(channel, cell).stack
    &&& c1 == inner.leave(changed)
}

/// One test of the subscriber `cell` as a member of `channel` leads from the
/// predicate `p0` and the cells `c0` to `p1` and `c1`, with the answer
/// `verdict`.
pub open spec fn test_step<T, P: Predicate<T>>(
    channel: usize,
    cell: usize,
    p0: P,
    c0: CellsView<T>,
    p1: P,
    c1: CellsView<T>,
    verdict: bool,
) -> bool {
    &&& c0.instances.dom().contains(cell as int)
    &&& exists|changed: T, inner: CellsView<T>| #[trigger]
        test_by(channel, cell, p0, c0, p1, c1, verdict, changed, inner)
}

/// Tests of the first `n` subscribers of `order`, one each and in that
/// order, lead from the predicate `p0` and the cells `c0` to `p1` and `c1`,
/// with the answers `verdicts`.
pub open spec fn sifted<T, P: Predicate<T>>(
    channel: usize,
    order: Seq<usize>,
    n: nat,
    p0: P,
    c0: CellsView<T>,
    p1: P,
    c1: CellsView<T>,
    verdicts: Seq<bool>,
) -> bool
    decreases n,
{
    if n == 0 {
        p1 == p0 && c1 == c0 && verdicts.len() == 0
    } else {
        &&& n <= order.len()
        &&& verdicts.len() == n
        &&& exists|pm: P, cm: CellsView<T>|
            sifted(channel, order, (n - 1) as nat, p0, c0, pm, cm, verdicts.drop_last())
                && #[trigger] test_step(
                channel,
                order[n - 1],
                pm,
                cm,
                p1,
                c1,
                verdicts[n - 1],
            )
    }
}

/// The first `n` subscribers of `order` but those whose answer was `true`,
/// in the same order.
pub open spec fn kept(order: Seq<usize>, verdicts: Seq<bool>, n: nat) -> Seq<usize>
    decreases n,
{
    if n == 0 || n > order.len() || n > verdicts.len() {
        Seq::empty()
    } else if verdicts[n - 1] {
        kept(order, verdicts, (n - 1) as nat)
    } else {
        kept(order, verdicts, (n - 1) as nat).push(order[n - 1])
    }
}

/// What is kept was there before.
pub proof fn lemma_kept_was_there(order: Seq<usize>, verdicts: Seq<bool>, n: nat, k: int)
    requires
        n <= order.len(),
        n <= verdicts.len(),
        0 <= k < kept(order, verdicts, n).len(),
    ensures
        exists|j: int| 0 <= j < n && #[trigger] order[j] == kept(order, verdicts, n)[k],
    decreases n,
{
    if n > 0 {
        let shorter = kept(order, verdicts, (n - 1) as nat);
        if k < shorter.len() {
            lemma_kept_was_there(order, verdicts, (n - 1) as nat, k);
            let j = choose|j: int| 0 <= j < n - 1 && #[trigger] order[j] == shorter[k];
            assert(order[j] == kept(order, verdicts, n)[k]);
        } else {
            assert(order[n - 1] == kept(order, verdicts, n)[k]);
        }
    }
}

/// What is kept of one more subscriber.
proof fn lemma_kept_grows(order: Seq<usize>, verdicts: Seq<bool>, verdict: bool, n: nat)
    requires
        n < order.len(),
        verdicts.len() == n,
    ensures
        kept(order, verdicts.push(verdict), n + 1) == if verdict {
            kept(order, verdicts, n)
        } else {
            kept(order, verdicts, n).push(order[n as int])
        },
{
    lemma_kept_prefix(order, verdicts, verdicts.push(verdict), n);
}

/// What is kept of the first subscribers depends on their answers alone.
proof fn lemma_kept_prefix(order: Seq<usize>, a: Seq<bool>, b: Seq<bool>, n: nat)
    requires
        n <= order.len(),
        n <= a.len(),
        n <= b.len(),
        forall|i: int| 0 <= i < n ==> a[i] == b[i],
    ensures
        kept(order, a, n) == kept(order, b, n),
    decreases n,
{
    if n > 0 {
        lemma_kept_prefix(order, a, b, (n - 1) as nat);
    }
}

/// The instances `tested` of the subscribers that are registered in the
/// state `manager`, and of no other.
pub open spec fn surviving<T>(tested: CellsView<T>, manager: ManagerView) -> CellsView<T> {
    CellsView {
        instances: tested.instances.restrict(Set::new(|cell: int| manager.registered(cell))),
        ..tested
    }
}

/// What `remove` leaves on success: every subscriber of the channel was
/// tested once, in order, with the answers `verdicts`, which left the cells
/// as `tested`; those with the answer `true` are out of the channel, and the
/// instances of those that are then registered nowhere are destroyed.
pub open spec fn removed<T, P: Predicate<T>>(
    channel: usize,
    before: ManagerView,
    held: CellsView<T>,
    p0: P,
    after: ManagerView,
    left: CellsView<T>,
    p1: P,
    verdicts: Seq<bool>,
    tested: CellsView<T>,
) -> bool {
    let order = before.members[channel as int];
    &&& sifted(channel, order, order.len(), p0, held, p1, tested, verdicts)
    &&& after == before.enrolling(channel as int, kept(order, verdicts, order.len()))
    &&& left == surviving(tested, after)
}

impl Topic {
    /// Tests every subscriber of the channel once, in the channel's order,
    /// and then takes out of the channel those for which `predicate`
    /// answered `true`.
    pub fn remove<T, P: Predicate<T>>(
        &self,
        manager: &mut Manager,
        cells: &mut Cells<T>,
        predicate: &mut P,
    ) -> (r: Result<(), Error>)
        requires
            old(manager).wf(),
            old(cells).fits(old(manager)),
        ensures
            final(manager).wf(),
            final(cells).fits(final(manager)),
            r is Ok <==> self.owned_by(old(manager)@) && old(cells)@.idle(),
            r matches Err(error) ==> error == Error::InactiveScope && final(manager)@
                == old(manager)@ && final(cells)@ == old(cells)@ && *final(predicate)
                == *old(predicate),
            r is Ok ==> exists|verdicts: Seq<bool>, tested: CellsView<T>| #[trigger]
                removed(
                    self.index,
                    old(manager)@,
                    old(cells)@,
                    *old(predicate),
                    final(manager)@,
                    final(cells)@,
                    *final(predicate),
                    verdicts,
                    tested,
                ),
    {
        let ghost before = manager@;
        let ghost held = cells@;
        if !self.is_owned_by(manager) || cells.depth() != 0 {
            return Err(Error::InactiveScope);
        }
        let order = manager.members_of(self.index).clone();
        let ghost items = order@;
        assert(items =~= before.members[self.index as int]);
        let mut stay: Vec<usize> = Vec::new();
        let ghost mut verdicts: Seq<bool> = Seq::empty();
        let mut k: usize = 0;
        while k < order.len()
            invariant
                k <= order.len(),
                manager.wf(),
                before == manager@,
                self.owned_by(before),
                cells.fits(manager),
                cells@.idle(),
                items == order@,
                items == before.members[self.index as int],
                verdicts.len() == k,
                stay@ == kept(items, verdicts, k as nat),
                sifted(self.index, items, k as nat, *old(predicate), held, *predicate, cells@, verdicts),
            decreases order.len() - k,
        {
            let cell = order[k];
            let ghost pm = *predicate;
            let ghost cm = cells@;
            proof {
                assert(before.members[self.index as int][k as int] == cell);
                assert(before.member(self.index as int, cell as int));
                cm.lemma_never_reentered(before, self.index, cell);
                lemma_enter_fits(cm, before, self.index, cell);
            }
            let mut instance = match cells.enter(self.index, cell) {
                Some(instance) => instance,
                None => {
                    // Only cells that do not go with this manager lack the
                    // instance of a member.
                    return Err(Error::InactiveScope);
                },
            };
            let verdict = predicate.test(&mut instance, manager, cells);
            let ghost inner = cells@;
            cells.leave(instance);
            if !verdict {
                stay.push(cell);
            }
            proof {
                lemma_leave_fits(inner, before, instance);
                assert(cells@.stack =~= cm.stack);
                let longer = verdicts.push(verdict);
                assert(longer.drop_last() =~= verdicts);
                assert(test_by(self.index, cell, pm, cm, *predicate, cells@, verdict, instance, inner));
                assert(test_step(self.index, cell, pm, cm, *predicate, cells@, longer[k as int]));
                lemma_kept_grows(items, verdicts, verdict, k as nat);
                verdicts = longer;
            }
            k += 1;
        }
        let ghost tested = cells@;
        proof {
            assert forall|i: int| 0 <= i < stay.len() implies before.listening(
                self.index,
                #[trigger] stay[i],
            ) by {
                lemma_kept_was_there(items, verdicts, items.len(), i);
                let j = choose|j: int| 0 <= j < items.len() && #[trigger] items[j] == stay[i];
                assert(before.member(self.index as int, items[j] as int));
                before.lemma_member_listens(self.index as int, items[j] as int);
            }
        }
        manager.enroll(self.index, stay);
        let ghost after = manager@;
        proof {
            assert forall|channel: int, cell: int| channel != self.index implies after.member(
                channel,
                cell,
            ) == before.member(channel, cell) by {
                before.lemma_enrolling_member(
                    self.index as int,
                    kept(items, verdicts, items.len()),
                    channel,
                    cell,
                );
            }
            assert forall|cell: int| after.member(self.index as int, cell) implies before.member(
                self.index as int,
                cell,
            ) by {
                let list = kept(items, verdicts, items.len());
                before.lemma_enrolling_member(self.index as int, list, self.index as int, cell);
                let i = choose|i: int| 0 <= i < list.len() && #[trigger] list[i] == cell;
                lemma_kept_was_there(items, verdicts, items.len(), i);
                let j = choose|j: int| 0 <= j < items.len() && #[trigger] items[j] == list[i];
                assert(before.members[self.index as int][j] == cell);
            }
        }
        let mut k: usize = 0;
        while k < order.len()
            invariant
                k <= order.len(),
                manager.wf(),
                after == manager@,
                cells.wf(),
                items == order@,
                cells@.manager == tested.manager,
                cells@.stack == tested.stack,
                forall|cell: int|
                    #![trigger cells@.instances.dom().contains(cell)]
                    cells@.instances.dom().contains(cell) <==> tested.instances.dom().contains(
                        cell,
                    ) && !(!after.registered(cell) && exists|j: int|
                        0 <= j < k && #[trigger] items[j] == cell),
                forall|cell: int|
                    cells@.instances.dom().contains(cell) ==> cells@.instances[cell]
                        == tested.instances[cell],
            decreases order.len() - k,
        {
            let cell = order[k];
            let ghost now = cells@;
            if !manager.is_registered(cell) {
                cells.discard(cell);
            }
            proof {
                assert forall|other: int|
                    #![trigger cells@.instances.dom().contains(other)]
                    cells@.instances.dom().contains(other) <==> tested.instances.dom().contains(
                        other,
                    ) && !(!after.registered(other) && exists|j: int|
                        0 <= j < k + 1 && #[trigger] items[j] == other) by {
                    if !after.registered(other) && (exists|j: int|
                        0 <= j < k + 1 && #[trigger] items[j] == other) {
                        let j = choose|j: int| 0 <= j < k + 1 && #[trigger] items[j] == other;
                        if j < k {
                            assert(!now.instances.dom().contains(other));
                        }
                    }
                    if other == cell {
                        assert(items[k as int] == other);
                    }
                }
            }
            k += 1;
        }
        proof {
            let goal = surviving(tested, after);
            assert forall|cell: int| tested.instances.dom().contains(cell) && !after.registered(
                cell,
            ) implies exists|j: int| 0 <= j < items.len() && #[trigger] items[j] == cell by {
                assert(before.registered(cell));
                let channel = choose|channel: int| #[trigger] before.member(channel, cell);
                if channel != self.index {
                    assert(after.member(channel, cell));
                }
                let j = choose|j: int|
                    0 <= j < before.members[channel].len() && #[trigger] before.members[channel][j]
                        == cell;
                assert(items[j] == cell);
            }
            assert(cells@.instances =~= goal.instances);
            assert(cells@ == goal);
            assert forall|cell: int|
                #![trigger cells@.instances.dom().contains(cell)]
                #![trigger after.registered(cell)]
                cells@.instances.dom().contains(cell) <==> after.registered(cell)
                    && !cells@.visiting(cell) by {
                if after.registered(cell) {
                    let channel = choose|channel: int| #[trigger] after.member(channel, cell);
                    assert(before.member(channel, cell));
                    assert(before.registered(cell));
                }
            }
            assert(removed(
                self.index,
                before,
                held,
                *old(predicate),
                after,
                cells@,
                *predicate,
                verdicts,
                tested,
            ));
        }
        Ok(())
    }
}

} // verus!
