//! The order of the subscribers of a channel.

use crate::error::Error;
use crate::manager::Manager;
use crate::shared::{Cells, CellsView};
use crate::topic::Topic;
use vstd::prelude::*;
use vstd::seq_lib::{to_multiset_build, to_multiset_contains, to_multiset_insert};

verus! {

/// `first` may stand before `second`: the comparison put it first, or did
/// not put `second` first.
pub open spec fn in_order<T, F: Fn(&T, &T) -> bool>(precedes: F, first: T, second: T) -> bool {
    precedes.ensures((&first, &second), true) || precedes.ensures((&second, &first), false)
}

/// The subscriber at position `at` of `list` may stand before the next one.
pub open spec fn in_order_at<T, F: Fn(&T, &T) -> bool>(
    precedes: F,
    cells: CellsView<T>,
    list: Seq<usize>,
    at: int,
) -> bool {
    in_order(precedes, cells.instances[list[at] as int], cells.instances[list[at + 1] as int])
}

/// Every subscriber of `list` may stand before the next one.
pub open spec fn ordered<T, F: Fn(&T, &T) -> bool>(
    precedes: F,
    cells: CellsView<T>,
    list: Seq<usize>,
) -> bool {
    forall|k: int| 0 <= k < list.len() - 1 ==> #[trigger] in_order_at(precedes, cells, list, k)
}

/// `list` holds the first `n` subscribers of `old` in another order:
/// `origin` tells for each position of `list` which position of `old` its
/// subscriber came from, and no two came from the same.
pub open spec fn rearranges(origin: Seq<int>, old: Seq<usize>, list: Seq<usize>, n: int) -> bool {
    &&& origin.len() == list.len()
    &&& list.len() == n
    &&& n <= old.len()
    &&& forall|p: int|
        0 <= p < list.len() ==> 0 <= #[trigger] origin[p] < n && list[p] == old[origin[p]]
    &&& forall|p: int, q: int|
        0 <= p < q < list.len() ==> #[trigger] origin[p] != #[trigger] origin[q]
}

/// The comparison put the subscriber at position `p` of `list` before the
/// one at position `q`.
pub open spec fn put_before<T, F: Fn(&T, &T) -> bool>(
    precedes: F,
    cells: CellsView<T>,
    list: Seq<usize>,
    p: int,
    q: int,
) -> bool {
    precedes.ensures((&cells.instances[list[p] as int], &cells.instances[list[q] as int]), true)
}

/// Every subscriber that stands before one that it stood behind was put
/// before it by the comparison; the others have kept their order.
pub open spec fn justified<T, F: Fn(&T, &T) -> bool>(
    precedes: F,
    cells: CellsView<T>,
    origin: Seq<int>,
    list: Seq<usize>,
) -> bool {
    forall|p: int, q: int|
        0 <= p < q < list.len() && #[trigger] origin[p] > #[trigger] origin[q] ==> put_before(
            precedes,
            cells,
            list,
            p,
            q,
        )
}

/// What `sort_by` makes of the list `old`: `list` holds the same
/// subscribers, each may stand before the next, and only the comparison has
/// changed the order of any two.
pub open spec fn sorted_from<T, F: Fn(&T, &T) -> bool>(
    precedes: F,
    cells: CellsView<T>,
    old: Seq<usize>,
    list: Seq<usize>,
    origin: Seq<int>,
) -> bool {
    &&& rearranges(origin, old, list, old.len() as int)
    &&& list.to_multiset() == old.to_multiset()
    &&& ordered(precedes, cells, list)
    &&& justified(precedes, cells, origin, list)
}

impl Topic {
    /// Puts the subscribers of the channel in the order of `precedes`, which
    /// says of two instances whether the first is to stand before the
    /// second. Subscribers that it does not put before one another keep
    /// their order. Later dispatches follow the new order.
    pub fn sort_by<T, F: Fn(&T, &T) -> bool>(
        &self,
        manager: &mut Manager,
        cells: &Cells<T>,
        precedes: F,
    ) -> (r: Result<(), Error>)
        requires
            old(manager).wf(),
            cells.fits(old(manager)),
            forall|a: &T, b: &T| precedes.requires((a, b)),
        ensures
            final(manager).wf(),
            cells.fits(final(manager)),
            r is Ok <==> self.owned_by(old(manager)@) && cells@.idle(),
            r matches Err(error) ==> error == Error::InactiveScope && final(manager)@
                == old(manager)@,
            r is Ok ==> final(manager)@ == old(manager)@.enrolling(
                self.index as int,
                final(manager)@.members[self.index as int],
            ) && exists|origin: Seq<int>| #[trigger]
                sorted_from(
                    precedes,
                    cells@,
                    old(manager)@.members[self.index as int],
                    final(manager)@.members[self.index as int],
                    origin,
                ),
    {
        let ghost before = manager@;
        if !self.is_owned_by(manager) || cells.depth() != 0 {
            return Err(Error::InactiveScope);
        }
        let order = manager.members_of(self.index).clone();
        let ghost items = order@;
        assert(items =~= before.members[self.index as int]);
        let mut sorted: Vec<usize> = Vec::new();
        let ghost mut origin: Seq<int> = Seq::empty();
        let mut k: usize = 0;
        proof {
            assert(items.take(0) =~= sorted@);
        }
        while k < order.len()
            invariant
                k <= order.len(),
                manager.wf(),
                before == manager@,
                self.owned_by(before),
                cells.fits(manager),
                cells@.idle(),
                items == order@,
                items == before.members[self.index as int],
                forall|a: &T, b: &T| precedes.requires((a, b)),
                sorted@.to_multiset() == items.take(k as int).to_multiset(),
                ordered(precedes, cells@, sorted@),
                rearranges(origin, items, sorted@, k as int),
                justified(precedes, cells@, origin, sorted@),
                forall|i: int|
                    0 <= i < sorted.len() ==> before.member(
                        self.index as int,
                        #[trigger] sorted[i] as int,
                    ),
            decreases order.len() - k,
        {
            let cell = order[k];
            proof {
                assert(before.members[self.index as int][k as int] == cell);
                assert(before.member(self.index as int, cell as int));
                cells@.lemma_never_reentered(before, self.index, cell);
            }
            let mut p: usize = sorted.len();
            let mut searching = true;
            while searching && p > 0
                invariant
                    p <= sorted.len(),
                    manager.wf(),
                    before == manager@,
                    cells.fits(manager),
                    cells@.idle(),
                    forall|a: &T, b: &T| precedes.requires((a, b)),
                    cells@.instances.dom().contains(cell as int),
                    forall|i: int|
                        0 <= i < sorted.len() ==> before.member(
                            self.index as int,
                            #[trigger] sorted[i] as int,
                        ),
                    forall|q: int|
                        p <= q < sorted.len() ==> precedes.ensures(
                            (
                                &cells@.instances[cell as int],
                                &cells@.instances[#[trigger] sorted[q] as int],
                            ),
                            true,
                        ),
                    !searching ==> p > 0 && precedes.ensures(
                        (&cells@.instances[cell as int], &cells@.instances[sorted[p - 1] as int]),
                        false,
                    ),
                decreases p + if searching { 1int } else { 0int },
            {
                let other = sorted[p - 1];
                proof {
                    assert(before.member(self.index as int, sorted[p - 1] as int));
                    cells@.lemma_never_reentered(before, self.index, other);
                }
                match (cells.peek(cell), cells.peek(other)) {
                    (Some(a), Some(b)) => {
                        if precedes(a, b) {
                            p -= 1;
                        } else {
                            searching = false;
                        }
                    },
                    _ => {
                        // Only cells that do not go with this manager lack
                        // the instance of a member.
                        return Err(Error::InactiveScope);
                    },
                }
            }
            let ghost shorter = sorted@;
            let ghost came = origin;
            sorted.insert(p, cell);
            proof {
                origin = came.insert(p as int, k as int);
                let longer = sorted@;
                to_multiset_insert(shorter, p as int, cell);
                to_multiset_build(items.take(k as int), cell);
                assert(items.take(k + 1) =~= items.take(k as int).push(cell));
                assert forall|i: int| 0 <= i < longer.len() implies before.member(
                    self.index as int,
                    #[trigger] longer[i] as int,
                ) by {
                    if i < p {
                        assert(longer[i] == shorter[i]);
                    } else if i > p {
                        assert(longer[i] == shorter[i - 1]);
                    }
                }
                assert forall|q: int| 0 <= q < longer.len() - 1 implies #[trigger] in_order_at(
                    precedes,
                    cells@,
                    longer,
                    q,
                ) by {
                    if q < p - 1 {
                        assert(in_order_at(precedes, cells@, shorter, q));
                    } else if q > p {
                        assert(in_order_at(precedes, cells@, shorter, q - 1));
                    } else if q == p {
                        assert(longer[q + 1] == shorter[p as int]);
                    }
                }
                assert forall|i: int| 0 <= i < longer.len() implies 0 <= #[trigger] origin[i] < k + 1
                    && longer[i] == items[origin[i]] by {
                    if i < p {
                        assert(origin[i] == came[i]);
                    } else if i > p {
                        assert(origin[i] == came[i - 1]);
                    }
                }
                assert forall|i: int, j: int| 0 <= i < j < longer.len() implies #[trigger] origin[i]
                    != #[trigger] origin[j] by {
                    let a = if i < p { i } else { i - 1 };
                    let b = if j < p { j } else { j - 1 };
                    if i != p && j != p {
                        assert(came[a] != came[b]);
                    } else if i == p {
                        assert(came[b] < k);
                    } else {
                        assert(came[a] < k);
                    }
                }
                assert forall|i: int, j: int|
                    0 <= i < j < longer.len() && #[trigger] origin[i] > #[trigger] origin[j] implies put_before(
                    precedes,
                    cells@,
                    longer,
                    i,
                    j,
                ) by {
                    let a = if i < p { i } else { i - 1 };
                    let b = if j < p { j } else { j - 1 };
                    if i != p && j != p {
                        assert(came[a] > came[b]);
                        assert(put_before(precedes, cells@, shorter, a, b));
                    } else if i == p {
                        assert(longer[j] == shorter[b]);
                    } else {
                        assert(came[a] < k);
                    }
                }
            }
            k += 1;
        }
        proof {
            assert(items.take(items.len() as int) =~= items);
            assert forall|i: int| 0 <= i < sorted.len() implies before.listening(
                self.index,
                #[trigger] sorted[i],
            ) by {
                before.lemma_member_listens(self.index as int, sorted[i] as int);
            }
        }
        let ghost list = sorted@;
        manager.enroll(self.index, sorted);
        proof {
            let after = manager@;
            assert(after.members[self.index as int] == list);
            assert(sorted_from(precedes, cells@, items, list, origin));
            assert forall|cell: int|
                #![trigger cells@.instances.dom().contains(cell)]
                #![trigger after.registered(cell)]
                cells@.instances.dom().contains(cell) <==> after.registered(cell)
                    && !cells@.visiting(cell) by {
                assert forall|channel: int| before.member(channel, cell) == after.member(
                    channel,
                    cell,
                ) by {
                    before.lemma_enrolling_member(self.index as int, list, channel, cell);
                    if channel == self.index && 0 <= cell <= usize::MAX {
                        to_multiset_contains(list, cell as usize);
                        to_multiset_contains(items, cell as usize);
                        if before.member(channel, cell) {
                            let j = choose|j: int| 0 <= j < items.len() && #[trigger] items[j] == cell;
                            assert(items.contains(cell as usize));
                            let i = choose|i: int| 0 <= i < list.len() && list[i] == cell as usize;
                            assert(list[i] == cell);
                        }
                        if after.member(channel, cell) {
                            let i = choose|i: int| 0 <= i < list.len() && #[trigger] list[i] == cell;
                            assert(list.contains(cell as usize));
                            let j = choose|j: int| 0 <= j < items.len() && items[j] == cell as usize;
                            assert(items[j] == cell);
                        }
                    }
                }
                before.lemma_registered_alike(after, cell);
            }
        }
        Ok(())
    }
}

} // verus!
