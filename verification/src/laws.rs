//! What holds of the broker as a whole.

use crate::graph::{
    acyclic, lemma_product_keeps_acyclic, lemma_walk_grow, reaches, walks,
};
use crate::list::{lemma_without, others};
use crate::manager::{lemma_commit_links, nodes_of, Manager, ManagerView, ProfileView};
use crate::shared::CellsView;
use crate::dispatch::{dispatched, visit_by, visit_step};
use crate::visitor::{Counter, Visitor};
use vstd::prelude::*;

verus! {

/// The committed permission graph of a manager has no cycle, whatever was
/// subscribed before.
pub proof fn law_committed_graph_is_acyclic(manager: &Manager)
    requires
        manager.wf(),
    ensures
        acyclic(manager@.links()),
{
}

/// A subscription is accepted exactly if the committed graph would have no
/// cycle with its permissions in it.
pub proof fn law_accepted_iff_acyclic(manager: ManagerView, profile: ProfileView)
    requires
        manager.valid(),
    ensures
        manager.accepts(profile.listens, profile.emits) <==> acyclic(
            manager.approving(profile).links(),
        ),
{
    let links = manager.links();
    let grown = manager.approving(profile).links();
    let sources = nodes_of(profile.listens);
    let targets = nodes_of(profile.emits);
    lemma_commit_links(manager.edges, profile);
    if manager.accepts(profile.listens, profile.emits) {
        assert forall|s: int, t: int| sources.contains(s) && targets.contains(t) implies !#[trigger] reaches(
            links,
            t,
            s,
        ) by {
            let i = choose|k: int| 0 <= k < profile.listens.len() && #[trigger] profile.listens[k] == s;
            let j = choose|k: int| 0 <= k < profile.emits.len() && #[trigger] profile.emits[k] == t;
            assert(manager.open_pair(profile.listens, profile.emits, i, j));
        }
        lemma_product_keeps_acyclic(links, sources, targets);
    } else {
        let (i, j) = choose|i: int, j: int|
            0 <= i < profile.listens.len() && 0 <= j < profile.emits.len()
                && !#[trigger] manager.open_pair(profile.listens, profile.emits, i, j);
        let source = profile.listens[i] as int;
        let target = profile.emits[j] as int;
        assert(sources.contains(source));
        assert(targets.contains(target));
        assert(grown.contains((source, target)));
        let walk = choose|walk: Seq<int>| #[trigger] walks(links, walk, target, source);
        lemma_walk_grow(links, grown, walk);
        assert(walks(grown, walk, target, source));
    }
}

/// A dispatch with a counter counts one for every subscriber of the channel
/// and changes nothing else: the visitor is applied exactly once to each.
pub proof fn law_dispatch_counts<T>(
    channel: usize,
    order: Seq<usize>,
    n: nat,
    v0: Counter,
    c0: CellsView<T>,
    v1: Counter,
    c1: CellsView<T>,
)
    requires
        dispatched(channel, order, n, v0, c0, v1, c1),
        v0.count + n <= usize::MAX,
    ensures
        v1.count == v0.count + n,
        c1 == c0,
    decreases n,
{
    if n > 0 {
        let (vm, cm) = choose|vm: Counter, cm: CellsView<T>|
            dispatched(channel, order, (n - 1) as nat, v0, c0, vm, cm) && #[trigger] visit_step(
                channel,
                order[n - 1],
                vm,
                cm,
                v1,
                c1,
            );
        law_dispatch_counts(channel, order, (n - 1) as nat, v0, c0, vm, cm);
        let cell = order[n - 1];
        let (changed, inner) = choose|changed: T, inner: CellsView<T>| #[trigger]
            visit_by(channel, cell, vm, cm, v1, c1, changed, inner);
        assert(c1.instances =~= cm.instances);
        assert(c1.stack =~= cm.stack);
    }
}

/// A visitor that leaves the cells alone changes no instance but those of the
/// subscribers in the list it is dispatched over: a dispatch visits the
/// members of the channel, and no one else.
pub proof fn law_dispatch_leaves_others<T, V: Visitor<T>>(
    channel: usize,
    order: Seq<usize>,
    n: nat,
    v0: V,
    c0: CellsView<T>,
    v1: V,
    c1: CellsView<T>,
    cell: int,
)
    requires
        dispatched(channel, order, n, v0, c0, v1, c1),
        forall|a: V, b: V, s: T, t: T, x: CellsView<T>, y: CellsView<T>| #[trigger]
            a.visited(b, s, t, x, y) ==> y == x,
        forall|k: int| 0 <= k < n ==> #[trigger] order[k] != cell,
    ensures
        c1.instances.dom().contains(cell) == c0.instances.dom().contains(cell),
        c1.instances.dom().contains(cell) ==> c1.instances[cell] == c0.instances[cell],
        c1.stack == c0.stack,
    decreases n,
{
    if n > 0 {
        let (vm, cm) = choose|vm: V, cm: CellsView<T>|
            dispatched(channel, order, (n - 1) as nat, v0, c0, vm, cm) && #[trigger] visit_step(
                channel,
                order[n - 1],
                vm,
                cm,
                v1,
                c1,
            );
        law_dispatch_leaves_others(channel, order, (n - 1) as nat, v0, c0, vm, cm, cell);
        let visited = order[n - 1];
        assert(visited != cell);
        let (changed, inner) = choose|changed: T, inner: CellsView<T>| #[trigger]
            visit_by(channel, visited, vm, cm, v1, c1, changed, inner);
        assert(vm.visited(v1, cm.instances[visited as int], changed, cm.enter(channel, visited), inner));
        assert(inner == cm.enter(channel, visited));
        assert(c1.stack =~= cm.stack);
    }
}

/// A subscriber that was taken out of a channel is no member of it: no
/// dispatch into the channel visits it, and to take it out once more fails.
pub proof fn law_unsubscribed_is_gone(manager: ManagerView, channel: usize, cell: usize)
    requires
        manager.valid(),
        channel < manager.channels.len(),
    ensures
        !manager.enrolling(
            channel as int,
            others(manager.members[channel as int], cell),
        ).member(channel as int, cell as int),
{
    let list = others(manager.members[channel as int], cell);
    lemma_without(manager.members[channel as int], cell, cell);
    manager.lemma_enrolling_member(channel as int, list, channel as int, cell as int);
    if exists|k: int| 0 <= k < list.len() && #[trigger] list[k] == cell {
        let k = choose|k: int| 0 <= k < list.len() && #[trigger] list[k] == cell;
        assert(list.contains(cell));
    }
}

/// A subscriber that has left every channel it listens on is registered in
/// none; if it listens on any, to unsubscribe it once more fails.
pub proof fn law_left_is_unknown(manager: ManagerView, cell: usize)
    requires
        manager.valid(),
        cell < manager.subscribers.len(),
    ensures
        !manager.parting(cell).registered(cell as int),
        manager.subscribers[cell as int].listens.len() > 0 ==> !manager.parting(cell).in_all(cell),
{
    let after = manager.parting(cell);
    let listens = manager.subscribers[cell as int].listens;
    assert(listens.take(listens.len() as int) =~= listens);
    assert forall|channel: int| !after.member(channel, cell as int) by {
        manager.lemma_parted_member(cell, listens.len() as int, channel, cell as int);
        if manager.member(channel, cell as int) {
            manager.lemma_member_listens(channel, cell as int);
        }
    }
    if listens.len() > 0 {
        assert(!after.member(after.subscribers[cell as int].listens[0] as int, cell as int));
    }
}

/// No instance is kept of a subscriber that is registered in no channel.
pub proof fn law_no_instance_without_channel<T>(cells: CellsView<T>, manager: ManagerView, cell: int)
    requires
        cells.fits(manager),
        !manager.registered(cell),
    ensures
        !cells.instances.dom().contains(cell),
{
}

/// A subscriber that listens on no channel is registered in none once it is
/// installed.
pub proof fn law_deaf_is_unregistered(manager: ManagerView, cell: usize)
    requires
        manager.valid(),
        cell < manager.subscribers.len(),
        manager.subscribers[cell as int].listens.len() == 0,
        !manager.registered(cell as int),
    ensures
        manager.joining(cell) == manager,
        !manager.joining(cell).registered(cell as int),
{
    let after = manager.joining(cell);
    assert(after.members =~= manager.members);
}

} // verus!
