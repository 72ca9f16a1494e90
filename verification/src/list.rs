//! Small operations on lists of channel and subscriber numbers.

use vstd::prelude::*;

verus! {

/// Appends the items of `more` to `list`.
pub(crate) fn append_all(list: &mut Vec<usize>, more: &Vec<usize>)
    ensures
        final(list)@ == old(list)@ + more@,
{
    let mut k: usize = 0;
    while k < more.len()
        invariant
            k <= more.len(),
            list@ == old(list)@ + more@.subrange(0, k as int),
        decreases more.len() - k,
    {
        list.push(more[k]);
        proof {
            assert(list@ =~= old(list)@ + more@.subrange(0, k + 1));
        }
        k += 1;
    }
    proof {
        assert(more@.subrange(0, more.len() as int) =~= more@);
    }
}

/// Every item of `list` is below `bound`.
pub(crate) fn all_below(list: &Vec<usize>, bound: usize) -> (below: bool)
    ensures
        below <==> forall|k: int| 0 <= k < list.len() ==> #[trigger] list[k] < bound,
{
    let mut k: usize = 0;
    while k < list.len()
        invariant
            k <= list.len(),
            forall|i: int| 0 <= i < k ==> #[trigger] list[i] < bound,
        decreases list.len() - k,
    {
        if list[k] >= bound {
            return false;
        }
        k += 1;
    }
    true
}

/// Whether `list` holds `item`.
pub fn holds(list: &Vec<usize>, item: usize) -> (found: bool)
    ensures
        found == exists|k: int| 0 <= k < list.len() && #[trigger] list[k] == item,
        found == list@.contains(item),
{
    let mut k: usize = 0;
    while k < list.len()
        invariant
            k <= list.len(),
            forall|i: int| 0 <= i < k ==> #[trigger] list[i] != item,
        decreases list.len() - k,
    {
        if list[k] == item {
            return true;
        }
        k += 1;
    }
    false
}

/// The items of `list` but `item`, in the same order.
pub open spec fn others(list: Seq<usize>, item: usize) -> Seq<usize>
    decreases list.len(),
{
    if list.len() == 0 {
        list
    } else if list.last() != item {
        others(list.drop_last(), item).push(list.last())
    } else {
        others(list.drop_last(), item)
    }
}

/// The items of `list` but `item`, in the same order.
pub fn without(list: &Vec<usize>, item: usize) -> (rest: Vec<usize>)
    ensures
        rest@ == others(list@, item),
{
    let mut rest: Vec<usize> = Vec::new();
    let mut k: usize = 0;
    while k < list.len()
        invariant
            k <= list.len(),
            rest@ == others(list@.take(k as int), item),
        decreases list.len() - k,
    {
        proof {
            assert(list@.take(k + 1).drop_last() =~= list@.take(k as int));
        }
        if list[k] != item {
            rest.push(list[k]);
        }
        k += 1;
    }
    proof {
        assert(list@.take(list.len() as int) =~= list@);
    }
    rest
}

/// What is left of a list without one item: the other items, and only those
/// that the list held.
pub proof fn lemma_without(list: Seq<usize>, item: usize, other: usize)
    ensures
        others(list, item).contains(other) == (list.contains(other) && other != item),
    decreases list.len(),
{
    let rest = others(list, item);
    if list.len() > 0 {
        let shorter = list.drop_last();
        let last = list.last();
        lemma_without(shorter, item, other);
        let inner = others(shorter, item);
        if rest.contains(other) {
            let i = choose|i: int| 0 <= i < rest.len() && rest[i] == other;
            if last != item && i == rest.len() - 1 {
                assert(list[list.len() - 1] == other);
            } else {
                assert(inner[i] == other);
                let j = choose|j: int| 0 <= j < shorter.len() && shorter[j] == other;
                assert(list[j] == other);
            }
        }
        if list.contains(other) && other != item {
            let j = choose|j: int| 0 <= j < list.len() && list[j] == other;
            if j == list.len() - 1 {
                assert(rest[rest.len() - 1] == other);
            } else {
                assert(shorter[j] == other);
                let i = choose|i: int| 0 <= i < inner.len() && inner[i] == other;
                assert(rest[i] == other);
            }
        }
    }
}

/// A list that one more channel was looked at holds what it held before, and
/// that channel.
pub proof fn lemma_take_next(list: Seq<usize>, k: int, item: usize)
    requires
        0 <= k < list.len(),
    ensures
        list.take(k + 1).contains(item) == (list.take(k).contains(item) || list[k] == item),
{
    let longer = list.take(k + 1);
    let shorter = list.take(k);
    if longer.contains(item) {
        let i = choose|i: int| 0 <= i < longer.len() && longer[i] == item;
        if i < k {
            assert(shorter[i] == item);
        }
    }
    if shorter.contains(item) {
        let i = choose|i: int| 0 <= i < shorter.len() && shorter[i] == item;
        assert(longer[i] == item);
    }
    if list[k] == item {
        assert(longer[k] == item);
    }
}

} // verus!
