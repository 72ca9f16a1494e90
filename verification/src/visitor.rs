//! What a dispatch applies to each subscriber of a channel.

use crate::manager::Manager;
use crate::shared::{Cells, CellsView};
use vstd::prelude::*;

verus! {

/// What `emit` applies to every subscriber of a channel. During the visit
/// the instance of the subscriber is out of its cell; through `manager` and
/// `cells` the visit can dispatch into the channels that the subscriber was
/// granted.
///
/// `emit` relies on what `visit` ensures: that the cells still go with the
/// manager afterwards, with the same visits in progress. An implementation
/// that only hands `cells` on to `emit` meets this; one that puts other cells
/// in their place does not.
pub trait Visitor<T>: Sized {
    /// What one visit may make of the visitor (`self` before, `after`
    /// after), of the subscriber (`subscriber` before, `changed` after) and
    /// of the cells (`cells` before, `left` after). An implementation that
    /// does not say leaves all of it open.
    open spec fn visited(
        self,
        after: Self,
        subscriber: T,
        changed: T,
        cells: CellsView<T>,
        left: CellsView<T>,
    ) -> bool {
        true
    }

    /// Visits one subscriber.
    fn visit(&mut self, subscriber: &mut T, manager: &Manager, cells: &mut Cells<T>)
        requires
            manager.wf(),
            old(cells).fits(manager),
            old(cells)@.stack.len() > 0,
        ensures
            final(cells).fits(manager),
            final(cells)@.stack == old(cells)@.stack,
            old(self).visited(
                *final(self),
                *old(subscriber),
                *final(subscriber),
                old(cells)@,
                final(cells)@,
            ),
    ;
}

/// A visitor that counts its visits and changes nothing.
#[derive(Debug)]
pub struct Counter {
    pub count: usize,
}

impl Counter {
    /// A counter at zero.
    pub fn new() -> (counter: Counter)
        ensures
            counter.count == 0,
    {
        Counter { count: 0 }
    }
}

impl<T> Visitor<T> for Counter {
    open spec fn visited(
        self,
        after: Self,
        subscriber: T,
        changed: T,
        cells: CellsView<T>,
        left: CellsView<T>,
    ) -> bool {
        &&& after.count == if self.count < usize::MAX {
            self.count + 1
        } else {
            self.count as int
        }
        &&& changed == subscriber
        &&& left == cells
    }

    fn visit(&mut self, subscriber: &mut T, manager: &Manager, cells: &mut Cells<T>) {
        if self.count < usize::MAX {
            self.count = self.count + 1;
        }
    }
}

/// What `remove` asks of every subscriber of a channel: whether it is to
/// leave the channel. Like a visit, the test has the instance of the
/// subscriber out of its cell, can dispatch into the channels that the
/// subscriber was granted, and has to leave the cells as `emit` leaves them.
pub trait Predicate<T>: Sized {
    /// What one test may make of the predicate (`self` before, `after`
    /// after), of the subscriber (`subscriber` before, `changed` after) and
    /// of the cells (`cells` before, `left` after), and what it may answer.
    /// An implementation that does not say leaves all of it open.
    open spec fn tested(
        self,
        after: Self,
        subscriber: T,
        changed: T,
        verdict: bool,
        cells: CellsView<T>,
        left: CellsView<T>,
    ) -> bool {
        true
    }

    /// Tests one subscriber; `true` takes it out of the channel.
    fn test(&mut self, subscriber: &mut T, manager: &Manager, cells: &mut Cells<T>) -> (verdict:
        bool)
        requires
            manager.wf(),
            old(cells).fits(manager),
            old(cells)@.stack.len() > 0,
        ensures
            final(cells).fits(manager),
            final(cells)@.stack == old(cells)@.stack,
            old(self).tested(
                *final(self),
                *old(subscriber),
                *final(subscriber),
                verdict,
                old(cells)@,
                final(cells)@,
            ),
    ;
}

/// A predicate that takes every subscriber out and changes nothing.
#[derive(Debug)]
pub struct Everyone;

impl<T> Predicate<T> for Everyone {
    open spec fn tested(
        self,
        after: Self,
        subscriber: T,
        changed: T,
        verdict: bool,
        cells: CellsView<T>,
        left: CellsView<T>,
    ) -> bool {
        &&& verdict
        &&& changed == subscriber
        &&& left == cells
    }

    fn test(&mut self, subscriber: &mut T, manager: &Manager, cells: &mut Cells<T>) -> (verdict:
        bool) {
        true
    }
}

} // verus!
