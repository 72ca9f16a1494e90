//! A synchronous, in-process publish/subscribe broker for single-threaded
//! object graphs.
//!
//! Named channels hold ordered lists of subscribers. To emit on a channel is
//! to visit each of its subscribers at once, in order; a visit may emit on
//! into the channels that the subscriber visited was granted, and so on.
//! While a subscriber is visited nothing else may reach it, so a dispatch
//! must never come back to a subscriber that it has not left. The broker
//! rules this out before anything is dispatched: every subscription says
//! which channels the subscriber listens on and which it may emit into; these
//! permissions form a directed graph over the channels; and a subscription
//! that would close a cycle in that graph is rejected.
//!
//! # Parts
//!
//! - [`Manager`] keeps the channels of one hub, the committed permission
//!   graph, the subscriptions in progress and the subscribers of each
//!   channel. Its graph never has a cycle.
//! - [`Cells`] keeps the instances of the subscribers. The instance of a
//!   subscriber that is being visited is out of its cell, and
//!   [`CellsView::lemma_never_reentered`](shared::CellsView::lemma_never_reentered)
//!   shows that no dispatch ever looks for it there.
//! - [`Topic`] is a view of one channel: `emit`, `remove`, `sort_by`,
//!   `subscribe`, `unsubscribe`.
//! - [`subscribe`] and [`unsubscribe`] bring a subscriber into a hub and take
//!   it out; [`approve`] and [`install`] are the two halves of `subscribe`.
//! - [`Shared`] is the handle of a subscriber, [`Node`] what a new subscriber
//!   is built with.
//!
//! The manager and the cells of a hub are passed to every operation. A
//! handle or a view that belongs to another manager is refused with
//! [`Error::InactiveScope`].
//!
//! # Example
//!
//! ```
//! use revent::{subscribe, unsubscribe, Cells, Counter, Manager, Stamp, Topic};
//!
//! let mut manager = Manager::new(1);
//! let mut cells: Cells<u32> = Cells::new(&manager).unwrap();
//! let signal = Topic::new("signal", &mut manager);
//!
//! let mut stamp = Stamp { pattern: 7, made: 0 };
//! let item =
//!     subscribe(&mut manager, &mut cells, "Seven", &vec![signal], &vec![], &mut stamp).unwrap();
//!
//! let mut counter = Counter::new();
//! signal.emit(&manager, &mut cells, &mut counter).unwrap();
//! assert_eq!(counter.count, 1);
//!
//! unsubscribe(&mut manager, &mut cells, &item).unwrap();
//! ```

pub mod dispatch;
pub mod error;
pub mod graph;
pub mod laws;
pub mod list;
pub mod manager;
pub mod order;
pub mod protocol;
pub mod removal;
pub mod search;
pub mod shared;
pub mod topic;
pub mod visitor;

pub use error::{Error, Hop};
pub use manager::Manager;
pub use protocol::{approve, install, subscribe, unsubscribe, Builder, Node, Null, Stamp};
pub use shared::{Cells, Frame, Shared};
pub use topic::{assert_active_manager, Topic};
pub use visitor::{Counter, Everyone, Predicate, Visitor};
