use revent::{
    subscribe, unsubscribe, Builder, Cells, Counter, Error, Hop, Manager, Node,
    Shared, Stamp, Topic, Visitor,
};

/// A handler that carries an integer.
#[derive(Clone, Copy)]
struct Item(i64);

/// Records the integers of the handlers in the order of the visits.
struct Record(Vec<i64>);

impl Visitor<Item> for Record {
    fn visit(&mut self, subscriber: &mut Item, _: &Manager, _: &mut Cells<Item>) {
        self.0.push(subscriber.0);
    }
}

/// Counts how often it was asked for an instance.
struct Factory {
    asked: usize,
}

impl Builder<Item> for Factory {
    fn build(&mut self, _: Node) -> Item {
        self.asked += 1;
        Item(0)
    }
}

fn hub() -> (Manager, Cells<Item>) {
    let manager = Manager::new(42);
    let cells = Cells::new(&manager).unwrap();
    (manager, cells)
}

fn add(
    manager: &mut Manager,
    cells: &mut Cells<Item>,
    name: &str,
    value: i64,
    listen: &[Topic],
    emit: &[Topic],
) -> Result<Shared, Error> {
    let mut stamp = Stamp { pattern: Item(value), made: 0 };
    subscribe(manager, cells, name, &listen.to_vec(), &emit.to_vec(), &mut stamp)
}

fn hop(subscriber: &str, channel: &str) -> Hop {
    Hop { subscriber: subscriber.to_string(), channel: channel.to_string() }
}

#[test]
fn single_subscriber_is_invoked_once() {
    let (mut manager, mut cells) = hub();
    let event = Topic::new("event", &mut manager);
    add(&mut manager, &mut cells, "X", 1, &[event], &[]).unwrap();
    let mut counter = Counter::new();
    assert_eq!(event.emit(&manager, &mut cells, &mut counter), Ok(()));
    assert_eq!(counter.count, 1);
}

#[test]
fn two_handlers_that_close_a_cycle_x_first() {
    let (mut manager, mut cells) = hub();
    let a = Topic::new("a", &mut manager);
    let b = Topic::new("b", &mut manager);
    add(&mut manager, &mut cells, "X", 1, &[a], &[b]).unwrap();
    let error = add(&mut manager, &mut cells, "Y", 2, &[b], &[a]).unwrap_err();
    assert_eq!(error, Error::CycleDetected(vec![hop("Y", "b"), hop("X", "a")]));
    assert_eq!(
        error.message(),
        "revent found a recursion during subscription: [Y]b -> [X]a -> b"
    );
}

#[test]
fn two_handlers_that_close_a_cycle_y_first() {
    let (mut manager, mut cells) = hub();
    let a = Topic::new("a", &mut manager);
    let b = Topic::new("b", &mut manager);
    add(&mut manager, &mut cells, "Y", 2, &[b], &[a]).unwrap();
    let error = add(&mut manager, &mut cells, "X", 1, &[a], &[b]).unwrap_err();
    assert_eq!(error, Error::CycleDetected(vec![hop("X", "a"), hop("Y", "b")]));
    assert_eq!(
        error.message(),
        "revent found a recursion during subscription: [X]a -> [Y]b -> a"
    );
}

#[test]
fn handler_that_emits_into_its_own_channel() {
    let (mut manager, mut cells) = hub();
    let a = Topic::new("a", &mut manager);
    let error = add(&mut manager, &mut cells, "X", 1, &[a], &[a]).unwrap_err();
    assert_eq!(error, Error::CycleDetected(vec![hop("X", "a")]));
    assert_eq!(error.message(), "revent found a recursion during subscription: [X]a -> a");
}

#[test]
fn ten_instances_reordered_descending() {
    let (mut manager, mut cells) = hub();
    let event = Topic::new("event", &mut manager);
    for value in [4, 9, 0, 7, 2, 5, 8, 1, 6, 3] {
        add(&mut manager, &mut cells, "X", value, &[event], &[]).unwrap();
    }
    assert_eq!(event.sort_by(&mut manager, &cells, |x: &Item, y: &Item| x.0 > y.0), Ok(()));
    let mut record = Record(Vec::new());
    event.emit(&manager, &mut cells, &mut record).unwrap();
    assert_eq!(record.0, vec![9, 8, 7, 6, 5, 4, 3, 2, 1, 0]);
    for pair in record.0.windows(2) {
        assert!(pair[0] > pair[1]);
    }
}

#[test]
fn unsubscribed_handler_is_not_invoked() {
    let (mut manager, mut cells) = hub();
    let event = Topic::new("event", &mut manager);
    let handle = add(&mut manager, &mut cells, "X", 1, &[event], &[]).unwrap();
    assert_eq!(unsubscribe(&mut manager, &mut cells, &handle), Ok(()));
    let mut counter = Counter::new();
    assert_eq!(event.emit(&manager, &mut cells, &mut counter), Ok(()));
    assert_eq!(counter.count, 0);
    assert_eq!(
        unsubscribe(&mut manager, &mut cells, &handle),
        Err(Error::UnknownSubscription)
    );
}

#[test]
fn rejected_subscription_leaves_everything_as_it_was() {
    let (mut manager, mut cells) = hub();
    let a = Topic::new("a", &mut manager);
    let b = Topic::new("b", &mut manager);
    let c = Topic::new("c", &mut manager);
    let x = add(&mut manager, &mut cells, "X", 1, &[a], &[b]).unwrap();
    let y = add(&mut manager, &mut cells, "Y", 2, &[b], &[c]).unwrap();
    let subscribers = manager.subscribers();
    let mut factory = Factory { asked: 0 };
    // Z would listen on c and on a, and emit into a: from a the dispatch would come back to a.
    let error =
        subscribe(&mut manager, &mut cells, "Z", &vec![c, a], &vec![a], &mut factory).unwrap_err();
    assert_eq!(
        error.message(),
        "revent found a recursion during subscription: [Z]c -> [X]a -> [Y]b -> c"
    );
    assert_eq!(factory.asked, 0);
    assert_eq!(manager.subscribers(), subscribers);
    assert_eq!(manager.depth(), 0);
    assert_eq!(manager.members(a.index), Some(&vec![x.index]));
    assert_eq!(manager.members(b.index), Some(&vec![y.index]));
    assert_eq!(manager.members(c.index), Some(&vec![]));
    // What was rejected can still be subscribed without the offending permission.
    let z = subscribe(&mut manager, &mut cells, "Z", &vec![c, a], &vec![], &mut factory).unwrap();
    assert_eq!(factory.asked, 1);
    assert_eq!(manager.members(a.index), Some(&vec![x.index, z.index]));
    assert_eq!(manager.members(c.index), Some(&vec![z.index]));
}

#[test]
fn cycle_report_names_the_first_pair_and_a_shortest_way_back() {
    let (mut manager, mut cells) = hub();
    let a = Topic::new("a", &mut manager);
    let b = Topic::new("b", &mut manager);
    let c = Topic::new("c", &mut manager);
    let d = Topic::new("d", &mut manager);
    // Two ways from b to d: over c (two edges) and directly (one edge).
    add(&mut manager, &mut cells, "Long1", 0, &[b], &[c]).unwrap();
    add(&mut manager, &mut cells, "Long2", 0, &[c], &[d]).unwrap();
    add(&mut manager, &mut cells, "Short", 0, &[b], &[d]).unwrap();
    let error = add(&mut manager, &mut cells, "New", 0, &[a, d], &[a, b]).unwrap_err();
    // The first pair that closes a cycle is (a, a), before (d, b).
    assert_eq!(error, Error::CycleDetected(vec![hop("New", "a")]));
    let error = add(&mut manager, &mut cells, "New", 0, &[d], &[a, b]).unwrap_err();
    assert_eq!(error, Error::CycleDetected(vec![hop("New", "d"), hop("Short", "b")]));
    assert_eq!(
        error.message(),
        "revent found a recursion during subscription: [New]d -> [Short]b -> d"
    );
}

#[test]
fn subscriber_without_channels_is_destroyed_at_once() {
    let (mut manager, mut cells) = hub();
    let handle = add(&mut manager, &mut cells, "Deaf", 5, &[], &[]).unwrap();
    assert!(cells.get(&handle).is_none());
    assert!(!manager.is_registered(handle.index));
    assert_eq!(manager.subscribers(), 1);
}

#[test]
fn subscriber_lives_while_it_is_registered_somewhere() {
    let (mut manager, mut cells) = hub();
    let a = Topic::new("a", &mut manager);
    let b = Topic::new("b", &mut manager);
    let handle = add(&mut manager, &mut cells, "X", 5, &[a, b], &[]).unwrap();
    assert_eq!(cells.get(&handle).map(|item| item.0), Some(5));
    a.unsubscribe(&mut manager, &mut cells, &handle).unwrap();
    assert_eq!(cells.get(&handle).map(|item| item.0), Some(5));
    b.unsubscribe(&mut manager, &mut cells, &handle).unwrap();
    assert!(cells.get(&handle).is_none());
}

#[test]
fn handles_are_told_apart_by_identity_not_by_value() {
    let (mut manager, mut cells) = hub();
    let a = Topic::new("a", &mut manager);
    let first = add(&mut manager, &mut cells, "X", 5, &[a], &[]).unwrap();
    let second = add(&mut manager, &mut cells, "X", 5, &[a], &[]).unwrap();
    assert_ne!(first, second);
    unsubscribe(&mut manager, &mut cells, &first).unwrap();
    assert!(cells.get(&first).is_none());
    assert!(cells.get(&second).is_some());
    assert_eq!(manager.members(a.index), Some(&vec![second.index]));
}

#[test]
fn stamp_counts_what_it_made() {
    let (mut manager, mut cells) = hub();
    let a = Topic::new("a", &mut manager);
    let mut stamp = Stamp { pattern: Item(3), made: 0 };
    let one = subscribe(&mut manager, &mut cells, "X", &vec![a], &vec![], &mut stamp).unwrap();
    let two = subscribe(&mut manager, &mut cells, "X", &vec![a], &vec![], &mut stamp).unwrap();
    assert_eq!(stamp.made, 2);
    assert_eq!(cells.get(&one).unwrap().0, 3);
    assert_eq!(cells.get(&two).unwrap().0, 3);
    assert!(subscribe(&mut manager, &mut cells, "X", &vec![a], &vec![a], &mut stamp).is_err());
    assert_eq!(stamp.made, 2);
}
