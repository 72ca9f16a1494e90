use revent::{
    subscribe, unsubscribe, Builder, Cells, Counter, Error, Everyone, Manager, Node,
    Predicate, Shared, Topic, Visitor,
};

/// A handler that carries a number, a log of what it saw, and its node.
struct Handler {
    value: u32,
    seen: Vec<u32>,
    node: Vec<Topic>,
}

struct Make {
    value: u32,
    built: usize,
}

impl Builder<Handler> for Make {
    fn build(&mut self, node: Node) -> Handler {
        self.built += 1;
        Handler { value: self.value, seen: Vec::new(), node: node.topics }
    }
}

struct Hub {
    mng: Manager,
    cells: Cells<Handler>,
}

impl Hub {
    fn new(id: u64) -> Self {
        let mng = Manager::new(id);
        let cells = Cells::new(&mng).unwrap();
        Self { mng, cells }
    }

    fn topic(&mut self, name: &str) -> Topic {
        Topic::new(name, &mut self.mng)
    }

    fn add(&mut self, name: &str, value: u32, listen: &[Topic], emit: &[Topic]) -> Shared {
        let mut make = Make { value, built: 0 };
        let shared = subscribe(
            &mut self.mng,
            &mut self.cells,
            name,
            &listen.to_vec(),
            &emit.to_vec(),
            &mut make,
        )
        .unwrap();
        assert_eq!(make.built, 1);
        shared
    }
}

/// Records the values of the handlers in the order of the visits.
struct Record {
    order: Vec<u32>,
}

impl Visitor<Handler> for Record {
    fn visit(&mut self, subscriber: &mut Handler, _: &Manager, _: &mut Cells<Handler>) {
        self.order.push(subscriber.value);
    }
}

/// Tells every handler a number; each passes it on, plus its own value,
/// into every channel of its node.
struct Tell {
    number: u32,
    failures: Vec<Error>,
}

impl Visitor<Handler> for Tell {
    fn visit(&mut self, subscriber: &mut Handler, manager: &Manager, cells: &mut Cells<Handler>) {
        subscriber.seen.push(self.number);
        for topic in subscriber.node.iter() {
            let mut inner = Tell { number: self.number + subscriber.value, failures: Vec::new() };
            if let Err(error) = topic.emit(manager, cells, &mut inner) {
                self.failures.push(error);
            }
            self.failures.append(&mut inner.failures);
        }
    }
}

/// Emits into a fixed channel from inside every visit.
struct Trespass {
    into: Topic,
    results: Vec<Result<(), Error>>,
}

impl Visitor<Handler> for Trespass {
    fn visit(&mut self, _: &mut Handler, manager: &Manager, cells: &mut Cells<Handler>) {
        let mut counter = Counter::new();
        self.results.push(self.into.emit(manager, cells, &mut counter));
    }
}

/// Takes out the handlers whose value is odd, and doubles the others.
struct OddOut {
    tested: usize,
}

impl Predicate<Handler> for OddOut {
    fn test(&mut self, subscriber: &mut Handler, _: &Manager, _: &mut Cells<Handler>) -> bool {
        self.tested += 1;
        if subscriber.value % 2 == 1 {
            true
        } else {
            subscriber.value *= 2;
            false
        }
    }
}

fn values(hub: &mut Hub, topic: Topic) -> Vec<u32> {
    let mut record = Record { order: Vec::new() };
    topic.emit(&hub.mng, &mut hub.cells, &mut record).unwrap();
    record.order
}

#[test]
fn emit_visits_each_subscriber_once_in_order_of_subscription() {
    let mut hub = Hub::new(1);
    let event = hub.topic("event");
    for value in [5, 3, 9, 3] {
        hub.add("X", value, &[event], &[]);
    }
    assert_eq!(values(&mut hub, event), vec![5, 3, 9, 3]);
    let mut counter = Counter::new();
    event.emit(&hub.mng, &mut hub.cells, &mut counter).unwrap();
    assert_eq!(counter.count, 4);
}

#[test]
fn emit_on_channel_without_subscribers_visits_nothing() {
    let mut hub = Hub::new(1);
    let event = hub.topic("event");
    let mut counter = Counter::new();
    assert_eq!(event.emit(&hub.mng, &mut hub.cells, &mut counter), Ok(()));
    assert_eq!(counter.count, 0);
}

#[test]
fn counter_saturates() {
    let mut hub = Hub::new(1);
    let event = hub.topic("event");
    hub.add("X", 1, &[event], &[]);
    let mut counter = Counter { count: usize::MAX };
    event.emit(&hub.mng, &mut hub.cells, &mut counter).unwrap();
    assert_eq!(counter.count, usize::MAX);
}

#[test]
fn nested_emit_reaches_granted_channels() {
    let mut hub = Hub::new(1);
    let a = hub.topic("a");
    let b = hub.topic("b");
    let c = hub.topic("c");
    let x = hub.add("X", 10, &[a], &[b, c]);
    let y = hub.add("Y", 20, &[b], &[c]);
    let z = hub.add("Z", 30, &[c], &[]);
    let mut tell = Tell { number: 1, failures: Vec::new() };
    a.emit(&hub.mng, &mut hub.cells, &mut tell).unwrap();
    assert!(tell.failures.is_empty());
    assert_eq!(hub.cells.get(&x).unwrap().seen, vec![1]);
    assert_eq!(hub.cells.get(&y).unwrap().seen, vec![11]);
    // Z hears Y's emit first (inside X's emit into b), then X's own emit into c.
    assert_eq!(hub.cells.get(&z).unwrap().seen, vec![31, 11]);
    assert_eq!(hub.cells.depth(), 0);
}

#[test]
fn nested_emit_into_channel_not_granted_fails() {
    let mut hub = Hub::new(1);
    let a = hub.topic("a");
    let b = hub.topic("b");
    hub.add("X", 1, &[a], &[]);
    hub.add("Y", 2, &[b], &[]);
    let mut trespass = Trespass { into: b, results: Vec::new() };
    a.emit(&hub.mng, &mut hub.cells, &mut trespass).unwrap();
    assert_eq!(trespass.results, vec![Err(Error::NotGranted)]);
    assert_eq!(
        Error::NotGranted.message(),
        "revent emit into a channel that was not granted"
    );
}

#[test]
fn nested_emit_into_own_channel_is_never_granted() {
    let mut hub = Hub::new(1);
    let a = hub.topic("a");
    hub.add("X", 1, &[a], &[]);
    let mut trespass = Trespass { into: a, results: Vec::new() };
    a.emit(&hub.mng, &mut hub.cells, &mut trespass).unwrap();
    assert_eq!(trespass.results, vec![Err(Error::NotGranted)]);
}

#[test]
fn emit_with_topic_of_other_manager_fails() {
    let mut hub = Hub::new(1);
    let mut other = Hub::new(2);
    let a = hub.topic("a");
    let foreign = other.topic("a");
    hub.add("X", 1, &[a], &[]);
    let mut counter = Counter::new();
    assert_eq!(
        foreign.emit(&hub.mng, &mut hub.cells, &mut counter),
        Err(Error::InactiveScope)
    );
    assert_eq!(counter.count, 0);
    let unknown = Topic { manager: 1, index: 7 };
    assert_eq!(
        unknown.emit(&hub.mng, &mut hub.cells, &mut counter),
        Err(Error::InactiveScope)
    );
    assert_eq!(
        Error::InactiveScope.message(),
        "revent signal modification outside of its manager's scope"
    );
}

#[test]
fn remove_takes_out_those_the_predicate_names() {
    let mut hub = Hub::new(1);
    let a = hub.topic("a");
    let b = hub.topic("b");
    let one = hub.add("X", 1, &[a], &[]);
    let two = hub.add("X", 2, &[a, b], &[]);
    let three = hub.add("X", 3, &[a, b], &[]);
    let four = hub.add("X", 4, &[a], &[]);
    let mut odd = OddOut { tested: 0 };
    assert_eq!(a.remove(&mut hub.mng, &mut hub.cells, &mut odd), Ok(()));
    assert_eq!(odd.tested, 4);
    assert_eq!(values(&mut hub, a), vec![4, 8]);
    // Three is still registered in b, so it lives on; one is destroyed.
    assert_eq!(values(&mut hub, b), vec![4, 3]);
    assert!(hub.cells.get(&one).is_none());
    assert!(hub.cells.get(&two).is_some());
    assert!(hub.cells.get(&three).is_some());
    assert!(hub.cells.get(&four).is_some());
    assert!(!hub.mng.is_member(a.index, three.index));
    assert!(hub.mng.is_member(b.index, three.index));
}

#[test]
fn remove_everyone_empties_the_channel() {
    let mut hub = Hub::new(1);
    let a = hub.topic("a");
    let first = hub.add("X", 1, &[a], &[]);
    hub.add("X", 2, &[a], &[]);
    assert_eq!(a.remove(&mut hub.mng, &mut hub.cells, &mut Everyone), Ok(()));
    assert_eq!(values(&mut hub, a), Vec::<u32>::new());
    assert!(hub.cells.get(&first).is_none());
    assert_eq!(
        unsubscribe(&mut hub.mng, &mut hub.cells, &first),
        Err(Error::UnknownSubscription)
    );
}

#[test]
fn remove_with_foreign_topic_fails() {
    let mut hub = Hub::new(1);
    let a = hub.topic("a");
    hub.add("X", 1, &[a], &[]);
    let foreign = Topic { manager: 9, index: 0 };
    assert_eq!(
        foreign.remove(&mut hub.mng, &mut hub.cells, &mut Everyone),
        Err(Error::InactiveScope)
    );
    assert_eq!(values(&mut hub, a), vec![1]);
}

#[test]
fn sort_by_reorders_dispatch() {
    let mut hub = Hub::new(1);
    let a = hub.topic("a");
    for value in [3, 1, 4, 1, 5, 9, 2, 6] {
        hub.add("X", value, &[a], &[]);
    }
    assert_eq!(
        a.sort_by(&mut hub.mng, &hub.cells, |x: &Handler, y: &Handler| x.value < y.value),
        Ok(())
    );
    assert_eq!(values(&mut hub, a), vec![1, 1, 2, 3, 4, 5, 6, 9]);
    assert_eq!(
        a.sort_by(&mut hub.mng, &hub.cells, |x: &Handler, y: &Handler| x.value > y.value),
        Ok(())
    );
    assert_eq!(values(&mut hub, a), vec![9, 6, 5, 4, 3, 2, 1, 1]);
}

#[test]
fn sort_by_keeps_the_order_of_equals() {
    let mut hub = Hub::new(1);
    let a = hub.topic("a");
    let first = hub.add("X", 7, &[a], &[]);
    let second = hub.add("X", 7, &[a], &[]);
    let third = hub.add("X", 1, &[a], &[]);
    a.sort_by(&mut hub.mng, &hub.cells, |x: &Handler, y: &Handler| x.value < y.value).unwrap();
    assert_eq!(
        hub.mng.members(a.index),
        Some(&vec![third.index, first.index, second.index])
    );
}

#[test]
fn sort_by_with_foreign_topic_fails() {
    let mut hub = Hub::new(1);
    let foreign = Topic { manager: 1, index: 3 };
    assert_eq!(
        foreign.sort_by(&mut hub.mng, &hub.cells, |_: &Handler, _: &Handler| true),
        Err(Error::InactiveScope)
    );
}

#[test]
fn single_channel_unsubscribe_and_subscribe() {
    let mut hub = Hub::new(1);
    let a = hub.topic("a");
    let b = hub.topic("b");
    let c = hub.topic("c");
    let x = hub.add("X", 1, &[a, b], &[]);
    let y = hub.add("Y", 2, &[a], &[]);
    assert_eq!(a.unsubscribe(&mut hub.mng, &mut hub.cells, &x), Ok(()));
    assert_eq!(values(&mut hub, a), vec![2]);
    assert_eq!(values(&mut hub, b), vec![1]);
    assert_eq!(
        a.unsubscribe(&mut hub.mng, &mut hub.cells, &x),
        Err(Error::UnknownSubscription)
    );
    // Back into a, now behind y.
    assert_eq!(a.subscribe(&mut hub.mng, &hub.cells, &x), Ok(()));
    assert_eq!(values(&mut hub, a), vec![2, 1]);
    // Not into a channel that it did not declare.
    assert_eq!(c.subscribe(&mut hub.mng, &hub.cells, &x), Err(Error::InactiveScope));
    // The last channel left: the instance is destroyed, and cannot come back.
    assert_eq!(a.unsubscribe(&mut hub.mng, &mut hub.cells, &y), Ok(()));
    assert!(hub.cells.get(&y).is_none());
    assert_eq!(
        a.subscribe(&mut hub.mng, &hub.cells, &y),
        Err(Error::UnknownSubscription)
    );
    assert_eq!(
        Error::UnknownSubscription.message(),
        "unable to unsubscribe non-subscribed item"
    );
}

#[test]
fn clone_activate_gives_a_view_of_the_same_channel() {
    let mut hub = Hub::new(1);
    let a = hub.topic("a");
    let view = a.clone_activate(&hub.mng).unwrap();
    assert_eq!(view, a);
    hub.add("X", 1, &[view], &[]);
    assert_eq!(values(&mut hub, a), vec![1]);
    let other = Hub::new(2);
    assert_eq!(a.clone_activate(&other.mng), Err(Error::InactiveScope));
}

#[test]
fn cells_that_do_not_go_with_the_manager_are_refused() {
    let mut hub = Hub::new(1);
    let mut twin = Hub::new(1);
    let a = hub.topic("a");
    twin.topic("a");
    hub.add("X", 1, &[a], &[]);
    // The subscriber of `hub` has no instance in the cells of `twin`.
    let mut counter = Counter::new();
    assert_eq!(a.emit(&hub.mng, &mut twin.cells, &mut counter), Err(Error::InactiveScope));
    assert_eq!(counter.count, 0);
    assert_eq!(
        a.remove(&mut hub.mng, &mut twin.cells, &mut Everyone),
        Err(Error::InactiveScope)
    );
    hub.add("Y", 2, &[a], &[]);
    assert_eq!(
        a.sort_by(&mut hub.mng, &twin.cells, |x: &Handler, y: &Handler| x.value < y.value),
        Err(Error::InactiveScope)
    );
    // With its own cells all is well.
    assert_eq!(values(&mut hub, a), vec![1, 2]);
}
