use revent::{
    subscribe, unsubscribe, Builder, Cells, Counter, Error, Manager, Node, Shared,
    Topic,
};

struct MySubscriber;

struct Create;

impl Builder<MySubscriber> for Create {
    fn build(&mut self, _: Node) -> MySubscriber {
        MySubscriber
    }
}

struct Hub {
    basic_signal: Topic,
    other_signal: Topic,
    mng: Manager,
    cells: Cells<MySubscriber>,
}

impl Hub {
    fn new() -> Self {
        let mut mng = Manager::new(1);
        let basic_signal = Topic::new("basic_signal", &mut mng);
        let other_signal = Topic::new("other_signal", &mut mng);
        let cells = Cells::new(&mng).unwrap();
        Self { basic_signal, other_signal, mng, cells }
    }

    fn subscribe(
        &mut self,
        name: &str,
        listen: Vec<Topic>,
        emit: Vec<Topic>,
    ) -> Result<Shared, Error> {
        subscribe(&mut self.mng, &mut self.cells, name, &listen, &emit, &mut Create)
    }

    fn unsubscribe(&mut self, item: &Shared) -> Result<(), Error> {
        unsubscribe(&mut self.mng, &mut self.cells, item)
    }

    fn count(&mut self) -> usize {
        let mut counter = Counter::new();
        self.basic_signal.emit(&self.mng, &mut self.cells, &mut counter).unwrap();
        counter.count
    }
}

fn must<T>(result: Result<T, Error>) -> T {
    match result {
        Ok(value) => value,
        Err(error) => panic!("{}", error.message()),
    }
}

#[test]
#[should_panic(
    expected = "revent found a recursion during subscription: [MySubscriber]basic_signal -> basic_signal"
)]
fn self_subscribing() {
    let mut hub = Hub::new();
    let basic = hub.basic_signal;
    must(hub.subscribe("MySubscriber", vec![basic], vec![basic]));
}

#[test]
#[should_panic(
    expected = "revent found a recursion during subscription: [OtherSubscriber]other_signal -> [MySubscriber]basic_signal -> other_signal"
)]
fn transitive_self_subscription() {
    let mut hub = Hub::new();
    let basic = hub.basic_signal;
    let other = hub.other_signal;
    must(hub.subscribe("MySubscriber", vec![basic], vec![other]));
    must(hub.subscribe("OtherSubscriber", vec![other], vec![basic]));
}

#[test]
fn transitive_self_subscription_other_first() {
    let mut hub = Hub::new();
    let basic = hub.basic_signal;
    let other = hub.other_signal;
    must(hub.subscribe("OtherSubscriber", vec![other], vec![basic]));
    let error = hub.subscribe("MySubscriber", vec![basic], vec![other]).unwrap_err();
    assert_eq!(
        error.message(),
        "revent found a recursion during subscription: [MySubscriber]basic_signal -> [OtherSubscriber]other_signal -> basic_signal"
    );
}

#[test]
#[should_panic(expected = "unable to unsubscribe non-subscribed item")]
fn double_unsubscribe() {
    let mut hub = Hub::new();
    let basic = hub.basic_signal;
    let item = must(hub.subscribe("MySubscriber", vec![basic], vec![]));
    must(hub.unsubscribe(&item));
    must(hub.unsubscribe(&item));
}

#[test]
fn double_unsubscribe_deaf_node() {
    let mut hub = Hub::new();
    let item = must(hub.subscribe("MySubscriber", vec![], vec![]));
    must(hub.unsubscribe(&item));
    must(hub.unsubscribe(&item));
}

#[test]
fn basic() {
    for value in [0usize, 1, 2, 7, 100] {
        let mut hub = Hub::new();
        let basic = hub.basic_signal;
        for _ in 0..value {
            must(hub.subscribe("MySubscriber", vec![basic], vec![]));
        }
        assert_eq!(value, hub.count());
    }
}

#[test]
fn register_and_unsubscribe() {
    for subscribes in [0usize, 1, 3, 50] {
        let mut hub = Hub::new();
        let basic = hub.basic_signal;
        let mut items = Vec::with_capacity(subscribes);
        for _ in 0..subscribes {
            items.push(must(hub.subscribe("MySubscriber", vec![basic], vec![])));
        }
        assert_eq!(subscribes, hub.count());
        for item in items.drain(..) {
            must(hub.unsubscribe(&item));
        }
        assert_eq!(0, hub.count());
    }
}
