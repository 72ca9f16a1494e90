use revent::{
    approve, assert_active_manager, install, subscribe, unsubscribe, Cells, Error,
    Hop, Manager, Null, Shared, Stamp, Topic,
};
use revent::error::cycle_text;
use revent::list::{holds, without};

fn hop(subscriber: &str, channel: &str) -> Hop {
    Hop { subscriber: subscriber.to_string(), channel: channel.to_string() }
}

#[test]
fn new_manager_is_empty() {
    let manager = Manager::new(7);
    assert_eq!(manager.id(), 7);
    assert_eq!(manager.channels(), 0);
    assert_eq!(manager.subscribers(), 0);
    assert_eq!(manager.depth(), 0);
    assert_eq!(manager.members(0), None);
    assert_eq!(manager.channel_name(0), None);
}

#[test]
fn channels_are_known_by_name() {
    let mut manager = Manager::new(7);
    assert_eq!(manager.channel("a"), 0);
    assert_eq!(manager.channel("b"), 1);
    assert_eq!(manager.channel("a"), 0);
    assert_eq!(manager.channel(""), 2);
    assert_eq!(manager.channels(), 3);
    assert_eq!(manager.channel_name(1), Some("b".to_string()));
    assert_eq!(manager.channel_name(3), None);
    let a = Topic::new("a", &mut manager);
    let again = Topic::new("a", &mut manager);
    assert_eq!(a, again);
    assert_eq!(a, Topic { manager: 7, index: 0 });
    assert_eq!(manager.channels(), 3);
}

#[test]
fn active_manager_is_told_by_its_id() {
    let manager = Manager::new(7);
    assert_eq!(assert_active_manager(&manager, 7), Ok(()));
    assert_eq!(assert_active_manager(&manager, 8), Err(Error::InactiveScope));
    let topic = Topic { manager: 8, index: 0 };
    assert!(!topic.is_owned_by(&manager));
}

#[test]
fn proposing_needs_an_open_subscription() {
    let mut manager = Manager::new(1);
    let a = manager.channel("a");
    assert_eq!(manager.propose_edges(&vec![a], &vec![]), Err(Error::InactiveScope));
    assert_eq!(manager.end_subscription(), Err(Error::InactiveScope));
    manager.begin_subscription("X");
    assert_eq!(manager.depth(), 1);
    assert_eq!(manager.propose_edges(&vec![a], &vec![5]), Err(Error::InactiveScope));
    assert_eq!(manager.propose_edges(&vec![a], &vec![]), Ok(()));
    assert_eq!(manager.end_subscription(), Ok(Shared { manager: 1, index: 0 }));
    assert_eq!(manager.depth(), 0);
    assert_eq!(manager.subscribers(), 1);
}

#[test]
fn proposals_of_one_subscription_add_up() {
    let mut manager = Manager::new(1);
    let a = manager.channel("a");
    let b = manager.channel("b");
    manager.begin_subscription("X");
    assert_eq!(manager.propose_edges(&vec![a], &vec![]), Ok(()));
    assert_eq!(manager.propose_edges(&vec![], &vec![b]), Ok(()));
    // Listening on b as well would let X emit from b into b.
    assert_eq!(
        manager.propose_edges(&vec![b], &vec![]),
        Err(Error::CycleDetected(vec![hop("X", "b")]))
    );
    // The subscription stays rejected: nothing of it is committed.
    assert_eq!(manager.end_subscription(), Err(Error::CycleDetected(vec![hop("X", "b")])));
    assert_eq!(manager.subscribers(), 0);
    manager.begin_subscription("Y");
    assert_eq!(manager.propose_edges(&vec![b], &vec![a]), Ok(()));
    assert_eq!(manager.end_subscription(), Ok(Shared { manager: 1, index: 0 }));
}

#[test]
fn inner_subscription_can_close_the_way_of_the_outer_one() {
    let mut manager = Manager::new(1);
    let a = manager.channel("a");
    let b = manager.channel("b");
    manager.begin_subscription("Outer");
    assert_eq!(manager.propose_edges(&vec![a], &vec![b]), Ok(()));
    manager.begin_subscription("Inner");
    assert_eq!(manager.depth(), 2);
    assert_eq!(manager.propose_edges(&vec![b], &vec![a]), Ok(()));
    assert_eq!(manager.end_subscription(), Ok(Shared { manager: 1, index: 0 }));
    // What the outer one proposed was fine when it proposed it, and is not any more.
    assert_eq!(
        manager.end_subscription(),
        Err(Error::CycleDetected(vec![hop("Outer", "a"), hop("Inner", "b")]))
    );
    assert_eq!(manager.depth(), 0);
    assert_eq!(manager.subscribers(), 1);
}

#[test]
fn approve_and_install_in_two_steps() {
    let mut manager = Manager::new(1);
    let mut cells: Cells<u8> = Cells::new(&manager).unwrap();
    let a = Topic::new("a", &mut manager);
    let b = Topic::new("b", &mut manager);
    let (shared, node) = approve(&mut manager, "X", &vec![a, a], &vec![b]).unwrap();
    assert_eq!(shared, Shared { manager: 1, index: 0 });
    assert_eq!(node.topics, vec![b]);
    assert!(!manager.is_registered(shared.index));
    assert_eq!(install(&mut manager, &mut cells, &shared, 9), Ok(()));
    // Registered once, though it named the channel twice.
    assert_eq!(manager.members(a.index), Some(&vec![0]));
    assert_eq!(cells.get(&shared), Some(&9));
    // Not a second time.
    assert_eq!(install(&mut manager, &mut cells, &shared, 10), Err(Error::InactiveScope));
    assert_eq!(cells.get(&shared), Some(&9));
    // Nor a subscriber that was never approved, or one of another manager.
    let unknown = Shared { manager: 1, index: 5 };
    assert_eq!(install(&mut manager, &mut cells, &unknown, 1), Err(Error::InactiveScope));
    let foreign = Shared { manager: 2, index: 0 };
    assert_eq!(install(&mut manager, &mut cells, &foreign, 1), Err(Error::InactiveScope));
    assert_eq!(unsubscribe(&mut manager, &mut cells, &foreign), Err(Error::InactiveScope));
    assert_eq!(unsubscribe(&mut manager, &mut cells, &unknown), Err(Error::InactiveScope));
}

#[test]
fn approve_refuses_channels_of_another_manager() {
    let mut manager = Manager::new(1);
    let mut other = Manager::new(2);
    let a = Topic::new("a", &mut manager);
    let foreign = Topic::new("a", &mut other);
    assert_eq!(
        approve(&mut manager, "X", &vec![a, foreign], &vec![]).unwrap_err(),
        Error::InactiveScope
    );
    assert_eq!(
        approve(&mut manager, "X", &vec![a], &vec![foreign]).unwrap_err(),
        Error::InactiveScope
    );
    assert_eq!(manager.subscribers(), 0);
    assert_eq!(manager.depth(), 0);
}

#[test]
fn same_permission_is_kept_once() {
    let mut manager = Manager::new(1);
    let mut cells: Cells<u8> = Cells::new(&manager).unwrap();
    let a = Topic::new("a", &mut manager);
    let b = Topic::new("b", &mut manager);
    let mut stamp = Stamp { pattern: 0u8, made: 0 };
    for _ in 0..200 {
        subscribe(&mut manager, &mut cells, "X", &vec![a], &vec![b], &mut stamp).unwrap();
    }
    let error = subscribe(&mut manager, &mut cells, "Y", &vec![b], &vec![a], &mut stamp)
        .unwrap_err();
    assert_eq!(error, Error::CycleDetected(vec![hop("Y", "b"), hop("X", "a")]));
}

#[test]
fn cells_are_made_for_a_manager_without_members() {
    let mut manager = Manager::new(1);
    let mut cells: Cells<u8> = Cells::new(&manager).unwrap();
    assert_eq!(cells.manager(), 1);
    assert_eq!(cells.depth(), 0);
    assert_eq!(cells.innermost(), None);
    let a = Topic::new("a", &mut manager);
    let mut stamp = Stamp { pattern: 0u8, made: 0 };
    let shared = subscribe(&mut manager, &mut cells, "X", &vec![a], &vec![], &mut stamp).unwrap();
    // Cells made now would not hold the instance of the subscriber that is registered.
    assert!(Cells::<u8>::new(&manager).is_err());
    unsubscribe(&mut manager, &mut cells, &shared).unwrap();
    assert!(Cells::<u8>::new(&manager).is_ok());
}

#[test]
fn cycle_text_joins_hops_with_arrows() {
    assert_eq!(cycle_text(&vec![]), "");
    assert_eq!(cycle_text(&vec![hop("AToB", "a")]), "[AToB]a -> a");
    assert_eq!(cycle_text(&vec![hop("AToB", "a"), hop("BToA", "b")]), "[AToB]a -> [BToA]b -> a");
    assert_eq!(
        Error::CycleDetected(vec![hop("AToB", "a"), hop("BToA", "b")]).message(),
        "revent found a recursion during subscription: [AToB]a -> [BToA]b -> a"
    );
}

#[test]
fn lists_without_an_item() {
    assert!(holds(&vec![1, 2, 3], 2));
    assert!(!holds(&vec![1, 2, 3], 4));
    assert!(!holds(&vec![], 0));
    assert_eq!(without(&vec![1, 2, 1, 3, 1], 1), vec![2, 3]);
    assert_eq!(without(&vec![1, 2, 3], 4), vec![1, 2, 3]);
    assert_eq!(without(&vec![], 4), Vec::<usize>::new());
}

#[test]
fn null_is_made_from_anything() {
    let manager = Manager::new(1);
    let _: Null = Null::from(&manager);
    let _: Null = Null::from(&5);
}

#[test]
fn subscriber_that_names_a_channel_twice_leaves_it_once() {
    let mut manager = Manager::new(1);
    let mut cells: Cells<u8> = Cells::new(&manager).unwrap();
    let a = Topic::new("a", &mut manager);
    let b = Topic::new("b", &mut manager);
    let mut stamp = Stamp { pattern: 4u8, made: 0 };
    let first =
        subscribe(&mut manager, &mut cells, "X", &vec![a, b, a], &vec![], &mut stamp).unwrap();
    let second = subscribe(&mut manager, &mut cells, "Y", &vec![a], &vec![], &mut stamp).unwrap();
    assert_eq!(manager.members(a.index), Some(&vec![first.index, second.index]));
    assert_eq!(manager.members(b.index), Some(&vec![first.index]));
    assert_eq!(unsubscribe(&mut manager, &mut cells, &first), Ok(()));
    assert_eq!(manager.members(a.index), Some(&vec![second.index]));
    assert_eq!(manager.members(b.index), Some(&vec![]));
    assert_eq!(cells.get(&first), None);
    assert_eq!(cells.get(&second), Some(&4));
    assert_eq!(
        unsubscribe(&mut manager, &mut cells, &first),
        Err(Error::UnknownSubscription)
    );
}

#[test]
fn unsubscribe_changes_nothing_if_one_channel_was_left_before() {
    let mut manager = Manager::new(1);
    let mut cells: Cells<u8> = Cells::new(&manager).unwrap();
    let a = Topic::new("a", &mut manager);
    let b = Topic::new("b", &mut manager);
    let mut stamp = Stamp { pattern: 4u8, made: 0 };
    let item = subscribe(&mut manager, &mut cells, "X", &vec![a, b], &vec![], &mut stamp).unwrap();
    assert_eq!(b.unsubscribe(&mut manager, &mut cells, &item), Ok(()));
    assert_eq!(
        unsubscribe(&mut manager, &mut cells, &item),
        Err(Error::UnknownSubscription)
    );
    assert_eq!(manager.members(a.index), Some(&vec![item.index]));
    assert_eq!(cells.get(&item), Some(&4));
}
