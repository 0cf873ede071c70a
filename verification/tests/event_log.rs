use win_toast_notifier::event_log::Delivery;
use win_toast_notifier::event_log::Router;

fn pairs(deliveries: &[Delivery<&'static str>]) -> Vec<(usize, &'static str)> {
    deliveries.iter().map(|d| (d.sequence, d.event)).collect()
}

// One full publish turn: fan-out plan to every live subscriber, the sends
// happen outside the router, then the event is retained and the reported
// dead subscribers are pruned.
fn publish(router: &mut Router<&'static str>, event: &'static str, dead: &[u128]) -> Vec<Delivery<&'static str>> {
    let plan = router.plan_publish(event);
    router.commit_publish(event, &dead.to_vec());
    plan
}

// Bus with capacity 10: publish "m1"; subscribe S1; publish "m2", "m3";
// S1 receives (0, "m1"), (1, "m2"), (2, "m3") in that order.
#[test]
fn backlog_then_live_scenario() {
    let mut router: Router<&'static str> = Router::new(10);
    let s1: u128 = 101;
    let mut received = Vec::new();

    publish(&mut router, "m1", &[]);
    for d in router.subscribe(s1) {
        assert_eq!(d.subscriber, s1);
        received.push((d.sequence, d.event));
    }
    for event in ["m2", "m3"] {
        for d in publish(&mut router, event, &[]) {
            if d.subscriber == s1 {
                received.push((d.sequence, d.event));
            }
        }
    }
    assert_eq!(received, vec![(0, "m1"), (1, "m2"), (2, "m3")]);
}

// A subscriber that subscribes before any publish gets an empty backlog,
// then one delivery per published event, in publish order.
#[test]
fn subscribe_before_any_publish() {
    let mut router: Router<&'static str> = Router::new(4);
    let backlog = router.subscribe(1);
    assert!(backlog.is_empty());
    let mut received = Vec::new();
    for event in ["a", "b", "c"] {
        for d in publish(&mut router, event, &[]) {
            received.push((d.sequence, d.event));
        }
    }
    assert_eq!(received, vec![(0, "a"), (1, "b"), (2, "c")]);
}

// A subscriber that subscribes after K > C publishes receives exactly the
// last C events as backlog (sequence numbers K-C .. K-1), immediately
// followed by the live events, with no gap and no duplicate.
#[test]
fn subscribe_after_overflow() {
    let mut router: Router<&'static str> = Router::new(3);
    let events = ["e0", "e1", "e2", "e3", "e4"];
    for event in events {
        publish(&mut router, event, &[]);
    }
    let mut received = pairs(&router.subscribe(9));
    assert_eq!(received, vec![(2, "e2"), (3, "e3"), (4, "e4")]);
    for d in publish(&mut router, "e5", &[]) {
        received.push((d.sequence, d.event));
    }
    for (i, (sequence, _)) in received.iter().enumerate() {
        assert_eq!(*sequence, 2 + i);
    }
    assert_eq!(received.last(), Some(&(5, "e5")));
}

// Unsubscribing twice with the same id: no error, no duplicate removal;
// other subscribers are unaffected.
#[test]
fn unsubscribe_twice() {
    let mut router: Router<&'static str> = Router::new(4);
    router.subscribe(1);
    router.subscribe(2);
    router.unsubscribe(1);
    router.unsubscribe(1);
    let plan = publish(&mut router, "x", &[]);
    assert_eq!(plan.len(), 1);
    assert_eq!(plan[0].subscriber, 2);
}

// Unsubscribing an id that was never subscribed is a no-op.
#[test]
fn unsubscribe_absent() {
    let mut router: Router<&'static str> = Router::new(4);
    router.subscribe(5);
    router.unsubscribe(77);
    let plan = publish(&mut router, "x", &[]);
    assert_eq!(plan.len(), 1);
    assert_eq!(plan[0].subscriber, 5);
}

// A subscriber whose consumer is gone is pruned by the next publish turn,
// and that publish does not fail for the other subscribers: they are still
// owed the event and stay in the table.
#[test]
fn dead_subscriber_pruned_on_publish() {
    let mut router: Router<&'static str> = Router::new(4);
    router.subscribe(1);
    router.subscribe(2);
    let plan = publish(&mut router, "first", &[1]);
    assert_eq!(plan.len(), 2);
    assert_eq!((plan[0].subscriber, plan[0].sequence, plan[0].event), (1, 0, "first"));
    assert_eq!((plan[1].subscriber, plan[1].sequence, plan[1].event), (2, 0, "first"));
    let plan = publish(&mut router, "second", &[]);
    assert_eq!(plan.len(), 1);
    assert_eq!((plan[0].subscriber, plan[0].sequence, plan[0].event), (2, 1, "second"));
}

// An event reaches a subscriber exactly once: live when the subscriber was
// registered before the publish turn, as backlog when it subscribed after.
#[test]
fn no_duplicate_between_backlog_and_live() {
    let mut router: Router<&'static str> = Router::new(4);
    assert!(router.subscribe(3).is_empty());
    let plan = publish(&mut router, "only", &[]);
    assert_eq!(pairs(&plan), vec![(0, "only")]);
    assert_eq!(plan[0].subscriber, 3);
    let backlog = pairs(&router.subscribe(4));
    assert_eq!(backlog, vec![(0, "only")]);
}
