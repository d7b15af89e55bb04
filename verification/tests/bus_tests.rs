use retasync::bus::{EventBus, RecvOutcome, SseUpdate, EVENT_BUS_CAPACITY};
use retasync::codec::CanonValue;

fn update(tag: &str, n: i64) -> SseUpdate {
    SseUpdate { event_type: tag.to_string(), data: CanonValue::Int(n) }
}

#[test]
fn each_subscriber_receives_updates_in_publish_order() {
    let mut bus = EventBus::new();
    let a = bus.subscribe();
    let b = bus.subscribe();

    for n in 0..5 {
        bus.publish(update("tick", n));
    }

    for sub in [a, b] {
        for expected in 0..5 {
            match bus.recv(sub) {
                RecvOutcome::Item(u) => {
                    assert_eq!(u.event_type, "tick");
                    assert!(matches!(u.data, CanonValue::Int(n) if n == expected));
                }
                _ => panic!("expected an item"),
            }
        }
        assert!(matches!(bus.recv(sub), RecvOutcome::Empty));
    }
}

#[test]
fn slow_subscriber_is_told_of_its_gap_and_keeps_order() {
    let mut bus = EventBus::new();
    let sub = bus.subscribe();

    let extra = 40;
    let total = EVENT_BUS_CAPACITY + extra;
    for n in 0..total {
        bus.publish(update("tick", n as i64));
    }

    // the oldest updates were dropped, and the gap is reported first
    match bus.recv(sub) {
        RecvOutcome::Lagged(k) => assert_eq!(k, extra as u64),
        _ => panic!("expected a gap notice"),
    }

    // what remains is the most recent window, still in publish order
    let mut next = extra as i64;
    loop {
        match bus.recv(sub) {
            RecvOutcome::Item(u) => {
                assert!(matches!(u.data, CanonValue::Int(n) if n == next));
                next += 1;
            }
            RecvOutcome::Empty => break,
            RecvOutcome::Lagged(_) => panic!("the gap was already reported"),
        }
    }
    assert_eq!(next, total as i64);
}

#[test]
fn publisher_is_never_blocked_by_an_absent_subscriber() {
    let mut bus = EventBus::new();
    for n in 0..10 {
        bus.publish(update("tick", n));
    }
    // a subscriber attaching now sees none of the earlier updates
    let sub = bus.subscribe();
    assert!(matches!(bus.recv(sub), RecvOutcome::Empty));
}
