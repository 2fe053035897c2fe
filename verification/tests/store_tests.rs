use zfx_tezos_client::store::{CorrelationStore, Resolution};

#[test]
fn identifiers_strictly_increase_and_are_unique() {
    let mut store: CorrelationStore<u64, u64> = CorrelationStore::new();
    let mut seen: Vec<u64> = Vec::new();
    // Interleave one-shot registrations, broadcast registrations and
    // resolutions; every allocated identifier must still be fresh and larger
    // than all earlier ones.
    for round in 0..10u64 {
        let a = store.register_oneshot(round);
        let b = store.register_broadcast(1000 + round);
        let _ = store.resolve(a);
        let c = store.register_oneshot(round);
        for id in [a, b, c] {
            assert!(!seen.contains(&id));
            if let Some(last) = seen.last() {
                assert!(id > *last);
            }
            seen.push(id);
        }
    }
    assert_eq!(seen[0], 1);
    assert_eq!(seen.len(), 30);
}

#[test]
fn oneshot_resolves_at_most_once() {
    let mut store: CorrelationStore<&str, &str> = CorrelationStore::new();
    let id = store.register_oneshot("waiter");
    match store.resolve(id) {
        Resolution::OneShot(slot) => assert_eq!(slot, "waiter"),
        _ => panic!("first resolution must find the one-shot entry"),
    }
    match store.resolve(id) {
        Resolution::Unmatched => (),
        _ => panic!("second resolution of a one-shot id must be unmatched"),
    }
}

#[test]
fn broadcast_resolves_repeatedly() {
    let mut store: CorrelationStore<u64, &str> = CorrelationStore::new();
    let id = store.register_broadcast("channel");
    for _ in 0..5 {
        match store.resolve(id) {
            Resolution::Broadcast => (),
            _ => panic!("a broadcast entry must stay resolvable"),
        }
        let slot = store.get_broadcast(id).expect("entry must persist");
        assert_eq!(*slot, "channel");
    }
}

#[test]
fn unknown_identifier_is_unmatched() {
    let mut store: CorrelationStore<u64, u64> = CorrelationStore::new();
    let id = store.register_oneshot(7);
    match store.resolve(id + 42) {
        Resolution::Unmatched => (),
        _ => panic!("an id that was never allocated must be unmatched"),
    }
    // The real entry is untouched by the unmatched lookup.
    match store.resolve(id) {
        Resolution::OneShot(slot) => assert_eq!(slot, 7),
        _ => panic!("the pending entry must survive an unmatched lookup"),
    }
}

#[test]
fn get_broadcast_only_sees_broadcast_entries() {
    let mut store: CorrelationStore<u64, u64> = CorrelationStore::new();
    let one = store.register_oneshot(1);
    let brd = store.register_broadcast(2);
    assert!(store.get_broadcast(one).is_none());
    assert_eq!(*store.get_broadcast(brd).expect("registered"), 2);
    assert!(store.get_broadcast(999).is_none());
}

#[test]
fn remove_broadcast_tears_one_subscription_down() {
    let mut store: CorrelationStore<&str, &str> = CorrelationStore::new();
    let pending = store.register_oneshot("waiter");
    let sub = store.register_broadcast("channel");
    assert_eq!(store.remove_broadcast(sub), Some("channel"));
    // The entry is gone: later responses for it are unmatched.
    match store.resolve(sub) {
        Resolution::Unmatched => (),
        _ => panic!("a removed subscription must not resolve"),
    }
    assert_eq!(store.remove_broadcast(sub), None);
    // One-shot entries are not for this operation.
    assert_eq!(store.remove_broadcast(pending), None);
    match store.resolve(pending) {
        Resolution::OneShot(slot) => assert_eq!(slot, "waiter"),
        _ => panic!("the one-shot entry must survive"),
    }
}

#[test]
fn fail_all_hands_back_pending_oneshots_in_order() {
    let mut store: CorrelationStore<&str, &str> = CorrelationStore::new();
    let a = store.register_oneshot("first");
    let _sub = store.register_broadcast("stream");
    let b = store.register_oneshot("second");
    let c = store.register_oneshot("third");
    // One waiter already got its answer; it must not be failed again.
    match store.resolve(b) {
        Resolution::OneShot(slot) => assert_eq!(slot, "second"),
        _ => panic!("expected the pending one-shot"),
    }
    let slots = store.fail_all();
    assert_eq!(slots, vec!["first", "third"]);
    // Everything is gone now, but identifiers are still never reused.
    match store.resolve(a) {
        Resolution::Unmatched => (),
        _ => panic!("the table must be empty after fail_all"),
    }
    let next = store.register_oneshot("later");
    assert!(next > c);
}
