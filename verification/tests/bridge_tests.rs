use zfx_tezos_client::bridge::{prepare_oneshot, prepare_subscription, reader_step, ReaderOutcome};
use zfx_tezos_client::store::CorrelationStore;
use zfx_tezos_client::types::RequestContent;

fn storage_content() -> RequestContent {
    RequestContent::storage {
        rpc_node: "https://node".to_string(),
        confirmation: 1,
        destination: "KT1abc".to_string(),
    }
}

#[test]
fn registration_happens_before_transmission() {
    // A worker that echoes every line straight back must never be unmatched:
    // by the time the line exists, the entry is already registered.
    let mut store: CorrelationStore<&str, &str> = CorrelationStore::new();
    for _ in 0..3 {
        let (id, line) = prepare_oneshot(&mut store, "waiter", storage_content());
        // The echo: the worker answers with the very line it received.
        match reader_step(&mut store, &line) {
            ReaderOutcome::DeliverOnce { slot, content } => {
                assert_eq!(slot, "waiter");
                assert!(content.contains("\"kind\":\"storage\""));
            },
            ReaderOutcome::Unmatched { id: missed } => {
                panic!("echo of id {} found no entry (id {} was registered)", missed, id)
            },
            _ => panic!("echo of a one-shot request must deliver once"),
        }
    }
}

#[test]
fn subscription_echo_is_matched_repeatedly() {
    let mut store: CorrelationStore<&str, &str> = CorrelationStore::new();
    let (id, line) = prepare_subscription(&mut store, "stream", storage_content());
    for _ in 0..4 {
        match reader_step(&mut store, &line) {
            ReaderOutcome::DeliverBroadcast { id: got, content } => {
                assert_eq!(got, id);
                assert!(content.contains("\"kind\":\"storage\""));
                assert_eq!(*store.get_broadcast(got).expect("entry persists"), "stream");
            },
            _ => panic!("every echo of a subscription id must broadcast"),
        }
    }
}

#[test]
fn malformed_line_does_not_stop_the_reader() {
    let mut store: CorrelationStore<&str, &str> = CorrelationStore::new();
    let (_, line) = prepare_oneshot(&mut store, "waiter", storage_content());
    // A garbage line is reported and dropped; the table is untouched.
    match reader_step(&mut store, "not json") {
        ReaderOutcome::Malformed => (),
        _ => panic!("a malformed line must be reported as such"),
    }
    // The next, well-formed line still resolves.
    match reader_step(&mut store, &line) {
        ReaderOutcome::DeliverOnce { slot, .. } => assert_eq!(slot, "waiter"),
        _ => panic!("the reader must keep working after a malformed line"),
    }
}

#[test]
fn oneshot_and_subscription_scenario() {
    // One caller waits for a reply, another listens on a subscription. The
    // worker interleaves their answers and throws in an unknown identifier.
    let mut store: CorrelationStore<&str, &str> = CorrelationStore::new();
    let id1 = store.register_oneshot("caller");
    let id2 = store.register_broadcast("subscriber");
    assert_eq!(id1, 1);
    assert_eq!(id2, 2);

    let mut oneshot_deliveries: Vec<String> = Vec::new();
    let mut stream_deliveries: Vec<String> = Vec::new();
    let mut unmatched: Vec<u64> = Vec::new();

    let lines = [
        "{\"id\":2,\"content\":\"a\"}",
        "{\"id\":1,\"content\":\"ok\"}",
        "{\"id\":2,\"content\":\"b\"}",
        "{\"id\":99,\"content\":\"x\"}",
    ];
    for line in lines {
        match reader_step(&mut store, line) {
            ReaderOutcome::DeliverOnce { slot, content } => {
                assert_eq!(slot, "caller");
                oneshot_deliveries.push(content);
            },
            ReaderOutcome::DeliverBroadcast { id, content } => {
                assert_eq!(id, id2);
                assert_eq!(*store.get_broadcast(id).expect("still live"), "subscriber");
                stream_deliveries.push(content);
            },
            ReaderOutcome::Unmatched { id } => unmatched.push(id),
            ReaderOutcome::Malformed => panic!("every line in this scenario is well-formed"),
        }
    }

    // The one-shot caller got "ok" exactly once; the subscriber saw "a" then
    // "b"; id 99 was reported unmatched and nothing failed.
    assert_eq!(oneshot_deliveries, vec!["\"ok\"".to_string()]);
    assert_eq!(stream_deliveries, vec!["\"a\"".to_string(), "\"b\"".to_string()]);
    assert_eq!(unmatched, vec![99]);

    // A second answer for the consumed one-shot id is unmatched, not a
    // second delivery.
    match reader_step(&mut store, "{\"id\":1,\"content\":\"again\"}") {
        ReaderOutcome::Unmatched { id } => assert_eq!(id, 1),
        _ => panic!("a consumed one-shot entry must not deliver twice"),
    }
}

#[test]
fn worker_exit_fails_every_pending_request() {
    let mut store: CorrelationStore<&str, &str> = CorrelationStore::new();
    let (_, _line1) = prepare_oneshot(&mut store, "first", storage_content());
    let (_, _line2) = prepare_subscription(&mut store, "stream", storage_content());
    let (_, _line3) = prepare_oneshot(&mut store, "second", storage_content());
    // End of the worker's output: every still-pending waiter is handed back
    // so the shell can fail it explicitly instead of hanging forever.
    let orphans = store.fail_all();
    assert_eq!(orphans, vec!["first", "second"]);
}
