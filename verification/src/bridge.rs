//! The writer path and the reader loop's decision step.
//!
//! A caller's request is registered in the correlation store strictly before
//! the line that transmits it exists at all — `prepare_oneshot` and
//! `prepare_subscription` return the line only after the entry is in the
//! table, so a reply racing ahead of the write still finds its entry. Each
//! line the worker emits is handled by `reader_step`: decode it, resolve its
//! identifier, and say where the payload goes. A malformed line or an
//! unmatched identifier never disturbs the table, so the loop around this
//! step can simply carry on with the next line.

use crate::store::{
    has_broadcast, has_oneshot, oneshot_slot_of, resolved_map, CorrelationStore, Entry, Resolution,
};
use crate::types::{BridgeRequest, RequestContent};
use crate::wire::{
    decode_response, encode_request, lemma_round_trip, spec_decode_response, spec_enc_request,
};
use vstd::prelude::*;

verus! {

/// What the reader loop must do with one line read from the worker.
#[derive(Debug)]
pub enum ReaderOutcome<O> {
    /// The line answered a pending one-shot request: hand `content` to the
    /// waiter exactly once. The entry is already consumed.
    DeliverOnce { slot: O, content: String },
    /// The line belongs to a live subscription: send `content` through the
    /// broadcast slot registered under `id`, which stays in the table.
    DeliverBroadcast { id: u64, content: String },
    /// Nothing waits for `id`: report it and drop the payload.
    Unmatched { id: u64 },
    /// The line is not a well-formed response envelope: drop it and keep
    /// reading.
    Malformed,
}

/// Writer path for a one-shot request: allocates the next identifier,
/// registers the waiting slot under it, and only then builds the line to
/// transmit. The entry is visible in the store before the line exists, so an
/// answer cannot outrun its registration.
pub fn prepare_oneshot<O, B>(
    store: &mut CorrelationStore<O, B>,
    slot: O,
    content: RequestContent,
) -> (r: (u64, String))
    requires
        old(store).wf(),
        old(store).last() < u64::MAX,
    ensures
        final(store).wf(),
        r.0 == old(store).last() + 1,
        final(store).last() == r.0,
        !old(store)@.contains_key(r.0),
        final(store)@ == old(store)@.insert(r.0, Entry::OneShot(slot)),
        has_oneshot(final(store)@, r.0),
        r.1@ == spec_enc_request(BridgeRequest { id: r.0, content }),
{
    let id = store.register_oneshot(slot);
    let req = BridgeRequest { id, content };
    let line = encode_request(&req);
    (id, line)
}

/// Writer path for opening a subscription: same ordering guarantee as
/// [`prepare_oneshot`], with a broadcast entry that stays in the table for
/// every later matching line.
pub fn prepare_subscription<O, B>(
    store: &mut CorrelationStore<O, B>,
    slot: B,
    content: RequestContent,
) -> (r: (u64, String))
    requires
        old(store).wf(),
        old(store).last() < u64::MAX,
    ensures
        final(store).wf(),
        r.0 == old(store).last() + 1,
        final(store).last() == r.0,
        !old(store)@.contains_key(r.0),
        final(store)@ == old(store)@.insert(r.0, Entry::Broadcast(slot)),
        has_broadcast(final(store)@, r.0),
        r.1@ == spec_enc_request(BridgeRequest { id: r.0, content }),
{
    let id = store.register_broadcast(slot);
    let req = BridgeRequest { id, content };
    let line = encode_request(&req);
    (id, line)
}

/// One turn of the reader loop: decode `line` and resolve its identifier.
/// A line that is no response envelope, or whose identifier nothing waits
/// for, leaves the table exactly as it was — the loop carries on with the
/// next line in either case. A one-shot answer consumes its entry; a
/// subscription answer leaves its entry for the next one.
pub fn reader_step<O, B>(store: &mut CorrelationStore<O, B>, line: &str) -> (r: ReaderOutcome<O>)
    requires
        old(store).wf(),
    ensures
        final(store).wf(),
        final(store).last() == old(store).last(),
        match spec_decode_response(line@) {
            Option::None => r is Malformed && final(store)@ == old(store)@,
            Option::Some((id, text)) => {
                &&& final(store)@ == resolved_map(old(store)@, id)
                &&& has_oneshot(old(store)@, id) ==> (r matches ReaderOutcome::DeliverOnce {
                    slot,
                    content,
                } && slot == oneshot_slot_of(old(store)@, id) && content@ == text)
                &&& has_broadcast(old(store)@, id) ==> (r matches ReaderOutcome::DeliverBroadcast {
                    id: rid,
                    content,
                } && rid == id && content@ == text)
                &&& !old(store)@.contains_key(id) ==> (r matches ReaderOutcome::Unmatched {
                    id: rid,
                } && rid == id)
            },
        },
{
    match decode_response(line) {
        Err(_) => ReaderOutcome::Malformed,
        Ok(resp) => {
            let outcome = store.resolve(resp.id);
            match outcome {
                Resolution::OneShot(slot) => ReaderOutcome::DeliverOnce {
                    slot,
                    content: resp.content,
                },
                Resolution::Broadcast => ReaderOutcome::DeliverBroadcast {
                    id: resp.id,
                    content: resp.content,
                },
                Resolution::Unmatched => ReaderOutcome::Unmatched { id: resp.id },
            }
        },
    }
}

/// Law: registration happens-before transmission. Once a request's slot is in
/// the table — which is true before the line ever exists — a worker that
/// echoes that very line back is never unmatched: the echoed line decodes to
/// the identifier it was sent under, and that identifier resolves to the
/// registered entry, not to "no such pending request".
pub proof fn lemma_registration_before_transmission<O, B>(
    before: Map<u64, Entry<O, B>>,
    id: u64,
    entry: Entry<O, B>,
    content: RequestContent,
)
    ensures
        ({
            let after = before.insert(id, entry);
            let line = spec_enc_request(BridgeRequest { id, content });
            &&& spec_decode_response(line) is Some
            &&& spec_decode_response(line).unwrap().0 == id
            &&& after.contains_key(id)
        }),
{
    lemma_round_trip(BridgeRequest { id, content });
}

} // verus!
