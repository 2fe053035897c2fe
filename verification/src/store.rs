//! The correlation store: the single source of truth for "who is waiting for
//! identifier N".
//!
//! The store is generic over the reply slots it holds (`O` for a one-shot
//! waiter, `B` for a broadcast channel), so the unverified shell can store its
//! channel senders while every rule about allocation and resolution is proved
//! here. One task must own the store exclusively and serialize all calls; the
//! store itself then needs no further synchronization.

use std::collections::HashMap;
use vstd::prelude::*;

verus! {

broadcast use vstd::std_specs::hash::group_hash_axioms;

/// What waits on one correlation identifier: either a single-use reply slot,
/// consumed by the first matching response, or a persistent broadcast slot
/// that every matching response is delivered through.
#[derive(Debug)]
pub enum Entry<O, B> {
    OneShot(O),
    Broadcast(B),
}

/// What `resolve` found for an identifier. A one-shot slot is moved out to
/// the caller; a broadcast slot stays in the store and is borrowed afterwards
/// through [`CorrelationStore::get_broadcast`].
#[derive(Debug)]
pub enum Resolution<O> {
    OneShot(O),
    Broadcast,
    Unmatched,
}

/// True when `m` holds a pending one-shot entry for `id`.
pub open spec fn has_oneshot<O, B>(m: Map<u64, Entry<O, B>>, id: u64) -> bool {
    m.contains_key(id) && m[id] is OneShot
}

/// True when `m` holds a live subscription entry for `id`.
pub open spec fn has_broadcast<O, B>(m: Map<u64, Entry<O, B>>, id: u64) -> bool {
    m.contains_key(id) && m[id] is Broadcast
}

/// The slot inside a one-shot entry.
pub open spec fn oneshot_slot_of<O, B>(m: Map<u64, Entry<O, B>>, id: u64) -> O
    recommends
        has_oneshot(m, id),
{
    match m[id] {
        Entry::OneShot(slot) => slot,
        Entry::Broadcast(_) => arbitrary(),
    }
}

/// The slot inside a broadcast entry.
pub open spec fn broadcast_slot_of<O, B>(m: Map<u64, Entry<O, B>>, id: u64) -> B
    recommends
        has_broadcast(m, id),
{
    match m[id] {
        Entry::Broadcast(slot) => slot,
        Entry::OneShot(_) => arbitrary(),
    }
}

/// The table after one resolution of `id`: a one-shot entry is consumed, any
/// other lookup leaves the table as it was.
pub open spec fn resolved_map<O, B>(m: Map<u64, Entry<O, B>>, id: u64) -> Map<u64, Entry<O, B>> {
    if has_oneshot(m, id) {
        m.remove(id)
    } else {
        m
    }
}

/// Removing the first occurrence of `v` from a duplicate-free sequence keeps
/// it duplicate-free and keeps exactly the other elements, in their order.
proof fn lemma_remove_value_properties(s: Seq<u64>, v: u64)
    requires
        s.no_duplicates(),
    ensures
        s.remove_value(v).no_duplicates(),
        forall|k: u64| #[trigger] s.remove_value(v).contains(k) <==> (s.contains(k) && k != v),
{
    s.index_of_first_ensures(v);
    match s.index_of_first(v) {
        Some(i) => {
            s.remove_ensures(i);
            let t = s.remove(i);
            assert forall|p: int, q: int|
                (0 <= p < t.len() && 0 <= q < t.len() && p != q) implies t[p] != t[q] by {
                let p0: int = if p < i {
                    p
                } else {
                    p + 1
                };
                let q0: int = if q < i {
                    q
                } else {
                    q + 1
                };
                assert(t[p] == s[p0]);
                assert(t[q] == s[q0]);
            }
            assert forall|k: u64| #[trigger] t.contains(k) <==> (s.contains(k) && k != v) by {
                if t.contains(k) {
                    let j = choose|j: int| 0 <= j < t.len() && t[j] == k;
                    let j0: int = if j < i {
                        j
                    } else {
                        j + 1
                    };
                    assert(s[j0] == k);
                    assert(k != v) by {
                        if k == v {
                            assert(s[i] == v);
                            assert(j0 != i);
                        }
                    }
                }
                if s.contains(k) && k != v {
                    let j = choose|j: int| 0 <= j < s.len() && s[j] == k;
                    if j < i {
                        assert(t[j] == k);
                        assert(t.contains(k));
                    } else {
                        assert(j != i);
                        assert(t[j - 1] == s[j]);
                        assert(t.contains(k));
                    }
                }
            }
        },
        None => {},
    }
}

/// The mutable table behind the dispatcher. Identifiers start at 1 and only
/// ever grow; an identifier is never reused, even after its entry is removed.
#[derive(Debug)]
pub struct CorrelationStore<O, B> {
    last_id: u64,
    entries: HashMap<u64, Entry<O, B>>,
    oneshot_ids: Vec<u64>,
}

impl<O, B> View for CorrelationStore<O, B> {
    type V = Map<u64, Entry<O, B>>;

    closed spec fn view(&self) -> Map<u64, Entry<O, B>> {
        self.entries@
    }
}

impl<O, B> CorrelationStore<O, B> {
    /// The highest identifier handed out so far; 0 before any allocation.
    pub closed spec fn last(&self) -> u64 {
        self.last_id
    }

    /// The identifiers of the still-pending one-shot entries, oldest first.
    pub closed spec fn pending_oneshots(&self) -> Seq<u64> {
        self.oneshot_ids@
    }

    /// Internal consistency: every key was allocated (is at most `last()`),
    /// and the one-shot ledger lists exactly the pending one-shot keys.
    pub closed spec fn wf(&self) -> bool {
        &&& forall|k: u64| #[trigger] self@.contains_key(k) ==> 1 <= k && k <= self.last_id
        &&& self.oneshot_ids@.no_duplicates()
        &&& forall|i: int|
            0 <= i < self.oneshot_ids@.len() ==> has_oneshot(
                self@,
                #[trigger] self.oneshot_ids@[i],
            )
        &&& forall|k: u64|
            has_oneshot(self@, k) ==> #[trigger] self.oneshot_ids@.contains(k)
    }

    /// The highest identifier handed out so far, for callers that must check
    /// the counter has room before registering.
    pub fn last_allocated(&self) -> (r: u64)
        ensures
            r == self.last(),
    {
        self.last_id
    }

    /// An empty store: nothing pending, no identifier allocated yet.
    pub fn new() -> (s: Self)
        ensures
            s.wf(),
            s@ == Map::<u64, Entry<O, B>>::empty(),
            s.last() == 0,
            s.pending_oneshots() == Seq::<u64>::empty(),
    {
        CorrelationStore { last_id: 0, entries: HashMap::new(), oneshot_ids: Vec::new() }
    }

    /// Allocates the next identifier and stores a one-shot entry under it.
    /// The identifier is fresh — it was never in the table — and the entry is
    /// in the table when the call returns, so a reply that races ahead of the
    /// command's transmission still finds it.
    pub fn register_oneshot(&mut self, slot: O) -> (id: u64)
        requires
            old(self).wf(),
            old(self).last() < u64::MAX,
        ensures
            final(self).wf(),
            id == old(self).last() + 1,
            final(self).last() == id,
            !old(self)@.contains_key(id),
            final(self)@ == old(self)@.insert(id, Entry::OneShot(slot)),
            final(self).pending_oneshots() == old(self).pending_oneshots().push(id),
    {
        let id = self.last_id + 1;
        proof {
            assert(!old(self)@.contains_key(id));
            assert forall|j: int| 0 <= j < old(self).oneshot_ids@.len() implies #[trigger] old(
                self,
            ).oneshot_ids@[j] != id by {
                assert(has_oneshot(old(self)@, old(self).oneshot_ids@[j]));
            }
        }
        self.last_id = id;
        self.entries.insert(id, Entry::OneShot(slot));
        self.oneshot_ids.push(id);
        proof {
            let olds = old(self).oneshot_ids@;
            let news = self.oneshot_ids@;
            assert(news[news.len() - 1] == id);
            assert forall|p: int, q: int|
                (0 <= p < news.len() && 0 <= q < news.len() && p != q) implies news[p] != news[q] by {
                if p < news.len() - 1 && q < news.len() - 1 {
                    assert(news[p] == olds[p]);
                    assert(news[q] == olds[q]);
                }
            }
            assert forall|i: int| 0 <= i < news.len() implies has_oneshot(
                self@,
                #[trigger] news[i],
            ) by {
                if i < news.len() - 1 {
                    assert(news[i] == olds[i]);
                    assert(has_oneshot(old(self)@, olds[i]));
                    assert(olds[i] != id);
                }
            }
            assert forall|k: u64| has_oneshot(self@, k) implies #[trigger] self.oneshot_ids@.contains(
                k,
            ) by {
                if k == id {
                    assert(news[news.len() - 1] == k);
                } else {
                    assert(has_oneshot(old(self)@, k));
                    assert(olds.contains(k));
                    let j = choose|j: int| 0 <= j < olds.len() && olds[j] == k;
                    assert(news[j] == k);
                }
            }
        }
        id
    }

    /// Allocates the next identifier and stores a broadcast entry under it.
    /// Same freshness and visibility guarantees as a one-shot registration;
    /// the entry stays resolvable until the store is torn down.
    pub fn register_broadcast(&mut self, slot: B) -> (id: u64)
        requires
            old(self).wf(),
            old(self).last() < u64::MAX,
        ensures
            final(self).wf(),
            id == old(self).last() + 1,
            final(self).last() == id,
            !old(self)@.contains_key(id),
            final(self)@ == old(self)@.insert(id, Entry::Broadcast(slot)),
            final(self).pending_oneshots() == old(self).pending_oneshots(),
    {
        let id = self.last_id + 1;
        self.last_id = id;
        self.entries.insert(id, Entry::Broadcast(slot));
        proof {
            assert forall|i: int| 0 <= i < self.oneshot_ids@.len() implies has_oneshot(
                self@,
                #[trigger] self.oneshot_ids@[i],
            ) by {
                assert(self.oneshot_ids@[i] != id);
            }
        }
        id
    }

    /// Looks `id` up. A one-shot entry is removed and its slot moved out (so
    /// a second resolution of the same identifier is unmatched); a broadcast
    /// entry is reported but kept; anything else is unmatched and the store
    /// is untouched. Allocation state never changes.
    pub fn resolve(&mut self, id: u64) -> (r: Resolution<O>)
        requires
            old(self).wf(),
        ensures
            final(self).wf(),
            final(self).last() == old(self).last(),
            final(self)@ == resolved_map(old(self)@, id),
            has_oneshot(old(self)@, id) ==> r == Resolution::<O>::OneShot(
                oneshot_slot_of(old(self)@, id),
            ),
            has_broadcast(old(self)@, id) ==> r == Resolution::<O>::Broadcast,
            !old(self)@.contains_key(id) ==> r == Resolution::<O>::Unmatched,
            final(self).pending_oneshots() == if has_oneshot(old(self)@, id) {
                old(self).pending_oneshots().remove_value(id)
            } else {
                old(self).pending_oneshots()
            },
    {
        let is_oneshot = match self.entries.get(&id) {
            Some(Entry::OneShot(_)) => true,
            _ => false,
        };
        if is_oneshot {
            let slot_opt = self.entries.remove(&id);
            self.remove_oneshot_id(id);
            proof {
                let oldm = old(self)@;
                let olds = old(self).oneshot_ids@;
                lemma_remove_value_properties(olds, id);
                assert forall|i: int| 0 <= i < self.oneshot_ids@.len() implies has_oneshot(
                    self@,
                    #[trigger] self.oneshot_ids@[i],
                ) by {
                    let k = self.oneshot_ids@[i];
                    assert(self.oneshot_ids@.contains(k));
                    assert(olds.contains(k) && k != id);
                    assert(has_oneshot(oldm, k));
                }
                assert forall|k: u64| has_oneshot(self@, k) implies #[trigger] self.oneshot_ids@.contains(
                    k,
                ) by {
                    assert(k != id);
                    assert(has_oneshot(oldm, k));
                    assert(olds.contains(k));
                }
            }
            match slot_opt {
                Some(Entry::OneShot(slot)) => Resolution::OneShot(slot),
                _ => {
                    proof {
                        assert(false);
                    }
                    Resolution::Unmatched
                },
            }
        } else {
            let r = match self.entries.get(&id) {
                Some(Entry::Broadcast(_)) => Resolution::Broadcast,
                _ => Resolution::Unmatched,
            };
            r
        }
    }

    /// Removes `id` from the one-shot ledger, preserving the order of the
    /// other entries.
    fn remove_oneshot_id(&mut self, id: u64)
        requires
            old(self).oneshot_ids@.no_duplicates(),
        ensures
            final(self).oneshot_ids@ == old(self).oneshot_ids@.remove_value(id),
            final(self).oneshot_ids@.no_duplicates(),
            final(self).last_id == old(self).last_id,
            final(self).entries == old(self).entries,
    {
        let n = self.oneshot_ids.len();
        let mut i: usize = 0;
        while i < n
            invariant
                n == self.oneshot_ids@.len(),
                0 <= i <= n,
                old(self).oneshot_ids@.no_duplicates(),
                forall|j: int| 0 <= j < i ==> self.oneshot_ids@[j] != id,
                self.oneshot_ids@ == old(self).oneshot_ids@,
                self.last_id == old(self).last_id,
                self.entries == old(self).entries,
            decreases n - i,
        {
            if self.oneshot_ids[i] == id {
                self.oneshot_ids.remove(i);
                proof {
                    let s = old(self).oneshot_ids@;
                    s.index_of_first_ensures(id);
                    assert(s.contains(id)) by {
                        assert(s[i as int] == id);
                    }
                    let fi = s.index_of_first(id).unwrap();
                    assert(fi == i) by {
                        if fi < i {
                            assert(s[fi] == id);
                        }
                        if fi > i {
                            assert(s[i as int] != id);
                        }
                    }
                    assert(self.oneshot_ids@ == s.remove_value(id));
                    lemma_remove_value_properties(s, id);
                }
                return ;
            }
            i += 1;
        }
        proof {
            let s = old(self).oneshot_ids@;
            assert(!s.contains(id)) by {
                if s.contains(id) {
                    let j = choose|j: int| 0 <= j < s.len() && s[j] == id;
                    assert(s[j] != id);
                }
            }
            s.index_of_first_ensures(id);
            assert(s.index_of_first(id) is None) by {
                if s.index_of_first(id) is Some {
                    assert(s.contains(id));
                }
            }
        }
    }

    /// Borrows the broadcast slot registered under `id`, if any. The reader
    /// loop sends each matching payload through this slot; the entry itself
    /// is never consumed by a delivery.
    pub fn get_broadcast(&self, id: u64) -> (r: Option<&B>)
        ensures
            match r {
                Some(slot) => has_broadcast(self@, id) && *slot == broadcast_slot_of(self@, id),
                None => !has_broadcast(self@, id),
            },
    {
        match self.entries.get(&id) {
            Some(Entry::Broadcast(slot)) => Some(slot),
            _ => None,
        }
    }

    /// Tears a subscription down explicitly, handing its slot back. Without
    /// this, broadcast entries would outlive every subscriber and the table
    /// would only ever grow over a long-running process. One-shot entries are
    /// not touched: they are consumed by resolution alone.
    pub fn remove_broadcast(&mut self, id: u64) -> (r: Option<B>)
        requires
            old(self).wf(),
        ensures
            final(self).wf(),
            final(self).last() == old(self).last(),
            final(self).pending_oneshots() == old(self).pending_oneshots(),
            match r {
                Some(slot) => has_broadcast(old(self)@, id) && slot == broadcast_slot_of(
                    old(self)@,
                    id,
                ) && final(self)@ == old(self)@.remove(id),
                None => !has_broadcast(old(self)@, id) && final(self)@ == old(self)@,
            },
    {
        let is_broadcast = match self.entries.get(&id) {
            Some(Entry::Broadcast(_)) => true,
            _ => false,
        };
        if is_broadcast {
            proof {
                assert forall|k: u64| has_oneshot(self@.remove(id), k) implies #[trigger] self.oneshot_ids@.contains(
                    k,
                ) by {
                    assert(has_oneshot(self@, k));
                }
            }
            match self.entries.remove(&id) {
                Some(Entry::Broadcast(slot)) => Some(slot),
                _ => {
                    proof {
                        assert(false);
                    }
                    None
                },
            }
        } else {
            None
        }
    }

    /// Tears the table down when the worker has exited: every pending
    /// one-shot slot is handed back, oldest first, so each waiting caller can
    /// be failed explicitly instead of hanging forever; broadcast entries are
    /// dropped. Allocation state survives, so identifiers are still never
    /// reused.
    pub fn fail_all(&mut self) -> (slots: Vec<O>)
        requires
            old(self).wf(),
        ensures
            final(self).wf(),
            final(self)@ == Map::<u64, Entry<O, B>>::empty(),
            final(self).last() == old(self).last(),
            final(self).pending_oneshots() == Seq::<u64>::empty(),
            slots@.len() == old(self).pending_oneshots().len(),
            forall|i: int|
                0 <= i < slots@.len() ==> #[trigger] slots@[i] == oneshot_slot_of(
                    old(self)@,
                    old(self).pending_oneshots()[i],
                ),
    {
        let mut ids: Vec<u64> = Vec::new();
        core::mem::swap(&mut ids, &mut self.oneshot_ids);
        let mut slots: Vec<O> = Vec::new();
        let n = ids.len();
        let mut i: usize = 0;
        while i < n
            invariant
                n == ids@.len(),
                0 <= i <= n,
                ids@ == old(self).pending_oneshots(),
                ids@.no_duplicates(),
                self.last_id == old(self).last_id,
                self.oneshot_ids@ == Seq::<u64>::empty(),
                slots@.len() == i,
                forall|j: int|
                    0 <= j < i ==> #[trigger] slots@[j] == oneshot_slot_of(old(self)@, ids@[j]),
                forall|j: int| i <= j < n ==> has_oneshot(self@, #[trigger] ids@[j]),
                forall|j: int| i <= j < n ==> self@[#[trigger] ids@[j]] == old(self)@[ids@[j]],
                forall|j: int| 0 <= j < n ==> has_oneshot(old(self)@, #[trigger] ids@[j]),
            decreases n - i,
        {
            let id = ids[i];
            let ghost prev = self@;
            let removed = self.entries.remove(&id);
            proof {
                assert(has_oneshot(prev, ids@[i as int]));
                assert(prev[ids@[i as int]] == old(self)@[ids@[i as int]]);
                assert forall|j: int| i + 1 <= j < n implies has_oneshot(
                    self@,
                    #[trigger] ids@[j],
                ) && self@[ids@[j]] == old(self)@[ids@[j]] by {
                    assert(ids@[j] != ids@[i as int]);
                }
            }
            match removed {
                Some(Entry::OneShot(slot)) => {
                    slots.push(slot);
                },
                _ => {
                    proof {
                        assert(false);
                    }
                },
            }
            i += 1;
        }
        self.entries = HashMap::new();
        slots
    }
}

/// One operation on the store, as the dispatcher's serialized mailbox sees
/// it. However many callers run concurrently, the single owner of the store
/// performs their operations one at a time, so any interleaving is some
/// sequence of these.
#[derive(Clone, Copy, Debug)]
pub enum StoreOp {
    RegisterOneShot,
    RegisterBroadcast,
    Resolve(u64),
    FailAll,
}

/// Whether an operation allocates an identifier.
pub open spec fn allocates(op: StoreOp) -> bool {
    op is RegisterOneShot || op is RegisterBroadcast
}

/// The highest identifier handed out after running `ops` against a store
/// whose counter stood at `l0`. Registrations increment it — see the
/// `ensures` of `register_oneshot` and `register_broadcast` — and every other
/// operation leaves it alone — see `resolve` and `fail_all`.
pub open spec fn last_after(l0: int, ops: Seq<StoreOp>) -> int
    decreases ops.len(),
{
    if ops.len() == 0 {
        l0
    } else {
        let prev = last_after(l0, ops.drop_last());
        if allocates(ops.last()) {
            prev + 1
        } else {
            prev
        }
    }
}

/// The identifiers handed out while running `ops`, in order: each
/// registration returns the counter's new value, exactly as the `ensures` of
/// the two register operations state.
pub open spec fn allocated_ids(l0: int, ops: Seq<StoreOp>) -> Seq<int>
    decreases ops.len(),
{
    if ops.len() == 0 {
        Seq::empty()
    } else {
        let pre = allocated_ids(l0, ops.drop_last());
        if allocates(ops.last()) {
            pre.push(last_after(l0, ops))
        } else {
            pre
        }
    }
}

/// Law: identifier allocation is strictly increasing — and therefore every
/// identifier is unique — for any number of registrations under any
/// interleaving with other store operations. All identifiers handed out lie
/// above the counter's starting point and never exceed its final value, so no
/// later run can repeat them either.
pub proof fn lemma_allocation_strictly_increasing(l0: int, ops: Seq<StoreOp>)
    ensures
        last_after(l0, ops) >= l0,
        forall|p: int|
            0 <= p < allocated_ids(l0, ops).len() ==> l0 < #[trigger] allocated_ids(l0, ops)[p]
                <= last_after(l0, ops),
        forall|p: int, q: int|
            0 <= p < q < allocated_ids(l0, ops).len() ==> allocated_ids(l0, ops)[p]
                < allocated_ids(l0, ops)[q],
    decreases ops.len(),
{
    if ops.len() > 0 {
        let pre = ops.drop_last();
        lemma_allocation_strictly_increasing(l0, pre);
        let ids = allocated_ids(l0, ops);
        let pre_ids = allocated_ids(l0, pre);
        if allocates(ops.last()) {
            assert forall|p: int, q: int| 0 <= p < q < ids.len() implies ids[p] < ids[q] by {
                if q < ids.len() - 1 {
                    assert(ids[p] == pre_ids[p] && ids[q] == pre_ids[q]);
                } else {
                    assert(ids[p] == pre_ids[p]);
                    assert(ids[q] == last_after(l0, pre) + 1);
                }
            }
        }
    }
}

/// Law: a one-shot entry resolves at most once. The first resolution consumes
/// the entry; afterwards the identifier has no entry of any kind, so a second
/// response with the same identifier falls into the unmatched branch and the
/// table no longer changes.
pub proof fn lemma_oneshot_at_most_once<O, B>(m: Map<u64, Entry<O, B>>, id: u64)
    requires
        has_oneshot(m, id),
    ensures
        !resolved_map(m, id).contains_key(id),
        !has_oneshot(resolved_map(m, id), id),
        !has_broadcast(resolved_map(m, id), id),
        resolved_map(resolved_map(m, id), id) == resolved_map(m, id),
{
}

/// The table after `k` resolutions of the same identifier.
pub open spec fn resolved_map_n<O, B>(m: Map<u64, Entry<O, B>>, id: u64, k: nat) -> Map<
    u64,
    Entry<O, B>,
>
    decreases k,
{
    if k == 0 {
        m
    } else {
        resolved_map(resolved_map_n(m, id, (k - 1) as nat), id)
    }
}

/// Law: a broadcast entry resolves repeatedly. However many responses arrive
/// for a subscription's identifier, every one of them finds the same live
/// entry with the same slot, and the table never changes under them.
pub proof fn lemma_broadcast_resolves_repeatedly<O, B>(m: Map<u64, Entry<O, B>>, id: u64, k: nat)
    requires
        has_broadcast(m, id),
    ensures
        resolved_map_n(m, id, k) == m,
        has_broadcast(resolved_map_n(m, id, k), id),
        broadcast_slot_of(resolved_map_n(m, id, k), id) == broadcast_slot_of(m, id),
    decreases k,
{
    if k > 0 {
        lemma_broadcast_resolves_repeatedly(m, id, (k - 1) as nat);
    }
}

} // verus!
