//! The registry of live connections: which key owns which outbound queue.

use vstd::prelude::*;
use crate::key::{ConnectionKey, KeyModel};
use crate::queue::QueueHandle;

verus! {

/// The mathematical value of a registry: its entries in the order in which
/// their keys were first registered.
pub type Roster = Seq<(KeyModel, QueueHandle)>;

/// No key stands in the roster twice.
pub open spec fn distinct_keys(r: Roster) -> bool {
    forall|i: int, j: int| 0 <= i < j < r.len() ==> r[i].0 != r[j].0
}

/// The roster has an entry for `k`.
pub open spec fn has_key(r: Roster, k: KeyModel) -> bool {
    exists|i: int| 0 <= i < r.len() && (#[trigger] r[i]).0 == k
}

/// Where the entry for `k` stands, if the roster has one.
pub open spec fn position_of(r: Roster, k: KeyModel) -> int {
    choose|i: int| 0 <= i < r.len() && (#[trigger] r[i]).0 == k
}

/// The queue handle registered for `k`, if the roster has one.
pub open spec fn handle_of(r: Roster, k: KeyModel) -> QueueHandle {
    r[position_of(r, k)].1
}

/// The roster after `k` was registered with `h`: a new key goes to the end,
/// a key already present keeps its place and gets the new handle.
pub open spec fn with_entry(r: Roster, k: KeyModel, h: QueueHandle) -> Roster {
    if has_key(r, k) {
        r.update(position_of(r, k), (k, h))
    } else {
        r.push((k, h))
    }
}

/// The roster after `k` was unregistered.
pub open spec fn without_key(r: Roster, k: KeyModel) -> Roster {
    if has_key(r, k) {
        r.remove(position_of(r, k))
    } else {
        r
    }
}

/// The entries of `r` that `picks` marks, in roster order: entry `i` stays
/// exactly if `picks[i]` holds.
pub open spec fn chosen(r: Roster, picks: Seq<bool>) -> Roster
    decreases r.len(),
{
    if r.len() == 0 || picks.len() != r.len() {
        Seq::empty()
    } else {
        let earlier = chosen(r.drop_last(), picks.drop_last());
        if picks.last() {
            earlier.push(r.last())
        } else {
            earlier
        }
    }
}

/// One registered connection.
pub struct Entry {
    key: ConnectionKey,
    handle: QueueHandle,
}

impl View for Entry {
    type V = (KeyModel, QueueHandle);

    closed spec fn view(&self) -> (KeyModel, QueueHandle) {
        (self.key@, self.handle)
    }
}

impl Entry {
    /// The connection's key.
    pub fn key(&self) -> (key: &ConnectionKey)
        ensures
            key@ == self@.0,
    {
        &self.key
    }

    /// The producer handle of the connection's outbound queue.
    pub fn handle(&self) -> (handle: &QueueHandle)
        ensures
            *handle == self@.1,
    {
        &self.handle
    }
}

/// The connection registry. It is an explicit value that the server shares
/// among its sessions; a caller that shares it guards it with a
/// reader/writer lock: `register` and `unregister` need the exclusive side,
/// `snapshot_matching` the shared one.
pub struct Registry {
    entries: Vec<Entry>,
}

impl View for Registry {
    type V = Roster;

    closed spec fn view(&self) -> Roster {
        self.entries@.map_values(|e: Entry| e@)
    }
}

/// Choosing among one more entry either appends it or changes nothing.
proof fn lemma_chosen_step(r: Roster, picks: Seq<bool>, i: int, pick: bool)
    requires
        0 <= i < r.len(),
        picks.len() == i,
    ensures
        chosen(r.take(i + 1), picks.push(pick)) == if pick {
            chosen(r.take(i), picks).push(r[i])
        } else {
            chosen(r.take(i), picks)
        },
{
    assert(r.take(i + 1).drop_last() =~= r.take(i));
    assert(picks.push(pick).drop_last() =~= picks);
}

impl Registry {
    /// The registry's invariant: no two entries share a key.
    #[verifier::type_invariant]
    spec fn wf(self) -> bool {
        distinct_keys(self@)
    }

    /// An empty registry.
    pub fn new() -> (registry: Self)
        ensures
            registry@ == Seq::<(KeyModel, QueueHandle)>::empty(),
    {
        let registry = Registry { entries: Vec::new() };
        assert(registry@ =~= Seq::<(KeyModel, QueueHandle)>::empty());
        registry
    }

    /// The number of tracked connections.
    pub fn len(&self) -> (n: usize)
        ensures
            n == self@.len(),
    {
        self.entries.len()
    }

    /// Whether no connection is tracked.
    pub fn is_empty(&self) -> (empty: bool)
        ensures
            empty == (self@.len() == 0),
    {
        self.entries.len() == 0
    }

    fn find(&self, key: &ConnectionKey) -> (found: Option<usize>)
        ensures
            match found {
                Some(i) => i < self@.len() && self@[i as int].0 == key@,
                None => !has_key(self@, key@),
            },
    {
        let mut i: usize = 0;
        while i < self.entries.len()
            invariant
                i <= self.entries.len(),
                forall|j: int| 0 <= j < i ==> (#[trigger] self@[j]).0 != key@,
            decreases self.entries.len() - i,
        {
            if self.entries[i].key.matches(key) {
                return Some(i);
            }
            i += 1;
        }
        None
    }

    /// Whether `key` is registered.
    pub fn contains(&self, key: &ConnectionKey) -> (present: bool)
        ensures
            present == has_key(self@, key@),
    {
        self.find(key).is_some()
    }

    /// Registers `key` with the producer handle of its queue. A key that is
    /// already registered keeps its place and gets the new handle.
    pub fn register(&mut self, key: ConnectionKey, handle: QueueHandle)
        ensures
            final(self)@ == with_entry(old(self)@, key@, handle),
            distinct_keys(old(self)@),
            distinct_keys(final(self)@),
    {
        proof {
            use_type_invariant(&*self);
        }
        let ghost before = self@;
        let ghost k = key@;
        let found = self.find(&key);
        let mut entries: Vec<Entry> = Vec::new();
        std::mem::swap(&mut entries, &mut self.entries);
        assert(entries@.map_values(|e: Entry| e@) == before);
        match found {
            Some(i) => {
                entries.set(i, Entry { key, handle });
                proof {
                    assert(before[i as int].0 == k);
                    assert(entries@.map_values(|e: Entry| e@) =~= before.update(
                        i as int,
                        (k, handle),
                    ));
                }
            },
            None => {
                entries.push(Entry { key, handle });
                proof {
                    assert(entries@.map_values(|e: Entry| e@) =~= before.push((k, handle)));
                }
            },
        }
        self.entries = entries;
    }

    /// Removes the entry of `key` and returns its handle. Unregistering a key
    /// that is absent changes nothing and is no error.
    pub fn unregister(&mut self, key: &ConnectionKey) -> (removed: Option<QueueHandle>)
        ensures
            final(self)@ == without_key(old(self)@, key@),
            distinct_keys(old(self)@),
            distinct_keys(final(self)@),
            removed == if has_key(old(self)@, key@) {
                Some(handle_of(old(self)@, key@))
            } else {
                None
            },
    {
        proof {
            use_type_invariant(&*self);
        }
        let ghost before = self@;
        match self.find(key) {
            Some(i) => {
                let mut entries: Vec<Entry> = Vec::new();
                std::mem::swap(&mut entries, &mut self.entries);
                assert(entries@.map_values(|e: Entry| e@) == before);
                let entry = entries.remove(i);
                proof {
                    assert(before[i as int].0 == key@);
                    assert(entries@.map_values(|e: Entry| e@) =~= before.remove(i as int));
                    assert(entry@ == before[i as int]);
                }
                self.entries = entries;
                Some(entry.handle)
            },
            None => None,
        }
    }

    /// The keys of the entries, in the order of the registry.
    pub closed spec fn keys(&self) -> Seq<ConnectionKey> {
        self.entries@.map_values(|e: Entry| e.key)
    }

    /// `picks` holds, entry by entry, an answer that `pred` gives for the
    /// entry's key.
    pub open spec fn answers<F: Fn(&ConnectionKey) -> bool>(&self, pred: F, picks: Seq<bool>) -> bool {
        &&& picks.len() == self@.len()
        &&& forall|i: int|
            0 <= i < picks.len() ==> pred.ensures((&#[trigger] self.keys()[i],), picks[i])
    }

    /// The keys are those of the registry's value.
    pub proof fn lemma_keys(&self)
        ensures
            self.keys().len() == self@.len(),
            forall|i: int| 0 <= i < self@.len() ==> (#[trigger] self.keys()[i])@ == self@[i].0,
    {
    }

    /// The entries whose key satisfies `pred`, in the order of the registry,
    /// taken from the registry as it is at the call. The predicate is asked
    /// once for every entry.
    pub fn snapshot_matching<F: Fn(&ConnectionKey) -> bool>(&self, pred: F) -> (found: Vec<&Entry>)
        requires
            forall|k: ConnectionKey| #[trigger] pred.requires((&k,)),
        ensures
            distinct_keys(self@),
            exists|picks: Seq<bool>| #[trigger]
                self.answers(pred, picks) && found@.map_values(|e: &Entry| e@) == chosen(
                    self@,
                    picks,
                ),
    {
        proof {
            use_type_invariant(self);
        }
        let mut found: Vec<&Entry> = Vec::new();
        let ghost mut picks: Seq<bool> = Seq::empty();
        let mut i: usize = 0;
        proof {
            assert(self@.take(0) =~= Seq::<(KeyModel, QueueHandle)>::empty());
            assert(found@.map_values(|e: &Entry| e@) =~= chosen(self@.take(0), picks));
        }
        while i < self.entries.len()
            invariant
                i <= self.entries.len(),
                picks.len() == i,
                forall|j: int| 0 <= j < i ==> pred.ensures((&#[trigger] self.keys()[j],), picks[j]),
                forall|k: ConnectionKey| #[trigger] pred.requires((&k,)),
                found@.map_values(|e: &Entry| e@) == chosen(self@.take(i as int), picks),
            decreases self.entries.len() - i,
        {
            let entry = &self.entries[i];
            let ghost earlier = found@.map_values(|e: &Entry| e@);
            let selected = pred(&entry.key);
            if selected {
                found.push(entry);
            }
            proof {
                lemma_chosen_step(self@, picks, i as int, selected);
                assert(self@[i as int] == entry@);
                assert(self.keys()[i as int] == entry.key);
                if selected {
                    assert(found@.map_values(|e: &Entry| e@) =~= earlier.push(entry@));
                }
                picks = picks.push(selected);
            }
            i += 1;
        }
        proof {
            assert(self@.take(i as int) =~= self@);
            assert(self.answers(pred, picks));
        }
        found
    }
}

/// Unregistering is idempotent: a second removal of the same key, or the
/// removal of a key that is absent, leaves the roster as it was.
pub proof fn law_unregister_idempotent(r: Roster, k: KeyModel)
    requires
        distinct_keys(r),
    ensures
        !has_key(r, k) ==> without_key(r, k) == r,
        !has_key(without_key(r, k), k),
        without_key(without_key(r, k), k) == without_key(r, k),
{
    if has_key(r, k) {
        let p = position_of(r, k);
        let after = r.remove(p);
        assert forall|i: int| 0 <= i < after.len() implies (#[trigger] after[i]).0 != k by {
            if i < p {
                assert(after[i] == r[i]);
            } else {
                assert(after[i] == r[i + 1]);
            }
        }
    }
}

/// Unregistering one key leaves every other key registered as it was, with
/// the same handle, and keeps the keys distinct.
pub proof fn law_unregister_keeps_others(r: Roster, k: KeyModel, other: KeyModel)
    requires
        distinct_keys(r),
        other != k,
    ensures
        distinct_keys(without_key(r, k)),
        has_key(without_key(r, k), other) == has_key(r, other),
        has_key(r, other) ==> handle_of(without_key(r, k), other) == handle_of(r, other),
{
    if has_key(r, k) {
        let p = position_of(r, k);
        let after = r.remove(p);
        assert forall|i: int| 0 <= i < after.len() implies #[trigger] after[i] == r[if i < p { i } else { i + 1 }] by {}
        if has_key(r, other) {
            let q = position_of(r, other);
            let q2 = if q < p { q } else { q - 1 };
            assert(after[q2].0 == other);
            let q3 = position_of(after, other);
            assert(after[q3] == r[if q3 < p { q3 } else { q3 + 1 }]);
        }
        if has_key(after, other) {
            let q3 = position_of(after, other);
            assert(r[if q3 < p { q3 } else { q3 + 1 }].0 == other);
        }
    }
}

/// After a key was registered the roster holds it with the handle given, and
/// every other key as before.
pub proof fn law_register_then_lookup(r: Roster, k: KeyModel, h: QueueHandle, other: KeyModel)
    requires
        distinct_keys(r),
        other != k,
    ensures
        distinct_keys(with_entry(r, k, h)),
        has_key(with_entry(r, k, h), k),
        handle_of(with_entry(r, k, h), k) == h,
        has_key(with_entry(r, k, h), other) == has_key(r, other),
        with_entry(r, k, h).len() == r.len() + if has_key(r, k) { 0int } else { 1int },
{
    let after = with_entry(r, k, h);
    if has_key(r, k) {
        let p = position_of(r, k);
        assert(after[p].0 == k);
        assert forall|i: int| 0 <= i < after.len() implies (#[trigger] after[i]).0 == r[i].0 by {}
        if has_key(r, other) {
            assert(after[position_of(r, other)].0 == other);
        }
        if has_key(after, other) {
            assert(r[position_of(after, other)].0 == other);
        }
    } else {
        assert(after[r.len() as int].0 == k);
        assert forall|i: int| 0 <= i < r.len() implies #[trigger] after[i] == r[i] by {}
        if has_key(r, other) {
            assert(after[position_of(r, other)].0 == other);
        }
        if has_key(after, other) {
            let q = position_of(after, other);
            assert(q < r.len());
            assert(r[q].0 == other);
        }
    }
    let q = position_of(after, k);
    assert(after[q].0 == k);
}

} // verus!
