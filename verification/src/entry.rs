//! A cache entry: the per-index state machine that records an element
//! value (or its absence) together with whether that value matches the
//! storage substrate (`Cached`) or still has to be written or removed on
//! the next flush (`Modified`).

use vstd::prelude::*;

use crate::keys::copy_bytes;

verus! {

/// Whether an entry's value agrees with persisted storage or has
/// diverged from it.
#[derive(Clone, Copy, PartialEq, Eq, Structural, Debug)]
pub enum EntryState {
    /// The in-memory value matches what storage holds.
    Cached,
    /// The in-memory value must be written (or the key removed) on flush.
    Modified,
}

/// The view of an optional byte value.
pub open spec fn opt_bytes(v: Option<Vec<u8>>) -> Option<Seq<u8>> {
    match v {
        Some(b) => Some(b@),
        None => None,
    }
}

/// A cached element slot: an optional value and its reconciliation state.
/// `None` stands for an absent logical slot.
pub struct CacheEntry {
    value: Option<Vec<u8>>,
    state: EntryState,
}

impl CacheEntry {
    /// The value this entry holds, as a sequence.
    pub closed spec fn spec_value(self) -> Option<Seq<u8>> {
        opt_bytes(self.value)
    }

    /// Whether this entry has diverged from storage.
    pub closed spec fn spec_modified(self) -> bool {
        self.state is Modified
    }

    /// The entry as a pair: its value and whether it is modified.
    pub open spec fn model(self) -> (Option<Seq<u8>>, bool) {
        (self.spec_value(), self.spec_modified())
    }

    /// An entry whose value was just reconciled with storage, either
    /// loaded from it or found absent there.
    pub fn new_cached(value: Option<Vec<u8>>) -> (r: Self)
        ensures
            r.model() == (opt_bytes(value), false),
    {
        CacheEntry { value, state: EntryState::Cached }
    }

    /// An entry holding a value that storage has not seen yet.
    pub fn new_modified(value: Option<Vec<u8>>) -> (r: Self)
        ensures
            r.model() == (opt_bytes(value), true),
    {
        CacheEntry { value, state: EntryState::Modified }
    }

    /// Installs a new value, collapsing any prior state to `Modified`,
    /// and hands back the previous value.
    pub fn replace(&mut self, value: Option<Vec<u8>>) -> (r: Option<Vec<u8>>)
        ensures
            opt_bytes(r) == old(self).spec_value(),
            final(self).model() == (opt_bytes(value), true),
    {
        let mut prev = value;
        core::mem::swap(&mut self.value, &mut prev);
        self.state = EntryState::Modified;
        prev
    }

    /// Records that the entry's value has reached storage: a `Modified`
    /// entry becomes `Cached` with the same value, a `Cached` one is
    /// untouched.
    pub fn mark_flushed(&mut self)
        ensures
            final(self).model() == (old(self).spec_value(), false),
    {
        self.state = EntryState::Cached;
    }

    /// The current value, by reference.
    pub fn value(&self) -> (r: &Option<Vec<u8>>)
        ensures
            opt_bytes(*r) == self.spec_value(),
    {
        &self.value
    }

    /// A copy of the current value.
    pub fn value_copy(&self) -> (r: Option<Vec<u8>>)
        ensures
            opt_bytes(r) == self.spec_value(),
    {
        match &self.value {
            Some(b) => Some(copy_bytes(b)),
            None => None,
        }
    }

    /// Whether the entry must still be written or removed on flush.
    pub fn is_modified(&self) -> (r: bool)
        ensures
            r == self.spec_modified(),
    {
        match self.state {
            EntryState::Modified => true,
            EntryState::Cached => false,
        }
    }
}

} // verus!
