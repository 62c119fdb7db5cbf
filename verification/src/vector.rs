//! The collection: array-like semantics over entries that live in the
//! storage substrate, one storage slot per logical index, with an
//! in-memory cache that batches reads and writes until an explicit
//! flush. The valid index domain is exactly `[0, length)`.

use vstd::prelude::*;

use crate::cache::Cache;
use crate::codec::{
    decode_element, decode_state, encode_element, encode_state, encoded, is_encoding,
    is_state_encoding, lemma_encoded_valid, lemma_encoding_canonical, payload, state_encoded,
};
use crate::entry::{opt_bytes, CacheEntry};
use crate::keys::{key_of, le32_value, lemma_key_of_injective, lookup_key};
use crate::store::Store;

verus! {

/// Why an operation failed. Every failure is fatal to the invocation
/// that hit it; nothing is retried. An inconsistent state (an absent
/// value at a valid index) has no variant here: the invariant contracts
/// rule it out, so no operation can report it.
#[derive(Clone, Copy, PartialEq, Eq, Structural, Debug)]
pub enum Error {
    /// An index at or beyond the current length, or a push at the
    /// largest representable length.
    IndexOutOfBounds,
    /// Bytes that are not the stored form of any value.
    Deserialization,
}

/// Unwraps a value that a well-formed collection is known to hold;
/// absence would mean an earlier invocation left storage inconsistent.
pub fn expect_consistent_state<T>(val: Option<T>) -> (r: T)
    requires
        val is Some,
    ensures
        r == val.unwrap(),
{
    match val {
        Some(v) => v,
        None => vstd::pervasive::unreached(),
    }
}

/// An index-addressable persistent collection: a length, a key prefix
/// that namespaces its storage slots, and a cache of loaded and pending
/// entries.
pub struct Vector {
    len: u32,
    prefix: Vec<u8>,
    cache: Cache,
}

impl Vector {
    /// The number of logical elements.
    pub closed spec fn spec_len(self) -> u32 {
        self.len
    }

    /// The byte prefix namespacing this collection's storage keys.
    pub closed spec fn spec_prefix(self) -> Seq<u8> {
        self.prefix@
    }

    /// The cache as a map from index to (value, modified).
    pub closed spec fn cache_map(self) -> Map<u32, (Option<Seq<u8>>, bool)> {
        self.cache@
    }

    /// The cache's own well-formedness: one entry per index.
    pub closed spec fn cache_wf(self) -> bool {
        self.cache.wf()
    }

    /// The storage key owned by an index of this collection.
    pub open spec fn key_at(self, i: u32) -> Seq<u8> {
        key_of(self.spec_prefix(), i)
    }

    /// The element at an index, as seen through the cache: the cached
    /// value if one is present, otherwise the decoded storage slot.
    pub open spec fn elem_at(self, store: Map<Seq<u8>, Seq<u8>>, i: u32) -> Seq<u8> {
        if self.cache_map().contains_key(i) {
            self.cache_map()[i].0.unwrap()
        } else {
            payload(store[self.key_at(i)])
        }
    }

    /// The logical contents: the sequence of elements at `[0, length)`.
    pub open spec fn contents(self, store: Map<Seq<u8>, Seq<u8>>) -> Seq<Seq<u8>> {
        Seq::new(self.spec_len() as nat, |i: int| self.elem_at(store, i as u32))
    }

    /// Every cache entry is lawful: a present value (that the codec can
    /// store) at a valid index, an absent one at an index beyond the
    /// length.
    pub open spec fn cache_ok(self) -> bool {
        forall|i: u32|
            #[trigger] self.cache_map().contains_key(i) ==> if i < self.spec_len() {
                self.cache_map()[i].0 is Some && self.cache_map()[i].0.unwrap().len() <= u32::MAX
            } else {
                self.cache_map()[i].0 is None
            }
    }

    /// Every storage slot not shadowed by the cache is lawful: a
    /// decodable value at a valid index, nothing at an index beyond the
    /// length.
    pub open spec fn storage_ok(self, store: Map<Seq<u8>, Seq<u8>>) -> bool {
        forall|i: u32|
            !(#[trigger] self.cache_map().contains_key(i)) ==> if i < self.spec_len() {
                store.contains_key(self.key_at(i)) && is_encoding(store[self.key_at(i)])
            } else {
                !store.contains_key(self.key_at(i))
            }
    }

    /// Every unmodified cache entry agrees with storage: a present value
    /// is stored in encoded form, an absent one has no slot.
    pub open spec fn clean_ok(self, store: Map<Seq<u8>, Seq<u8>>) -> bool {
        forall|i: u32|
            #[trigger] self.cache_map().contains_key(i) && !self.cache_map()[i].1
                ==> match self.cache_map()[i].0 {
                Some(v) => store.contains_key(self.key_at(i)) && store[self.key_at(i)] == encoded(
                    v,
                ),
                None => !store.contains_key(self.key_at(i)),
            }
    }

    /// The collection's invariant relative to a storage state.
    pub open spec fn inv(self, store: Map<Seq<u8>, Seq<u8>>) -> bool {
        self.cache_wf() && self.cache_ok() && self.storage_ok(store) && self.clean_ok(store)
    }

    /// No cache entry still has to be written or removed.
    pub open spec fn all_clean(self) -> bool {
        forall|i: u32| #[trigger] self.cache_map().contains_key(i) ==> !self.cache_map()[i].1
    }

    /// Storage holds exactly this collection's contents: every valid
    /// index has its element in encoded form, every other index has no
    /// slot.
    pub open spec fn synced(self, store: Map<Seq<u8>, Seq<u8>>) -> bool {
        forall|i: u32|
            if i < self.spec_len() {
                store.contains_key(#[trigger] self.key_at(i)) && store[self.key_at(i)] == encoded(
                    self.elem_at(store, i),
                )
            } else {
                !store.contains_key(self.key_at(i))
            }
    }
}

/// No storage slot under a prefix is occupied.
pub open spec fn prefix_free(prefix: Seq<u8>, store: Map<Seq<u8>, Seq<u8>>) -> bool {
    forall|i: u32| !store.contains_key(#[trigger] key_of(prefix, i))
}

/// Storage carries a collection of the given length under the given
/// prefix, and nothing else under that prefix: a decodable slot at every
/// valid index, no slot beyond.
pub open spec fn storage_only(prefix: Seq<u8>, length: u32, store: Map<Seq<u8>, Seq<u8>>) -> bool {
    forall|i: u32|
        if i < length {
            store.contains_key(#[trigger] key_of(prefix, i)) && is_encoding(
                store[key_of(prefix, i)],
            )
        } else {
            !store.contains_key(key_of(prefix, i))
        }
}

/// Whether a storage key belongs to the key-space of a prefix.
pub open spec fn owned_key(prefix: Seq<u8>, k: Seq<u8>) -> bool {
    exists|i: u32| k == key_of(prefix, i)
}

/// The views of a sequence of byte vectors.
pub open spec fn views_of(s: Seq<Vec<u8>>) -> Seq<Seq<u8>> {
    s.map_values(|v: Vec<u8>| v@)
}

impl Vector {
    /// A new, empty collection namespaced by `prefix`. No storage access
    /// happens; the collection is consistent with any storage state that
    /// holds nothing under the prefix.
    pub fn new(prefix: Vec<u8>) -> (r: Vector)
        ensures
            r.spec_len() == 0,
            r.spec_prefix() == prefix@,
            r.cache_map() == Map::<u32, (Option<Seq<u8>>, bool)>::empty(),
            r.cache_wf(),
            r.all_clean(),
            forall|s: Map<Seq<u8>, Seq<u8>>|
                prefix_free(prefix@, s) ==> #[trigger] r.inv(s) && r.contents(s) == Seq::<
                    Seq<u8>,
                >::empty(),
    {
        let r = Vector { len: 0, prefix, cache: Cache::new() };
        proof {
            assert forall|s: Map<Seq<u8>, Seq<u8>>| prefix_free(r.spec_prefix(), s) implies r.inv(
                s,
            ) && r.contents(s) == Seq::<Seq<u8>>::empty() by {
                assert(r.contents(s) =~= Seq::<Seq<u8>>::empty());
            }
        }
        r
    }

    /// A collection reconstituted from its persisted state: the given
    /// length and prefix, with an empty cache that will be rebuilt
    /// lazily from storage.
    pub fn from_parts(length: u32, prefix: Vec<u8>) -> (r: Vector)
        ensures
            r.spec_len() == length,
            r.spec_prefix() == prefix@,
            r.cache_map() == Map::<u32, (Option<Seq<u8>>, bool)>::empty(),
            r.cache_wf(),
            r.all_clean(),
            forall|s: Map<Seq<u8>, Seq<u8>>|
                storage_only(prefix@, length, s) ==> #[trigger] r.inv(s),
    {
        let r = Vector { len: length, prefix, cache: Cache::new() };
        proof {
            assert forall|s: Map<Seq<u8>, Seq<u8>>| storage_only(
                r.spec_prefix(),
                length,
                s,
            ) implies r.inv(s) by {
                assert forall|i: u32| !(#[trigger] r.cache_map().contains_key(i)) implies if i
                    < r.spec_len() {
                    s.contains_key(r.key_at(i)) && is_encoding(s[r.key_at(i)])
                } else {
                    !s.contains_key(r.key_at(i))
                } by {
                    assert(if i < length {
                        s.contains_key(key_of(r.spec_prefix(), i)) && is_encoding(
                            s[key_of(r.spec_prefix(), i)],
                        )
                    } else {
                        !s.contains_key(key_of(r.spec_prefix(), i))
                    });
                }
            }
        }
        r
    }

    /// The number of elements in the collection.
    pub fn len(&self) -> (r: u32)
        ensures
            r == self.spec_len(),
    {
        self.len
    }

    /// Whether the collection contains no elements.
    pub fn is_empty(&self) -> (r: bool)
        ensures
            r == (self.spec_len() == 0),
    {
        self.len == 0
    }

    /// Loads the entry for an index into the cache if it is not already
    /// there: one storage read, decoded and cached as unmodified.
    fn load(&mut self, store: &Store, index: u32)
        requires
            store.wf(),
            old(self).cache_wf(),
            !old(self).cache_map().contains_key(index) && store@.contains_key(
                key_of(old(self).spec_prefix(), index),
            ) ==> is_encoding(store@[key_of(old(self).spec_prefix(), index)]),
        ensures
            final(self).spec_len() == old(self).spec_len(),
            final(self).spec_prefix() == old(self).spec_prefix(),
            final(self).cache_wf(),
            old(self).cache_map().contains_key(index) ==> final(self).cache_map() == old(self).cache_map(),
            !old(self).cache_map().contains_key(index) ==> final(self).cache_map() == old(self).cache_map().insert(
                index,
                (
                    if store@.contains_key(key_of(old(self).spec_prefix(), index)) {
                        Some(payload(store@[key_of(old(self).spec_prefix(), index)]))
                    } else {
                        None
                    },
                    false,
                ),
            ),
    {
        if self.cache.contains_index(index) {
            return;
        }
        let key = lookup_key(&self.prefix, index);
        match store.read(&key) {
            Some(bytes) => {
                match decode_element(&bytes) {
                    Some(v) => {
                        self.cache.insert(index, CacheEntry::new_cached(Some(v)));
                    },
                    None => {
                        // An occupied slot at this key always holds a valid
                        // encoding, so decoding cannot fail here.
                        proof {
                            assert(false);
                        }
                    },
                }
            },
            None => {
                self.cache.insert(index, CacheEntry::new_cached(None));
            },
        }
    }

    /// The element at an index, or nothing if the index is at or beyond
    /// the length. A miss costs one storage read and caches the outcome;
    /// the logical contents are unchanged either way.
    pub fn get(&mut self, store: &Store, index: u32) -> (r: Option<Vec<u8>>)
        requires
            store.wf(),
            old(self).inv(store@),
        ensures
            final(self).inv(store@),
            final(self).spec_len() == old(self).spec_len(),
            final(self).spec_prefix() == old(self).spec_prefix(),
            final(self).contents(store@) == old(self).contents(store@),
            final(self).cache_map().contains_key(index),
            index < old(self).spec_len() ==> r is Some && r.unwrap()@ == old(self).contents(
                store@,
            )[index as int],
            index >= old(self).spec_len() ==> r is None,
    {
        let ghost pre = *self;
        self.load(store, index);
        proof {
            lemma_load_keeps_inv(pre, *self, store@, index);
        }
        let r = self.cache.value_of(index);
        proof {
            if index < self.spec_len() {
                assert(opt_bytes(r).unwrap() == self.elem_at(store@, index));
                assert(self.contents(store@)[index as int] == self.elem_at(store@, index));
            }
        }
        r
    }
}

impl Vector {
    /// Sets the element at an index, or fails out of bounds at or
    /// beyond the length, leaving the collection unchanged. The new
    /// value waits in the cache; no storage access happens yet.
    pub fn set(&mut self, index: u32, value: Vec<u8>) -> (r: Result<(), Error>)
        requires
            old(self).cache_wf(),
            value@.len() <= u32::MAX,
        ensures
            final(self).cache_wf(),
            final(self).spec_len() == old(self).spec_len(),
            final(self).spec_prefix() == old(self).spec_prefix(),
            index < old(self).spec_len() ==> r is Ok && final(self).cache_map() == old(self).cache_map().insert(index, (Some(value@), true)),
            index >= old(self).spec_len() ==> r == Err::<(), Error>(Error::IndexOutOfBounds)
                && final(self).cache_map() == old(self).cache_map(),
            forall|s: Map<Seq<u8>, Seq<u8>>| old(self).inv(s) ==> #[trigger] final(self).inv(s),
            forall|s: Map<Seq<u8>, Seq<u8>>|
                old(self).inv(s) && index < old(self).spec_len() ==> #[trigger] final(self).contents(s) == old(self).contents(s).update(index as int, value@),
            forall|s: Map<Seq<u8>, Seq<u8>>|
                index >= old(self).spec_len() ==> #[trigger] final(self).contents(s) == old(self).contents(s),
    {
        if index >= self.len {
            return Err(Error::IndexOutOfBounds);
        }
        let ghost pre = *self;
        let ghost v = value@;
        self.cache.insert(index, CacheEntry::new_modified(Some(value)));
        proof {
            assert forall|s: Map<Seq<u8>, Seq<u8>>| pre.inv(s) implies #[trigger] self.inv(s) by {
                lemma_set_effect(pre, *self, s, index, v);
            }
            assert forall|s: Map<Seq<u8>, Seq<u8>>| pre.inv(s) && index
                < pre.spec_len() implies #[trigger] self.contents(s) == pre.contents(s).update(
                index as int,
                v,
            ) by {
                lemma_set_effect(pre, *self, s, index, v);
            }
        }
        Ok(())
    }

    /// Appends an element, or fails out of bounds when the length is
    /// already the largest representable, leaving the collection
    /// unchanged.
    pub fn push(&mut self, element: Vec<u8>) -> (r: Result<(), Error>)
        requires
            old(self).cache_wf(),
            element@.len() <= u32::MAX,
        ensures
            final(self).cache_wf(),
            final(self).spec_prefix() == old(self).spec_prefix(),
            old(self).spec_len() < u32::MAX ==> r is Ok && final(self).spec_len() == old(self).spec_len() + 1 && final(self).cache_map() == old(self).cache_map().insert(
                old(self).spec_len(),
                (Some(element@), true),
            ),
            old(self).spec_len() == u32::MAX ==> r == Err::<(), Error>(Error::IndexOutOfBounds)
                && final(self).spec_len() == old(self).spec_len() && final(self).cache_map() == old(self).cache_map(),
            forall|s: Map<Seq<u8>, Seq<u8>>| old(self).inv(s) ==> #[trigger] final(self).inv(s),
            forall|s: Map<Seq<u8>, Seq<u8>>|
                old(self).inv(s) && old(self).spec_len() < u32::MAX ==> #[trigger] final(self).contents(s) == old(self).contents(s).push(element@),
    {
        if self.len >= u32::MAX {
            return Err(Error::IndexOutOfBounds);
        }
        let ghost pre = *self;
        let ghost v = element@;
        let last_idx = self.len;
        self.len = self.len + 1;
        self.cache.insert(last_idx, CacheEntry::new_modified(Some(element)));
        proof {
            assert forall|s: Map<Seq<u8>, Seq<u8>>| pre.inv(s) implies #[trigger] self.inv(s) by {
                lemma_push_effect(pre, *self, s, v);
            }
            assert forall|s: Map<Seq<u8>, Seq<u8>>| pre.inv(s) && pre.spec_len()
                < u32::MAX implies #[trigger] self.contents(s) == pre.contents(s).push(v) by {
                lemma_push_effect(pre, *self, s, v);
            }
        }
        Ok(())
    }

    /// Appends every element of a sequence in order. On a push that
    /// fails out of bounds, the collection keeps everything appended
    /// before the failing element.
    pub fn extend(&mut self, elements: Vec<Vec<u8>>) -> (r: Result<(), Error>)
        requires
            old(self).cache_wf(),
            forall|i: int| 0 <= i < elements@.len() ==> elements@[i]@.len() <= u32::MAX,
        ensures
            final(self).cache_wf(),
            final(self).spec_prefix() == old(self).spec_prefix(),
            forall|s: Map<Seq<u8>, Seq<u8>>| old(self).inv(s) ==> #[trigger] final(self).inv(s),
            old(self).spec_len() + elements@.len() <= u32::MAX ==> r is Ok && final(self).spec_len() == old(self).spec_len() + elements@.len(),
            old(self).spec_len() + elements@.len() > u32::MAX ==> r == Err::<(), Error>(
                Error::IndexOutOfBounds,
            ) && final(self).spec_len() == u32::MAX,
            forall|s: Map<Seq<u8>, Seq<u8>>|
                old(self).inv(s) ==> #[trigger] final(self).contents(s) == old(self).contents(s)
                    + views_of(elements@).take(
                    final(self).spec_len() - old(self).spec_len(),
                ),
    {
        let ghost pre = *self;
        let mut i: usize = 0;
        while i < elements.len()
            invariant
                pre == *old(self),
                self.cache_wf(),
                i <= elements.len(),
                forall|p: int| 0 <= p < elements@.len() ==> elements@[p]@.len() <= u32::MAX,
                self.spec_prefix() == pre.spec_prefix(),
                self.spec_len() == pre.spec_len() + i,
                forall|s: Map<Seq<u8>, Seq<u8>>| pre.inv(s) ==> #[trigger] self.inv(s),
                forall|s: Map<Seq<u8>, Seq<u8>>|
                    pre.inv(s) ==> #[trigger] self.contents(s) == pre.contents(s)
                        + views_of(elements@).take(i as int),
            decreases elements.len() - i,
        {
            let ghost mid = *self;
            let element = crate::keys::copy_bytes(&elements[i]);
            let ghost ev = element@;
            proof {
                assert(ev == elements@[i as int]@);
            }
            match self.push(element) {
                Ok(()) => {},
                Err(e) => {
                    proof {
                        assert(mid.spec_len() == u32::MAX);
                        assert(pre.spec_len() + elements@.len() > u32::MAX);
                        assert forall|s: Map<Seq<u8>, Seq<u8>>| pre.inv(s) implies #[trigger] self
                            .contents(s) == pre.contents(s) + views_of(elements@).take(
                            self.spec_len() - pre.spec_len(),
                        ) by {
                            assert(self.contents(s) == mid.contents(s));
                        }
                    }
                    return Err(e);
                },
            }
            proof {
                assert forall|s: Map<Seq<u8>, Seq<u8>>| pre.inv(s) implies #[trigger] self.contents(
                    s,
                ) == pre.contents(s) + views_of(elements@).take(i + 1) by {
                    assert(mid.inv(s));
                    assert(mid.spec_len() < u32::MAX);
                    assert(self.contents(s) == mid.contents(s).push(ev));
                    assert(elements@[i as int]@ == ev);
                    assert(views_of(elements@).take(i + 1) =~= views_of(elements@).take(
                        i as int,
                    ).push(elements@[i as int]@));
                    assert(pre.contents(s) + views_of(elements@).take(i + 1) =~= (pre.contents(s)
                        + views_of(elements@).take(i as int)).push(elements@[i as int]@));
                }
            }
            i = i + 1;
        }
        proof {
            assert(views_of(elements@).take(elements@.len() as int) =~= views_of(elements@));
        }
        Ok(())
    }
}

impl Vector {
    /// Removes and returns the last element, or nothing when the
    /// collection is empty. The removed slot waits in the cache as a
    /// pending removal; no storage write happens yet.
    pub fn pop(&mut self, store: &Store) -> (r: Option<Vec<u8>>)
        requires
            store.wf(),
            old(self).inv(store@),
        ensures
            final(self).inv(store@),
            final(self).spec_prefix() == old(self).spec_prefix(),
            old(self).spec_len() == 0 ==> r is None && final(self).spec_len() == 0 && final(self).cache_map() == old(self).cache_map(),
            old(self).spec_len() > 0 ==> r is Some && r.unwrap()@ == old(self).contents(
                store@,
            ).last() && final(self).spec_len() == old(self).spec_len() - 1 && final(self).contents(
                store@,
            ) == old(self).contents(store@).drop_last(),
    {
        if self.len == 0 {
            return None;
        }
        let ghost pre = *self;
        let last_idx = self.len - 1;
        self.load(store, last_idx);
        proof {
            lemma_load_keeps_inv(pre, *self, store@, last_idx);
        }
        let ghost mid = *self;
        self.len = last_idx;
        let prev = self.cache.replace_value(last_idx, None);
        let value = expect_consistent_state(prev);
        proof {
            lemma_pop_effect(mid, *self, store@, last_idx);
            assert(pre.contents(store@).last() == pre.elem_at(store@, last_idx));
            assert(mid.contents(store@).drop_last() =~= pre.contents(store@).drop_last());
        }
        Some(value)
    }

    /// Exchanges the elements at two indices, or fails out of bounds if
    /// either is at or beyond the length, leaving the collection
    /// unchanged. Both entries wait in the cache as modified.
    pub fn swap(&mut self, store: &Store, a: u32, b: u32) -> (r: Result<(), Error>)
        requires
            store.wf(),
            old(self).inv(store@),
        ensures
            final(self).inv(store@),
            final(self).spec_len() == old(self).spec_len(),
            final(self).spec_prefix() == old(self).spec_prefix(),
            a < old(self).spec_len() && b < old(self).spec_len() ==> r is Ok && final(self).contents(store@) == old(self).contents(store@).update(
                a as int,
                old(self).contents(store@)[b as int],
            ).update(b as int, old(self).contents(store@)[a as int]),
            !(a < old(self).spec_len() && b < old(self).spec_len()) ==> r == Err::<(), Error>(
                Error::IndexOutOfBounds,
            ) && final(self).cache_map() == old(self).cache_map() && final(self).contents(store@)
                == old(self).contents(store@),
    {
        if a >= self.len || b >= self.len {
            return Err(Error::IndexOutOfBounds);
        }
        let ghost pre = *self;
        if a == b {
            proof {
                assert(pre.contents(store@).update(a as int, pre.contents(store@)[b as int]).update(
                    b as int,
                    pre.contents(store@)[a as int],
                ) =~= pre.contents(store@));
            }
            return Ok(());
        }
        self.load(store, a);
        proof {
            lemma_load_keeps_inv(pre, *self, store@, a);
        }
        let ghost m1 = *self;
        self.load(store, b);
        proof {
            lemma_load_keeps_inv(m1, *self, store@, b);
        }
        let ghost m2 = *self;
        proof {
            assert(m2.cache_map()[a].0 == Some(pre.elem_at(store@, a)));
            assert(m2.cache_map()[b].0 == Some(pre.elem_at(store@, b)));
        }
        let va = self.cache.value_of(a);
        let vb = self.cache.value_of(b);
        let _ = self.cache.replace_value(a, vb);
        let ghost m3 = *self;
        proof {
            lemma_set_effect(m2, m3, store@, a, pre.elem_at(store@, b));
        }
        let _ = self.cache.replace_value(b, va);
        proof {
            lemma_set_effect(m3, *self, store@, b, pre.elem_at(store@, a));
            assert(m2.contents(store@) == pre.contents(store@));
            assert(pre.contents(store@)[a as int] == pre.elem_at(store@, a));
            assert(pre.contents(store@)[b as int] == pre.elem_at(store@, b));
        }
        Ok(())
    }

    /// Removes and returns the element at an index in constant time by
    /// moving the last element into its place; fails out of bounds at or
    /// beyond the length, leaving the collection unchanged. Relative
    /// order is not preserved.
    pub fn swap_remove(&mut self, store: &Store, index: u32) -> (r: Result<Vec<u8>, Error>)
        requires
            store.wf(),
            old(self).inv(store@),
        ensures
            final(self).inv(store@),
            final(self).spec_prefix() == old(self).spec_prefix(),
            index < old(self).spec_len() ==> r is Ok && r.unwrap()@ == old(self).contents(
                store@,
            )[index as int] && final(self).spec_len() == old(self).spec_len() - 1 && final(self).contents(store@) == old(self).contents(store@).update(
                index as int,
                old(self).contents(store@).last(),
            ).drop_last(),
            index >= old(self).spec_len() ==> r == Err::<Vec<u8>, Error>(Error::IndexOutOfBounds)
                && final(self).spec_len() == old(self).spec_len() && final(self).cache_map() == old(self).cache_map() && final(self).contents(store@) == old(self).contents(store@),
    {
        if index >= self.len {
            return Err(Error::IndexOutOfBounds);
        }
        let ghost pre = *self;
        let last_idx = self.len - 1;
        let _ = self.swap(store, index, last_idx);
        let ghost m1 = *self;
        let popped = self.pop(store);
        let value = expect_consistent_state(popped);
        proof {
            let c = pre.contents(store@);
            assert(m1.contents(store@) == c.update(index as int, c[last_idx as int]).update(
                last_idx as int,
                c[index as int],
            ));
            assert(value@ == m1.contents(store@).last());
            assert(m1.contents(store@).last() == c[index as int]);
            assert(c.last() == c[last_idx as int]);
            assert(self.contents(store@) =~= c.update(index as int, c.last()).drop_last());
        }
        Ok(value)
    }
}

impl Vector {
    /// The cache's positional model, for flush order.
    spec fn cmodel(self) -> Seq<(u32, (Option<Seq<u8>>, bool))> {
        self.cache.entries_model()
    }

    /// Removes every storage slot this collection owns, resets the
    /// length to zero and discards the whole cache. Afterwards nothing
    /// is left under the prefix: no flush is needed and no stale read is
    /// possible.
    pub fn clear(&mut self, store: &mut Store)
        requires
            old(store).wf(),
            old(self).inv(old(store)@),
        ensures
            final(store).wf(),
            final(self).inv(final(store)@),
            final(self).spec_len() == 0,
            final(self).spec_prefix() == old(self).spec_prefix(),
            final(self).cache_map() == Map::<u32, (Option<Seq<u8>>, bool)>::empty(),
            final(self).contents(final(store)@) == Seq::<Seq<u8>>::empty(),
            prefix_free(old(self).spec_prefix(), final(store)@),
            forall|k: Seq<u8>| #[trigger]
                final(store)@.contains_key(k) ==> old(store)@.contains_key(k) && final(store)@[k] == old(
                    store,
                )@[k],
            forall|k: Seq<u8>|
                !owned_key(old(self).spec_prefix(), k) ==> (#[trigger] final(store)@.contains_key(k)
                    <==> old(store)@.contains_key(k)),
    {
        let ghost pre = *self;
        let ghost s0 = store@;
        let mut i: u32 = 0;
        while i < self.len
            invariant
                pre == *old(self),
                s0 == old(store)@,
                *self == pre,
                store.wf(),
                pre.inv(s0),
                i <= pre.spec_len(),
                forall|j: u32|
                    j < i ==> !store@.contains_key(#[trigger] key_of(pre.spec_prefix(), j)),
                forall|k: Seq<u8>| #[trigger]
                    store@.contains_key(k) ==> s0.contains_key(k) && store@[k] == s0[k],
                forall|k: Seq<u8>|
                    s0.contains_key(k) && !(#[trigger] store@.contains_key(k)) ==> owned_key(
                        pre.spec_prefix(),
                        k,
                    ),
            decreases pre.spec_len() - i,
        {
            let key = lookup_key(&self.prefix, i);
            store.remove(&key);
            i = i + 1;
        }
        let n = self.cache.n();
        let mut j: usize = 0;
        while j < n
            invariant
                pre == *old(self),
                s0 == old(store)@,
                *self == pre,
                store.wf(),
                pre.inv(s0),
                j <= n,
                n == pre.cmodel().len(),
                forall|jj: u32|
                    jj < pre.spec_len() ==> !store@.contains_key(
                        #[trigger] key_of(pre.spec_prefix(), jj),
                    ),
                forall|p: int|
                    0 <= p < j ==> !store@.contains_key(
                        key_of(pre.spec_prefix(), #[trigger] pre.cmodel()[p].0),
                    ),
                forall|k: Seq<u8>| #[trigger]
                    store@.contains_key(k) ==> s0.contains_key(k) && store@[k] == s0[k],
                forall|k: Seq<u8>|
                    s0.contains_key(k) && !(#[trigger] store@.contains_key(k)) ==> owned_key(
                        pre.spec_prefix(),
                        k,
                    ),
            decreases n - j,
        {
            let idx = self.cache.index_at(j);
            let key = lookup_key(&self.prefix, idx);
            store.remove(&key);
            j = j + 1;
        }
        proof {
            assert forall|i2: u32| !store@.contains_key(
                #[trigger] key_of(pre.spec_prefix(), i2),
            ) by {
                if i2 >= pre.spec_len() {
                    if pre.cache_map().contains_key(i2) {
                        pre.cache.lemma_view_positions();
                        let p = choose|p: int|
                            0 <= p < pre.cmodel().len() && pre.cmodel()[p].0 == i2;
                        assert(!store@.contains_key(key_of(pre.spec_prefix(), pre.cmodel()[p].0)));
                    } else {
                        assert(!s0.contains_key(pre.key_at(i2)));
                    }
                }
            }
        }
        self.len = 0;
        self.cache.clear();
        proof {
            assert(self.cache_map() =~= Map::<u32, (Option<Seq<u8>>, bool)>::empty());
            assert(self.contents(store@) =~= Seq::<Seq<u8>>::empty());
        }
    }

    /// Writes every modified cache entry to storage (a write for a
    /// present value, a removal for an absent one) and demotes it to
    /// cached. Afterwards storage holds exactly the collection's
    /// contents; when nothing was modified, neither the collection nor
    /// storage changes at all.
    pub fn flush(&mut self, store: &mut Store)
        requires
            old(store).wf(),
            old(self).inv(old(store)@),
        ensures
            final(store).wf(),
            final(self).inv(final(store)@),
            final(self).spec_len() == old(self).spec_len(),
            final(self).spec_prefix() == old(self).spec_prefix(),
            final(self).contents(final(store)@) == old(self).contents(old(store)@),
            final(self).all_clean(),
            final(self).synced(final(store)@),
            old(self).all_clean() ==> final(self).cache_map() == old(self).cache_map() && final(store)@
                == old(store)@,
            forall|k: Seq<u8>|
                !owned_key(old(self).spec_prefix(), k) ==> (#[trigger] final(store)@.contains_key(k)
                    <==> old(store)@.contains_key(k)) && (final(store)@.contains_key(k) ==> final(store)@[k]
                    == old(store)@[k]),
    {
        let ghost pre = *self;
        let ghost s0 = store@;
        let n = self.cache.n();
        let mut j: usize = 0;
        while j < n
            invariant
                pre == *old(self),
                s0 == old(store)@,
                store.wf(),
                pre.inv(s0),
                self.spec_len() == pre.spec_len(),
                self.spec_prefix() == pre.spec_prefix(),
                self.cache_wf(),
                j <= n,
                n == self.cmodel().len(),
                forall|p: int|
                    0 <= p < n ==> #[trigger] self.cmodel()[p].0 == pre.cmodel()[p].0
                        && self.cmodel()[p].1.0 == pre.cmodel()[p].1.0,
                forall|p: int| 0 <= p < j ==> !(#[trigger] self.cmodel()[p].1.1),
                forall|p: int|
                    j <= p < n ==> #[trigger] self.cmodel()[p].1.1 == pre.cmodel()[p].1.1,
                self.inv(store@),
                self.contents(store@) == pre.contents(s0),
                pre.all_clean() ==> *self == pre && store@ == s0,
                forall|k: Seq<u8>|
                    !owned_key(pre.spec_prefix(), k) ==> (#[trigger] store@.contains_key(k)
                        <==> s0.contains_key(k)) && (store@.contains_key(k) ==> store@[k]
                        == s0[k]),
            decreases n - j,
        {
            if self.cache.modified_at(j) {
                let ghost m0 = *self;
                let ghost st0 = store@;
                let idx = self.cache.index_at(j);
                proof {
                    self.cache.lemma_view_positions();
                    assert(m0.cache_map().contains_key(idx));
                    assert(m0.cache_map()[idx] == m0.cmodel()[j as int].1);
                    if pre.all_clean() {
                        pre.cache.lemma_view_positions();
                        assert(!pre.cache_map()[pre.cmodel()[j as int].0].1);
                        assert(false);
                    }
                }
                let key = lookup_key(&self.prefix, idx);
                match self.cache.value_at(j) {
                    Some(v) => {
                        proof {
                            assert(m0.cache_map()[idx].0 == Some(v@));
                            assert(idx < m0.spec_len());
                        }
                        let bytes = encode_element(&v);
                        store.write(key, bytes);
                    },
                    None => {
                        store.remove(&key);
                    },
                }
                self.cache.mark_flushed_at(j);
                proof {
                    lemma_flush_step(m0, *self, st0, store@, j as int, idx);
                    assert forall|k: Seq<u8>| !owned_key(pre.spec_prefix(), k) implies (
                    #[trigger] store@.contains_key(k) <==> s0.contains_key(k)) && (
                    store@.contains_key(k) ==> store@[k] == s0[k]) by {
                        assert(k != key_of(pre.spec_prefix(), idx));
                    }
                }
            }
            j = j + 1;
        }
        proof {
            self.cache.lemma_view_positions();
            assert(self.all_clean()) by {
                assert forall|i: u32| #[trigger] self.cache_map().contains_key(i) implies !self
                    .cache_map()[i].1 by {
                    let p = choose|p: int| 0 <= p < self.cmodel().len() && self.cmodel()[p].0 == i;
                    assert(self.cache_map()[i] == self.cmodel()[p].1);
                }
            }
            assert(self.synced(store@)) by {
                assert forall|i: u32|
                    if i < self.spec_len() {
                        store@.contains_key(#[trigger] self.key_at(i)) && store@[self.key_at(i)]
                            == encoded(self.elem_at(store@, i))
                    } else {
                        !store@.contains_key(self.key_at(i))
                    } by {
                    if self.cache_map().contains_key(i) {
                        assert(!self.cache_map()[i].1);
                    } else {
                        if i < self.spec_len() {
                            lemma_encoding_canonical(store@[self.key_at(i)]);
                        }
                    }
                }
            }
        }
    }
}

impl Vector {
    /// The collection's persisted state: its length and prefix in
    /// stored form. The cache is never part of persisted state.
    pub fn state_bytes(&self) -> (r: Vec<u8>)
        requires
            self.spec_prefix().len() <= u32::MAX,
        ensures
            r@ == state_encoded(self.spec_len(), self.spec_prefix()),
    {
        encode_state(self.len, &self.prefix)
    }

    /// Reconstitutes a collection from its persisted state: the stored
    /// length and prefix, with an empty cache. Fails exactly on bytes
    /// that are not a persisted state.
    pub fn from_state_bytes(bytes: &Vec<u8>) -> (r: Result<Vector, Error>)
        ensures
            r is Ok <==> is_state_encoding(bytes@),
            !is_state_encoding(bytes@) ==> r == Err::<Vector, Error>(Error::Deserialization),
            r is Ok ==> {
                let v = r.unwrap();
                &&& v.spec_len() == le32_value(bytes@.subrange(0, 4))
                &&& v.spec_prefix() == payload(bytes@.subrange(4, bytes@.len() as int))
                &&& v.cache_map() == Map::<u32, (Option<Seq<u8>>, bool)>::empty()
                &&& v.cache_wf()
                &&& v.all_clean()
                &&& forall|s: Map<Seq<u8>, Seq<u8>>|
                    storage_only(v.spec_prefix(), v.spec_len(), s) ==> #[trigger] v.inv(s)
            },
    {
        match decode_state(bytes) {
            Some((length, prefix)) => Ok(Vector::from_parts(length, prefix)),
            None => Err(Error::Deserialization),
        }
    }
}

/// After a push, reading the index that the push filled gives back
/// exactly the pushed value, and every element below it is untouched —
/// whatever was in the collection before.
pub proof fn lemma_push_then_get(
    pre: Vector,
    post: Vector,
    s: Map<Seq<u8>, Seq<u8>>,
    value: Seq<u8>,
)
    requires
        post.contents(s) == pre.contents(s).push(value),
    ensures
        post.contents(s).len() == pre.contents(s).len() + 1,
        post.contents(s)[pre.contents(s).len() as int] == value,
        forall|i: int| 0 <= i < pre.contents(s).len() ==> post.contents(s)[i] == pre.contents(s)[i],
{
}

/// The shape of a swap-removal: the result keeps every element but the
/// removed one, the old last element stands at the removed index (when
/// they differ), and every other element is untouched.
pub proof fn lemma_swap_remove_shape(elems: Seq<Seq<u8>>, index: int)
    requires
        0 <= index < elems.len(),
    ensures
        elems.update(index, elems.last()).drop_last().len() == elems.len() - 1,
        index < elems.len() - 1 ==> elems.update(index, elems.last()).drop_last()[index]
            == elems.last(),
        forall|j: int|
            0 <= j < elems.len() - 1 && j != index ==> elems.update(
                index,
                elems.last(),
            ).drop_last()[j] == elems[j],
{
}

/// The persistence round trip: once a collection is synced with
/// storage, a reconstituted collection with the same length and prefix
/// and an empty cache satisfies the invariant over that same storage
/// and sees exactly the same contents.
pub proof fn lemma_persistence_round_trip(
    synced_vec: Vector,
    fresh: Vector,
    s: Map<Seq<u8>, Seq<u8>>,
)
    requires
        synced_vec.inv(s),
        synced_vec.synced(s),
        fresh.spec_len() == synced_vec.spec_len(),
        fresh.spec_prefix() == synced_vec.spec_prefix(),
        fresh.cache_map() == Map::<u32, (Option<Seq<u8>>, bool)>::empty(),
        fresh.cache_wf(),
    ensures
        storage_only(fresh.spec_prefix(), fresh.spec_len(), s),
        fresh.inv(s),
        fresh.contents(s) == synced_vec.contents(s),
{
    let pp = fresh.spec_prefix();
    let n = fresh.spec_len();
    assert(storage_only(pp, n, s)) by {
        assert forall|i: u32|
            if i < n {
                s.contains_key(#[trigger] key_of(pp, i)) && is_encoding(s[key_of(pp, i)])
            } else {
                !s.contains_key(key_of(pp, i))
            } by {
            if i < n {
                let e = synced_vec.elem_at(s, i);
                assert(s.contains_key(synced_vec.key_at(i)) && s[synced_vec.key_at(i)] == encoded(
                    e,
                ));
                if synced_vec.cache_map().contains_key(i) {
                    assert(e.len() <= u32::MAX);
                } else {
                    assert(is_encoding(s[synced_vec.key_at(i)]));
                }
                lemma_encoded_valid(e);
            } else {
                assert(!s.contains_key(synced_vec.key_at(i)));
            }
        }
    }
    assert(fresh.contents(s) =~= synced_vec.contents(s)) by {
        assert forall|i: int| 0 <= i < n implies #[trigger] fresh.elem_at(s, i as u32)
            == synced_vec.elem_at(s, i as u32) by {
            let iu = i as u32;
            let e = synced_vec.elem_at(s, iu);
            assert(s[synced_vec.key_at(iu)] == encoded(e));
            if synced_vec.cache_map().contains_key(iu) {
                assert(e.len() <= u32::MAX);
            } else {
                assert(is_encoding(s[synced_vec.key_at(iu)]));
                lemma_encoding_canonical(s[synced_vec.key_at(iu)]);
            }
            lemma_encoded_valid(e);
            assert(fresh.elem_at(s, iu) == payload(s[key_of(pp, iu)]));
        }
    }
}

/// After a clear, a fresh collection under the same prefix starts from
/// nothing: it satisfies the invariant over the cleared storage, its
/// length is zero, and it holds no element.
pub proof fn lemma_fresh_after_clear(fresh: Vector, s: Map<Seq<u8>, Seq<u8>>)
    requires
        prefix_free(fresh.spec_prefix(), s),
        fresh.spec_len() == 0,
        fresh.cache_map() == Map::<u32, (Option<Seq<u8>>, bool)>::empty(),
        fresh.cache_wf(),
    ensures
        fresh.inv(s),
        fresh.contents(s) == Seq::<Seq<u8>>::empty(),
{
    assert(fresh.contents(s) =~= Seq::<Seq<u8>>::empty());
}

/// One flush step: after writing or removing the storage slot of the
/// entry at one cache position and demoting that entry to cached, the
/// invariant holds again and the contents are unchanged.
proof fn lemma_flush_step(
    m0: Vector,
    post: Vector,
    st0: Map<Seq<u8>, Seq<u8>>,
    st1: Map<Seq<u8>, Seq<u8>>,
    j: int,
    idx: u32,
)
    requires
        m0.inv(st0),
        0 <= j < m0.cmodel().len(),
        m0.cmodel()[j].0 == idx,
        m0.cache_map().contains_key(idx),
        m0.cache_map()[idx] == m0.cmodel()[j].1,
        post.spec_len() == m0.spec_len(),
        post.spec_prefix() == m0.spec_prefix(),
        post.cache_wf(),
        post.cache_map() == m0.cache_map().insert(idx, (m0.cache_map()[idx].0, false)),
        st1 == match m0.cache_map()[idx].0 {
            Some(v) => st0.insert(key_of(m0.spec_prefix(), idx), encoded(v)),
            None => st0.remove(key_of(m0.spec_prefix(), idx)),
        },
    ensures
        post.inv(st1),
        post.contents(st1) == m0.contents(st0),
{
    let pp = m0.spec_prefix();
    assert forall|i: u32| i != idx implies key_of(pp, i) != key_of(pp, idx) by {
        if key_of(pp, i) == key_of(pp, idx) {
            lemma_key_of_injective(pp, i, idx);
        }
    }
    assert(post.cache_ok()) by {
        assert forall|i: u32| #[trigger] post.cache_map().contains_key(i) implies if i
            < post.spec_len() {
            post.cache_map()[i].0 is Some && post.cache_map()[i].0.unwrap().len() <= u32::MAX
        } else {
            post.cache_map()[i].0 is None
        } by {
            assert(m0.cache_map().contains_key(i));
            assert(post.cache_map()[i].0 == m0.cache_map()[i].0);
        }
    }
    assert(post.storage_ok(st1)) by {
        assert forall|i: u32| !(#[trigger] post.cache_map().contains_key(i)) implies if i
            < post.spec_len() {
            st1.contains_key(post.key_at(i)) && is_encoding(st1[post.key_at(i)])
        } else {
            !st1.contains_key(post.key_at(i))
        } by {
            assert(!m0.cache_map().contains_key(i));
            assert(i != idx);
            assert(st1.contains_key(key_of(pp, i)) == st0.contains_key(key_of(pp, i)));
        }
    }
    assert(post.clean_ok(st1)) by {
        assert forall|i: u32|
            #[trigger] post.cache_map().contains_key(i) && !post.cache_map()[i].1 implies match post
            .cache_map()[i].0 {
            Some(v) => st1.contains_key(post.key_at(i)) && st1[post.key_at(i)] == encoded(v),
            None => !st1.contains_key(post.key_at(i)),
        } by {
            if i != idx {
                assert(m0.cache_map().contains_key(i) && !m0.cache_map()[i].1);
                assert(st1.contains_key(key_of(pp, i)) == st0.contains_key(key_of(pp, i)));
            }
        }
    }
    assert(post.contents(st1) =~= m0.contents(st0)) by {
        assert forall|i: int| 0 <= i < m0.spec_len() implies #[trigger] post.elem_at(st1, i as u32)
            == m0.elem_at(st0, i as u32) by {
            if i as u32 != idx {
                assert(post.cache_map().contains_key(i as u32) == m0.cache_map().contains_key(
                    i as u32,
                ));
            }
        }
    }
}

/// After shrinking the length by one and recording a pending removal at
/// the old last index, the invariant still holds and the contents lose
/// their last element.
proof fn lemma_pop_effect(mid: Vector, post: Vector, s: Map<Seq<u8>, Seq<u8>>, last: u32)
    requires
        mid.inv(s),
        mid.spec_len() == last + 1,
        mid.cache_map().contains_key(last),
        post.spec_len() == last,
        post.spec_prefix() == mid.spec_prefix(),
        post.cache_wf(),
        post.cache_map() == mid.cache_map().insert(last, (None, true)),
    ensures
        post.inv(s),
        post.contents(s) == mid.contents(s).drop_last(),
{
    assert(post.cache_ok()) by {
        assert forall|i: u32| #[trigger] post.cache_map().contains_key(i) implies if i
            < post.spec_len() {
            post.cache_map()[i].0 is Some && post.cache_map()[i].0.unwrap().len() <= u32::MAX
        } else {
            post.cache_map()[i].0 is None
        } by {
            if i != last {
                assert(mid.cache_map().contains_key(i));
                if i >= post.spec_len() {
                    assert(i >= mid.spec_len());
                }
            }
        }
    }
    assert(post.storage_ok(s)) by {
        assert forall|i: u32| !(#[trigger] post.cache_map().contains_key(i)) implies if i
            < post.spec_len() {
            s.contains_key(post.key_at(i)) && is_encoding(s[post.key_at(i)])
        } else {
            !s.contains_key(post.key_at(i))
        } by {
            assert(i != last);
            assert(!mid.cache_map().contains_key(i));
            if i >= post.spec_len() {
                assert(i >= mid.spec_len());
            }
        }
    }
    assert(post.clean_ok(s));
    assert(post.contents(s) =~= mid.contents(s).drop_last()) by {
        assert forall|i: int| 0 <= i < last implies #[trigger] post.elem_at(s, i as u32)
            == mid.elem_at(s, i as u32) by {
            assert(post.cache_map().contains_key(i as u32) == mid.cache_map().contains_key(
                i as u32,
            ));
        }
    }
}

/// After overwriting one cache entry with a modified present value at a
/// valid index, the invariant still holds and the contents change at
/// that index alone.
proof fn lemma_set_effect(pre: Vector, post: Vector, s: Map<Seq<u8>, Seq<u8>>, index: u32, val: Seq<u8>)
    requires
        pre.inv(s),
        post.spec_len() == pre.spec_len(),
        post.spec_prefix() == pre.spec_prefix(),
        post.cache_wf(),
        index < pre.spec_len(),
        val.len() <= u32::MAX,
        post.cache_map() == pre.cache_map().insert(index, (Some(val), true)),
    ensures
        post.inv(s),
        post.contents(s) == pre.contents(s).update(index as int, val),
{
    assert(post.cache_ok());
    assert(post.storage_ok(s));
    assert(post.clean_ok(s));
    assert(post.contents(s) =~= pre.contents(s).update(index as int, val)) by {
        assert forall|i: int| 0 <= i < pre.spec_len() && i != index implies #[trigger] post.elem_at(
            s,
            i as u32,
        ) == pre.elem_at(s, i as u32) by {
            assert(post.cache_map().contains_key(i as u32) == pre.cache_map().contains_key(
                i as u32,
            ));
        }
        assert(post.elem_at(s, index) == val);
    }
}

/// After growing the length by one and caching the new last element as
/// modified, the invariant still holds and the contents gain that
/// element at the end.
proof fn lemma_push_effect(pre: Vector, post: Vector, s: Map<Seq<u8>, Seq<u8>>, val: Seq<u8>)
    requires
        pre.inv(s),
        pre.spec_len() < u32::MAX,
        val.len() <= u32::MAX,
        post.spec_len() == pre.spec_len() + 1,
        post.spec_prefix() == pre.spec_prefix(),
        post.cache_wf(),
        post.cache_map() == pre.cache_map().insert(pre.spec_len(), (Some(val), true)),
    ensures
        post.inv(s),
        post.contents(s) == pre.contents(s).push(val),
{
    let n = pre.spec_len();
    assert(post.cache_ok()) by {
        assert forall|i: u32| #[trigger] post.cache_map().contains_key(i) implies if i
            < post.spec_len() {
            post.cache_map()[i].0 is Some && post.cache_map()[i].0.unwrap().len() <= u32::MAX
        } else {
            post.cache_map()[i].0 is None
        } by {
            if i != n {
                assert(pre.cache_map().contains_key(i));
            }
        }
    }
    assert(post.storage_ok(s)) by {
        assert forall|i: u32| !(#[trigger] post.cache_map().contains_key(i)) implies if i
            < post.spec_len() {
            s.contains_key(post.key_at(i)) && is_encoding(s[post.key_at(i)])
        } else {
            !s.contains_key(post.key_at(i))
        } by {
            assert(i != n);
            assert(!pre.cache_map().contains_key(i));
        }
    }
    assert(post.clean_ok(s));
    assert(post.contents(s) =~= pre.contents(s).push(val)) by {
        assert forall|i: int| 0 <= i < n implies #[trigger] post.elem_at(s, i as u32)
            == pre.elem_at(s, i as u32) by {
            assert(post.cache_map().contains_key(i as u32) == pre.cache_map().contains_key(
                i as u32,
            ));
        }
        assert(post.elem_at(s, n) == val);
    }
}

/// After a load, the invariant still holds and the contents are
/// unchanged: a freshly cached entry mirrors what storage already held.
proof fn lemma_load_keeps_inv(pre: Vector, post: Vector, s: Map<Seq<u8>, Seq<u8>>, index: u32)
    requires
        pre.inv(s),
        post.spec_len() == pre.spec_len(),
        post.spec_prefix() == pre.spec_prefix(),
        post.cache_wf(),
        pre.cache_map().contains_key(index) ==> post.cache_map() == pre.cache_map(),
        !pre.cache_map().contains_key(index) ==> post.cache_map() == pre.cache_map().insert(
            index,
            (
                if s.contains_key(key_of(pre.spec_prefix(), index)) {
                    Some(payload(s[key_of(pre.spec_prefix(), index)]))
                } else {
                    None
                },
                false,
            ),
        ),
    ensures
        post.inv(s),
        post.cache_map().contains_key(index),
        post.contents(s) == pre.contents(s),
        index < pre.spec_len() ==> post.cache_map()[index].0 == Some(pre.elem_at(s, index)),
        index >= pre.spec_len() ==> post.cache_map()[index].0 is None,
{
    if pre.cache_map().contains_key(index) {
        assert(post.contents(s) =~= pre.contents(s));
    } else {
        let k = key_of(pre.spec_prefix(), index);
        if index < pre.spec_len() {
            assert(s.contains_key(k) && is_encoding(s[k]));
            lemma_encoding_canonical(s[k]);
        } else {
            assert(!s.contains_key(k));
        }
        assert(post.cache_ok());
        assert(post.storage_ok(s));
        assert(post.clean_ok(s));
        assert(post.contents(s) =~= pre.contents(s)) by {
            assert forall|i: int| 0 <= i < pre.spec_len() implies #[trigger] post.elem_at(
                s,
                i as u32,
            ) == pre.elem_at(s, i as u32) by {
                if i as u32 != index {
                    assert(post.cache_map().contains_key(i as u32) == pre.cache_map().contains_key(
                        i as u32,
                    ));
                }
            }
        }
    }
}

} // verus!
