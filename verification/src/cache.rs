//! The cache store: an associative container from logical index to cache
//! entry, owned exclusively by one collection. At the specification level
//! it is a map from index to an entry model; flush also walks it by
//! position, so the positional sequence of pairs is exposed to proofs as
//! well.

use vstd::prelude::*;

use crate::assoc::{
    assoc_map, distinct_keys, lemma_assoc_at, lemma_assoc_contains, lemma_assoc_push,
    lemma_assoc_update,
};
use crate::entry::{opt_bytes, CacheEntry};
use vstd::pervasive::VecAdditionalExecFns;

verus! {

/// An associative container from logical index to cache entry.
pub struct Cache {
    entries: Vec<(u32, CacheEntry)>,
}

impl Cache {
    /// The positional model: the pairs in insertion order, each entry
    /// replaced by its model.
    pub closed spec fn entries_model(self) -> Seq<(u32, (Option<Seq<u8>>, bool))> {
        self.entries@.map_values(|p: (u32, CacheEntry)| (p.0, p.1.model()))
    }

    /// Well-formed: no index occurs twice.
    pub open spec fn wf(self) -> bool {
        distinct_keys(self.entries_model())
    }

    /// An empty cache.
    pub fn new() -> (r: Self)
        ensures
            r.wf(),
            r.entries_model() == Seq::<(u32, (Option<Seq<u8>>, bool))>::empty(),
            r@ == Map::<u32, (Option<Seq<u8>>, bool)>::empty(),
    {
        let r = Cache { entries: Vec::new() };
        proof {
            assert(r.entries_model() =~= Seq::<(u32, (Option<Seq<u8>>, bool))>::empty());
            assert(r@ =~= Map::<u32, (Option<Seq<u8>>, bool)>::empty());
        }
        r
    }

    /// The position holding an index, if any.
    fn find(&self, index: u32) -> (r: Option<usize>)
        ensures
            match r {
                Some(j) => j < self.entries_model().len() && self.entries_model()[j as int].0
                    == index,
                None => forall|p: int|
                    0 <= p < self.entries_model().len() ==> self.entries_model()[p].0 != index,
            },
    {
        let mut j: usize = 0;
        while j < self.entries.len()
            invariant
                j <= self.entries.len(),
                self.entries_model().len() == self.entries.len(),
                forall|p: int| 0 <= p < j ==> self.entries_model()[p].0 != index,
            decreases self.entries.len() - j,
        {
            if self.entries[j].0 == index {
                return Some(j);
            }
            j = j + 1;
        }
        None
    }

    /// Whether the cache holds an entry for an index.
    pub fn contains_index(&self, index: u32) -> (r: bool)
        ensures
            r == self@.contains_key(index),
    {
        proof {
            lemma_assoc_contains(self.entries_model(), index);
        }
        match self.find(index) {
            Some(_) => true,
            None => false,
        }
    }

    /// A copy of the value held for an index.
    pub fn value_of(&self, index: u32) -> (r: Option<Vec<u8>>)
        requires
            self.wf(),
            self@.contains_key(index),
        ensures
            opt_bytes(r) == self@[index].0,
    {
        proof {
            lemma_assoc_contains(self.entries_model(), index);
        }
        match self.find(index) {
            Some(j) => {
                proof {
                    lemma_assoc_at(self.entries_model(), j as int);
                }
                self.entries[j].1.value_copy()
            },
            None => vstd::pervasive::unreached(),
        }
    }

    /// Inserts an entry for an index, overwriting any entry already
    /// there.
    pub fn insert(&mut self, index: u32, entry: CacheEntry)
        requires
            old(self).wf(),
        ensures
            final(self).wf(),
            final(self)@ == old(self)@.insert(index, entry.model()),
    {
        let ghost pre = self.entries_model();
        match self.find(index) {
            Some(j) => {
                proof {
                    lemma_assoc_update(pre, j as int, entry.model());
                }
                self.entries.set(j, (index, entry));
                proof {
                    assert(self.entries_model() =~= pre.update(j as int, (index, entry.model())));
                }
            },
            None => {
                proof {
                    lemma_assoc_push(pre, index, entry.model());
                }
                self.entries.push((index, entry));
                proof {
                    assert(self.entries_model() =~= pre.push((index, entry.model())));
                }
            },
        }
    }

    /// Installs a new value for an index already present, marking the
    /// entry modified, and hands back the value it held.
    pub fn replace_value(&mut self, index: u32, value: Option<Vec<u8>>) -> (r: Option<Vec<u8>>)
        requires
            old(self).wf(),
            old(self)@.contains_key(index),
        ensures
            final(self).wf(),
            opt_bytes(r) == old(self)@[index].0,
            final(self)@ == old(self)@.insert(index, (opt_bytes(value), true)),
    {
        let ghost pre = self.entries_model();
        proof {
            lemma_assoc_contains(pre, index);
        }
        match self.find(index) {
            Some(j) => {
                proof {
                    lemma_assoc_at(pre, j as int);
                    lemma_assoc_update(pre, j as int, (opt_bytes(value), true));
                }
                let prev = self.entries[j].1.value_copy();
                self.entries.set(j, (index, CacheEntry::new_modified(value)));
                proof {
                    assert(self.entries_model() =~= pre.update(
                        j as int,
                        (index, (opt_bytes(value), true)),
                    ));
                }
                prev
            },
            None => vstd::pervasive::unreached(),
        }
    }

    /// Discards every entry.
    pub fn clear(&mut self)
        ensures
            final(self).wf(),
            final(self).entries_model() == Seq::<(u32, (Option<Seq<u8>>, bool))>::empty(),
            final(self)@ == Map::<u32, (Option<Seq<u8>>, bool)>::empty(),
    {
        self.entries.clear();
        proof {
            assert(self.entries_model() =~= Seq::<(u32, (Option<Seq<u8>>, bool))>::empty());
            assert(self@ =~= Map::<u32, (Option<Seq<u8>>, bool)>::empty());
        }
    }

    /// How many entries the cache holds.
    pub fn n(&self) -> (r: usize)
        ensures
            r == self.entries_model().len(),
    {
        self.entries.len()
    }

    /// The index stored at a position.
    pub fn index_at(&self, j: usize) -> (r: u32)
        requires
            j < self.entries_model().len(),
        ensures
            r == self.entries_model()[j as int].0,
    {
        self.entries[j].0
    }

    /// Whether the entry at a position is modified.
    pub fn modified_at(&self, j: usize) -> (r: bool)
        requires
            j < self.entries_model().len(),
        ensures
            r == self.entries_model()[j as int].1.1,
    {
        self.entries[j].1.is_modified()
    }

    /// A copy of the value held at a position.
    pub fn value_at(&self, j: usize) -> (r: Option<Vec<u8>>)
        requires
            j < self.entries_model().len(),
        ensures
            opt_bytes(r) == self.entries_model()[j as int].1.0,
    {
        self.entries[j].1.value_copy()
    }

    /// Demotes the entry at a position to cached, keeping its value.
    pub fn mark_flushed_at(&mut self, j: usize)
        requires
            old(self).wf(),
            j < old(self).entries_model().len(),
        ensures
            final(self).wf(),
            final(self).entries_model() == old(self).entries_model().update(
                j as int,
                (old(self).entries_model()[j as int].0, (old(self).entries_model()[j as int].1.0,
                false)),
            ),
            final(self)@ == old(self)@.insert(
                old(self).entries_model()[j as int].0,
                (old(self).entries_model()[j as int].1.0, false),
            ),
    {
        let ghost pre = self.entries_model();
        let index = self.entries[j].0;
        let value = self.entries[j].1.value_copy();
        proof {
            lemma_assoc_update(pre, j as int, (pre[j as int].1.0, false));
        }
        self.entries.set(j, (index, CacheEntry::new_cached(value)));
        proof {
            assert(self.entries_model() =~= pre.update(
                j as int,
                (pre[j as int].0, (pre[j as int].1.0, false)),
            ));
        }
    }

    /// The map this cache denotes: position order forgotten, each index
    /// mapped to its entry model.
    pub proof fn lemma_view_positions(self)
        requires
            self.wf(),
        ensures
            forall|j: int|
                0 <= j < self.entries_model().len() ==> self@.contains_key(
                    #[trigger] self.entries_model()[j].0,
                ) && self@[self.entries_model()[j].0] == self.entries_model()[j].1,
            forall|i: u32|
                #[trigger] self@.contains_key(i) ==> exists|j: int|
                    0 <= j < self.entries_model().len() && self.entries_model()[j].0 == i,
    {
        assert forall|j: int| 0 <= j < self.entries_model().len() implies self@.contains_key(
            #[trigger] self.entries_model()[j].0,
        ) && self@[self.entries_model()[j].0] == self.entries_model()[j].1 by {
            lemma_assoc_at(self.entries_model(), j);
        }
        assert forall|i: u32| #[trigger] self@.contains_key(i) implies exists|j: int|
            0 <= j < self.entries_model().len() && self.entries_model()[j].0 == i by {
            lemma_assoc_contains(self.entries_model(), i);
        }
    }
}

impl View for Cache {
    type V = Map<u32, (Option<Seq<u8>>, bool)>;

    open spec fn view(&self) -> Map<u32, (Option<Seq<u8>>, bool)> {
        assoc_map(self.entries_model())
    }
}

} // verus!
