//! The storage substrate: a flat, synchronous key-value store over
//! opaque byte strings, with read, write and remove. At the
//! specification level it is a map from key bytes to value bytes.

use vstd::prelude::*;

use crate::assoc::{
    assoc_map, distinct_keys, lemma_assoc_at, lemma_assoc_contains, lemma_assoc_push,
    lemma_assoc_remove, lemma_assoc_update,
};
use crate::keys::{bytes_eq, copy_bytes};
use vstd::pervasive::VecAdditionalExecFns;

verus! {

/// A flat key-value store of byte strings.
#[derive(Clone, PartialEq, Eq, Debug)]
pub struct Store {
    entries: Vec<(Vec<u8>, Vec<u8>)>,
}

impl Store {
    /// The pairs as sequences, in insertion order.
    pub closed spec fn entries_model(self) -> Seq<(Seq<u8>, Seq<u8>)> {
        self.entries@.map_values(|p: (Vec<u8>, Vec<u8>)| (p.0@, p.1@))
    }

    /// Well-formed: no key occurs twice.
    pub open spec fn wf(self) -> bool {
        distinct_keys(self.entries_model())
    }

    /// An empty store.
    pub fn new() -> (r: Self)
        ensures
            r.wf(),
            r@ == Map::<Seq<u8>, Seq<u8>>::empty(),
    {
        let r = Store { entries: Vec::new() };
        proof {
            assert(r.entries_model() =~= Seq::<(Seq<u8>, Seq<u8>)>::empty());
            assert(r@ =~= Map::<Seq<u8>, Seq<u8>>::empty());
        }
        r
    }

    /// The position holding a key, if any.
    fn find(&self, key: &Vec<u8>) -> (r: Option<usize>)
        ensures
            match r {
                Some(j) => j < self.entries_model().len() && self.entries_model()[j as int].0
                    == key@,
                None => forall|p: int|
                    0 <= p < self.entries_model().len() ==> self.entries_model()[p].0 != key@,
            },
    {
        let mut j: usize = 0;
        while j < self.entries.len()
            invariant
                j <= self.entries.len(),
                self.entries_model().len() == self.entries.len(),
                forall|p: int| 0 <= p < j ==> self.entries_model()[p].0 != key@,
            decreases self.entries.len() - j,
        {
            if bytes_eq(&self.entries[j].0, key) {
                return Some(j);
            }
            j = j + 1;
        }
        None
    }

    /// Reads the value stored under a key, if any.
    pub fn read(&self, key: &Vec<u8>) -> (r: Option<Vec<u8>>)
        requires
            self.wf(),
        ensures
            r is Some <==> self@.contains_key(key@),
            r is Some ==> r.unwrap()@ == self@[key@],
    {
        proof {
            lemma_assoc_contains(self.entries_model(), key@);
        }
        match self.find(key) {
            Some(j) => {
                proof {
                    lemma_assoc_at(self.entries_model(), j as int);
                }
                Some(copy_bytes(&self.entries[j].1))
            },
            None => None,
        }
    }

    /// Writes a value under a key, overwriting any value already there.
    pub fn write(&mut self, key: Vec<u8>, value: Vec<u8>)
        requires
            old(self).wf(),
        ensures
            final(self).wf(),
            final(self)@ == old(self)@.insert(key@, value@),
    {
        let ghost pre = self.entries_model();
        match self.find(&key) {
            Some(j) => {
                proof {
                    lemma_assoc_update(pre, j as int, value@);
                }
                self.entries.set(j, (key, value));
                proof {
                    assert(self.entries_model() =~= pre.update(j as int, (pre[j as int].0, value@)));
                }
            },
            None => {
                proof {
                    lemma_assoc_push(pre, key@, value@);
                }
                self.entries.push((key, value));
                proof {
                    assert(self.entries_model() =~= pre.push((key@, value@)));
                }
            },
        }
    }

    /// Removes the value stored under a key, if any.
    pub fn remove(&mut self, key: &Vec<u8>)
        requires
            old(self).wf(),
        ensures
            final(self).wf(),
            final(self)@ == old(self)@.remove(key@),
    {
        let ghost pre = self.entries_model();
        match self.find(key) {
            Some(j) => {
                proof {
                    lemma_assoc_remove(pre, j as int);
                }
                self.entries.remove(j);
                proof {
                    assert(self.entries_model() =~= pre.remove(j as int));
                }
            },
            None => {
                proof {
                    lemma_assoc_contains(pre, key@);
                    assert(!self@.contains_key(key@));
                    assert(self@ =~= old(self)@.remove(key@));
                }
            },
        }
    }
}

impl View for Store {
    type V = Map<Seq<u8>, Seq<u8>>;

    open spec fn view(&self) -> Map<Seq<u8>, Seq<u8>> {
        assoc_map(self.entries_model())
    }
}

} // verus!
