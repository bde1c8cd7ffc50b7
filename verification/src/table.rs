//! The table of trust distances that one search gives.

use vstd::prelude::*;
use crate::model::{Identity, Key};

verus! {

/// An identity within the trust budget, and its distance from the root.
#[derive(Debug, PartialEq, Eq)]
pub struct TrustedId {
    pub who: Identity,
    pub distance: u64,
}

impl Clone for TrustedId {
    fn clone(&self) -> (copy: Self)
        ensures
            copy == *self,
    {
        TrustedId { who: self.who.clone(), distance: self.distance }
    }
}

/// The trust distance of every identity that has one. A lower distance means
/// more trust; an identity that is not in the table is not trusted.
#[derive(Debug)]
pub struct TrustDistances {
    pub(crate) entries: Vec<TrustedId>,
}

impl TrustDistances {
    pub(crate) open spec fn has(&self, i: int, k: Key) -> bool {
        0 <= i < self.entries.len() && self.entries[i].who.key() == k
    }

    pub(crate) open spec fn listed(&self, k: Key) -> bool {
        exists|i: int| self.has(i, k)
    }

    pub(crate) open spec fn place(&self, k: Key) -> int {
        choose|i: int| self.has(i, k)
    }

    pub(crate) open spec fn inner_wf(&self) -> bool {
        forall|i: int, j: int|
            0 <= i < j < self.entries.len() ==> (#[trigger] self.entries[i]).who.key() != (
            #[trigger] self.entries[j]).who.key()
    }

    pub(crate) open spec fn inner_view(&self) -> Map<Key, nat> {
        Map::new(|k: Key| self.listed(k), |k: Key| self.entries[self.place(k)].distance as nat)
    }

    /// No identity is in the table twice.
    pub closed spec fn wf(&self) -> bool {
        self.inner_wf()
    }

    /// The distance of each identity that has one.
    pub closed spec fn view(&self) -> Map<Key, nat> {
        self.inner_view()
    }

    pub(crate) proof fn lemma_inner(&self)
        ensures
            self.wf() == self.inner_wf(),
            self@ == self.inner_view(),
    {
    }

    /// The entry at `i` is the one that the view has for its identity.
    pub(crate) proof fn lemma_entry(&self, i: int)
        requires
            self.inner_wf(),
            0 <= i < self.entries.len(),
        ensures
            self.inner_view().contains_key(self.entries[i].who.key()),
            self.inner_view()[self.entries[i].who.key()] == self.entries[i].distance,
    {
        let k = self.entries[i].who.key();
        assert(self.has(i, k));
    }

    /// The distance of `who`, if it has one.
    pub fn get(&self, who: &Identity) -> (found: Option<u64>)
        requires
            self.wf(),
        ensures
            match found {
                Some(d) => self@.contains_key(who.key()) && self@[who.key()] == d,
                None => !self@.contains_key(who.key()),
            },
    {
        let mut i: usize = 0;
        while i < self.entries.len()
            invariant
                i <= self.entries.len(),
                self.inner_wf(),
                forall|j: int| 0 <= j < i ==> !self.has(j, who.key()),
            decreases self.entries.len() - i,
        {
            if self.entries[i].who.same_as(who) {
                proof {
                    self.lemma_entry(i as int);
                }
                return Some(self.entries[i].distance);
            }
            i += 1;
        }
        None
    }

    /// Tells whether `who` is within the trust budget.
    pub fn contains(&self, who: &Identity) -> (found: bool)
        requires
            self.wf(),
        ensures
            found == self@.contains_key(who.key()),
    {
        self.get(who).is_some()
    }

    /// The identities of the table, in the order of its entries.
    pub closed spec fn keys(&self) -> Seq<Key> {
        self.entries@.map_values(|e: TrustedId| e.who.key())
    }

    /// The entries are the identities that have a distance, each once.
    pub proof fn lemma_keys(&self)
        requires
            self.wf(),
        ensures
            self.keys().no_duplicates(),
            self.keys().to_set() == self@.dom(),
            self@.dom().finite(),
            self@.dom().len() == self.keys().len(),
    {
        let keys = self.keys();
        assert forall|k: Key| keys.to_set().contains(k) == self.inner_view().dom().contains(k) by {
            if keys.contains(k) {
                let i = choose|i: int| 0 <= i < keys.len() && keys[i] == k;
                assert(self.has(i, k));
            }
            if self.listed(k) {
                let i = choose|i: int| self.has(i, k);
                assert(keys[i] == k);
            }
        }
        vstd::seq_lib::seq_to_set_is_finite(keys);
        keys.unique_seq_to_set();
    }

    /// How many identities have a distance.
    pub fn len(&self) -> (n: usize)
        ensures
            n == self.keys().len(),
    {
        self.entries.len()
    }

    /// The entry at the place `i`: an identity of the table, with its
    /// distance.
    pub fn entry(&self, i: usize) -> (e: &TrustedId)
        requires
            self.wf(),
            i < self.keys().len(),
        ensures
            e.who.key() == self.keys()[i as int],
            self@.contains_key(e.who.key()),
            self@[e.who.key()] == e.distance,
    {
        proof {
            self.lemma_entry(i as int);
        }
        &self.entries[i]
    }
}

} // verus!
