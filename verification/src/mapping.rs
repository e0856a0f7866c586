//! The mapping: a persistent cache from commit id to derived value, one per
//! derived-data type, plus the regenerate decorator that hides chosen
//! entries so a backfill recomputes them.
//!
//! Writes are idempotent: a value, once present, is only ever rewritten
//! with the same value, because derived values are a pure function of the
//! commit (see [`crate::contract::value_of`]).  No coordination between
//! entries is required.

use vstd::prelude::*;

use std::collections::HashMap;
use std::collections::HashSet;

verus! {

broadcast use vstd::std_specs::hash::group_hash_axioms;

/// The interface of a derived-value store, as seen by the engine: a visible
/// set of entries, point and bulk lookups, and an idempotent write.
pub trait DerivedMapping: Sized {
    /// The entries visible to readers.
    spec fn entries(&self) -> Map<u64, u64>;

    /// Fetches the value recorded for one commit.
    fn get_one(&self, csid: u64) -> (r: Option<u64>)
        ensures
            r == (if self.entries().contains_key(csid) {
                Some(self.entries()[csid])
            } else {
                None::<u64>
            }),
    ;

    /// Bulk lookup: one result per requested commit, in request order.
    fn get_many(&self, csids: &Vec<u64>) -> (r: Vec<Option<u64>>)
        ensures
            r@.len() == csids@.len(),
            forall|i: int|
                0 <= i < csids@.len() ==> r@[i] == (if self.entries().contains_key(
                    #[trigger] csids@[i],
                ) {
                    Some(self.entries()[csids@[i]])
                } else {
                    None::<u64>
                }),
    ;

    /// Records the derived value for a commit.
    fn put(&mut self, csid: u64, value: u64)
        ensures
            final(self).entries() == old(self).entries().insert(csid, value),
    ;
}

/// The plain persistent mapping of one derived-data type.
#[derive(Debug)]
pub struct Mapping {
    map: HashMap<u64, u64>,
}

impl Mapping {
    /// An empty mapping.
    pub fn new() -> (m: Self)
        ensures
            m.entries() == Map::<u64, u64>::empty(),
    {
        Mapping { map: HashMap::new() }
    }

    /// How many commits have a recorded value.
    pub fn len(&self) -> (n: usize)
        ensures
            n == self.entries().len(),
    {
        self.map.len()
    }

    /// Whether a value is recorded for this commit.
    pub fn contains(&self, csid: u64) -> (r: bool)
        ensures
            r == self.entries().contains_key(csid),
    {
        self.map.contains_key(&csid)
    }
}

impl DerivedMapping for Mapping {
    closed spec fn entries(&self) -> Map<u64, u64> {
        self.map@
    }

    fn get_one(&self, csid: u64) -> (r: Option<u64>) {
        match self.map.get(&csid) {
            Some(v) => Some(*v),
            None => None,
        }
    }

    fn get_many(&self, csids: &Vec<u64>) -> (r: Vec<Option<u64>>) {
        let n = csids.len();
        let mut r: Vec<Option<u64>> = Vec::new();
        let mut i: usize = 0;
        while i < n
            invariant
                n == csids@.len(),
                i <= n,
                r@.len() == i,
                forall|j: int|
                    0 <= j < i ==> r@[j] == (if self.entries().contains_key(
                        #[trigger] csids@[j],
                    ) {
                        Some(self.entries()[csids@[j]])
                    } else {
                        None::<u64>
                    }),
            decreases n - i,
        {
            r.push(self.get_one(csids[i]));
            i = i + 1;
        }
        r
    }

    fn put(&mut self, csid: u64, value: u64) {
        self.map.insert(csid, value);
    }
}

/// A decorator over [`Mapping`] that hides the entries of an exclusion set,
/// so that readers treat those commits as underived and a backfill derives
/// them again.  Writing a commit removes it from the exclusion set.
#[derive(Debug)]
pub struct RegenerateMapping {
    base: Mapping,
    regenerate: HashSet<u64>,
}

impl RegenerateMapping {
    /// The commits whose entries are currently hidden.
    pub closed spec fn excluded(&self) -> Set<u64> {
        self.regenerate@
    }

    /// The entries of the wrapped mapping, hidden ones included.
    pub closed spec fn base_entries(&self) -> Map<u64, u64> {
        self.base.entries()
    }

    /// Wraps a mapping with an empty exclusion set.
    pub fn new(base: Mapping) -> (m: Self)
        ensures
            m.entries() == base.entries(),
            m.excluded() == Set::<u64>::empty(),
            m.base_entries() == base.entries(),
    {
        let m = RegenerateMapping { base, regenerate: HashSet::new() };
        proof {
            assert(m.entries() =~= m.base.entries());
        }
        m
    }

    /// Marks commits for regeneration: their entries become invisible until
    /// they are written again.
    pub fn regenerate(&mut self, csids: &Vec<u64>)
        ensures
            final(self).excluded() == old(self).excluded().union(csids@.to_set()),
            final(self).base_entries() == old(self).base_entries(),
            final(self).entries() == old(self).entries().remove_keys(csids@.to_set()),
    {
        let n = csids.len();
        let mut i: usize = 0;
        while i < n
            invariant
                n == csids@.len(),
                i <= n,
                self.base == old(self).base,
                self.regenerate@ == old(self).regenerate@.union(
                    csids@.take(i as int).to_set(),
                ),
            decreases n - i,
        {
            proof {
                assert(csids@.take(i + 1) =~= csids@.take(i as int).push(csids@[i as int]));
                csids@.take(i as int).lemma_push_to_set_commute(csids@[i as int]);
            }
            self.regenerate.insert(csids[i]);
            proof {
                assert(self.regenerate@ =~= old(self).regenerate@.union(
                    csids@.take(i + 1).to_set(),
                ));
            }
            i = i + 1;
        }
        proof {
            assert(csids@.take(n as int) =~= csids@);
            assert(self.entries() =~= old(self).entries().remove_keys(csids@.to_set()));
        }
    }

    /// Gives the wrapped mapping back.
    pub fn into_inner(self) -> (m: Mapping)
        ensures
            m.entries() == self.base_entries(),
    {
        self.base
    }
}

impl DerivedMapping for RegenerateMapping {
    closed spec fn entries(&self) -> Map<u64, u64> {
        self.base.entries().remove_keys(self.regenerate@)
    }

    fn get_one(&self, csid: u64) -> (r: Option<u64>) {
        if self.regenerate.contains(&csid) {
            None
        } else {
            self.base.get_one(csid)
        }
    }

    fn get_many(&self, csids: &Vec<u64>) -> (r: Vec<Option<u64>>) {
        let n = csids.len();
        let mut r: Vec<Option<u64>> = Vec::new();
        let mut i: usize = 0;
        while i < n
            invariant
                n == csids@.len(),
                i <= n,
                r@.len() == i,
                forall|j: int|
                    0 <= j < i ==> r@[j] == (if self.entries().contains_key(
                        #[trigger] csids@[j],
                    ) {
                        Some(self.entries()[csids@[j]])
                    } else {
                        None::<u64>
                    }),
            decreases n - i,
        {
            r.push(self.get_one(csids[i]));
            i = i + 1;
        }
        r
    }

    fn put(&mut self, csid: u64, value: u64)
        ensures
            final(self).base_entries() == old(self).base_entries().insert(csid, value),
            final(self).excluded() == old(self).excluded().remove(csid),
    {
        self.regenerate.remove(&csid);
        self.base.put(csid, value);
        proof {
            assert(self.entries() =~= old(self).entries().insert(csid, value));
        }
    }
}

} // verus!
