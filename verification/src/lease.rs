//! Leases: advisory, short-lived mutual-exclusion tokens keyed by derived
//! data type and commit id.
//!
//! A lease only deduplicates concurrent effort; derivation is correct with
//! or without one.  Failure to acquire is not an error — callers proceed
//! and accept the (always safe) risk of duplicate computation.  Expiry of a
//! crashed holder's lease is the store's concern; this in-process store
//! releases explicitly.

use vstd::prelude::*;

verus! {

/// An in-process lease store.
#[derive(Debug)]
pub struct LeaseStore {
    held: Vec<(String, u64)>,
}

impl LeaseStore {
    /// Whether the (type name, commit) lease is currently held.
    pub closed spec fn spec_holds(self, name: Seq<char>, csid: u64) -> bool {
        exists|i: int|
            0 <= i < self.held@.len() && (#[trigger] self.held@[i]).0@ == name && self.held@[i].1
                == csid
    }

    /// An empty lease store.
    pub fn new() -> (l: Self)
        ensures
            forall|name: Seq<char>, csid: u64| !l.spec_holds(name, csid),
    {
        LeaseStore { held: Vec::new() }
    }

    /// Looks for a held lease, returning its index.
    fn find(&self, name: &String, csid: u64) -> (r: Option<usize>)
        ensures
            match r {
                Some(i) => i < self.held@.len() && self.held@[i as int].0@ == name@
                    && self.held@[i as int].1 == csid,
                None => !self.spec_holds(name@, csid),
            },
    {
        let n = self.held.len();
        let mut i: usize = 0;
        while i < n
            invariant
                n == self.held@.len(),
                i <= n,
                forall|j: int|
                    0 <= j < i ==> !((#[trigger] self.held@[j]).0@ == name@ && self.held@[j].1
                        == csid),
            decreases n - i,
        {
            if self.held[i].1 == csid && self.held[i].0 == *name {
                return Some(i);
            }
            i = i + 1;
        }
        None
    }

    /// Tries to take the lease.  Returns `false` when it is already held;
    /// that is not an error, only a hint that someone else is deriving.
    pub fn try_acquire(&mut self, name: &String, csid: u64) -> (r: bool)
        ensures
            r == !old(self).spec_holds(name@, csid),
            final(self).spec_holds(name@, csid),
            forall|n2: Seq<char>, c2: u64|
                (n2 != name@ || c2 != csid) ==> final(self).spec_holds(n2, c2) == old(
                    self,
                ).spec_holds(n2, c2),
    {
        match self.find(name, csid) {
            Some(_) => false,
            None => {
                let ghost pre = self.held@;
                self.held.push((name.clone(), csid));
                proof {
                    assert(self.held@.last().0@ == name@ && self.held@.last().1 == csid);
                    assert forall|n2: Seq<char>, c2: u64|
                        (n2 != name@ || c2 != csid) implies self.spec_holds(n2, c2) == old(
                        self,
                    ).spec_holds(n2, c2) by {
                        if old(self).spec_holds(n2, c2) {
                            let j = choose|j: int|
                                0 <= j < pre.len() && (#[trigger] pre[j]).0@ == n2 && pre[j].1
                                    == c2;
                            assert(self.held@[j] == pre[j]);
                        }
                        if self.spec_holds(n2, c2) {
                            let j = choose|j: int|
                                0 <= j < self.held@.len() && (#[trigger] self.held@[j]).0@ == n2
                                    && self.held@[j].1 == c2;
                            if j < pre.len() {
                                assert(pre[j] == self.held@[j]);
                            }
                        }
                    }
                }
                true
            },
        }
    }

    /// Releases a held lease; releasing an unheld lease does nothing, and
    /// no lease ever appears that was not already held.
    pub fn release(&mut self, name: &String, csid: u64)
        ensures
            !final(self).spec_holds(name@, csid),
            forall|n2: Seq<char>, c2: u64|
                (n2 != name@ || c2 != csid) && old(self).spec_holds(n2, c2) ==> final(self).spec_holds(
                    n2,
                    c2,
                ),
            forall|n2: Seq<char>, c2: u64|
                final(self).spec_holds(n2, c2) ==> old(self).spec_holds(n2, c2),
    {
        loop
            invariant
                forall|n2: Seq<char>, c2: u64|
                    (n2 != name@ || c2 != csid) && old(self).spec_holds(n2, c2) ==> self.spec_holds(
                        n2,
                        c2,
                    ),
                forall|n2: Seq<char>, c2: u64|
                    self.spec_holds(n2, c2) ==> old(self).spec_holds(n2, c2),
            ensures
                !self.spec_holds(name@, csid),
            decreases self.held@.len(),
        {
            let ghost pre = self.held@;
            match self.find(name, csid) {
                Some(i) => {
                    self.held.remove(i);
                    proof {
                        assert forall|n2: Seq<char>, c2: u64|
                            (n2 != name@ || c2 != csid) && old(self).spec_holds(
                                n2,
                                c2,
                            ) implies self.spec_holds(n2, c2) by {
                            let j = choose|j: int|
                                0 <= j < pre.len() && (#[trigger] pre[j]).0@ == n2 && pre[j].1
                                    == c2;
                            if j < i {
                                assert(self.held@[j] == pre[j]);
                            } else {
                                assert(j != i);
                                assert(self.held@[j - 1] == pre[j]);
                            }
                        }
                        assert forall|n2: Seq<char>, c2: u64|
                            self.spec_holds(n2, c2) implies old(self).spec_holds(n2, c2) by {
                            let j = choose|j: int|
                                0 <= j < self.held@.len() && (#[trigger] self.held@[j]).0@ == n2
                                    && self.held@[j].1 == c2;
                            if j < i {
                                assert(pre[j] == self.held@[j]);
                            } else {
                                assert(pre[j + 1] == self.held@[j]);
                            }
                        }
                    }
                },
                None => {
                    break ;
                },
            }
        }
    }
}

} // verus!
