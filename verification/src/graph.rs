//! The commit graph: an append-only directed acyclic graph of commits.
//!
//! Commits are stored in insertion order, and a commit may only be added
//! after all of its parents.  That ordering is the graph's well-formedness
//! invariant: it makes the graph acyclic by construction and gives every
//! recursive definition over ancestors a decreasing measure (the index of
//! the commit in the insertion order).

use vstd::prelude::*;

verus! {

/// One commit: a stable id, the ordered ids of its parents, and the author
/// timestamp in seconds (used only for the oldest-underived age report).
#[derive(Debug)]
pub struct Commit {
    pub id: u64,
    pub parents: Vec<u64>,
    pub timestamp: u64,
}

/// Append-only commit DAG; every commit appears after all of its parents.
#[derive(Debug)]
pub struct CommitGraph {
    commits: Vec<Commit>,
}

impl CommitGraph {
    /// The commits in insertion order.
    pub closed spec fn entries(self) -> Seq<Commit> {
        self.commits@
    }

    /// Whether a commit with this id is in the graph.
    pub open spec fn spec_contains(self, id: u64) -> bool {
        exists|i: int| 0 <= i < self.entries().len() && self.entries()[i].id == id
    }

    /// Whether a commit with this id appears strictly before index `upto`.
    pub open spec fn contains_before(self, id: u64, upto: int) -> bool {
        exists|j: int| 0 <= j < upto && j < self.entries().len() && self.entries()[j].id == id
    }

    /// The insertion index of the commit with this id.
    pub open spec fn idx_of(self, id: u64) -> int {
        choose|i: int| 0 <= i < self.entries().len() && self.entries()[i].id == id
    }

    /// The stored commit with this id.
    pub open spec fn node_of(self, id: u64) -> Commit {
        self.entries()[self.idx_of(id)]
    }

    /// The parent ids of the commit with this id.
    pub open spec fn parents_of(self, id: u64) -> Seq<u64> {
        self.node_of(id).parents@
    }

    /// All parents of the commit at index `i` appear strictly before `i`.
    pub open spec fn parents_before(self, i: int) -> bool {
        forall|k: int|
            0 <= k < self.entries()[i].parents@.len() ==> self.contains_before(
                #[trigger] self.entries()[i].parents@[k],
                i,
            )
    }

    /// Well-formedness: ids are distinct and parents precede their children.
    pub open spec fn wf(self) -> bool {
        &&& forall|i: int, j: int|
            0 <= i < j < self.entries().len() ==> (#[trigger] self.entries()[i].id) != (
            #[trigger] self.entries()[j].id)
        &&& forall|i: int| 0 <= i < self.entries().len() ==> #[trigger] self.parents_before(i)
    }

    /// In a well-formed graph the chosen index of a contained id is the one
    /// and only index holding that id.
    pub proof fn lemma_idx_of(self, id: u64)
        requires
            self.wf(),
            self.spec_contains(id),
        ensures
            0 <= self.idx_of(id) < self.entries().len(),
            self.entries()[self.idx_of(id)].id == id,
            forall|i: int|
                0 <= i < self.entries().len() && self.entries()[i].id == id ==> i == self.idx_of(
                    id,
                ),
    {
        let ix = self.idx_of(id);
        assert(0 <= ix < self.entries().len() && self.entries()[ix].id == id);
        assert forall|i: int|
            0 <= i < self.entries().len() && self.entries()[i].id == id implies i == ix by {
            if i < ix {
                assert(self.entries()[i].id != self.entries()[ix].id);
            } else if ix < i {
                assert(self.entries()[ix].id != self.entries()[i].id);
            }
        }
    }

    /// A commit contained before index `upto` is contained, with a smaller index.
    pub proof fn lemma_contains_before(self, id: u64, upto: int)
        requires
            self.wf(),
            self.contains_before(id, upto),
        ensures
            self.spec_contains(id),
            self.idx_of(id) < upto,
    {
        let j = choose|j: int|
            0 <= j < upto && j < self.entries().len() && self.entries()[j].id == id;
        assert(self.spec_contains(id));
        self.lemma_idx_of(id);
    }

    /// Every parent of a contained commit is contained, with a smaller index.
    pub proof fn lemma_parent_idx(self, id: u64, k: int)
        requires
            self.wf(),
            self.spec_contains(id),
            0 <= k < self.parents_of(id).len(),
        ensures
            self.spec_contains(self.parents_of(id)[k]),
            self.idx_of(self.parents_of(id)[k]) < self.idx_of(id),
    {
        self.lemma_idx_of(id);
        let ix = self.idx_of(id);
        assert(self.parents_before(ix));
        assert(self.contains_before(self.parents_of(id)[k], ix));
        self.lemma_contains_before(self.parents_of(id)[k], ix);
    }

    /// All ids in `ps` are contained, with indices strictly below `bound`.
    pub open spec fn all_below(self, ps: Seq<u64>, bound: int) -> bool {
        forall|k: int|
            0 <= k < ps.len() ==> self.spec_contains(#[trigger] ps[k]) && self.idx_of(ps[k])
                < bound
    }

    /// Ancestor-or-self reachability along parent edges.
    pub open spec fn reaches(self, from: u64, to: u64) -> bool
        decreases self.idx_of(from), 1int, 0int,
        when self.wf() && self.spec_contains(from)
        via Self::reaches_decreases
    {
        from == to || self.reaches_from_any(self.parents_of(from), to, self.idx_of(from))
    }

    /// Whether some id in `ps` reaches `to`.  `bound` caps the indices of the
    /// ids in `ps` and serves as the termination measure.
    pub open spec fn reaches_from_any(self, ps: Seq<u64>, to: u64, bound: int) -> bool
        decreases bound, 0int, ps.len(),
        when self.wf() && self.all_below(ps, bound)
        via Self::reaches_from_any_decreases
    {
        ps.len() > 0 && (self.reaches(ps[0], to) || self.reaches_from_any(
            ps.drop_first(),
            to,
            bound,
        ))
    }

    #[via_fn]
    proof fn reaches_decreases(self, from: u64, to: u64) {
        if self.wf() && self.spec_contains(from) {
            self.lemma_idx_of(from);
            assert forall|k: int| 0 <= k < self.parents_of(from).len() implies self.spec_contains(
                #[trigger] self.parents_of(from)[k],
            ) && self.idx_of(self.parents_of(from)[k]) < self.idx_of(from) by {
                self.lemma_parent_idx(from, k);
            }
        }
    }

    #[via_fn]
    proof fn reaches_from_any_decreases(self, ps: Seq<u64>, to: u64, bound: int) {
        if self.wf() && self.all_below(ps, bound) && ps.len() > 0 {
            assert(self.spec_contains(ps[0]) && self.idx_of(ps[0]) < bound);
            assert forall|k: int| 0 <= k < ps.drop_first().len() implies self.spec_contains(
                #[trigger] ps.drop_first()[k],
            ) && self.idx_of(ps.drop_first()[k]) < bound by {
                assert(ps.drop_first()[k] == ps[k + 1]);
            }
        }
    }

    /// `reaches_from_any` holds exactly when some element of `ps` reaches `to`.
    pub proof fn lemma_reaches_from_any_iff(self, ps: Seq<u64>, to: u64, bound: int)
        requires
            self.wf(),
            self.all_below(ps, bound),
        ensures
            self.reaches_from_any(ps, to, bound) <==> (exists|k: int|
                0 <= k < ps.len() && self.reaches(#[trigger] ps[k], to)),
        decreases ps.len(),
    {
        if ps.len() > 0 {
            assert forall|k: int| 0 <= k < ps.drop_first().len() implies self.spec_contains(
                #[trigger] ps.drop_first()[k],
            ) && self.idx_of(ps.drop_first()[k]) < bound by {
                assert(ps.drop_first()[k] == ps[k + 1]);
            }
            self.lemma_reaches_from_any_iff(ps.drop_first(), to, bound);
            if self.reaches_from_any(ps, to, bound) {
                if self.reaches(ps[0], to) {
                    assert(0 <= 0 < ps.len() && self.reaches(ps[0], to));
                } else {
                    let k = choose|k: int|
                        0 <= k < ps.drop_first().len() && self.reaches(
                            #[trigger] ps.drop_first()[k],
                            to,
                        );
                    assert(ps.drop_first()[k] == ps[k + 1]);
                    assert(0 <= k + 1 < ps.len() && self.reaches(ps[k + 1], to));
                }
            }
            if exists|k: int| 0 <= k < ps.len() && self.reaches(#[trigger] ps[k], to) {
                let k = choose|k: int| 0 <= k < ps.len() && self.reaches(#[trigger] ps[k], to);
                if k == 0 {
                    assert(self.reaches_from_any(ps, to, bound));
                } else {
                    assert(ps.drop_first()[k - 1] == ps[k]);
                    assert(0 <= k - 1 < ps.drop_first().len() && self.reaches(
                        ps.drop_first()[k - 1],
                        to,
                    ));
                    assert(self.reaches_from_any(ps, to, bound));
                }
            }
        }
    }

    /// Unfolds reachability to the step through some parent.
    pub proof fn lemma_reaches_step(self, from: u64, to: u64)
        requires
            self.wf(),
            self.spec_contains(from),
        ensures
            self.reaches(from, to) <==> (from == to || exists|k: int|
                0 <= k < self.parents_of(from).len() && self.reaches(
                    #[trigger] self.parents_of(from)[k],
                    to,
                )),
    {
        self.lemma_idx_of(from);
        assert forall|k: int| 0 <= k < self.parents_of(from).len() implies self.spec_contains(
            #[trigger] self.parents_of(from)[k],
        ) && self.idx_of(self.parents_of(from)[k]) < self.idx_of(from) by {
            self.lemma_parent_idx(from, k);
        }
        self.lemma_reaches_from_any_iff(self.parents_of(from), to, self.idx_of(from));
    }

    /// Reachable commits are contained in the graph.
    pub proof fn lemma_reaches_contained(self, from: u64, to: u64)
        requires
            self.wf(),
            self.spec_contains(from),
            self.reaches(from, to),
        ensures
            self.spec_contains(to),
        decreases self.idx_of(from),
    {
        if from != to {
            self.lemma_reaches_step(from, to);
            let k = choose|k: int|
                0 <= k < self.parents_of(from).len() && self.reaches(
                    #[trigger] self.parents_of(from)[k],
                    to,
                );
            self.lemma_parent_idx(from, k);
            self.lemma_reaches_contained(self.parents_of(from)[k], to);
        }
    }

    /// Reachability is transitive.
    pub proof fn lemma_reaches_trans(self, a: u64, b: u64, c: u64)
        requires
            self.wf(),
            self.spec_contains(a),
            self.reaches(a, b),
            self.reaches(b, c),
        ensures
            self.reaches(a, c),
        decreases self.idx_of(a),
    {
        if a != b {
            self.lemma_reaches_step(a, b);
            let k = choose|k: int|
                0 <= k < self.parents_of(a).len() && self.reaches(
                    #[trigger] self.parents_of(a)[k],
                    b,
                );
            self.lemma_parent_idx(a, k);
            self.lemma_reaches_trans(self.parents_of(a)[k], b, c);
            self.lemma_reaches_step(a, c);
            assert(0 <= k < self.parents_of(a).len() && self.reaches(self.parents_of(a)[k], c));
        }
    }

    /// Each parent is reachable from its child.
    pub proof fn lemma_reaches_parent(self, id: u64, k: int)
        requires
            self.wf(),
            self.spec_contains(id),
            0 <= k < self.parents_of(id).len(),
        ensures
            self.reaches(id, self.parents_of(id)[k]),
    {
        self.lemma_parent_idx(id, k);
        let p = self.parents_of(id)[k];
        assert(self.reaches(p, p));
        self.lemma_reaches_step(id, p);
        assert(0 <= k < self.parents_of(id).len() && self.reaches(self.parents_of(id)[k], p));
    }

    /// A list of distinct commit ids of the graph is no longer than the graph.
    pub proof fn lemma_distinct_ids_bound(self, s: Seq<u64>)
        requires
            s.no_duplicates(),
            forall|i: int| 0 <= i < s.len() ==> self.spec_contains(#[trigger] s[i]),
        ensures
            s.len() <= self.entries().len(),
    {
        broadcast use vstd::set::group_set_axioms;
        broadcast use vstd::seq_lib::seq_to_set_is_finite;

        let ids = self.entries().map(|i: int, c: Commit| c.id);
        assert forall|i: int| 0 <= i < s.len() implies ids.to_set().contains(#[trigger] s[i]) by {
            let j = choose|j: int|
                0 <= j < self.entries().len() && self.entries()[j].id == s[i];
            assert(ids[j] == s[i]);
        }
        assert(s.to_set().subset_of(ids.to_set()));
        s.unique_seq_to_set();
        ids.lemma_cardinality_of_set();
        vstd::set_lib::lemma_len_subset(s.to_set(), ids.to_set());
    }

    /// A set of commit ids of the graph is finite and no larger than the graph.
    pub proof fn lemma_contained_set_finite(self, s: Set<u64>)
        requires
            forall|c: u64| s.contains(c) ==> self.spec_contains(c),
        ensures
            s.finite(),
            s.len() <= self.entries().len(),
    {
        broadcast use vstd::set::group_set_axioms;
        broadcast use vstd::seq_lib::seq_to_set_is_finite;

        let ids = self.entries().map(|i: int, c: Commit| c.id);
        assert forall|c: u64| s.contains(c) implies ids.to_set().contains(c) by {
            let j = choose|j: int|
                0 <= j < self.entries().len() && self.entries()[j].id == c;
            assert(ids[j] == c);
        }
        assert(s.subset_of(ids.to_set()));
        ids.lemma_cardinality_of_set();
        vstd::set_lib::lemma_len_subset(s, ids.to_set());
    }

    /// An empty graph.
    pub fn new() -> (g: Self)
        ensures
            g.entries().len() == 0,
            g.wf(),
    {
        CommitGraph { commits: Vec::new() }
    }

    /// The number of commits in the graph.
    pub fn len(&self) -> (n: usize)
        ensures
            n == self.entries().len(),
    {
        self.commits.len()
    }

    /// The commit stored at insertion index `i`.
    pub fn commit_at(&self, i: usize) -> (c: &Commit)
        requires
            i < self.entries().len(),
        ensures
            *c == self.entries()[i as int],
    {
        &self.commits[i]
    }

    /// Looks up the insertion index of a commit id by scanning the entries.
    pub fn find_index(&self, id: u64) -> (r: Option<usize>)
        requires
            self.wf(),
        ensures
            match r {
                Some(i) => self.spec_contains(id) && i == self.idx_of(id),
                None => !self.spec_contains(id),
            },
    {
        let n = self.commits.len();
        let mut i: usize = 0;
        while i < n
            invariant
                n == self.entries().len(),
                i <= n,
                self.wf(),
                forall|j: int| 0 <= j < i ==> (#[trigger] self.entries()[j].id) != id,
            decreases n - i,
        {
            if self.commits[i].id == id {
                proof {
                    self.lemma_idx_of(id);
                }
                return Some(i);
            }
            i = i + 1;
        }
        None
    }

    /// Whether the graph holds a commit with this id.
    pub fn contains_commit(&self, id: u64) -> (r: bool)
        requires
            self.wf(),
        ensures
            r == self.spec_contains(id),
    {
        self.find_index(id).is_some()
    }

    /// Fetches a commit by id.
    pub fn get_commit(&self, id: u64) -> (r: Option<&Commit>)
        requires
            self.wf(),
        ensures
            match r {
                Some(c) => self.spec_contains(id) && *c == self.node_of(id),
                None => !self.spec_contains(id),
            },
    {
        match self.find_index(id) {
            Some(i) => Some(&self.commits[i]),
            None => None,
        }
    }

    /// Whether every id in the list names a commit of the graph.
    fn contains_all(&self, ids: &Vec<u64>) -> (r: bool)
        requires
            self.wf(),
        ensures
            r == (forall|k: int| 0 <= k < ids@.len() ==> self.spec_contains(#[trigger] ids@[k])),
    {
        let m = ids.len();
        let mut k: usize = 0;
        while k < m
            invariant
                m == ids@.len(),
                k <= m,
                self.wf(),
                forall|j: int| 0 <= j < k ==> self.spec_contains(#[trigger] ids@[j]),
            decreases m - k,
        {
            if !self.contains_commit(ids[k]) {
                return false;
            }
            k = k + 1;
        }
        true
    }

    /// Appends a commit.  Returns `false`, leaving the graph unchanged, when
    /// the id is already present or a parent is missing; the published
    /// history is append-only, so this is the only way the graph grows.
    pub fn add_commit(&mut self, id: u64, parents: Vec<u64>, timestamp: u64) -> (r: bool)
        requires
            old(self).wf(),
        ensures
            final(self).wf(),
            r == (!old(self).spec_contains(id) && (forall|k: int|
                0 <= k < parents@.len() ==> old(self).spec_contains(#[trigger] parents@[k]))),
            r ==> final(self).entries() == old(self).entries().push(
                (Commit { id, parents, timestamp }),
            ),
            !r ==> final(self).entries() == old(self).entries(),
    {
        if self.contains_commit(id) {
            return false;
        }
        if !self.contains_all(&parents) {
            return false;
        }
        let ghost pre = self.commits@;
        let ghost g0 = *self;
        self.commits.push(Commit { id, parents, timestamp });
        proof {
            let g1 = *self;
            let post = g1.commits@;
            let n = pre.len() as int;
            assert(g0.entries() == pre);
            assert(g1.entries() == post);
            assert forall|i: int, j: int| 0 <= i < j < post.len() implies (
            #[trigger] post[i].id) != (#[trigger] post[j].id) by {
                if j < n {
                    assert(g0.wf());
                    assert(g0.entries()[i].id != g0.entries()[j].id);
                } else {
                    assert(post[j].id == id);
                    assert(post[i] == pre[i]);
                    assert(!g0.spec_contains(id));
                    assert(!(0 <= i < g0.entries().len() && g0.entries()[i].id == id));
                }
            }
            assert forall|i: int| 0 <= i < post.len() implies #[trigger] g1.parents_before(i) by {
                if i < n {
                    assert(g0.parents_before(i));
                    assert forall|kk: int|
                        0 <= kk < post[i].parents@.len() implies g1.contains_before(
                        #[trigger] post[i].parents@[kk],
                        i,
                    ) by {
                        assert(post[i] == pre[i]);
                        assert(g0.contains_before(pre[i].parents@[kk], i));
                        let j = choose|j: int|
                            0 <= j < i && j < pre.len() && pre[j].id == pre[i].parents@[kk];
                        assert(post[j] == pre[j]);
                    }
                } else {
                    assert forall|kk: int|
                        0 <= kk < post[i].parents@.len() implies g1.contains_before(
                        #[trigger] post[i].parents@[kk],
                        i,
                    ) by {
                        assert(post[i].parents@[kk] == parents@[kk]);
                        assert(g0.spec_contains(parents@[kk]));
                        let j = choose|j: int|
                            0 <= j < pre.len() && pre[j].id == parents@[kk];
                        assert(post[j] == pre[j]);
                    }
                }
            }
        }
        true
    }
}

} // verus!
