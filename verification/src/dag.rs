//! The derive graph: chunked derivation tasks with dependency edges, and
//! the scheduler that orders them.
//!
//! [`topo_sort`] either finds an execution order that runs every node
//! exactly once with its dependencies first, or reports a cycle — it never
//! loops forever and never silently drops work.  [`ThinOut`] is the
//! geometric sampling heuristic the graph builder uses to bound how many
//! presence checks a walk over a long history performs.

use vstd::prelude::*;

use crate::backfill::batch_derive;
use crate::contract::value_of;
use crate::contract::TypeConfig;
use crate::derive::covers;
use crate::derive::expanded;
use crate::derive::is_underived_path;
use crate::derive::lemma_contains_prefix;
use crate::derive::lemma_expanded_grows;
use crate::derive::lemma_push_keeps_walk_state;
use crate::derive::derived_map;
use crate::derive::failed_outcome;
use crate::derive::lemma_underived_self;
use crate::derive::lemma_walk_complete;
use crate::derive::mapping_correct;
use crate::derive::reachable_underived;
use crate::derive::topo_filter;
use crate::derive::underived_of_any;
use crate::derive::vec_contains;
use crate::graph::CommitGraph;
use crate::mapping::DerivedMapping;
use crate::mapping::Mapping;
use crate::lease::LeaseStore;
use crate::registry::reg_extends;
use crate::registry::TypeRegistry;
use crate::DeriveMode;
use crate::DeriveError;

verus! {

/// One derive-graph node: a chunk of commits to derive for one type, after
/// the nodes listed in `deps`.
#[derive(Debug)]
pub struct DeriveNode {
    /// Registry index of the derived-data type of this chunk.
    pub ty: usize,
    /// The chunk's commits, ordered parents before children.
    pub csids: Vec<u64>,
    /// Indices of the nodes that must execute before this one.
    pub deps: Vec<usize>,
}

/// The dependency lists of a node sequence.
pub open spec fn node_deps(nodes: Seq<DeriveNode>) -> Seq<Seq<usize>> {
    Seq::new(nodes.len(), |i: int| nodes[i].deps@)
}

/// Every element of `xs` occurs in `ys`.
pub open spec fn all_in_list(xs: Seq<usize>, ys: Seq<usize>) -> bool {
    forall|k: int| 0 <= k < xs.len() ==> ys.contains(#[trigger] xs[k])
}

/// Whether `order` schedules all of `deps`'s nodes, each exactly once and
/// each after all of its dependencies.
pub open spec fn is_topo_order(deps: Seq<Seq<usize>>, order: Seq<usize>) -> bool {
    &&& order.len() == deps.len()
    &&& order.no_duplicates()
    &&& forall|i: int| 0 <= i < order.len() ==> (#[trigger] order[i]) < deps.len()
    &&& forall|i: int|
        0 <= i < order.len() ==> all_in_list(deps[(#[trigger] order[i]) as int], order.take(i))
}

/// A dependency graph is acyclic exactly when some topological execution
/// order exists.  A dependency on an index outside the graph counts as
/// unsatisfiable, like a cycle.
pub open spec fn graph_acyclic(deps: Seq<Seq<usize>>) -> bool {
    exists|order: Seq<usize>| is_topo_order(deps, order)
}

/// The dependency lists of a plain dependency table.
pub open spec fn dep_seq(deps: Seq<Vec<usize>>) -> Seq<Seq<usize>> {
    Seq::new(deps.len(), |i: int| deps[i]@)
}

/// Every dependency of node `u` is already scheduled.
pub open spec fn node_ready(deps: Seq<Seq<usize>>, scheduled: Seq<usize>, u: int) -> bool {
    all_in_list(deps[u], scheduled)
}

/// No unscheduled node has all of its dependencies scheduled: the walk can
/// make no further progress.
pub open spec fn no_ready_node(deps: Seq<Seq<usize>>, scheduled: Seq<usize>) -> bool {
    forall|u: int|
        0 <= u < deps.len() ==> scheduled.contains(u as usize) || !(#[trigger] node_ready(
            deps,
            scheduled,
            u,
        ))
}

/// Whether the list contains the index.
fn contains_idx(v: &Vec<usize>, x: usize) -> (r: bool)
    ensures
        r == v@.contains(x),
{
    let n = v.len();
    let mut i: usize = 0;
    while i < n
        invariant
            n == v@.len(),
            i <= n,
            forall|j: int| 0 <= j < i ==> v@[j] != x,
        decreases n - i,
    {
        if v[i] == x {
            return true;
        }
        i = i + 1;
    }
    false
}

/// Finds a node that is not scheduled yet but whose dependencies all are.
fn find_ready(deps: &Vec<Vec<usize>>, scheduled: &Vec<usize>) -> (r: Option<usize>)
    ensures
        match r {
            Some(u) => u < deps@.len() && !scheduled@.contains(u) && node_ready(
                dep_seq(deps@),
                scheduled@,
                u as int,
            ),
            None => no_ready_node(dep_seq(deps@), scheduled@),
        },
{
    let ghost dseq = dep_seq(deps@);
    let n = deps.len();
    let mut u: usize = 0;
    while u < n
        invariant
            n == deps@.len(),
            dseq == dep_seq(deps@),
            u <= n,
            forall|v: int|
                0 <= v < u ==> scheduled@.contains(v as usize) || !(#[trigger] node_ready(
                    dseq,
                    scheduled@,
                    v,
                )),
        decreases n - u,
    {
        if !contains_idx(scheduled, u) {
            let du = &deps[u];
            let m = du.len();
            let mut k: usize = 0;
            let mut all_in = true;
            while k < m
                invariant
                    m == du@.len(),
                    du@ == deps@[u as int]@,
                    k <= m,
                    all_in ==> forall|j: int|
                        0 <= j < k ==> scheduled@.contains(#[trigger] du@[j]),
                    !all_in ==> exists|j: int|
                        0 <= j < m && !scheduled@.contains(#[trigger] du@[j]),
                decreases m - k,
            {
                if !contains_idx(scheduled, du[k]) {
                    all_in = false;
                }
                k = k + 1;
            }
            proof {
                assert(dseq[u as int] == deps@[u as int]@);
                if all_in {
                    assert forall|kk: int|
                        0 <= kk < dseq[u as int].len() implies scheduled@.contains(
                        #[trigger] dseq[u as int][kk],
                    ) by {
                        assert(scheduled@.contains(du@[kk]));
                    }
                    assert(node_ready(dseq, scheduled@, u as int));
                } else {
                    let j = choose|j: int| 0 <= j < m && !scheduled@.contains(#[trigger] du@[j]);
                    assert(0 <= j < dseq[u as int].len() && !scheduled@.contains(
                        dseq[u as int][j],
                    ));
                    assert(!node_ready(dseq, scheduled@, u as int));
                }
            }
            if all_in {
                return Some(u);
            }
        } else {
            proof {
                assert(scheduled@.contains(u));
            }
        }
        u = u + 1;
    }
    None
}

/// Finds the first index at or after `start` whose node is unscheduled.
proof fn lemma_first_unscheduled(order2: Seq<usize>, scheduled: Seq<usize>, start: int) -> (j: int)
    requires
        0 <= start <= order2.len(),
        exists|i: int| start <= i < order2.len() && !scheduled.contains(#[trigger] order2[i]),
        forall|i: int| 0 <= i < start ==> scheduled.contains(#[trigger] order2[i]),
    ensures
        start <= j < order2.len(),
        !scheduled.contains(order2[j]),
        forall|i: int| 0 <= i < j ==> scheduled.contains(#[trigger] order2[i]),
    decreases order2.len() - start,
{
    if scheduled.contains(order2[start]) {
        let w = choose|i: int|
            start <= i < order2.len() && !scheduled.contains(#[trigger] order2[i]);
        assert(w != start);
        assert(start + 1 <= w < order2.len() && !scheduled.contains(order2[w]));
        lemma_first_unscheduled(order2, scheduled, start + 1)
    } else {
        start
    }
}

/// When no node is ready, no topological order exists: whatever order one
/// proposes, its first unscheduled node would have been ready.
proof fn lemma_stuck_means_cycle(deps: Seq<Seq<usize>>, scheduled: Seq<usize>)
    requires
        scheduled.no_duplicates(),
        scheduled.len() < deps.len(),
        no_ready_node(deps, scheduled),
    ensures
        !graph_acyclic(deps),
{
    broadcast use vstd::set::group_set_axioms;
    broadcast use vstd::seq_lib::seq_to_set_is_finite;

    if graph_acyclic(deps) {
        let order2 = choose|order: Seq<usize>| is_topo_order(deps, order);
        if forall|i: int| 0 <= i < order2.len() ==> scheduled.contains(#[trigger] order2[i]) {
            assert forall|x: usize| order2.to_set().contains(x) implies scheduled.to_set().contains(
                x,
            ) by {
                let i = choose|i: int| 0 <= i < order2.len() && order2[i] == x;
                assert(scheduled.contains(x));
            }
            order2.unique_seq_to_set();
            scheduled.unique_seq_to_set();
            vstd::set_lib::lemma_len_subset(order2.to_set(), scheduled.to_set());
            assert(false);
        }
        let j = lemma_first_unscheduled(order2, scheduled, 0);
        let u = order2[j];
        assert(u < deps.len());
        assert(!scheduled.contains(u));
        assert(all_in_list(deps[u as int], order2.take(j)));
        assert forall|k: int| 0 <= k < deps[u as int].len() implies scheduled.contains(
            #[trigger] deps[u as int][k],
        ) by {
            assert(order2.take(j).contains(deps[u as int][k]));
            let jj = choose|jj: int|
                0 <= jj < order2.take(j).len() && order2.take(j)[jj] == deps[u as int][k];
            assert(order2[jj] == deps[u as int][k]);
            assert(scheduled.contains(order2[jj]));
        }
        assert(node_ready(deps, scheduled, u as int));
        assert(false);
    }
}

/// Computes an execution order: every node exactly once, dependencies
/// before dependents.  Reports a cycle — and never hangs — when no such
/// order exists; a dependency naming no node counts as unsatisfiable.
pub fn topo_sort(deps: &Vec<Vec<usize>>) -> (r: Result<Vec<usize>, DeriveError>)
    ensures
        match r {
            Ok(order) => is_topo_order(dep_seq(deps@), order@),
            Err(DeriveError::Cycle) => !graph_acyclic(dep_seq(deps@)),
            Err(_) => false,
        },
        (r is Ok) <==> graph_acyclic(dep_seq(deps@)),
{
    let ghost dseq = dep_seq(deps@);
    let n = deps.len();
    let mut order: Vec<usize> = Vec::new();
    while order.len() < n
        invariant
            n == deps@.len(),
            dseq == dep_seq(deps@),
            order@.len() <= n,
            order@.no_duplicates(),
            forall|i: int| 0 <= i < order@.len() ==> (#[trigger] order@[i]) < n,
            forall|i: int|
                0 <= i < order@.len() ==> all_in_list(
                    dseq[(#[trigger] order@[i]) as int],
                    order@.take(i),
                ),
        decreases n - order.len(),
    {
        match find_ready(deps, &order) {
            Some(u) => {
                let ghost order0 = order@;
                order.push(u);
                proof {
                    assert forall|i: int|
                        0 <= i < order@.len() implies all_in_list(
                        dseq[(#[trigger] order@[i]) as int],
                        order@.take(i),
                    ) by {
                        if i < order0.len() {
                            assert(order@[i] == order0[i]);
                            assert(order@.take(i) =~= order0.take(i));
                            assert(all_in_list(dseq[order0[i] as int], order0.take(i)));
                        } else {
                            assert(order@[i] == u);
                            assert(order@.take(i) =~= order0);
                            assert(node_ready(dseq, order0, u as int));
                        }
                    }
                    assert forall|i: int, j: int|
                        0 <= i < j < order@.len() implies order@[i] != order@[j] by {
                        if j == order0.len() {
                            if order@[i] == u {
                                assert(order0.contains(u));
                            }
                        }
                    }
                }
            },
            None => {
                proof {
                    lemma_stuck_means_cycle(dseq, order@);
                }
                return Err(DeriveError::Cycle);
            },
        }
    }
    proof {
        assert(is_topo_order(dseq, order@));
    }
    Ok(order)
}

/// The geometric thin-out sampler: decides which steps of a walk perform a
/// presence check.  It answers yes immediately, then leaves a gap that
/// grows by half after every check, so a walk over a history of depth `d`
/// performs only logarithmically many checks.
#[derive(Debug)]
pub struct ThinOut {
    gap: u64,
    left: u64,
}

/// How the gap grows after each check: half again, saturating.
pub open spec fn thin_out_grown(gap: u64) -> u64 {
    if gap + gap / 2 <= u64::MAX {
        (gap + gap / 2) as u64
    } else {
        u64::MAX
    }
}

impl ThinOut {
    /// The current gap between checks.
    pub closed spec fn spec_gap(self) -> u64 {
        self.gap
    }

    /// How many steps are left before the next check.
    pub closed spec fn spec_left(self) -> u64 {
        self.left
    }

    /// A sampler that checks at once and then every `base_gap` steps,
    /// with the gap growing after each check.
    pub fn new(base_gap: u64) -> (t: Self)
        ensures
            t.spec_gap() == base_gap,
            t.spec_left() == 0,
    {
        ThinOut { gap: base_gap, left: 0 }
    }

    /// One step of the walk: whether to perform the presence check here.
    pub fn check(&mut self) -> (r: bool)
        ensures
            r == (old(self).spec_left() == 0),
            r ==> final(self).spec_left() == old(self).spec_gap() && final(self).spec_gap()
                == thin_out_grown(old(self).spec_gap()),
            !r ==> final(self).spec_left() == old(self).spec_left() - 1 && final(self).spec_gap()
                == old(self).spec_gap(),
    {
        if self.left == 0 {
            self.left = self.gap;
            self.gap = match self.gap.checked_add(self.gap / 2) {
                Some(gg) => gg,
                None => u64::MAX,
            };
            true
        } else {
            self.left = self.left - 1;
            false
        }
    }
}

/// A schedule of all `n` nodes visits each one: a duplicate-free list of
/// `n` indices below `n` contains every index below `n`.
pub proof fn lemma_full_order_contains(order: Seq<usize>, n: int, t: usize)
    requires
        order.no_duplicates(),
        order.len() == n,
        forall|i: int| 0 <= i < order.len() ==> (#[trigger] order[i]) < n,
        0 <= t < n,
    ensures
        order.contains(t),
{
    broadcast use vstd::set::group_set_axioms;
    broadcast use vstd::seq_lib::seq_to_set_is_finite;

    if !order.contains(t) {
        let ints = order.map(|i: int, x: usize| x as int);
        assert forall|i: int, j: int| 0 <= i < j < ints.len() implies ints[i] != ints[j] by {
            assert(order[i] != order[j]);
        }
        assert(ints.no_duplicates());
        assert forall|x: int|
            ints.to_set().contains(x) implies vstd::set_lib::set_int_range(0, n).remove(
            t as int,
        ).contains(x) by {
            let i = choose|i: int| 0 <= i < ints.len() && ints[i] == x;
            assert(order[i] as int == x);
            if x == t as int {
                assert(order[i] == t);
                assert(order.contains(t));
            }
        }
        ints.unique_seq_to_set();
        vstd::set_lib::lemma_int_range(0, n);
        vstd::set_lib::lemma_len_subset(
            ints.to_set(),
            vstd::set_lib::set_int_range(0, n).remove(t as int),
        );
        assert(false);
    }
}

/// The commit is an ancestor of one of the heads.
pub open spec fn ancestor_of_any(g: CommitGraph, heads: Seq<u64>, c: u64) -> bool {
    exists|i: int| 0 <= i < heads.len() && g.reaches(#[trigger] heads[i], c)
}

/// Walks parent edges from the heads collecting candidate commits for
/// derivation.  The heads themselves are always presence-checked, so an
/// idle iteration collects nothing; ancestors are checked only where the
/// thin-out sampler says to.  Skipped checks treat the commit as
/// underived, which is always safe: deriving a derived commit finds its
/// entry and does nothing.  The result may therefore overshoot the true
/// frontier, but never misses any of it, and never leaves the heads'
/// ancestry.
fn collect_candidates(
    g: &CommitGraph,
    mapping: &Mapping,
    heads: &Vec<u64>,
    thin: &mut ThinOut,
) -> (r: Vec<u64>)
    requires
        g.wf(),
        forall|i: int| 0 <= i < heads@.len() ==> g.spec_contains(#[trigger] heads@[i]),
    ensures
        r@.no_duplicates(),
        forall|i: int|
            0 <= i < r@.len() ==> g.spec_contains(#[trigger] r@[i]) && ancestor_of_any(
                *g,
                heads@,
                r@[i],
            ),
        covers(*g, mapping.entries(), heads@, r@),
        r@.len() == 0 <==> (forall|j: int|
            0 <= j < heads@.len() ==> mapping.entries().contains_key(#[trigger] heads@[j])),
{
    let ghost m0 = mapping.entries();
    let mut seen: Vec<u64> = Vec::new();
    let mut stack: Vec<u64> = Vec::new();
    let tn = heads.len();
    let mut i: usize = 0;
    while i < tn
        invariant
            g.wf(),
            m0 == mapping.entries(),
            forall|j: int| 0 <= j < heads@.len() ==> g.spec_contains(#[trigger] heads@[j]),
            tn == heads@.len(),
            i <= tn,
            seen@.no_duplicates(),
            stack@.no_duplicates(),
            seen@ == stack@,
            forall|j: int|
                0 <= j < seen@.len() ==> g.spec_contains(#[trigger] seen@[j]) && ancestor_of_any(
                    *g,
                    heads@,
                    seen@[j],
                ),
            forall|j: int|
                0 <= j < i ==> m0.contains_key(#[trigger] heads@[j]) || seen@.contains(
                    heads@[j],
                ),
            (forall|j: int|
                0 <= j < heads@.len() ==> m0.contains_key(#[trigger] heads@[j]))
                ==> seen@.len() == 0,
        decreases tn - i,
    {
        let h = heads[i];
        let mut skip = false;
        match mapping.get_one(h) {
            Some(_) => {
                skip = true;
            },
            None => {},
        }
        if !skip && !vec_contains(&seen, h) {
            proof {
                assert(g.reaches(h, h));
                assert(0 <= i < heads@.len() && g.reaches(heads@[i as int], h));
            }
            let ghost seen0 = seen@;
            seen.push(h);
            stack.push(h);
            proof {
                lemma_push_keeps_walk_state(seen0, seen0, seen@, stack@, h);
                assert forall|j: int|
                    0 <= j < i implies m0.contains_key(#[trigger] heads@[j]) || seen@.contains(
                    heads@[j],
                ) by {
                    if !m0.contains_key(heads@[j]) {
                        lemma_contains_prefix(seen0, seen@, heads@[j]);
                    }
                }
                assert(seen@.last() == h);
                assert(seen@.contains(h));
            }
        } else {
            proof {
                if skip {
                    assert(m0.contains_key(h));
                } else {
                    assert(seen@.contains(h));
                }
            }
        }
        i = i + 1;
    }
    let n = g.len();
    proof {
        g.lemma_distinct_ids_bound(seen@);
    }
    loop
        invariant
            g.wf(),
            m0 == mapping.entries(),
            n == g.entries().len(),
            forall|j: int| 0 <= j < heads@.len() ==> g.spec_contains(#[trigger] heads@[j]),
            seen@.no_duplicates(),
            stack@.no_duplicates(),
            seen@.len() <= n,
            forall|j: int|
                0 <= j < seen@.len() ==> g.spec_contains(#[trigger] seen@[j]) && ancestor_of_any(
                    *g,
                    heads@,
                    seen@[j],
                ),
            forall|j: int| 0 <= j < stack@.len() ==> seen@.contains(#[trigger] stack@[j]),
            forall|j: int|
                0 <= j < heads@.len() ==> m0.contains_key(#[trigger] heads@[j]) || seen@.contains(
                    heads@[j],
                ),
            forall|j: int|
                0 <= j < seen@.len() ==> stack@.contains(#[trigger] seen@[j]) || expanded(
                    *g,
                    m0,
                    seen@,
                    seen@[j],
                ),
            (forall|j: int|
                0 <= j < heads@.len() ==> m0.contains_key(#[trigger] heads@[j]))
                ==> seen@.len() == 0,
        ensures
            stack@.len() == 0,
        decreases n - seen@.len(), stack@.len(),
    {
        if stack.len() == 0 {
            break ;
        }
        proof {
            assert(seen@.contains(stack@[0]));
            assert(seen@.len() > 0);
        }
        let ghost seen_pre = seen@;
        let ghost stack_pre = stack@;
        let c = match stack.pop() {
            Some(c) => c,
            None => {
                proof {
                    assert(false);
                }
                0
            },
        };
        proof {
            assert(stack_pre.last() == c);
            assert(seen_pre.contains(c));
            let jx = choose|jx: int| 0 <= jx < seen_pre.len() && seen_pre[jx] == c;
            assert(g.spec_contains(c) && ancestor_of_any(*g, heads@, c));
        }
        let idx = match g.find_index(c) {
            Some(ix) => ix,
            None => {
                proof {
                    assert(false);
                }
                0
            },
        };
        let node = g.commit_at(idx);
        proof {
            g.lemma_idx_of(c);
            assert(node.parents@ == g.parents_of(c));
        }
        let pn = node.parents.len();
        let mut k: usize = 0;
        while k < pn
            invariant
                g.wf(),
                m0 == mapping.entries(),
                g.spec_contains(c),
                ancestor_of_any(*g, heads@, c),
                forall|j: int| 0 <= j < heads@.len() ==> g.spec_contains(#[trigger] heads@[j]),
                node.parents@ == g.parents_of(c),
                pn == node.parents@.len(),
                k <= pn,
                seen@.no_duplicates(),
                stack@.no_duplicates(),
                1 <= stack_pre.len(),
                seen_pre.is_prefix_of(seen@),
                stack_pre.drop_last().is_prefix_of(stack@),
                forall|j: int|
                    0 <= j < seen@.len() ==> g.spec_contains(#[trigger] seen@[j])
                        && ancestor_of_any(*g, heads@, seen@[j]),
                forall|j: int| 0 <= j < stack@.len() ==> seen@.contains(#[trigger] stack@[j]),
                forall|j: int|
                    0 <= j < k ==> m0.contains_key(#[trigger] g.parents_of(c)[j])
                        || seen@.contains(g.parents_of(c)[j]),
                seen@.skip(seen_pre.len() as int) == stack@.skip(stack_pre.len() - 1),
                seen@.len() - seen_pre.len() == stack@.len() - (stack_pre.len() - 1),
            decreases pn - k,
        {
            let p = node.parents[k];
            proof {
                g.lemma_parent_idx(c, k as int);
                assert(p == g.parents_of(c)[k as int]);
            }
            if vec_contains(&seen, p) {
                proof {
                    assert(seen@.contains(p));
                }
            } else {
                let mut prune = false;
                if thin.check() {
                    match mapping.get_one(p) {
                        Some(_) => {
                            prune = true;
                        },
                        None => {},
                    }
                }
                if prune {
                    proof {
                        assert(m0.contains_key(p));
                    }
                } else {
                    proof {
                        let hi = choose|hi: int|
                            0 <= hi < heads@.len() && g.reaches(#[trigger] heads@[hi], c);
                        g.lemma_reaches_parent(c, k as int);
                        g.lemma_reaches_trans(heads@[hi], c, p);
                        assert(ancestor_of_any(*g, heads@, p));
                        assert(!stack@.contains(p));
                    }
                    let ghost seen0 = seen@;
                    let ghost stack0 = stack@;
                    seen.push(p);
                    stack.push(p);
                    proof {
                        lemma_push_keeps_walk_state(seen0, stack0, seen@, stack@, p);
                        assert(seen@.subrange(0, seen_pre.len() as int) =~= seen_pre);
                        assert(stack@.subrange(
                            0,
                            stack_pre.len() - 1,
                        ) =~= stack_pre.drop_last());
                        assert(seen@.skip(seen_pre.len() as int) =~= seen0.skip(
                            seen_pre.len() as int,
                        ).push(p));
                        assert(stack@.skip(stack_pre.len() - 1) =~= stack0.skip(
                            stack_pre.len() - 1,
                        ).push(p));
                        assert forall|j: int|
                            0 <= j < k implies m0.contains_key(#[trigger] g.parents_of(c)[j])
                                || seen@.contains(g.parents_of(c)[j]) by {
                            if !m0.contains_key(g.parents_of(c)[j]) {
                                lemma_contains_prefix(seen0, seen@, g.parents_of(c)[j]);
                            }
                        }
                        assert(seen@.last() == p);
                        assert(seen@.contains(p));
                    }
                }
            }
            k = k + 1;
        }
        proof {
            assert(expanded(*g, m0, seen@, c));
            assert forall|j: int|
                0 <= j < seen@.len() implies stack@.contains(#[trigger] seen@[j]) || expanded(
                *g,
                m0,
                seen@,
                seen@[j],
            ) by {
                let x = seen@[j];
                if j < seen_pre.len() {
                    assert(seen_pre[j] == x);
                    if x == c {
                        lemma_expanded_grows(*g, m0, seen@, seen@, x);
                    } else if stack_pre.contains(x) {
                        let sj = choose|sj: int| 0 <= sj < stack_pre.len() && stack_pre[sj] == x;
                        assert(sj < stack_pre.len() - 1);
                        assert(stack_pre.drop_last()[sj] == x);
                        assert(stack@.subrange(
                            0,
                            stack_pre.len() - 1,
                        ) =~= stack_pre.drop_last());
                        assert(stack@[sj] == x);
                        assert(stack@.contains(x));
                    } else {
                        assert(expanded(*g, m0, seen_pre, x));
                        lemma_expanded_grows(*g, m0, seen_pre, seen@, x);
                    }
                } else {
                    assert(seen@.skip(seen_pre.len() as int) == stack@.skip(
                        stack_pre.len() - 1,
                    ));
                    assert(seen@.skip(seen_pre.len() as int)[j - seen_pre.len()] == x);
                    assert(stack@.skip(stack_pre.len() - 1)[j - seen_pre.len()] == x);
                    assert(stack@[stack_pre.len() - 1 + (j - seen_pre.len())] == x);
                    assert(stack@.contains(x));
                }
            }
            if seen@.len() == seen_pre.len() {
                assert(seen@ =~= seen_pre);
                assert(stack@.len() == stack_pre.len() - 1);
            }
            g.lemma_distinct_ids_bound(seen@);
        }
    }
    proof {
        assert forall|c: u64|
            underived_of_any(*g, m0, heads@).contains(c) implies seen@.contains(c) by {
            let ti = choose|ti: int|
                0 <= ti < heads@.len() && reachable_underived(*g, m0, #[trigger] heads@[ti], c);
            let p = choose|p: Seq<u64>|
                is_underived_path(*g, m0, p) && p.first() == heads@[ti] && p.last() == c;
            assert(!m0.contains_key(heads@[ti]));
            assert(seen@.contains(heads@[ti]));
            assert forall|j: int|
                0 <= j < seen@.len() implies expanded(*g, m0, seen@, #[trigger] seen@[j]) by {
                assert(!stack@.contains(seen@[j]));
            }
            lemma_walk_complete(*g, m0, seen@, p);
        }
        if seen@.len() == 0 {
            assert forall|j: int| 0 <= j < heads@.len() implies m0.contains_key(
                #[trigger] heads@[j],
            ) by {
                if !m0.contains_key(heads@[j]) {
                    lemma_underived_self(*g, m0, heads@[j]);
                    assert(reachable_underived(*g, m0, heads@[j], heads@[j]));
                    assert(underived_of_any(*g, m0, heads@).contains(heads@[j]));
                    assert(seen@.contains(heads@[j]));
                }
            }
        }
    }
    seen
}

/// The prerequisite declarations of the registered types, as a dependency
/// table over registry indices.
pub open spec fn prereq_deps(types: Seq<TypeConfig>) -> Seq<Seq<usize>> {
    Seq::new(types.len(), |i: int| types[i].prereqs@)
}

/// Some node of the graph carries commit `c` for type `t`.
pub open spec fn node_holds(nodes: Seq<DeriveNode>, t: int, c: u64) -> bool {
    exists|i: int| 0 <= i < nodes.len() && (#[trigger] nodes[i]).ty == t && nodes[i].csids@.contains(c)
}

/// Shape invariant of a built derive graph: every node names an enabled
/// registered type, holds between one and `chunk_size` commits of the
/// graph, and depends only on earlier nodes.
pub open spec fn nodes_wf(
    nodes: Seq<DeriveNode>,
    types: Seq<TypeConfig>,
    g: CommitGraph,
    chunk_size: int,
) -> bool {
    forall|i: int|
        0 <= i < nodes.len() ==> {
            let nd = #[trigger] nodes[i];
            &&& (nd.ty as int) < types.len()
            &&& types[nd.ty as int].enabled
            &&& 1 <= nd.csids@.len() <= chunk_size
            &&& (forall|k: int| 0 <= k < nd.deps@.len() ==> (#[trigger] nd.deps@[k]) < i)
            &&& (forall|k: int| 0 <= k < nd.csids@.len() ==> g.spec_contains(#[trigger] nd.csids@[k]))
            &&& (forall|k1: int, k2: int|
                0 <= k1 < k2 < nd.csids@.len() ==> g.idx_of(#[trigger] nd.csids@[k1]) < g.idx_of(
                    #[trigger] nd.csids@[k2],
                ))
        }
}

/// Every commit named by the nodes is an ancestor of one of the heads:
/// thin-out overshoot never leaves the heads' ancestry.
pub open spec fn nodes_within(g: CommitGraph, heads: Seq<u64>, nodes: Seq<DeriveNode>) -> bool {
    forall|i: int, k: int|
        0 <= i < nodes.len() && 0 <= k < nodes[i].csids@.len() ==> ancestor_of_any(
            g,
            heads,
            #[trigger] nodes[i].csids@[k],
        )
}

/// Every earlier chunk of a prerequisite type is a declared dependency.
pub open spec fn nodes_linked(nodes: Seq<DeriveNode>, types: Seq<TypeConfig>) -> bool {
    forall|i: int, j: int|
        0 <= j < i < nodes.len() && types[(#[trigger] nodes[i]).ty as int].prereqs@.contains(
            (#[trigger] nodes[j]).ty,
        ) ==> nodes[i].deps@.contains(j as usize)
}

/// Every chunk after the first of its type declares an earlier chunk of
/// the same type as a dependency.
pub open spec fn nodes_chained(nodes: Seq<DeriveNode>) -> bool {
    forall|i: int|
        0 <= i < nodes.len() && (exists|j: int|
            0 <= j < i && nodes[j].ty == (#[trigger] nodes[i]).ty) ==> exists|k: int|
            0 <= k < nodes[i].deps@.len() && ((#[trigger] nodes[i].deps@[k]) as int) < i
                && nodes[nodes[i].deps@[k] as int].ty == nodes[i].ty
}

/// An element of a prefix of index lists is an element of the whole.
proof fn lemma_contains_prefix_idx(s1: Seq<usize>, s2: Seq<usize>, x: usize)
    requires
        s1.is_prefix_of(s2),
        s1.contains(x),
    ensures
        s2.contains(x),
{
    let i = choose|i: int| 0 <= i < s1.len() && s1[i] == x;
    assert(s2[i] == x);
}

/// Pushing a chunk whose dependency list covers every earlier chunk of its
/// prerequisite types keeps the graph linked.
proof fn lemma_linked_push(
    nodes0: Seq<DeriveNode>,
    nodes1: Seq<DeriveNode>,
    types: Seq<TypeConfig>,
    t: usize,
    deps_cov: Seq<usize>,
)
    requires
        nodes1.len() == nodes0.len() + 1,
        forall|a: int| 0 <= a < nodes0.len() ==> nodes1[a] == nodes0[a],
        nodes1.last().ty == t,
        (t as int) < types.len(),
        deps_cov.is_prefix_of(nodes1.last().deps@),
        nodes_linked(nodes0, types),
        forall|k2: int, j: int|
            0 <= k2 < types[t as int].prereqs@.len() && 0 <= j < nodes0.len() && ((
            #[trigger] nodes0[j]).ty == #[trigger] types[t as int].prereqs@[k2])
                ==> deps_cov.contains(j as usize),
    ensures
        nodes_linked(nodes1, types),
{
    assert forall|i2: int, j: int|
        0 <= j < i2 < nodes1.len() && types[(#[trigger] nodes1[i2]).ty as int].prereqs@.contains(
            (#[trigger] nodes1[j]).ty,
        ) implies nodes1[i2].deps@.contains(j as usize) by {
        if i2 < nodes0.len() {
            assert(nodes1[i2] == nodes0[i2] && nodes1[j] == nodes0[j]);
        } else {
            assert(nodes1[i2] == nodes1.last());
            let k2 = choose|k2: int|
                0 <= k2 < types[t as int].prereqs@.len() && types[t as int].prereqs@[k2]
                    == nodes1[j].ty;
            assert(nodes1[j] == nodes0[j]);
            assert(deps_cov.contains(j as usize));
            lemma_contains_prefix_idx(deps_cov, nodes1.last().deps@, j as usize);
        }
    }
}

/// Pushing a chunk that either opens its type or depends on the previous
/// chunk of its type keeps the graph chained.
proof fn lemma_chained_push(
    nodes0: Seq<DeriveNode>,
    nodes1: Seq<DeriveNode>,
    t: usize,
    entry_len: int,
)
    requires
        nodes1.len() == nodes0.len() + 1,
        forall|a: int| 0 <= a < nodes0.len() ==> nodes1[a] == nodes0[a],
        nodes1.last().ty == t,
        nodes_chained(nodes0),
        0 <= entry_len <= nodes0.len(),
        forall|j: int| 0 <= j < entry_len ==> (#[trigger] nodes0[j]).ty != t,
        forall|j: int| entry_len <= j < nodes0.len() ==> (#[trigger] nodes0[j]).ty == t,
        nodes0.len() > entry_len ==> nodes1.last().deps@.len() > 0 && (nodes1.last().deps@.last()
            as int) == nodes0.len() - 1,
    ensures
        nodes_chained(nodes1),
{
    assert forall|i2: int|
        0 <= i2 < nodes1.len() && (exists|j: int|
            0 <= j < i2 && nodes1[j].ty == (#[trigger] nodes1[i2]).ty) implies exists|kk: int|
        0 <= kk < nodes1[i2].deps@.len() && ((#[trigger] nodes1[i2].deps@[kk]) as int) < i2
            && nodes1[nodes1[i2].deps@[kk] as int].ty == nodes1[i2].ty by {
        if i2 < nodes0.len() {
            assert(nodes1[i2] == nodes0[i2]);
            let j = choose|j: int| 0 <= j < i2 && nodes1[j].ty == nodes1[i2].ty;
            assert(nodes0[j] == nodes1[j]);
            assert(exists|j2: int| 0 <= j2 < i2 && nodes0[j2].ty == nodes0[i2].ty);
            let kk = choose|kk: int|
                0 <= kk < nodes0[i2].deps@.len() && ((#[trigger] nodes0[i2].deps@[kk]) as int)
                    < i2 && nodes0[nodes0[i2].deps@[kk] as int].ty == nodes0[i2].ty;
            assert(nodes1[nodes1[i2].deps@[kk] as int] == nodes0[nodes0[i2].deps@[kk] as int]);
        } else {
            if nodes0.len() > entry_len {
                let prev_i = nodes0.len() - 1;
                assert(nodes1[prev_i as int].ty == t);
                let kk = nodes1[i2].deps@.len() - 1;
                assert(0 <= kk < nodes1[i2].deps@.len() && ((nodes1[i2].deps@[kk]) as int) < i2
                    && nodes1[nodes1[i2].deps@[kk] as int].ty == nodes1[i2].ty);
            } else {
                let j = choose|j: int| 0 <= j < i2 && nodes1[j].ty == nodes1[i2].ty;
                assert(nodes1[j] == nodes0[j]);
                assert(nodes0[j].ty != t);
                assert(false);
            }
        }
    }
}

/// Pushing a node and recording its index for its type keeps the emitted
/// lists complete.
proof fn lemma_emitted_push(
    nodes0: Seq<DeriveNode>,
    nodes1: Seq<DeriveNode>,
    emitted0: Seq<Vec<usize>>,
    emitted1: Seq<Vec<usize>>,
    t: usize,
    idx: usize,
    nt: int,
)
    requires
        emitted0.len() == nt,
        emitted1.len() == nt,
        (t as int) < nt,
        nodes1.len() == nodes0.len() + 1,
        forall|a: int| 0 <= a < nodes0.len() ==> nodes1[a] == nodes0[a],
        idx as int == nodes0.len(),
        nodes1.last().ty == t,
        emitted1[t as int]@ == emitted0[t as int]@.push(idx),
        forall|j: int| 0 <= j < nt && j != t as int ==> emitted1[j] == emitted0[j],
        forall|j: int| 0 <= j < nodes0.len() ==> (((#[trigger] nodes0[j]).ty) as int) < nt,
        forall|j: int|
            0 <= j < nodes0.len() ==> emitted0[(#[trigger] nodes0[j]).ty as int]@.contains(
                j as usize,
            ),
    ensures
        forall|j: int|
            0 <= j < nodes1.len() ==> emitted1[(#[trigger] nodes1[j]).ty as int]@.contains(
                j as usize,
            ),
{
    assert forall|j: int|
        0 <= j < nodes1.len() implies emitted1[(#[trigger] nodes1[j]).ty as int]@.contains(
        j as usize,
    ) by {
        if j == nodes0.len() {
            assert(emitted1[t as int]@.last() == idx);
        } else {
            assert(nodes1[j] == nodes0[j]);
            assert(emitted0[nodes0[j].ty as int]@.contains(j as usize));
            if nodes0[j].ty == t {
                assert(emitted1[t as int]@.subrange(0, emitted0[t as int]@.len() as int)
                    =~= emitted0[t as int]@);
                lemma_contains_prefix_idx(
                    emitted0[t as int]@,
                    emitted1[t as int]@,
                    j as usize,
                );
            } else {
                assert(emitted1[nodes0[j].ty as int] == emitted0[nodes0[j].ty as int]);
            }
        }
    }
}

/// The graph covers every enabled type's underived frontier of the heads.
pub open spec fn nodes_cover(
    nodes: Seq<DeriveNode>,
    reg: TypeRegistry,
    g: CommitGraph,
    heads: Seq<u64>,
) -> bool {
    forall|t: int, c: u64|
        0 <= t < reg.n() && reg.types_seq()[t].enabled && underived_of_any(
            g,
            reg.entries_at(t),
            heads,
        ).contains(c) ==> #[trigger] node_holds(nodes, t, c)
}

/// Grown node lists keep what earlier nodes hold.
proof fn lemma_node_holds_grows(nodes1: Seq<DeriveNode>, nodes2: Seq<DeriveNode>, t: int, c: u64)
    requires
        nodes1.is_prefix_of(nodes2),
        node_holds(nodes1, t, c),
    ensures
        node_holds(nodes2, t, c),
{
    let i = choose|i: int|
        0 <= i < nodes1.len() && (#[trigger] nodes1[i]).ty == t && nodes1[i].csids@.contains(c);
    assert(nodes2[i] == nodes1[i]);
}

/// Appends a node index to the per-type list of emitted nodes.
fn push_emitted(emitted: &mut Vec<Vec<usize>>, t: usize, idx: usize)
    requires
        t < old(emitted)@.len(),
    ensures
        final(emitted)@.len() == old(emitted)@.len(),
        final(emitted)@[t as int]@ == old(emitted)@[t as int]@.push(idx),
        forall|j: int|
            0 <= j < old(emitted)@.len() && j != t ==> final(emitted)@[j] == old(emitted)@[j],
{
    let mut e = emitted.remove(t);
    e.push(idx);
    emitted.insert(t, e);
    proof {
        assert forall|j: int|
            0 <= j < old(emitted)@.len() && j != t implies emitted@[j] == old(emitted)@[j] by {
            if j < t {
                assert(emitted@[j] == old(emitted)@[j]);
            } else {
                assert(emitted@[j] == old(emitted)@[j]);
            }
        }
    }
}

/// Builds the derive graph for one tailing iteration: for every enabled
/// type, the underived frontier of the heads (found with thin-out sampled
/// presence checks) is cut into chunks of at most `chunk_size` commits,
/// each chunk depending on the previous chunk of its type and on every
/// chunk of the type's prerequisites.  A cycle among the prerequisite
/// declarations is a fatal configuration error.
#[verifier::rlimit(100)]
#[verifier::spinoff_prover]
pub fn build_derive_graph(
    g: &CommitGraph,
    reg: &TypeRegistry,
    heads: &Vec<u64>,
    chunk_size: usize,
    thin_base: u64,
) -> (r: Result<Vec<DeriveNode>, DeriveError>)
    requires
        g.wf(),
        reg.wf(),
        chunk_size >= 1,
        forall|i: int| 0 <= i < heads@.len() ==> g.spec_contains(#[trigger] heads@[i]),
    ensures
        match r {
            Ok(nodes) => nodes_wf(nodes@, reg.types_seq(), *g, chunk_size as int) && nodes_cover(
                nodes@,
                *reg,
                *g,
                heads@,
            ) && nodes_within(*g, heads@, nodes@) && nodes_linked(nodes@, reg.types_seq())
                && nodes_chained(nodes@) && (nodes@.len() == 0
                <==> crate::registry::all_heads_recorded(*reg, heads@)),
            Err(DeriveError::Cycle) => !graph_acyclic(prereq_deps(reg.types_seq())),
            Err(_) => false,
        },
        (r is Ok) <==> graph_acyclic(prereq_deps(reg.types_seq())),
{
    let ghost types = reg.types_seq();
    let nt = reg.len();
    let mut tdeps: Vec<Vec<usize>> = Vec::new();
    let mut i: usize = 0;
    while i < nt
        invariant
            reg.wf(),
            types == reg.types_seq(),
            nt == reg.n(),
            i <= nt,
            tdeps@.len() == i,
            forall|j: int| 0 <= j < i ==> (#[trigger] tdeps@[j])@ == types[j].prereqs@,
        decreases nt - i,
    {
        let tc = reg.get_type(i);
        let m = tc.prereqs.len();
        let mut d: Vec<usize> = Vec::new();
        let mut k: usize = 0;
        while k < m
            invariant
                m == tc.prereqs@.len(),
                k <= m,
                d@ == tc.prereqs@.take(k as int),
            decreases m - k,
        {
            d.push(tc.prereqs[k]);
            proof {
                assert(d@ =~= tc.prereqs@.take(k + 1));
            }
            k = k + 1;
        }
        proof {
            assert(d@ =~= tc.prereqs@);
        }
        tdeps.push(d);
        i = i + 1;
    }
    proof {
        assert(dep_seq(tdeps@) =~= prereq_deps(types));
    }
    let order = match topo_sort(&tdeps) {
        Ok(o) => o,
        Err(e) => {
            return Err(DeriveError::Cycle);
        },
    };
    let mut nodes: Vec<DeriveNode> = Vec::new();
    let mut emitted: Vec<Vec<usize>> = Vec::new();
    let mut i: usize = 0;
    while i < nt
        invariant
            i <= nt,
            emitted@.len() == i,
            forall|j: int| 0 <= j < i ==> (#[trigger] emitted@[j])@.len() == 0,
        decreases nt - i,
    {
        emitted.push(Vec::new());
        i = i + 1;
    }
    let mut oi: usize = 0;
    while oi < order.len()
        invariant
            g.wf(),
            reg.wf(),
            chunk_size >= 1,
            forall|j: int| 0 <= j < heads@.len() ==> g.spec_contains(#[trigger] heads@[j]),
            types == reg.types_seq(),
            nt == reg.n(),
            order@.len() == nt,
            order@.no_duplicates(),
            forall|a: int| 0 <= a < order@.len() ==> (#[trigger] order@[a]) < nt,
            oi <= order@.len(),
            emitted@.len() == nt,
            nodes_wf(nodes@, types, *g, chunk_size as int),
            nodes_within(*g, heads@, nodes@),
            nodes_linked(nodes@, types),
            nodes_chained(nodes@),
            crate::registry::all_heads_recorded(*reg, heads@) ==> nodes@.len() == 0,
            forall|j: int|
                0 <= j < nodes@.len() ==> order@.take(oi as int).contains(
                    (#[trigger] nodes@[j]).ty,
                ),
            forall|j: int|
                0 <= j < nodes@.len() ==> emitted@[(#[trigger] nodes@[j]).ty as int]@.contains(
                    j as usize,
                ),
            forall|t2: int, k: int|
                0 <= t2 < nt && 0 <= k < emitted@[t2]@.len() ==> ((#[trigger] emitted@[t2]@[k])
                    as int) < nodes@.len() && (nodes@[emitted@[t2]@[k] as int].ty as int) == t2,
            forall|a: int, c: u64|
                0 <= a < oi && types[order@[a] as int].enabled && underived_of_any(
                    *g,
                    reg.entries_at(order@[a] as int),
                    heads@,
                ).contains(c) ==> #[trigger] node_holds(nodes@, order@[a] as int, c),
        decreases order@.len() - oi,
    {
        let t = order[oi];
        let ghost nodes_at_entry = nodes@;
        proof {
            if order@.take(oi as int).contains(t) {
                let a = choose|a: int|
                    0 <= a < order@.take(oi as int).len() && order@.take(oi as int)[a] == t;
                assert(order@[a] == t && order@[oi as int] == t);
                assert(false);
            }
            assert forall|j: int| 0 <= j < nodes@.len() implies (#[trigger] nodes@[j]).ty
                != t by {
                if nodes@[j].ty == t {
                    assert(order@.take(oi as int).contains(t));
                }
            }
        }
        let enabled = reg.get_type(t).enabled;
        if enabled {
            let mut thin = ThinOut::new(thin_base);
            let cands = collect_candidates(g, reg.mapping_at(t), heads, &mut thin);
            proof {
                assert forall|a: int| 0 <= a < cands@.len() implies g.spec_contains(
                    #[trigger] cands@[a],
                ) by {}
            }
            let ordered = topo_filter(g, &cands);
            let on = ordered.len();
            proof {
                assert forall|a: int| 0 <= a < ordered@.len() implies ancestor_of_any(
                    *g,
                    heads@,
                    #[trigger] ordered@[a],
                ) by {
                    let b2 = choose|b2: int| 0 <= b2 < cands@.len() && cands@[b2] == ordered@[a];
                }
                if ordered@.len() > 0 {
                    assert(cands@.len() > 0);
                    assert(!(forall|j: int|
                        0 <= j < heads@.len() ==> reg.entries_at(t as int).contains_key(
                            #[trigger] heads@[j],
                        )));
                    let j = choose|j: int|
                        0 <= j < heads@.len() && !reg.entries_at(t as int).contains_key(
                            #[trigger] heads@[j],
                        );
                    assert(!crate::registry::all_heads_recorded(*reg, heads@));
                }
            }
            let mut pos: usize = 0;
            while pos < on
                invariant
                    g.wf(),
                    reg.wf(),
                    chunk_size >= 1,
                    types == reg.types_seq(),
                    nt == reg.n(),
                    t < nt,
                    types[t as int].enabled,
                    on == ordered@.len(),
                    pos <= on,
                    emitted@.len() == nt,
                    forall|a: int| 0 <= a < on ==> g.spec_contains(#[trigger] ordered@[a]),
                    nodes_wf(nodes@, types, *g, chunk_size as int),
                    forall|t2: int, k: int|
                        0 <= t2 < nt && 0 <= k < emitted@[t2]@.len() ==> ((
                        #[trigger] emitted@[t2]@[k]) as int) < nodes@.len() && (
                        nodes@[emitted@[t2]@[k] as int].ty as int) == t2,
                    nodes_at_entry.is_prefix_of(nodes@),
                    pos > 0 ==> nodes@.len() > nodes_at_entry.len(),
                    pos == 0 ==> nodes@ == nodes_at_entry,
                    nodes_linked(nodes@, types),
                    nodes_chained(nodes@),
                    forall|j: int|
                        0 <= j < nodes_at_entry.len() ==> (#[trigger] nodes@[j]).ty != t,
                    forall|j: int|
                        nodes_at_entry.len() <= j < nodes@.len() ==> (#[trigger] nodes@[j]).ty
                            == t,
                    forall|j: int|
                        0 <= j < nodes@.len() ==> emitted@[(
                        #[trigger] nodes@[j]).ty as int]@.contains(j as usize),
                    forall|a: int|
                        0 <= a < on ==> ancestor_of_any(*g, heads@, #[trigger] ordered@[a]),
                    forall|a1: int, a2: int|
                        0 <= a1 < a2 < on ==> g.idx_of(#[trigger] ordered@[a1]) < g.idx_of(
                            #[trigger] ordered@[a2],
                        ),
                    nodes_within(*g, heads@, nodes@),
                    ordered@.len() > 0 ==> !crate::registry::all_heads_recorded(*reg, heads@),
                    crate::registry::all_heads_recorded(*reg, heads@) ==> nodes@.len() == 0,
                    forall|a: int|
                        0 <= a < pos ==> #[trigger] node_holds(nodes@, t as int, ordered@[a]),
                    forall|a: int, c: u64|
                        0 <= a < oi && types[order@[a] as int].enabled && underived_of_any(
                            *g,
                            reg.entries_at(order@[a] as int),
                            heads@,
                        ).contains(c) ==> #[trigger] node_holds(nodes@, order@[a] as int, c),
                decreases on - pos,
            {
                let end = if on - pos < chunk_size {
                    on
                } else {
                    pos + chunk_size
                };
                let mut csids: Vec<u64> = Vec::new();
                let mut j = pos;
                while j < end
                    invariant
                        pos <= j <= end <= on,
                        on == ordered@.len(),
                        csids@ == ordered@.subrange(pos as int, j as int),
                    decreases end - j,
                {
                    csids.push(ordered[j]);
                    proof {
                        assert(csids@ =~= ordered@.subrange(pos as int, j + 1));
                    }
                    j = j + 1;
                }
                let mut deps: Vec<usize> = Vec::new();
                let tc = reg.get_type(t);
                let np = tc.prereqs.len();
                let mut k: usize = 0;
                while k < np
                    invariant
                        k <= np,
                        np == tc.prereqs@.len(),
                        emitted@.len() == nt,
                        forall|j: int|
                            0 <= j < nodes@.len() ==> ((#[trigger] nodes@[j]).ty as int) < nt,
                        forall|j: int|
                            0 <= j < nodes@.len() ==> emitted@[(
                            #[trigger] nodes@[j]).ty as int]@.contains(j as usize),
                        forall|t2: int, kk: int|
                            0 <= t2 < nt && 0 <= kk < emitted@[t2]@.len() ==> ((
                            #[trigger] emitted@[t2]@[kk]) as int) < nodes@.len(),
                        forall|a: int| 0 <= a < deps@.len() ==> (#[trigger] deps@[a] as int)
                            < nodes@.len(),
                        forall|k2: int, j: int|
                            0 <= k2 < k && 0 <= j < nodes@.len() && ((#[trigger] nodes@[j]).ty
                                == #[trigger] tc.prereqs@[k2]) ==> deps@.contains(j as usize),
                    decreases np - k,
                {
                    let p = tc.prereqs[k];
                    if p < nt {
                        let ep = &emitted[p];
                        let em = ep.len();
                        let mut q: usize = 0;
                        while q < em
                            invariant
                                q <= em,
                                em == ep@.len(),
                                ep@ == emitted@[p as int]@,
                                p < nt,
                                k < np,
                                np == tc.prereqs@.len(),
                                emitted@.len() == nt,
                                forall|j: int|
                                    0 <= j < nodes@.len() ==> ((#[trigger] nodes@[j]).ty
                                        as int) < nt,
                                forall|j: int|
                                    0 <= j < nodes@.len() ==> emitted@[(
                                    #[trigger] nodes@[j]).ty as int]@.contains(j as usize),
                                forall|t2: int, kk: int|
                                    0 <= t2 < nt && 0 <= kk < emitted@[t2]@.len() ==> ((
                                    #[trigger] emitted@[t2]@[kk]) as int) < nodes@.len(),
                                forall|a: int|
                                    0 <= a < deps@.len() ==> (#[trigger] deps@[a] as int)
                                        < nodes@.len(),
                                forall|k2: int, j: int|
                                    0 <= k2 < k && 0 <= j < nodes@.len() && ((
                                    #[trigger] nodes@[j]).ty == #[trigger] tc.prereqs@[k2])
                                        ==> deps@.contains(j as usize),
                                forall|qq: int|
                                    0 <= qq < q ==> deps@.contains(#[trigger] ep@[qq]),
                            decreases em - q,
                        {
                            let ghost deps0 = deps@;
                            deps.push(ep[q]);
                            proof {
                                assert(deps@.subrange(0, deps0.len() as int) =~= deps0);
                                assert(deps@.last() == ep@[q as int]);
                                assert forall|k2: int, j: int|
                                    0 <= k2 < k && 0 <= j < nodes@.len() && ((
                                    #[trigger] nodes@[j]).ty == #[trigger] tc.prereqs@[k2]) implies deps@.contains(
                                    j as usize,
                                ) by {
                                    lemma_contains_prefix_idx(deps0, deps@, j as usize);
                                }
                                assert forall|qq: int| 0 <= qq < q + 1 implies deps@.contains(
                                    #[trigger] ep@[qq],
                                ) by {
                                    if qq < q {
                                        lemma_contains_prefix_idx(deps0, deps@, ep@[qq]);
                                    }
                                }
                            }
                            q = q + 1;
                        }
                        proof {
                            assert forall|j: int|
                                0 <= j < nodes@.len() && ((#[trigger] nodes@[j]).ty
                                    == tc.prereqs@[k as int]) implies deps@.contains(
                                j as usize,
                            ) by {
                                assert(emitted@[p as int]@.contains(j as usize));
                                let qq = choose|qq: int|
                                    0 <= qq < emitted@[p as int]@.len() && emitted@[p
                                        as int]@[qq] == j as usize;
                                assert(deps@.contains(ep@[qq]));
                            }
                        }
                    } else {
                        proof {
                            assert forall|j: int|
                                0 <= j < nodes@.len() && ((#[trigger] nodes@[j]).ty
                                    == tc.prereqs@[k as int]) implies deps@.contains(
                                j as usize,
                            ) by {
                                assert((nodes@[j].ty as int) < nt);
                                assert(false);
                            }
                        }
                    }
                    k = k + 1;
                }
                let ghost deps_cov = deps@;
                if pos > 0 {
                    let prev = nodes.len() - 1;
                    deps.push(prev);
                }
                let idx = nodes.len();
                let ghost nodes0 = nodes@;
                let ghost deps_final = deps@;
                nodes.push(DeriveNode { ty: t, csids, deps });
                let ghost emitted0 = emitted@;
                push_emitted(&mut emitted, t, idx);
                proof {
                    assert(nodes0.is_prefix_of(nodes@)) by {
                        assert(nodes@.subrange(0, nodes0.len() as int) =~= nodes0);
                    }
                    assert(nodes_at_entry.is_prefix_of(nodes@)) by {
                        assert(nodes@.subrange(0, nodes_at_entry.len() as int)
                            =~= nodes_at_entry);
                    }
                    let nd = nodes@[idx as int];
                    assert(nd.csids@ == ordered@.subrange(pos as int, end as int));
                    assert(1 <= nd.csids@.len() <= chunk_size);
                    assert forall|kk: int| 0 <= kk < nd.csids@.len() implies g.spec_contains(
                        #[trigger] nd.csids@[kk],
                    ) by {
                        assert(nd.csids@[kk] == ordered@[pos + kk]);
                    }
                    assert forall|k1: int, k2: int|
                        0 <= k1 < k2 < nd.csids@.len() implies g.idx_of(
                        #[trigger] nd.csids@[k1],
                    ) < g.idx_of(#[trigger] nd.csids@[k2]) by {
                        assert(nd.csids@[k1] == ordered@[pos + k1]);
                        assert(nd.csids@[k2] == ordered@[pos + k2]);
                    }
                    assert forall|a: int| 0 <= a < nodes@.len() implies {
                        let nd2 = #[trigger] nodes@[a];
                        &&& (nd2.ty as int) < types.len()
                        &&& types[nd2.ty as int].enabled
                        &&& 1 <= nd2.csids@.len() <= chunk_size
                        &&& (forall|kk: int|
                            0 <= kk < nd2.deps@.len() ==> (#[trigger] nd2.deps@[kk]) < a)
                        &&& (forall|kk: int|
                            0 <= kk < nd2.csids@.len() ==> g.spec_contains(
                                #[trigger] nd2.csids@[kk],
                            ))
                        &&& (forall|k1: int, k2: int|
                            0 <= k1 < k2 < nd2.csids@.len() ==> g.idx_of(
                                #[trigger] nd2.csids@[k1],
                            ) < g.idx_of(#[trigger] nd2.csids@[k2]))
                    } by {
                        if a < nodes0.len() {
                            assert(nodes@[a] == nodes0[a]);
                        }
                    }
                    assert(nodes_wf(nodes@, types, *g, chunk_size as int));
                    assert forall|a: int, kk: int|
                        0 <= a < nodes@.len() && 0 <= kk
                            < nodes@[a].csids@.len() implies ancestor_of_any(
                        *g,
                        heads@,
                        #[trigger] nodes@[a].csids@[kk],
                    ) by {
                        if a < nodes0.len() {
                            assert(nodes@[a] == nodes0[a]);
                        } else {
                            assert(nodes@[a].csids@[kk] == ordered@[pos + kk]);
                        }
                    }
                    assert(nodes_within(*g, heads@, nodes@));
                    assert(nd.deps@ == deps_final);
                    assert(deps_cov.is_prefix_of(deps_final)) by {
                        assert(deps_final.subrange(0, deps_cov.len() as int) =~= deps_cov);
                    }
                    lemma_emitted_push(nodes0, nodes@, emitted0, emitted@, t, idx, nt as int);
                    assert(types[t as int].prereqs@ == tc.prereqs@);
                    lemma_linked_push(nodes0, nodes@, types, t, deps_cov);
                    if pos > 0 {
                        assert(deps_final.last() == ((nodes0.len() - 1) as usize));
                    }
                    lemma_chained_push(nodes0, nodes@, t, nodes_at_entry.len() as int);
                    assert forall|a: int|
                        0 <= a < end implies #[trigger] node_holds(nodes@, t as int, ordered@[a]) by {
                        if a < pos {
                            lemma_node_holds_grows(nodes0, nodes@, t as int, ordered@[a]);
                        } else {
                            assert(nd.csids@[a - pos] == ordered@[a]);
                            assert(nd.csids@.contains(ordered@[a]));
                            assert(nodes@[idx as int].ty == t && nodes@[idx as int].csids@.contains(
                                ordered@[a],
                            ));
                        }
                    }
                    assert forall|a: int, c: u64|
                        0 <= a < oi && types[order@[a] as int].enabled && underived_of_any(
                            *g,
                            reg.entries_at(order@[a] as int),
                            heads@,
                        ).contains(c) implies #[trigger] node_holds(
                        nodes@,
                        order@[a] as int,
                        c,
                    ) by {
                        lemma_node_holds_grows(nodes0, nodes@, order@[a] as int, c);
                    }
                }
                pos = end;
            }
            proof {
                assert forall|c: u64|
                    underived_of_any(*g, reg.entries_at(t as int), heads@).contains(
                        c,
                    ) implies #[trigger] node_holds(nodes@, t as int, c) by {
                    assert(covers(*g, reg.entries_at(t as int), heads@, cands@));
                    assert(cands@.contains(c));
                    assert(ordered@.contains(c));
                    let a = choose|a: int| 0 <= a < ordered@.len() && ordered@[a] == c;
                    assert(node_holds(nodes@, t as int, ordered@[a]));
                }
            }
        }
        proof {
            assert forall|a: int, c: u64|
                0 <= a < oi + 1 && types[order@[a] as int].enabled && underived_of_any(
                    *g,
                    reg.entries_at(order@[a] as int),
                    heads@,
                ).contains(c) implies #[trigger] node_holds(nodes@, order@[a] as int, c) by {
                if a < oi {
                    lemma_node_holds_grows(nodes_at_entry, nodes@, order@[a] as int, c);
                } else {
                    assert(order@[a] == t);
                }
            }
            assert(order@.take(oi + 1) =~= order@.take(oi as int).push(t));
            assert forall|j: int| 0 <= j < nodes@.len() implies order@.take(oi + 1).contains(
                (#[trigger] nodes@[j]).ty,
            ) by {
                if j < nodes_at_entry.len() {
                    assert(nodes@[j] == nodes_at_entry[j]);
                    assert(order@.take(oi as int).contains(nodes@[j].ty));
                    let a = choose|a: int|
                        0 <= a < order@.take(oi as int).len() && order@.take(oi as int)[a]
                            == nodes@[j].ty;
                    assert(order@.take(oi + 1)[a] == nodes@[j].ty);
                } else {
                    assert(nodes@[j].ty == t);
                    assert(order@.take(oi + 1).last() == t);
                }
            }
        }
        oi = oi + 1;
    }
    proof {
        assert forall|t2: int, c: u64|
            0 <= t2 < reg.n() && reg.types_seq()[t2].enabled && underived_of_any(
                *g,
                reg.entries_at(t2),
                heads@,
            ).contains(c) implies #[trigger] node_holds(nodes@, t2, c) by {
            lemma_full_order_contains(order@, nt as int, t2 as usize);
            let a = choose|a: int| 0 <= a < order@.len() && order@[a] == t2 as usize;
            assert(order@[a] as int == t2);
        }
        if nodes@.len() == 0 {
            assert forall|t2: int, j: int|
                0 <= t2 < reg.n() && reg.types_seq()[t2].enabled && 0 <= j
                    < heads@.len() implies (#[trigger] reg.entries_at(t2)).contains_key(
                #[trigger] heads@[j],
            ) by {
                if !reg.entries_at(t2).contains_key(heads@[j]) {
                    lemma_underived_self(*g, reg.entries_at(t2), heads@[j]);
                    assert(reachable_underived(*g, reg.entries_at(t2), heads@[j], heads@[j]));
                    assert(underived_of_any(*g, reg.entries_at(t2), heads@).contains(heads@[j]));
                    assert(node_holds(nodes@, t2, heads@[j]));
                    let i = choose|i: int|
                        0 <= i < nodes@.len() && (#[trigger] nodes@[i]).ty == t2
                            && nodes@[i].csids@.contains(heads@[j]);
                    assert(false);
                }
            }
            assert(crate::registry::all_heads_recorded(*reg, heads@));
        }
    }
    Ok(nodes)
}

/// Every commit named by the nodes is in the graph.
pub open spec fn nodes_all_known(g: CommitGraph, nodes: Seq<DeriveNode>) -> bool {
    forall|i: int, k: int|
        0 <= i < nodes.len() && 0 <= k < nodes[i].csids@.len() ==> g.spec_contains(
            #[trigger] nodes[i].csids@[k],
        )
}

/// Every commit named by the nodes has a derivable value for its node's
/// type; since values are a pure function of the graph, this is a property
/// of the inputs alone.
pub open spec fn nodes_all_derivable(
    g: CommitGraph,
    types: Seq<TypeConfig>,
    nodes: Seq<DeriveNode>,
) -> bool {
    forall|i: int, k: int|
        0 <= i < nodes.len() && 0 <= k < nodes[i].csids@.len() ==> (#[trigger] value_of(
            g,
            types[nodes[i].ty as int].func,
            nodes[i].csids@[k],
        )) is Some
}

/// Every commit of node `i` has an entry for the node's type.
pub open spec fn node_done(reg: TypeRegistry, nodes: Seq<DeriveNode>, i: int) -> bool {
    forall|k: int|
        0 <= k < nodes[i].csids@.len() ==> reg.entries_at(nodes[i].ty as int).contains_key(
            #[trigger] nodes[i].csids@[k],
        )
}

/// A registry that only gained entries keeps every node done.
proof fn lemma_node_done_extends(r1: TypeRegistry, r2: TypeRegistry, nodes: Seq<DeriveNode>, i: int)
    requires
        0 <= i < nodes.len(),
        (nodes[i].ty as int) < r1.n(),
        reg_extends(r1, r2),
        node_done(r1, nodes, i),
    ensures
        node_done(r2, nodes, i),
{
    let t = nodes[i].ty as int;
    assert(r1.entries_at(t).submap_of(r2.entries_at(t)));
    assert forall|k: int| 0 <= k < nodes[i].csids@.len() implies r2.entries_at(t).contains_key(
        #[trigger] nodes[i].csids@[k],
    ) by {
        assert(r1.entries_at(t).contains_key(nodes[i].csids@[k]));
        assert(r1.entries_at(t).dom().contains(nodes[i].csids@[k]));
    }
}

/// Executes a derive graph: every node exactly once, each after all of its
/// dependencies, as witnessed by the returned execution order.  A cyclic
/// graph is reported as an error before anything runs; the bounded
/// concurrency of a production executor changes only scheduling, never
/// which chunks are derived.
pub fn execute_derive_graph(
    g: &CommitGraph,
    reg: &mut TypeRegistry,
    lease: &mut LeaseStore,
    nodes: &Vec<DeriveNode>,
) -> (r: Result<Vec<usize>, DeriveError>)
    requires
        g.wf(),
        old(reg).wf(),
        old(reg).all_correct(*g),
        forall|i: int| 0 <= i < nodes@.len() ==> ((#[trigger] nodes@[i]).ty as int) < old(reg).n(),
    ensures
        final(reg).wf(),
        final(reg).types_seq() == old(reg).types_seq(),
        final(reg).all_correct(*g),
        reg_extends(*old(reg), *final(reg)),
        (r == Err::<Vec<usize>, DeriveError>(DeriveError::Cycle)) <==> !graph_acyclic(
            node_deps(nodes@),
        ),
        (r is Ok) <==> (graph_acyclic(node_deps(nodes@)) && nodes_all_known(*g, nodes@)
            && nodes_all_derivable(*g, old(reg).types_seq(), nodes@)),
        match r {
            Ok(order) => is_topo_order(node_deps(nodes@), order@) && (forall|i: int|
                0 <= i < nodes@.len() ==> #[trigger] node_done(*final(reg), nodes@, i)),
            Err(DeriveError::UnknownCommit(t)) => !nodes_all_known(*g, nodes@)
                && !g.spec_contains(t),
            Err(DeriveError::Failed(c)) => !nodes_all_derivable(
                *g,
                old(reg).types_seq(),
                nodes@,
            ),
            Err(DeriveError::Disabled) => false,
            Err(DeriveError::Cycle) => true,
        },
{
    let n = nodes.len();
    let mut ndeps: Vec<Vec<usize>> = Vec::new();
    let mut i: usize = 0;
    while i < n
        invariant
            n == nodes@.len(),
            i <= n,
            ndeps@.len() == i,
            forall|j: int| 0 <= j < i ==> (#[trigger] ndeps@[j])@ == nodes@[j].deps@,
        decreases n - i,
    {
        let dn = &nodes[i].deps;
        let m = dn.len();
        let mut d: Vec<usize> = Vec::new();
        let mut k: usize = 0;
        while k < m
            invariant
                m == dn@.len(),
                k <= m,
                d@ == dn@.take(k as int),
            decreases m - k,
        {
            d.push(dn[k]);
            proof {
                assert(d@ =~= dn@.take(k + 1));
            }
            k = k + 1;
        }
        proof {
            assert(d@ =~= dn@);
        }
        ndeps.push(d);
        i = i + 1;
    }
    proof {
        assert(dep_seq(ndeps@) =~= node_deps(nodes@));
    }
    let order = match topo_sort(&ndeps) {
        Ok(o) => o,
        Err(e) => {
            return Err(DeriveError::Cycle);
        },
    };
    let on = order.len();
    let mut oi: usize = 0;
    while oi < on
        invariant
            g.wf(),
            n == nodes@.len(),
            on == order@.len(),
            on == n,
            oi <= on,
            is_topo_order(node_deps(nodes@), order@),
            order@.no_duplicates(),
            forall|a: int| 0 <= a < order@.len() ==> (#[trigger] order@[a]) < n,
            forall|i: int|
                0 <= i < nodes@.len() ==> ((#[trigger] nodes@[i]).ty as int) < old(reg).n(),
            reg.wf(),
            reg.types_seq() == old(reg).types_seq(),
            reg.n() == old(reg).n(),
            reg.all_correct(*g),
            reg_extends(*old(reg), *reg),
            forall|a: int| 0 <= a < oi ==> #[trigger] node_done(*reg, nodes@, order@[a] as int),
        decreases on - oi,
    {
        let u = order[oi];
        let ty = nodes[u].ty;
        let ghost reg_pre = *reg;
        let mut m = reg.take_mapping(ty);
        let res = {
            let tc = reg.get_type(ty);
            batch_derive(g, tc, &mut m, lease, &nodes[u].csids, DeriveMode::ForceEnabled)
        };
        let ghost m_final = m.entries();
        reg.restore_mapping(ty, m);
        proof {
            assert(reg.entries_at(ty as int) == m_final);
            assert(reg_pre.entries_at(ty as int).submap_of(m_final));
            assert forall|t2: int|
                0 <= t2 < reg_pre.n() implies reg_pre.entries_at(t2).submap_of(
                #[trigger] reg.entries_at(t2),
            ) by {
                if t2 != ty as int {
                    assert(reg.entries_at(t2) == reg_pre.entries_at(t2));
                    assert(reg_pre.entries_at(t2).submap_of(reg_pre.entries_at(t2)));
                }
            }
            assert(reg_extends(reg_pre, *reg));
            assert forall|t2: int|
                0 <= t2 < old(reg).n() implies old(reg).entries_at(t2).submap_of(
                #[trigger] reg.entries_at(t2),
            ) by {
                vstd::map_lib::lemma_submap_of_trans(
                    old(reg).entries_at(t2),
                    reg_pre.entries_at(t2),
                    reg.entries_at(t2),
                );
            }
            assert(reg_extends(*old(reg), *reg));
            assert forall|t2: int|
                0 <= t2 < reg.n() implies mapping_correct(
                *g,
                reg.types_seq()[t2].func,
                #[trigger] reg.entries_at(t2),
            ) by {
                if t2 != ty as int {
                    assert(reg_pre.entries_at(t2) == reg.entries_at(t2));
                    assert(mapping_correct(*g, reg_pre.types_seq()[t2].func, reg_pre.entries_at(t2)));
                }
            }
        }
        match res {
            Ok(_) => {
                proof {
                    let csids = nodes@[u as int].csids@;
                    assert forall|k: int|
                        0 <= k < csids.len() implies reg.entries_at(ty as int).contains_key(
                        #[trigger] csids[k],
                    ) by {
                        let c = csids[k];
                        if !reg_pre.entries_at(ty as int).contains_key(c) {
                            lemma_underived_self(*g, reg_pre.entries_at(ty as int), c);
                            assert(reachable_underived(
                                *g,
                                reg_pre.entries_at(ty as int),
                                csids[k],
                                c,
                            ));
                            assert(underived_of_any(
                                *g,
                                reg_pre.entries_at(ty as int),
                                csids,
                            ).contains(c));
                        }
                    }
                    assert(node_done(*reg, nodes@, u as int));
                    assert forall|a: int|
                        0 <= a < oi + 1 implies #[trigger] node_done(
                        *reg,
                        nodes@,
                        order@[a] as int,
                    ) by {
                        if a < oi {
                            lemma_node_done_extends(reg_pre, *reg, nodes@, order@[a] as int);
                        }
                    }
                }
            },
            Err(e) => {
                match e {
                    DeriveError::Disabled => {
                        proof {
                            assert(false);
                        }
                        return Err(DeriveError::Failed(0));
                    },
                    DeriveError::Cycle => {
                        proof {
                            assert(false);
                        }
                        return Err(DeriveError::Failed(0));
                    },
                    DeriveError::UnknownCommit(t) => {
                        proof {
                            assert(nodes@[u as int].csids@.contains(t));
                            let k = choose|k: int|
                                0 <= k < nodes@[u as int].csids@.len() && nodes@[u
                                    as int].csids@[k] == t;
                            assert(!g.spec_contains(nodes@[u as int].csids@[k]));
                            assert(!nodes_all_known(*g, nodes@));
                        }
                        return Err(DeriveError::UnknownCommit(t));
                    },
                    DeriveError::Failed(fc) => {
                        proof {
                            let k = choose|k: int|
                                0 <= k < nodes@[u as int].csids@.len() && value_of(
                                    *g,
                                    reg.types_seq()[nodes@[u as int].ty as int].func,
                                    #[trigger] nodes@[u as int].csids@[k],
                                ) is None && (forall|j: int|
                                    0 <= j < k ==> value_of(
                                        *g,
                                        reg.types_seq()[nodes@[u as int].ty as int].func,
                                        #[trigger] nodes@[u as int].csids@[j],
                                    ) is Some) && failed_outcome(
                                    *g,
                                    reg.types_seq()[nodes@[u as int].ty as int].func,
                                    derived_map(
                                        *g,
                                        reg.types_seq()[nodes@[u as int].ty as int].func,
                                        reg_pre.entries_at(nodes@[u as int].ty as int),
                                        nodes@[u as int].csids@.take(k),
                                    ),
                                    nodes@[u as int].csids@[k],
                                    fc,
                                    reg.entries_at(nodes@[u as int].ty as int),
                                );
                            assert((#[trigger] value_of(
                                *g,
                                old(reg).types_seq()[nodes@[u as int].ty as int].func,
                                nodes@[u as int].csids@[k],
                            )) is None);
                            assert(!nodes_all_derivable(*g, old(reg).types_seq(), nodes@));
                        }
                        return Err(DeriveError::Failed(fc));
                    },
                }
            },
        }
        oi = oi + 1;
    }
    proof {
        assert forall|i: int| 0 <= i < nodes@.len() implies #[trigger] node_done(
            *reg,
            nodes@,
            i,
        ) by {
            lemma_full_order_contains(order@, n as int, i as usize);
            let a = choose|a: int| 0 <= a < order@.len() && order@[a] == i as usize;
            assert(node_done(*reg, nodes@, order@[a] as int));
        }
        assert forall|i: int, k: int|
            0 <= i < nodes@.len() && 0 <= k < nodes@[i].csids@.len() implies g.spec_contains(
            #[trigger] nodes@[i].csids@[k],
        ) && (value_of(
            *g,
            old(reg).types_seq()[nodes@[i].ty as int].func,
            nodes@[i].csids@[k],
        )) is Some by {
            assert(node_done(*reg, nodes@, i));
            let c = nodes@[i].csids@[k];
            let t = nodes@[i].ty as int;
            assert(reg.entries_at(t).contains_key(c));
            assert(mapping_correct(*g, reg.types_seq()[t].func, reg.entries_at(t)));
        }
        assert(nodes_all_known(*g, nodes@));
        assert forall|i: int, k: int|
            0 <= i < nodes@.len() && 0 <= k < nodes@[i].csids@.len() implies (#[trigger] value_of(
            *g,
            old(reg).types_seq()[nodes@[i].ty as int].func,
            nodes@[i].csids@[k],
        )) is Some by {}
        assert(nodes_all_derivable(*g, old(reg).types_seq(), nodes@));
    }
    Ok(order)
}

} // verus!
