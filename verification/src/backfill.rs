//! The batch backfill executor.
//!
//! Given an explicit ordered list of commits, backfill works in fixed-size
//! chunks: a single bulk mapping lookup selects the chunk's still-pending
//! commits, the batch deriver processes only those, and counts of derived
//! and skipped commits are kept for reporting.  Because every chunk skips
//! what is already derived, an interrupted backfill can simply be re-run:
//! the proof of that is [`lemma_backfill_resumable`].

use vstd::prelude::*;

use crate::contract::value_of;
use crate::contract::DeriveFunction;
use crate::contract::TypeConfig;
use crate::derive::derive_allowed;
use crate::derive::derived_map;
use crate::derive::failed_outcome;
use crate::derive::lemma_writes_closed_trans;
use crate::derive::writes_closed;
use crate::derive::is_underived_path;
use crate::derive::mapping_correct;
use crate::derive::reachable_underived;
use crate::derive::underived_of_any;
use crate::derive::within_frontier;
use crate::derive::lemma_derived_map_compose;
use crate::graph::CommitGraph;
use crate::lease::LeaseStore;
use crate::mapping::DerivedMapping;
use crate::DeriveError;
use crate::DeriveMode;

verus! {

/// Two target lists with the same elements have the same frontier, and so
/// the same derivation result.
pub proof fn lemma_derived_map_same_targets(
    g: CommitGraph,
    f: DeriveFunction,
    m: Map<u64, u64>,
    ts1: Seq<u64>,
    ts2: Seq<u64>,
)
    requires
        forall|x: u64| ts1.contains(x) ==> ts2.contains(x),
        forall|x: u64| ts2.contains(x) ==> ts1.contains(x),
    ensures
        derived_map(g, f, m, ts1) == derived_map(g, f, m, ts2),
{
    assert forall|c: u64|
        underived_of_any(g, m, ts1).contains(c) == underived_of_any(g, m, ts2).contains(c) by {
        if underived_of_any(g, m, ts1).contains(c) {
            let ti = choose|ti: int|
                0 <= ti < ts1.len() && reachable_underived(g, m, #[trigger] ts1[ti], c);
            assert(ts1.contains(ts1[ti]));
            assert(ts2.contains(ts1[ti]));
            let tj = choose|tj: int| 0 <= tj < ts2.len() && ts2[tj] == ts1[ti];
            assert(reachable_underived(g, m, ts2[tj], c));
        }
        if underived_of_any(g, m, ts2).contains(c) {
            let ti = choose|ti: int|
                0 <= ti < ts2.len() && reachable_underived(g, m, #[trigger] ts2[ti], c);
            assert(ts2.contains(ts2[ti]));
            assert(ts1.contains(ts2[ti]));
            let tj = choose|tj: int| 0 <= tj < ts1.len() && ts1[tj] == ts2[ti];
            assert(reachable_underived(g, m, ts1[tj], c));
        }
    }
    assert(derived_map(g, f, m, ts1) =~= derived_map(g, f, m, ts2));
}

/// Resumability: run a backfill of `list`, interrupt it after the commits
/// of a prefix have been derived, then re-run the whole backfill.  The
/// final mapping is exactly the one of a single uninterrupted run.
pub proof fn lemma_backfill_resumable(
    g: CommitGraph,
    f: DeriveFunction,
    m: Map<u64, u64>,
    list: Seq<u64>,
    k: int,
)
    requires
        g.wf(),
        0 <= k <= list.len(),
    ensures
        derived_map(g, f, derived_map(g, f, m, list.take(k)), list) == derived_map(g, f, m, list),
{
    lemma_derived_map_compose(g, f, m, list.take(k), list);
    assert forall|x: u64| (list.take(k) + list).contains(x) implies list.contains(x) by {
        let i = choose|i: int|
            0 <= i < (list.take(k) + list).len() && (list.take(k) + list)[i] == x;
        if i < k {
            assert(list[i] == x);
        } else {
            assert(list[i - k] == x);
        }
    }
    assert forall|x: u64| list.contains(x) implies (list.take(k) + list).contains(x) by {
        let i = choose|i: int| 0 <= i < list.len() && list[i] == x;
        assert((list.take(k) + list)[k + i] == x);
    }
    lemma_derived_map_same_targets(g, f, m, list.take(k) + list, list);
}

/// Derives a batch of commits, strictly sequentially: dependencies between
/// the commits make unordered batching unsafe, and the single-commit
/// deriver already skips everything that is present.  Returns the derived
/// values in request order.  Each value equals the canonical [`value_of`]
/// of its commit — the same value the per-commit path produces.
#[verifier::rlimit(100)]
#[verifier::spinoff_prover]
pub fn batch_derive<M: DerivedMapping>(
    g: &CommitGraph,
    ty: &TypeConfig,
    mapping: &mut M,
    lease: &mut LeaseStore,
    csids: &Vec<u64>,
    mode: DeriveMode,
) -> (r: Result<Vec<u64>, DeriveError>)
    requires
        g.wf(),
        mapping_correct(*g, ty.func, old(mapping).entries()),
    ensures
        mapping_correct(*g, ty.func, final(mapping).entries()),
        old(mapping).entries().submap_of(final(mapping).entries()),
        writes_closed(*g, old(mapping).entries(), final(mapping).entries()),
        (r == Err::<Vec<u64>, DeriveError>(DeriveError::Disabled)) <==> !derive_allowed(*ty, mode),
        !derive_allowed(*ty, mode) ==> final(mapping).entries() == old(mapping).entries(),
        derive_allowed(*ty, mode) ==> match r {
            Ok(vals) => {
                &&& vals@.len() == csids@.len()
                &&& (forall|i: int|
                    0 <= i < csids@.len() ==> g.spec_contains(#[trigger] csids@[i]) && value_of(
                        *g,
                        ty.func,
                        csids@[i],
                    ) is Some && vals@[i] == value_of(*g, ty.func, csids@[i]).unwrap())
                &&& final(mapping).entries() == derived_map(
                    *g,
                    ty.func,
                    old(mapping).entries(),
                    csids@,
                )
            },
            Err(DeriveError::UnknownCommit(t)) => csids@.contains(t) && !g.spec_contains(t),
            Err(DeriveError::Failed(c)) => !final(mapping).entries().contains_key(c) && (exists|
                i: int,
            |
                0 <= i < csids@.len() && value_of(*g, ty.func, #[trigger] csids@[i]) is None && (
                forall|j: int| 0 <= j < i ==> value_of(*g, ty.func, #[trigger] csids@[j]) is Some)
                    && failed_outcome(
                    *g,
                    ty.func,
                    derived_map(*g, ty.func, old(mapping).entries(), csids@.take(i)),
                    csids@[i],
                    c,
                    final(mapping).entries(),
                )),
            Err(_) => false,
        },
        derive_allowed(*ty, mode) ==> within_frontier(
            *g,
            old(mapping).entries(),
            csids@,
            final(mapping).entries(),
        ),
{
    let ghost m0 = old(mapping).entries();
    let ghost f = ty.func;
    match mode {
        DeriveMode::OnlyIfEnabled => {
            if !ty.enabled {
                return Err(DeriveError::Disabled);
            }
        },
        DeriveMode::ForceEnabled => {},
    }
    let n = csids.len();
    let mut vals: Vec<u64> = Vec::new();
    let mut i: usize = 0;
    while i < n
        invariant
            g.wf(),
            f == ty.func,
            m0 == old(mapping).entries(),
            derive_allowed(*ty, mode),
            n == csids@.len(),
            i <= n,
            vals@.len() == i,
            mapping_correct(*g, f, mapping.entries()),
            m0.submap_of(mapping.entries()),
            writes_closed(*g, m0, mapping.entries()),
            forall|j: int|
                0 <= j < i ==> g.spec_contains(#[trigger] csids@[j]) && value_of(
                    *g,
                    f,
                    csids@[j],
                ) is Some && vals@[j] == value_of(*g, f, csids@[j]).unwrap(),
            mapping.entries() == derived_map(*g, f, m0, csids@.take(i as int)),
        decreases n - i,
    {
        let c = csids[i];
        let ghost pre = mapping.entries();
        let res = crate::derive::derive(g, ty, mapping, lease, c, mode);
        proof {
            lemma_derived_map_compose(*g, f, m0, csids@.take(i as int), seq![c]);
            assert(csids@.take(i as int) + seq![c] =~= csids@.take(i + 1));
        }
        match res {
            Ok(v) => {
                vals.push(v);
                proof {
                    if pre.contains_key(c) {
                        assert(mapping.entries() =~= derived_map(*g, f, pre, seq![c]));
                    }
                    assert(mapping.entries() == derived_map(*g, f, m0, csids@.take(i + 1)));
                    assert(value_of(*g, f, c) is Some);
                    assert(m0.submap_of(pre));
                    vstd::map_lib::lemma_submap_of_trans(m0, pre, mapping.entries());
                    lemma_writes_closed_trans(*g, m0, pre, mapping.entries());
                }
            },
            Err(e) => {
                proof {
                    assert(m0.submap_of(pre));
                    vstd::map_lib::lemma_submap_of_trans(m0, pre, mapping.entries());
                    lemma_writes_closed_trans(*g, m0, pre, mapping.entries());
                    assert forall|c2: u64| #[trigger]
                        mapping.entries().contains_key(c2) implies m0.contains_key(c2)
                            || underived_of_any(*g, m0, csids@).contains(c2) by {
                        if !m0.contains_key(c2) {
                            lemma_partial_progress_bounded(*g, f, m0, csids@, i as int, pre,
                                mapping.entries(), c2);
                        }
                    }
                    assert(within_frontier(*g, m0, csids@, mapping.entries()));
                }
                match e {
                    DeriveError::Disabled => {
                        proof {
                            assert(false);
                        }
                        return Err(DeriveError::Disabled);
                    },
                    DeriveError::UnknownCommit(t) => {
                        proof {
                            assert(csids@[i as int] == t);
                        }
                        return Err(DeriveError::UnknownCommit(t));
                    },
                    DeriveError::Failed(fc) => {
                        proof {
                            assert(g.spec_contains(csids@[i as int]));
                            assert(value_of(*g, f, csids@[i as int]) is None);
                            assert(failed_outcome(*g, f, pre, c, fc, mapping.entries()));
                            assert(0 <= (i as int) && (i as int) < csids@.len() && value_of(
                                *g,
                                f,
                                #[trigger] csids@[i as int],
                            ) is None && (forall|j: int|
                                0 <= j < i as int ==> value_of(
                                    *g,
                                    f,
                                    #[trigger] csids@[j],
                                ) is Some) && failed_outcome(
                                *g,
                                f,
                                derived_map(*g, f, m0, csids@.take(i as int)),
                                csids@[i as int],
                                fc,
                                mapping.entries(),
                            ));
                        }
                        return Err(DeriveError::Failed(fc));
                    },
                    DeriveError::Cycle => {
                        proof {
                            assert(false);
                        }
                        return Err(DeriveError::Cycle);
                    },
                }
            },
        }
        i = i + 1;
    }
    proof {
        assert(csids@.take(n as int) =~= csids@);
        assert forall|c2: u64| #[trigger]
            mapping.entries().contains_key(c2) implies m0.contains_key(c2) || underived_of_any(
                *g,
                m0,
                csids@,
            ).contains(c2) by {}
        assert(within_frontier(*g, m0, csids@, mapping.entries()));
    }
    Ok(vals)
}

/// After a failed step, everything written so far still lies inside the
/// frontier of the full target list.
proof fn lemma_partial_progress_bounded(
    g: CommitGraph,
    f: DeriveFunction,
    m0: Map<u64, u64>,
    targets: Seq<u64>,
    i: int,
    pre: Map<u64, u64>,
    post: Map<u64, u64>,
    c2: u64,
)
    requires
        g.wf(),
        0 <= i < targets.len(),
        pre == derived_map(g, f, m0, targets.take(i)),
        post.contains_key(c2),
        !m0.contains_key(c2),
        forall|c: u64|
            post.contains_key(c) ==> pre.contains_key(c) || underived_of_any(
                g,
                pre,
                seq![targets[i]],
            ).contains(c),
    ensures
        underived_of_any(g, m0, targets).contains(c2),
{
    lemma_derived_map_compose(g, f, m0, targets.take(i), seq![targets[i]]);
    let both = targets.take(i) + seq![targets[i]];
    assert(both =~= targets.take(i + 1));
    if pre.contains_key(c2) {
        assert(underived_of_any(g, m0, targets.take(i)).contains(c2));
        let ti = choose|ti: int|
            0 <= ti < targets.take(i).len() && reachable_underived(
                g,
                m0,
                #[trigger] targets.take(i)[ti],
                c2,
            );
        assert(targets[ti] == targets.take(i)[ti]);
        assert(underived_of_any(g, m0, targets).contains(c2));
    } else {
        assert(underived_of_any(g, pre, seq![targets[i]]).contains(c2));
        assert(derived_map(g, f, pre, seq![targets[i]]).contains_key(c2));
        assert(derived_map(g, f, m0, targets.take(i + 1)).contains_key(c2));
        assert(underived_of_any(g, m0, targets.take(i + 1)).contains(c2));
        let ti = choose|ti: int|
            0 <= ti < targets.take(i + 1).len() && reachable_underived(
                g,
                m0,
                #[trigger] targets.take(i + 1)[ti],
                c2,
            );
        assert(targets[ti] == targets.take(i + 1)[ti]);
        assert(underived_of_any(g, m0, targets).contains(c2));
    }
}

/// Counts kept while backfilling; reporting only, no effect on the result.
#[derive(Clone, Copy, PartialEq, Eq, Structural, Debug)]
pub struct BackfillStats {
    /// Commits handed to the batch deriver because they had no entry yet.
    pub derived: u64,
    /// Commits skipped because their entry already existed.
    pub skipped: u64,
}

/// Targets that already have entries contribute nothing to a derivation
/// pass: a target list may be thinned to its unmapped commits.
proof fn lemma_derived_map_drop_mapped(
    g: CommitGraph,
    f: DeriveFunction,
    m: Map<u64, u64>,
    small: Seq<u64>,
    big: Seq<u64>,
)
    requires
        forall|x: u64| small.contains(x) ==> big.contains(x),
        forall|x: u64| big.contains(x) ==> small.contains(x) || m.contains_key(x),
    ensures
        derived_map(g, f, m, small) == derived_map(g, f, m, big),
{
    assert forall|c: u64|
        underived_of_any(g, m, small).contains(c) == underived_of_any(g, m, big).contains(c) by {
        if underived_of_any(g, m, small).contains(c) {
            let ti = choose|ti: int|
                0 <= ti < small.len() && reachable_underived(g, m, #[trigger] small[ti], c);
            assert(small.contains(small[ti]));
            assert(big.contains(small[ti]));
            let tj = choose|tj: int| 0 <= tj < big.len() && big[tj] == small[ti];
            assert(reachable_underived(g, m, big[tj], c));
        }
        if underived_of_any(g, m, big).contains(c) {
            let ti = choose|ti: int|
                0 <= ti < big.len() && reachable_underived(g, m, #[trigger] big[ti], c);
            let t = big[ti];
            let p = choose|p: Seq<u64>|
                is_underived_path(g, m, p) && p.first() == t && p.last() == c;
            assert(!m.contains_key(p[0]));
            assert(big.contains(t));
            assert(small.contains(t));
            let tj = choose|tj: int| 0 <= tj < small.len() && small[tj] == t;
            assert(reachable_underived(g, m, small[tj], c));
        }
    }
    assert(derived_map(g, f, m, small) =~= derived_map(g, f, m, big));
}

/// A pass over part of the work, then a pass bounded by further targets,
/// stays within the frontier of any list holding all those targets.
proof fn lemma_frontier_absorbs(
    g: CommitGraph,
    f: DeriveFunction,
    m0: Map<u64, u64>,
    a: Seq<u64>,
    b: Seq<u64>,
    c: Seq<u64>,
    post: Map<u64, u64>,
)
    requires
        g.wf(),
        within_frontier(g, derived_map(g, f, m0, a), b, post),
        forall|x: u64| a.contains(x) ==> c.contains(x),
        forall|x: u64| b.contains(x) ==> c.contains(x),
    ensures
        within_frontier(g, m0, c, post),
{
    let pre = derived_map(g, f, m0, a);
    lemma_derived_map_compose(g, f, m0, a, b);
    assert forall|k: u64| #[trigger] post.contains_key(k) implies m0.contains_key(k)
        || underived_of_any(g, m0, c).contains(k) by {
        if !m0.contains_key(k) {
            if pre.contains_key(k) {
                let ti = choose|ti: int|
                    0 <= ti < a.len() && reachable_underived(g, m0, #[trigger] a[ti], k);
                assert(a.contains(a[ti]));
                assert(c.contains(a[ti]));
                let tj = choose|tj: int| 0 <= tj < c.len() && c[tj] == a[ti];
                assert(reachable_underived(g, m0, c[tj], k));
            } else {
                assert(underived_of_any(g, pre, b).contains(k));
                assert(derived_map(g, f, pre, b).contains_key(k));
                assert(derived_map(g, f, m0, a + b).contains_key(k));
                assert(underived_of_any(g, m0, a + b).contains(k));
                let ti = choose|ti: int|
                    0 <= ti < (a + b).len() && reachable_underived(g, m0, #[trigger] (a + b)[ti], k);
                let t = (a + b)[ti];
                if ti < a.len() {
                    assert(t == a[ti]);
                    assert(a.contains(t));
                } else {
                    assert(t == b[ti - a.len()]);
                    assert(b.contains(t));
                }
                assert(c.contains(t));
                let tj = choose|tj: int| 0 <= tj < c.len() && c[tj] == t;
                assert(reachable_underived(g, m0, c[tj], k));
            }
        }
    }
}

/// How many commits of the list lack an entry in the mapping.
pub open spec fn unmapped_count(m: Map<u64, u64>, s: Seq<u64>) -> int
    decreases s.len(),
{
    if s.len() == 0 {
        0
    } else {
        unmapped_count(m, s.drop_last()) + (if m.contains_key(s.last()) {
            0int
        } else {
            1int
        })
    }
}

/// Extending the counted prefix by one commit.
proof fn lemma_unmapped_count_step(m: Map<u64, u64>, s: Seq<u64>, j: int)
    requires
        0 <= j < s.len(),
    ensures
        unmapped_count(m, s.take(j + 1)) == unmapped_count(m, s.take(j)) + (if m.contains_key(
            s[j],
        ) {
            0int
        } else {
            1int
        }),
{
    assert(s.take(j + 1).drop_last() =~= s.take(j));
    assert(s.take(j + 1).last() == s[j]);
}

/// How many derivations a chunked backfill of `list` performs: for each
/// chunk in turn, the commits that have no entry at the moment the chunk
/// is looked up.  A pure function of the inputs, so the reported work of a
/// run is predictable.
pub open spec fn backfill_derived_count(
    g: CommitGraph,
    f: DeriveFunction,
    m: Map<u64, u64>,
    list: Seq<u64>,
    chunk: int,
) -> int
    decreases list.len(),
    when chunk >= 1
{
    if list.len() == 0 {
        0
    } else {
        let k = if list.len() < chunk {
            list.len() as int
        } else {
            chunk
        };
        unmapped_count(m, list.take(k)) + backfill_derived_count(
            g,
            f,
            derived_map(g, f, m, list.take(k)),
            list.skip(k),
            chunk,
        )
    }
}

/// Backfills an explicit list of commits in chunks of `chunk_size`.
///
/// Each chunk's still-pending subset is found with one bulk lookup and
/// handed to the batch deriver under the force-enabled escape hatch, since
/// backfill runs precisely for types that are not enabled yet.  Re-running
/// after an interruption only redoes the remainder; `stats.derived` counts
/// exactly the commits that lacked an entry when their chunk was looked
/// up, so a resumed run reports exactly the work that was missing.
#[verifier::rlimit(100)]
#[verifier::spinoff_prover]
pub fn backfill_batch<M: DerivedMapping>(
    g: &CommitGraph,
    ty: &TypeConfig,
    mapping: &mut M,
    lease: &mut LeaseStore,
    changesets: &Vec<u64>,
    chunk_size: usize,
) -> (r: Result<BackfillStats, DeriveError>)
    requires
        g.wf(),
        mapping_correct(*g, ty.func, old(mapping).entries()),
        chunk_size >= 1,
    ensures
        mapping_correct(*g, ty.func, final(mapping).entries()),
        old(mapping).entries().submap_of(final(mapping).entries()),
        writes_closed(*g, old(mapping).entries(), final(mapping).entries()),
        within_frontier(*g, old(mapping).entries(), changesets@, final(mapping).entries()),
        match r {
            Ok(stats) => final(mapping).entries() == derived_map(
                *g,
                ty.func,
                old(mapping).entries(),
                changesets@,
            ) && stats.derived + stats.skipped == changesets@.len() && stats.derived
                == backfill_derived_count(
                *g,
                ty.func,
                old(mapping).entries(),
                changesets@,
                chunk_size as int,
            ),
            Err(DeriveError::UnknownCommit(t)) => changesets@.contains(t) && !g.spec_contains(t),
            Err(DeriveError::Failed(c)) => !final(mapping).entries().contains_key(c) && (exists|
                i: int,
            |
                0 <= i < changesets@.len() && value_of(*g, ty.func, #[trigger] changesets@[i])
                    is None && (forall|j: int|
                    0 <= j < i ==> value_of(*g, ty.func, #[trigger] changesets@[j]) is Some)
                    && failed_outcome(
                    *g,
                    ty.func,
                    derived_map(*g, ty.func, old(mapping).entries(), changesets@.take(i)),
                    changesets@[i],
                    c,
                    final(mapping).entries(),
                )),
            Err(_) => false,
        },
{
    let ghost m0 = old(mapping).entries();
    let ghost f = ty.func;
    let n = changesets.len();
    let mut derived_count: u64 = 0;
    let mut skipped_count: u64 = 0;
    let mut start: usize = 0;
    proof {
        assert(changesets@.skip(0) =~= changesets@);
    }
    while start < n
        invariant
            g.wf(),
            f == ty.func,
            m0 == old(mapping).entries(),
            chunk_size >= 1,
            n == changesets@.len(),
            start <= n,
            derived_count + skipped_count == start,
            mapping_correct(*g, f, mapping.entries()),
            m0.submap_of(mapping.entries()),
            writes_closed(*g, m0, mapping.entries()),
            mapping.entries() == derived_map(*g, f, m0, changesets@.take(start as int)),
            forall|j: int|
                0 <= j < start ==> value_of(*g, f, #[trigger] changesets@[j]) is Some,
            derived_count + backfill_derived_count(
                *g,
                f,
                mapping.entries(),
                changesets@.skip(start as int),
                chunk_size as int,
            ) == backfill_derived_count(*g, f, m0, changesets@, chunk_size as int),
        decreases n - start,
    {
        let end = if n - start < chunk_size {
            n
        } else {
            start + chunk_size
        };
        let mut chunk: Vec<u64> = Vec::new();
        let mut j = start;
        while j < end
            invariant
                start <= j <= end <= n,
                n == changesets@.len(),
                chunk@ == changesets@.subrange(start as int, j as int),
            decreases end - j,
        {
            chunk.push(changesets[j]);
            proof {
                assert(chunk@ =~= changesets@.subrange(start as int, j + 1));
            }
            j = j + 1;
        }
        let looked = mapping.get_many(&chunk);
        let mut pending: Vec<u64> = Vec::new();
        let ghost mut ppos: Seq<int> = Seq::empty();
        let mut j: usize = 0;
        while j < chunk.len()
            invariant
                j <= chunk@.len(),
                looked@.len() == chunk@.len(),
                forall|a: int|
                    0 <= a < chunk@.len() ==> looked@[a] == (if mapping.entries().contains_key(
                        #[trigger] chunk@[a],
                    ) {
                        Some(mapping.entries()[chunk@[a]])
                    } else {
                        None::<u64>
                    }),
                pending@.len() <= j,
                ppos.len() == pending@.len(),
                forall|a: int|
                    0 <= a < ppos.len() ==> 0 <= #[trigger] ppos[a] < j && chunk@[ppos[a]]
                        == pending@[a] && !mapping.entries().contains_key(chunk@[ppos[a]]),
                forall|a1: int, a2: int| 0 <= a1 < a2 < ppos.len() ==> ppos[a1] < ppos[a2],
                forall|j2: int|
                    0 <= j2 < j && !mapping.entries().contains_key(#[trigger] chunk@[j2])
                        ==> exists|a: int| 0 <= a < ppos.len() && ppos[a] == j2,
                pending@.len() == unmapped_count(mapping.entries(), chunk@.take(j as int)),
            decreases chunk@.len() - j,
        {
            proof {
                lemma_unmapped_count_step(mapping.entries(), chunk@, j as int);
            }
            match looked[j] {
                Some(_) => {
                    proof {
                        assert(mapping.entries().contains_key(chunk@[j as int]));
                    }
                },
                None => {
                    let ghost pending0 = pending@;
                    let ghost ppos0 = ppos;
                    pending.push(chunk[j]);
                    proof {
                        ppos = ppos.push(j as int);
                        assert(pending@.last() == chunk@[j as int]);
                        assert forall|j2: int|
                            0 <= j2 < j + 1 && !mapping.entries().contains_key(
                                #[trigger] chunk@[j2],
                            ) implies exists|a: int| 0 <= a < ppos.len() && ppos[a] == j2 by {
                            if j2 == j {
                                assert(ppos[ppos.len() - 1] == j2);
                            } else {
                                let a = choose|a: int| 0 <= a < ppos0.len() && ppos0[a] == j2;
                                assert(ppos[a] == j2);
                            }
                        }
                    }
                },
            }
            j = j + 1;
        }
        let ghost m_chunk = mapping.entries();
        let pend_len = pending.len();
        let chunk_len = chunk.len();
        proof {
            assert(chunk@.take(chunk@.len() as int) =~= chunk@);
            assert(pend_len == unmapped_count(m_chunk, chunk@));
        }
        let res = batch_derive(g, ty, mapping, lease, &pending, DeriveMode::ForceEnabled);
        proof {
            assert forall|x: u64| pending@.contains(x) implies chunk@.contains(x) by {
                let a = choose|a: int| 0 <= a < pending@.len() && pending@[a] == x;
                assert(chunk@[ppos[a]] == x);
            }
            assert forall|x: u64|
                chunk@.contains(x) implies pending@.contains(x) || m_chunk.contains_key(x) by {
                let b2 = choose|b2: int| 0 <= b2 < chunk@.len() && chunk@[b2] == x;
                if !m_chunk.contains_key(x) {
                    let a = choose|a: int| 0 <= a < ppos.len() && ppos[a] == b2;
                    assert(pending@[a] == x);
                }
            }
            lemma_derived_map_drop_mapped(*g, f, m_chunk, pending@, chunk@);
            lemma_derived_map_compose(*g, f, m0, changesets@.take(start as int), chunk@);
            assert(changesets@.take(start as int) + chunk@ =~= changesets@.take(end as int));
            assert forall|x: u64|
                changesets@.take(start as int).contains(x) implies changesets@.contains(x) by {
                let a = choose|a: int|
                    0 <= a < changesets@.take(start as int).len() && changesets@.take(
                        start as int,
                    )[a] == x;
                assert(changesets@[a] == x);
            }
            assert forall|x: u64| pending@.contains(x) implies changesets@.contains(x) by {
                let a = choose|a: int| 0 <= a < chunk@.len() && chunk@[a] == x;
                assert(changesets@[start + a] == x);
            }
        }
        match res {
            Ok(_) => {
                proof {
                    assert(mapping.entries() == derived_map(*g, f, m_chunk, chunk@));
                    assert(mapping.entries() == derived_map(
                        *g,
                        f,
                        m0,
                        changesets@.take(end as int),
                    ));
                    assert(m0.submap_of(m_chunk));
                    vstd::map_lib::lemma_submap_of_trans(m0, m_chunk, mapping.entries());
                    lemma_writes_closed_trans(*g, m0, m_chunk, mapping.entries());
                    assert forall|j2: int|
                        0 <= j2 < end implies value_of(*g, f, #[trigger] changesets@[j2])
                        is Some by {
                        if j2 >= start {
                            let b2 = j2 - start;
                            assert(chunk@[b2] == changesets@[j2]);
                            if m_chunk.contains_key(chunk@[b2]) {
                                assert(value_of(*g, f, chunk@[b2]) == Some(m_chunk[chunk@[b2]]));
                            } else {
                                let a2 = choose|a2: int| 0 <= a2 < ppos.len() && ppos[a2] == b2;
                                assert(pending@[a2] == chunk@[b2]);
                            }
                        }
                    }
                    let rem = changesets@.skip(start as int);
                    assert(rem.len() == n - start);
                    let k: int = if rem.len() < chunk_size {
                        rem.len() as int
                    } else {
                        chunk_size as int
                    };
                    assert(k == end - start);
                    assert(rem.take(k) =~= chunk@);
                    assert(rem.skip(k) =~= changesets@.skip(end as int));
                    assert(backfill_derived_count(*g, f, m_chunk, rem, chunk_size as int)
                        == unmapped_count(m_chunk, chunk@) + backfill_derived_count(
                        *g,
                        f,
                        derived_map(*g, f, m_chunk, chunk@),
                        changesets@.skip(end as int),
                        chunk_size as int,
                    ));
                }
                proof {
                    assert(pend_len <= chunk_len);
                    assert(chunk_len == end - start);
                    assert(derived_count + skipped_count + chunk_len <= n);
                }
                derived_count = derived_count + pend_len as u64;
                skipped_count = skipped_count + (chunk_len - pend_len) as u64;
            },
            Err(e) => {
                proof {
                    assert(m0.submap_of(m_chunk));
                    vstd::map_lib::lemma_submap_of_trans(m0, m_chunk, mapping.entries());
                    lemma_writes_closed_trans(*g, m0, m_chunk, mapping.entries());
                    lemma_frontier_absorbs(
                        *g,
                        f,
                        m0,
                        changesets@.take(start as int),
                        pending@,
                        changesets@,
                        mapping.entries(),
                    );
                }
                match e {
                    DeriveError::Disabled => {
                        proof {
                            assert(false);
                        }
                        return Err(DeriveError::Disabled);
                    },
                    DeriveError::UnknownCommit(t) => {
                        proof {
                            assert(changesets@.contains(t));
                        }
                        return Err(DeriveError::UnknownCommit(t));
                    },
                    DeriveError::Failed(fc) => {
                        proof {
                            let a = choose|a: int|
                                0 <= a < pending@.len() && value_of(
                                    *g,
                                    f,
                                    #[trigger] pending@[a],
                                ) is None && (forall|j2: int|
                                    0 <= j2 < a ==> value_of(
                                        *g,
                                        f,
                                        #[trigger] pending@[j2],
                                    ) is Some) && failed_outcome(
                                    *g,
                                    f,
                                    derived_map(*g, f, m_chunk, pending@.take(a)),
                                    pending@[a],
                                    fc,
                                    mapping.entries(),
                                );
                            let b = ppos[a];
                            assert(0 <= b < chunk@.len() && chunk@[b] == pending@[a]
                                && !m_chunk.contains_key(chunk@[b]));
                            let gi: int = start + b;
                            assert(changesets@[gi] == pending@[a]);
                            assert forall|j2: int|
                                0 <= j2 < gi implies value_of(
                                *g,
                                f,
                                #[trigger] changesets@[j2],
                            ) is Some by {
                                if j2 >= start {
                                    let b2 = j2 - start;
                                    assert(chunk@[b2] == changesets@[j2]);
                                    if m_chunk.contains_key(chunk@[b2]) {
                                        assert(value_of(*g, f, chunk@[b2]) == Some(
                                            m_chunk[chunk@[b2]],
                                        ));
                                    } else {
                                        let a2 = choose|a2: int|
                                            0 <= a2 < ppos.len() && ppos[a2] == b2;
                                        if a2 > a {
                                            assert(ppos[a] < ppos[a2]);
                                            assert(false);
                                        } else if a2 == a {
                                            assert(false);
                                        }
                                        assert(pending@[a2] == chunk@[b2]);
                                    }
                                }
                            }
                            assert forall|x: u64|
                                pending@.take(a).contains(x) implies chunk@.take(b).contains(
                                x,
                            ) by {
                                let a2 = choose|a2: int|
                                    0 <= a2 < pending@.take(a).len() && pending@.take(a)[a2] == x;
                                assert(pending@[a2] == x);
                                assert(ppos[a2] < b);
                                assert(chunk@.take(b)[ppos[a2]] == x);
                            }
                            assert forall|x: u64|
                                chunk@.take(b).contains(x) implies pending@.take(a).contains(x)
                                    || m_chunk.contains_key(x) by {
                                let b2 = choose|b2: int|
                                    0 <= b2 < chunk@.take(b).len() && chunk@.take(b)[b2] == x;
                                assert(chunk@[b2] == x);
                                if !m_chunk.contains_key(x) {
                                    let a2 = choose|a2: int|
                                        0 <= a2 < ppos.len() && ppos[a2] == b2;
                                    if a2 > a {
                                        assert(ppos[a] < ppos[a2]);
                                        assert(false);
                                    } else if a2 == a {
                                        assert(false);
                                    }
                                    assert(pending@.take(a)[a2] == x);
                                }
                            }
                            lemma_derived_map_drop_mapped(
                                *g,
                                f,
                                m_chunk,
                                pending@.take(a),
                                chunk@.take(b),
                            );
                            lemma_derived_map_compose(
                                *g,
                                f,
                                m0,
                                changesets@.take(start as int),
                                chunk@.take(b),
                            );
                            assert(changesets@.take(start as int) + chunk@.take(b)
                                =~= changesets@.take(gi));
                            assert(derived_map(*g, f, m_chunk, pending@.take(a)) == derived_map(
                                *g,
                                f,
                                m0,
                                changesets@.take(gi),
                            ));
                            assert(0 <= gi && gi < changesets@.len() && value_of(
                                *g,
                                f,
                                #[trigger] changesets@[gi],
                            ) is None && (forall|j2: int|
                                0 <= j2 < gi ==> value_of(
                                    *g,
                                    f,
                                    #[trigger] changesets@[j2],
                                ) is Some) && failed_outcome(
                                *g,
                                f,
                                derived_map(*g, f, m0, changesets@.take(gi)),
                                changesets@[gi],
                                fc,
                                mapping.entries(),
                            ));
                        }
                        return Err(DeriveError::Failed(fc));
                    },
                    DeriveError::Cycle => {
                        proof {
                            assert(false);
                        }
                        return Err(DeriveError::Cycle);
                    },
                }
            },
        }
        start = end;
    }
    proof {
        assert(changesets@.take(n as int) =~= changesets@);
        assert(changesets@.skip(n as int) =~= Seq::<u64>::empty());
        assert forall|k: u64| #[trigger]
            mapping.entries().contains_key(k) implies m0.contains_key(k) || underived_of_any(
            *g,
            m0,
            changesets@,
        ).contains(k) by {}
        assert(within_frontier(*g, m0, changesets@, mapping.entries()));
    }
    Ok(BackfillStats { derived: derived_count, skipped: skipped_count })
}

/// An element of a prefix list is an element of the grown list.
proof fn lemma_contains_prefix_list(s1: Seq<u64>, s2: Seq<u64>, x: u64)
    requires
        s1.is_prefix_of(s2),
        s1.contains(x),
    ensures
        s2.contains(x),
{
    let i = choose|i: int| 0 <= i < s1.len() && s1[i] == x;
    assert(s2[i] == x);
}

/// The mapping left by deriving the commits one at a time, in order, each
/// through a full single-commit pass.
pub open spec fn derive_each(
    g: CommitGraph,
    f: DeriveFunction,
    m: Map<u64, u64>,
    csids: Seq<u64>,
) -> Map<u64, u64>
    decreases csids.len(),
{
    if csids.len() == 0 {
        m
    } else {
        derive_each(g, f, derived_map(g, f, m, seq![csids[0]]), csids.drop_first())
    }
}

/// Batching changes nothing: a batch over a list of commits leaves exactly
/// the mapping of the default per-commit path run over the same list.
pub proof fn lemma_batch_matches_per_commit(
    g: CommitGraph,
    f: DeriveFunction,
    m: Map<u64, u64>,
    csids: Seq<u64>,
)
    requires
        g.wf(),
    ensures
        derive_each(g, f, m, csids) == derived_map(g, f, m, csids),
    decreases csids.len(),
{
    if csids.len() == 0 {
        assert(derived_map(g, f, m, csids) =~= m);
    } else {
        let m1 = derived_map(g, f, m, seq![csids[0]]);
        lemma_batch_matches_per_commit(g, f, m1, csids.drop_first());
        lemma_derived_map_compose(g, f, m, seq![csids[0]], csids.drop_first());
        assert(seq![csids[0]] + csids.drop_first() =~= csids);
    }
}

} // verus!
