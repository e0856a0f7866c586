//! The underived-ancestor finder and the single-commit deriver.
//!
//! The finder walks parent edges backward from a target, collecting commits
//! with no mapping entry and pruning every branch at the first commit that
//! has one.  The deriver processes the collected commits parents-first,
//! reads each commit's parent values from the mapping, runs the derivation
//! function and records the result, so that a mapping entry is only ever
//! written after the entries of every parent — and always holds the
//! canonical [`value_of`] of its commit.

use vstd::prelude::*;

use crate::contract::derive_from_parents;
use crate::contract::lemma_value_none_propagates;
use crate::contract::lemma_value_of_unfold;
use crate::contract::spec_derive;
use crate::contract::value_of;
use crate::contract::DeriveFunction;
use crate::contract::TypeConfig;
use crate::graph::CommitGraph;
use crate::lease::LeaseStore;
use crate::mapping::DerivedMapping;
use crate::DeriveError;
use crate::DeriveMode;

verus! {

/// Every visible mapping entry holds the canonical value of its commit.
/// This is the correctness invariant of a mapping with respect to a graph
/// and a derivation function; every engine operation preserves it.
pub open spec fn mapping_correct(g: CommitGraph, f: DeriveFunction, m: Map<u64, u64>) -> bool {
    forall|c: u64| #[trigger]
        m.contains_key(c) ==> g.spec_contains(c) && value_of(g, f, c) == Some(m[c])
}

/// The parents of every mapped commit are mapped too: no entry is ever
/// written before its parents' entries (the topological invariant).
pub open spec fn mapping_closed(g: CommitGraph, m: Map<u64, u64>) -> bool {
    forall|c: u64| #[trigger]
        m.contains_key(c) ==> forall|k: int|
            0 <= k < g.parents_of(c).len() ==> m.contains_key(#[trigger] g.parents_of(c)[k])
}

/// Every entry that `m1` has and `m0` lacks has all of its parents present
/// in `m1`: whatever a derivation pass managed to write before finishing or
/// failing, it wrote parents before children.
pub open spec fn writes_closed(g: CommitGraph, m0: Map<u64, u64>, m1: Map<u64, u64>) -> bool {
    forall|c: u64| #[trigger]
        m1.contains_key(c) && !m0.contains_key(c) ==> forall|k: int|
            0 <= k < g.parents_of(c).len() ==> m1.contains_key(#[trigger] g.parents_of(c)[k])
}

/// Closed writes compose across two passes.
pub proof fn lemma_writes_closed_trans(
    g: CommitGraph,
    m0: Map<u64, u64>,
    m1: Map<u64, u64>,
    m2: Map<u64, u64>,
)
    requires
        writes_closed(g, m0, m1),
        writes_closed(g, m1, m2),
        m1.submap_of(m2),
    ensures
        writes_closed(g, m0, m2),
{
    assert forall|c: u64| #[trigger]
        m2.contains_key(c) && !m0.contains_key(c) implies forall|k: int|
        0 <= k < g.parents_of(c).len() ==> m2.contains_key(#[trigger] g.parents_of(c)[k]) by {
        assert forall|k: int| 0 <= k < g.parents_of(c).len() implies m2.contains_key(
            #[trigger] g.parents_of(c)[k],
        ) by {
            if m1.contains_key(c) {
                if !m0.contains_key(c) {
                    assert(m1.contains_key(g.parents_of(c)[k]));
                    assert(m1.dom().contains(g.parents_of(c)[k]));
                }
            }
        }
    }
}

/// Closed writes on top of a closed mapping leave a closed mapping: the
/// topological invariant survives successful and failed passes alike.
pub proof fn lemma_writes_closed_preserves(g: CommitGraph, m0: Map<u64, u64>, m1: Map<u64, u64>)
    requires
        mapping_closed(g, m0),
        writes_closed(g, m0, m1),
        m0.submap_of(m1),
    ensures
        mapping_closed(g, m1),
{
    assert forall|c: u64| #[trigger] m1.contains_key(c) implies forall|k: int|
        0 <= k < g.parents_of(c).len() ==> m1.contains_key(#[trigger] g.parents_of(c)[k]) by {
        assert forall|k: int| 0 <= k < g.parents_of(c).len() implies m1.contains_key(
            #[trigger] g.parents_of(c)[k],
        ) by {
            if m0.contains_key(c) {
                assert(m0.contains_key(g.parents_of(c)[k]));
                assert(m0.dom().contains(g.parents_of(c)[k]));
            }
        }
    }
}

/// A parent-edge path whose commits all lack a mapping entry.
pub open spec fn is_underived_path(g: CommitGraph, m: Map<u64, u64>, p: Seq<u64>) -> bool {
    &&& p.len() > 0
    &&& forall|i: int|
        0 <= i < p.len() ==> g.spec_contains(#[trigger] p[i]) && !m.contains_key(p[i])
    &&& forall|i: int| 1 <= i < p.len() ==> g.parents_of(p[i - 1]).contains(#[trigger] p[i])
}

/// The underived frontier relation: `to` lacks an entry and is reachable
/// from `from` through commits that all lack entries.  The finder's walk,
/// which prunes at mapped commits, collects exactly these commits.
pub open spec fn reachable_underived(g: CommitGraph, m: Map<u64, u64>, from: u64, to: u64) -> bool {
    exists|p: Seq<u64>| is_underived_path(g, m, p) && p.first() == from && p.last() == to
}

/// The underived frontier of a set of targets.
pub open spec fn underived_of_any(g: CommitGraph, m: Map<u64, u64>, targets: Seq<u64>) -> Set<u64> {
    Set::new(
        |c: u64|
            exists|i: int|
                0 <= i < targets.len() && reachable_underived(g, m, #[trigger] targets[i], c),
    )
}

/// What the mapping holds after a fully successful derivation of the
/// targets: the old entries, plus the canonical value of every commit of
/// the targets' underived frontier.
pub open spec fn derived_map(
    g: CommitGraph,
    f: DeriveFunction,
    m: Map<u64, u64>,
    targets: Seq<u64>,
) -> Map<u64, u64> {
    Map::new(
        |c: u64| m.contains_key(c) || underived_of_any(g, m, targets).contains(c),
        |c: u64|
            if m.contains_key(c) {
                m[c]
            } else {
                value_of(g, f, c).unwrap()
            },
    )
}

/// Exactly what a failed derivation of `target` leaves behind.  The
/// reported commit is the first of the frontier, in graph order, whose
/// value fails; the entries written are exactly the frontier commits
/// strictly before it.  The whole outcome is a function of the inputs
/// alone, so lease contention can never change what a failed call did.
pub open spec fn failed_outcome(
    g: CommitGraph,
    f: DeriveFunction,
    m0: Map<u64, u64>,
    target: u64,
    c: u64,
    m1: Map<u64, u64>,
) -> bool {
    &&& g.spec_contains(c)
    &&& underived_of_any(g, m0, seq![target]).contains(c)
    &&& value_of(g, f, c) is None
    &&& forall|c2: u64|
        underived_of_any(g, m0, seq![target]).contains(c2) && g.idx_of(c2) < g.idx_of(c)
            ==> (#[trigger] value_of(g, f, c2)) is Some
    &&& forall|c2: u64| #[trigger]
        m1.contains_key(c2) <==> (m0.contains_key(c2) || (underived_of_any(
            g,
            m0,
            seq![target],
        ).contains(c2) && g.idx_of(c2) < g.idx_of(c)))
}

/// An underived commit is on the frontier of itself.
pub proof fn lemma_underived_self(g: CommitGraph, m: Map<u64, u64>, c: u64)
    requires
        g.spec_contains(c),
        !m.contains_key(c),
    ensures
        reachable_underived(g, m, c, c),
{
    let p = seq![c];
    assert(is_underived_path(g, m, p) && p.first() == c && p.last() == c);
}

/// Extends a frontier path by one underived parent.
pub proof fn lemma_underived_extend(g: CommitGraph, m: Map<u64, u64>, from: u64, to: u64, q: u64)
    requires
        reachable_underived(g, m, from, to),
        g.parents_of(to).contains(q),
        g.spec_contains(q),
        !m.contains_key(q),
    ensures
        reachable_underived(g, m, from, q),
{
    let p = choose|p: Seq<u64>| is_underived_path(g, m, p) && p.first() == from && p.last() == to;
    let p2 = p.push(q);
    assert forall|i: int| 1 <= i < p2.len() implies g.parents_of(p2[i - 1]).contains(
        #[trigger] p2[i],
    ) by {
        if i < p.len() {
            assert(p2[i] == p[i] && p2[i - 1] == p[i - 1]);
        } else {
            assert(p2[i] == q && p2[i - 1] == p.last());
        }
    }
    assert(is_underived_path(g, m, p2) && p2.first() == from && p2.last() == q);
}

/// Joins a frontier path with a frontier path starting at its end.
pub proof fn lemma_underived_concat(g: CommitGraph, m: Map<u64, u64>, a: u64, b: u64, c: u64)
    requires
        reachable_underived(g, m, a, b),
        reachable_underived(g, m, b, c),
    ensures
        reachable_underived(g, m, a, c),
{
    let p1 = choose|p: Seq<u64>| is_underived_path(g, m, p) && p.first() == a && p.last() == b;
    let p2 = choose|p: Seq<u64>| is_underived_path(g, m, p) && p.first() == b && p.last() == c;
    let p = p1 + p2.drop_first();
    assert forall|i: int| 0 <= i < p.len() implies g.spec_contains(#[trigger] p[i])
        && !m.contains_key(p[i]) by {
        if i < p1.len() {
            assert(p[i] == p1[i]);
        } else {
            assert(p[i] == p2[i - p1.len() + 1]);
        }
    }
    assert forall|i: int| 1 <= i < p.len() implies g.parents_of(p[i - 1]).contains(
        #[trigger] p[i],
    ) by {
        if i < p1.len() {
            assert(p[i] == p1[i] && p[i - 1] == p1[i - 1]);
        } else if i == p1.len() {
            if p2.len() > 1 {
                assert(p[i] == p2[1] && p[i - 1] == p1.last());
                assert(p2.first() == b);
                assert(g.parents_of(p2[0]).contains(p2[1]));
            }
        } else {
            assert(p[i] == p2[i - p1.len() + 1] && p[i - 1] == p2[i - p1.len()]);
            assert(g.parents_of(p2[i - p1.len()]).contains(p2[i - p1.len() + 1]));
        }
    }
    if p2.len() == 1 {
        assert(p =~= p1);
        assert(p.last() == b && b == c);
    } else {
        assert(p.last() == p2.last());
    }
    assert(is_underived_path(g, m, p) && p.first() == a && p.last() == c);
}

/// A commit on the frontier is an ancestor of the target.
pub proof fn lemma_underived_reaches(g: CommitGraph, m: Map<u64, u64>, from: u64, to: u64)
    requires
        g.wf(),
        reachable_underived(g, m, from, to),
    ensures
        g.reaches(from, to),
        g.spec_contains(from),
        g.spec_contains(to),
        !m.contains_key(from),
        !m.contains_key(to),
{
    let p = choose|p: Seq<u64>| is_underived_path(g, m, p) && p.first() == from && p.last() == to;
    lemma_path_reaches(g, m, p);
}

/// A frontier path witnesses graph reachability from its first commit to
/// its last.
proof fn lemma_path_reaches(g: CommitGraph, m: Map<u64, u64>, p: Seq<u64>)
    requires
        g.wf(),
        is_underived_path(g, m, p),
    ensures
        g.reaches(p.first(), p.last()),
    decreases p.len(),
{
    if p.len() == 1 {
        assert(g.reaches(p.first(), p.first()));
    } else {
        let q = p.drop_first();
        assert forall|i: int| 1 <= i < q.len() implies g.parents_of(q[i - 1]).contains(
            #[trigger] q[i],
        ) by {
            assert(q[i] == p[i + 1] && q[i - 1] == p[i]);
        }
        assert(is_underived_path(g, m, q));
        lemma_path_reaches(g, m, q);
        let ps = g.parents_of(p[0]);
        assert(ps.contains(p[1]));
        let k = choose|k: int| 0 <= k < ps.len() && ps[k] == p[1];
        g.lemma_reaches_parent(p.first(), k);
        g.lemma_reaches_trans(p.first(), p[1], p.last());
    }
}

/// With a closed mapping the frontier is exactly the unmapped ancestors:
/// pruning the walk at mapped commits loses nothing, because everything
/// behind a mapped commit is mapped too.
pub proof fn lemma_closed_frontier(g: CommitGraph, m: Map<u64, u64>, from: u64, to: u64)
    requires
        g.wf(),
        mapping_closed(g, m),
        g.spec_contains(from),
        !m.contains_key(from),
    ensures
        reachable_underived(g, m, from, to) <==> (g.reaches(from, to) && !m.contains_key(to)),
    decreases g.idx_of(from),
{
    if reachable_underived(g, m, from, to) {
        lemma_underived_reaches(g, m, from, to);
    }
    if g.reaches(from, to) && !m.contains_key(to) {
        if from == to {
            lemma_underived_self(g, m, from);
        } else {
            g.lemma_reaches_step(from, to);
            let k = choose|k: int|
                0 <= k < g.parents_of(from).len() && g.reaches(
                    #[trigger] g.parents_of(from)[k],
                    to,
                );
            let q = g.parents_of(from)[k];
            g.lemma_parent_idx(from, k);
            g.lemma_idx_of(from);
            if m.contains_key(q) {
                lemma_closed_mapped_ancestors(g, m, q, to);
                assert(false);
            }
            lemma_closed_frontier(g, m, q, to);
            lemma_underived_self(g, m, from);
            assert(g.parents_of(from).contains(q));
            lemma_underived_extend(g, m, from, from, q);
            lemma_underived_concat(g, m, from, q, to);
        }
    }
}

/// The commit is on the frontier of one of the targets.
pub open spec fn sound_elem(g: CommitGraph, m: Map<u64, u64>, targets: Seq<u64>, c: u64) -> bool {
    exists|i: int| 0 <= i < targets.len() && reachable_underived(g, m, #[trigger] targets[i], c)
}

/// Every underived parent of `c` is already in `seen`.
pub open spec fn expanded(g: CommitGraph, m: Map<u64, u64>, seen: Seq<u64>, c: u64) -> bool {
    forall|k: int|
        0 <= k < g.parents_of(c).len() ==> m.contains_key(#[trigger] g.parents_of(c)[k])
            || seen.contains(g.parents_of(c)[k])
}

/// The list holds the whole underived frontier of the targets.
pub open spec fn covers(g: CommitGraph, m: Map<u64, u64>, targets: Seq<u64>, s: Seq<u64>) -> bool {
    forall|c: u64| underived_of_any(g, m, targets).contains(c) ==> #[trigger] s.contains(c)
}

/// An element of a prefix is an element of the whole.
pub(crate) proof fn lemma_contains_prefix(s1: Seq<u64>, s2: Seq<u64>, x: u64)
    requires
        s1.is_prefix_of(s2),
        s1.contains(x),
    ensures
        s2.contains(x),
{
    let i = choose|i: int| 0 <= i < s1.len() && s1[i] == x;
    assert(s2[i] == x);
}

/// A set of seen commits that is fully expanded is closed under the walk:
/// it holds the end of every frontier path that starts inside it.
pub(crate) proof fn lemma_walk_complete(g: CommitGraph, m: Map<u64, u64>, seen: Seq<u64>, p: Seq<u64>)
    requires
        g.wf(),
        is_underived_path(g, m, p),
        seen.contains(p.first()),
        forall|i: int| 0 <= i < seen.len() ==> expanded(g, m, seen, #[trigger] seen[i]),
    ensures
        seen.contains(p.last()),
    decreases p.len(),
{
    if p.len() > 1 {
        let q = p.drop_last();
        assert forall|i: int| 1 <= i < q.len() implies g.parents_of(q[i - 1]).contains(
            #[trigger] q[i],
        ) by {
            assert(q[i] == p[i] && q[i - 1] == p[i - 1]);
        }
        assert(is_underived_path(g, m, q));
        assert(q.first() == p.first());
        lemma_walk_complete(g, m, seen, q);
        let j = choose|j: int| 0 <= j < seen.len() && seen[j] == q.last();
        assert(expanded(g, m, seen, q.last()));
        assert(g.parents_of(p[p.len() - 2]).contains(p.last()));
        assert(q.last() == p[p.len() - 2]);
        let k = choose|k: int|
            0 <= k < g.parents_of(q.last()).len() && g.parents_of(q.last())[k] == p.last();
        assert(m.contains_key(p.last()) || seen.contains(p.last()));
    }
}

/// Whether the list contains the id.
pub(crate) fn vec_contains(v: &Vec<u64>, x: u64) -> (r: bool)
    ensures
        r == v@.contains(x),
{
    let n = v.len();
    let mut i: usize = 0;
    while i < n
        invariant
            n == v@.len(),
            i <= n,
            forall|j: int| 0 <= j < i ==> v@[j] != x,
        decreases n - i,
    {
        if v[i] == x {
            return true;
        }
        i = i + 1;
    }
    false
}

/// Pushing one unseen commit onto both lists keeps the walk's bookkeeping:
/// no duplicates, and every stack element is a seen element.
pub(crate) proof fn lemma_push_keeps_walk_state(
    seen0: Seq<u64>,
    stack0: Seq<u64>,
    seen1: Seq<u64>,
    stack1: Seq<u64>,
    p: u64,
)
    requires
        seen1 == seen0.push(p),
        stack1 == stack0.push(p),
        seen0.no_duplicates(),
        stack0.no_duplicates(),
        !seen0.contains(p),
        !stack0.contains(p),
        forall|i: int| 0 <= i < stack0.len() ==> seen0.contains(#[trigger] stack0[i]),
    ensures
        seen1.no_duplicates(),
        stack1.no_duplicates(),
        forall|i: int| 0 <= i < stack1.len() ==> seen1.contains(#[trigger] stack1[i]),
{
    assert forall|i: int, j: int| 0 <= i < j < seen1.len() implies seen1[i] != seen1[j] by {
        if j < seen0.len() {
            assert(seen1[i] == seen0[i] && seen1[j] == seen0[j]);
        } else {
            assert(seen1[j] == p && seen1[i] == seen0[i]);
            if seen0[i] == p {
                assert(seen0.contains(p));
            }
        }
    }
    assert forall|i: int, j: int| 0 <= i < j < stack1.len() implies stack1[i] != stack1[j] by {
        if j < stack0.len() {
            assert(stack1[i] == stack0[i] && stack1[j] == stack0[j]);
        } else {
            assert(stack1[j] == p && stack1[i] == stack0[i]);
            if stack0[i] == p {
                assert(stack0.contains(p));
            }
        }
    }
    assert forall|i: int| 0 <= i < stack1.len() implies seen1.contains(#[trigger] stack1[i]) by {
        if i < stack0.len() {
            assert(seen0.contains(stack0[i]));
            let j = choose|j: int| 0 <= j < seen0.len() && seen0[j] == stack0[i];
            assert(seen1[j] == stack0[i]);
        } else {
            assert(seen1.last() == p);
        }
    }
}

/// Pushes every underived, not yet seen parent of `c` onto `seen` and
/// `stack`, leaving `c` fully expanded.
fn expand_commit<M: DerivedMapping>(
    g: &CommitGraph,
    mapping: &M,
    c: u64,
    seen: &mut Vec<u64>,
    stack: &mut Vec<u64>,
    Ghost(targets): Ghost<Seq<u64>>,
)
    requires
        g.wf(),
        g.spec_contains(c),
        sound_elem(*g, mapping.entries(), targets, c),
        old(seen)@.no_duplicates(),
        old(stack)@.no_duplicates(),
        forall|i: int|
            0 <= i < old(seen)@.len() ==> sound_elem(
                *g,
                mapping.entries(),
                targets,
                #[trigger] old(seen)@[i],
            ),
        forall|i: int| 0 <= i < old(stack)@.len() ==> old(seen)@.contains(#[trigger] old(stack)@[i]),
    ensures
        final(seen)@.no_duplicates(),
        final(stack)@.no_duplicates(),
        old(seen)@.is_prefix_of(final(seen)@),
        old(stack)@.is_prefix_of(final(stack)@),
        forall|i: int|
            0 <= i < final(seen)@.len() ==> sound_elem(
                *g,
                mapping.entries(),
                targets,
                #[trigger] final(seen)@[i],
            ),
        forall|i: int|
            0 <= i < final(stack)@.len() ==> final(seen)@.contains(#[trigger] final(stack)@[i]),
        expanded(*g, mapping.entries(), final(seen)@, c),
        final(seen)@.skip(old(seen)@.len() as int) == final(stack)@.skip(
            old(stack)@.len() as int,
        ),
        final(seen)@.len() - old(seen)@.len() == final(stack)@.len() - old(stack)@.len(),
{
    let ghost m0 = mapping.entries();
    let idx = match g.find_index(c) {
        Some(i) => i,
        None => {
            proof {
                assert(false);
            }
            0
        },
    };
    let node = g.commit_at(idx);
    proof {
        g.lemma_idx_of(c);
        assert(node.parents@ == g.parents_of(c));
    }
    let n = node.parents.len();
    let mut k: usize = 0;
    while k < n
        invariant
            g.wf(),
            g.spec_contains(c),
            sound_elem(*g, m0, targets, c),
            m0 == mapping.entries(),
            node.parents@ == g.parents_of(c),
            n == node.parents@.len(),
            k <= n,
            seen@.no_duplicates(),
            stack@.no_duplicates(),
            old(seen)@.is_prefix_of(seen@),
            old(stack)@.is_prefix_of(stack@),
            forall|i: int|
                0 <= i < seen@.len() ==> sound_elem(*g, m0, targets, #[trigger] seen@[i]),
            forall|i: int| 0 <= i < stack@.len() ==> seen@.contains(#[trigger] stack@[i]),
            forall|j: int|
                0 <= j < k ==> m0.contains_key(#[trigger] g.parents_of(c)[j]) || seen@.contains(
                    g.parents_of(c)[j],
                ),
            seen@.skip(old(seen)@.len() as int) == stack@.skip(old(stack)@.len() as int),
            seen@.len() - old(seen)@.len() == stack@.len() - old(stack)@.len(),
        decreases n - k,
    {
        let p = node.parents[k];
        proof {
            g.lemma_parent_idx(c, k as int);
            assert(p == g.parents_of(c)[k as int]);
        }
        match mapping.get_one(p) {
            Some(_) => {
                proof {
                    assert(m0.contains_key(p));
                }
            },
            None => {
                if vec_contains(seen, p) {
                    proof {
                        assert(seen@.contains(p));
                    }
                } else {
                    proof {
                        let ti = choose|ti: int|
                            0 <= ti < targets.len() && reachable_underived(
                                *g,
                                m0,
                                #[trigger] targets[ti],
                                c,
                            );
                        lemma_underived_extend(*g, m0, targets[ti], c, p);
                        assert(sound_elem(*g, m0, targets, p));
                        assert(!stack@.contains(p));
                    }
                    let ghost seen0 = seen@;
                    let ghost stack0 = stack@;
                    seen.push(p);
                    stack.push(p);
                    proof {
                        lemma_push_keeps_walk_state(seen0, stack0, seen@, stack@, p);
                        assert(seen@.subrange(0, old(seen)@.len() as int) =~= old(seen)@);
                        assert(stack@.subrange(0, old(stack)@.len() as int) =~= old(stack)@);
                        assert(seen@.skip(old(seen)@.len() as int) =~= seen0.skip(
                            old(seen)@.len() as int,
                        ).push(p));
                        assert(stack@.skip(old(stack)@.len() as int) =~= stack0.skip(
                            old(stack)@.len() as int,
                        ).push(p));
                        assert forall|j: int|
                            0 <= j < k implies m0.contains_key(#[trigger] g.parents_of(c)[j])
                                || seen@.contains(g.parents_of(c)[j]) by {
                            if !m0.contains_key(g.parents_of(c)[j]) {
                                lemma_contains_prefix(seen0, seen@, g.parents_of(c)[j]);
                            }
                        }
                        assert(seen@.last() == p);
                        assert(seen@.contains(p));
                    }
                }
            },
        }
        k = k + 1;
    }
}
pub proof fn lemma_closed_mapped_ancestors(g: CommitGraph, m: Map<u64, u64>, from: u64, to: u64)
    requires
        g.wf(),
        mapping_closed(g, m),
        g.spec_contains(from),
        m.contains_key(from),
        g.reaches(from, to),
    ensures
        m.contains_key(to),
    decreases g.idx_of(from),
{
    if from != to {
        g.lemma_reaches_step(from, to);
        let k = choose|k: int|
            0 <= k < g.parents_of(from).len() && g.reaches(#[trigger] g.parents_of(from)[k], to);
        g.lemma_parent_idx(from, k);
        g.lemma_idx_of(from);
        lemma_closed_mapped_ancestors(g, m, g.parents_of(from)[k], to);
    }
}

/// Collects the underived frontier of the targets by an iterative walk with
/// an explicit work list, pruning every branch at the first mapped commit.
/// With `limit` set the walk may stop early; a result shorter than the
/// limit is complete.
#[verifier::rlimit(100)]
#[verifier::spinoff_prover]
fn collect_underived<M: DerivedMapping>(
    g: &CommitGraph,
    mapping: &M,
    targets: &Vec<u64>,
    limit: Option<usize>,
) -> (r: Vec<u64>)
    requires
        g.wf(),
        forall|i: int| 0 <= i < targets@.len() ==> g.spec_contains(#[trigger] targets@[i]),
    ensures
        r@.no_duplicates(),
        forall|i: int|
            0 <= i < r@.len() ==> sound_elem(*g, mapping.entries(), targets@, #[trigger] r@[i]),
        match limit {
            Some(l) => r@.len() < l ==> covers(*g, mapping.entries(), targets@, r@),
            None => covers(*g, mapping.entries(), targets@, r@),
        },
{
    let ghost m0 = mapping.entries();
    let mut seen: Vec<u64> = Vec::new();
    let mut stack: Vec<u64> = Vec::new();
    let tn = targets.len();
    let mut i: usize = 0;
    while i < tn
        invariant
            g.wf(),
            m0 == mapping.entries(),
            forall|j: int| 0 <= j < targets@.len() ==> g.spec_contains(#[trigger] targets@[j]),
            tn == targets@.len(),
            i <= tn,
            seen@.no_duplicates(),
            stack@.no_duplicates(),
            seen@ == stack@,
            forall|j: int|
                0 <= j < seen@.len() ==> sound_elem(*g, m0, targets@, #[trigger] seen@[j]),
            forall|j: int|
                0 <= j < i ==> m0.contains_key(#[trigger] targets@[j]) || seen@.contains(
                    targets@[j],
                ),
        decreases tn - i,
    {
        let t = targets[i];
        match mapping.get_one(t) {
            Some(_) => {
                proof {
                    assert(m0.contains_key(t));
                }
            },
            None => {
                if vec_contains(&seen, t) {
                    proof {
                        assert(seen@.contains(t));
                    }
                } else {
                    proof {
                        lemma_underived_self(*g, m0, t);
                        assert(sound_elem(*g, m0, targets@, t));
                    }
                    let ghost seen0 = seen@;
                    seen.push(t);
                    stack.push(t);
                    proof {
                        lemma_push_keeps_walk_state(seen0, seen0, seen@, stack@, t);
                        assert forall|j: int|
                            0 <= j < i implies m0.contains_key(#[trigger] targets@[j])
                                || seen@.contains(targets@[j]) by {
                            if !m0.contains_key(targets@[j]) {
                                lemma_contains_prefix(seen0, seen@, targets@[j]);
                            }
                        }
                        assert(seen@.last() == t);
                        assert(seen@.contains(t));
                    }
                }
            },
        }
        i = i + 1;
    }
    let n = g.len();
    proof {
        g.lemma_distinct_ids_bound(seen@);
        assert forall|j: int| 0 <= j < seen@.len() implies g.spec_contains(
            #[trigger] seen@[j],
        ) by {
            lemma_sound_elem_contained(*g, m0, targets@, seen@[j]);
        }
        g.lemma_distinct_ids_bound(seen@);
    }
    loop
        invariant
            g.wf(),
            m0 == mapping.entries(),
            n == g.entries().len(),
            seen@.no_duplicates(),
            stack@.no_duplicates(),
            seen@.len() <= n,
            forall|j: int|
                0 <= j < seen@.len() ==> sound_elem(*g, m0, targets@, #[trigger] seen@[j]),
            forall|j: int| 0 <= j < stack@.len() ==> seen@.contains(#[trigger] stack@[j]),
            forall|j: int|
                0 <= j < targets@.len() ==> m0.contains_key(#[trigger] targets@[j])
                    || seen@.contains(targets@[j]),
            forall|j: int|
                0 <= j < seen@.len() ==> stack@.contains(#[trigger] seen@[j]) || expanded(
                    *g,
                    m0,
                    seen@,
                    seen@[j],
                ),
        ensures
            match limit {
                Some(l) => seen@.len() < l ==> stack@.len() == 0,
                None => stack@.len() == 0,
            },
        decreases n - seen@.len(), stack@.len(),
    {
        match limit {
            Some(l) => {
                if seen.len() >= l {
                    break;
                }
            },
            None => {},
        }
        if stack.len() == 0 {
            break;
        }
        let ghost seen_pre = seen@;
        let ghost stack_pre = stack@;
        let c = match stack.pop() {
            Some(c) => c,
            None => {
                proof {
                    assert(false);
                }
                0
            },
        };
        proof {
            assert(stack_pre.last() == c);
            assert(seen_pre.contains(c));
            lemma_sound_elem_contained(*g, m0, targets@, c);
        }
        expand_commit(g, mapping, c, &mut seen, &mut stack, Ghost(targets@));
        proof {
            assert forall|j: int|
                0 <= j < seen@.len() implies stack@.contains(#[trigger] seen@[j]) || expanded(
                *g,
                m0,
                seen@,
                seen@[j],
            ) by {
                let x = seen@[j];
                if j < seen_pre.len() {
                    assert(seen_pre[j] == x);
                    if x == c {
                        lemma_expanded_grows(*g, m0, seen@, seen@, x);
                    } else if stack_pre.contains(x) {
                        let sj = choose|sj: int|
                            0 <= sj < stack_pre.len() && stack_pre[sj] == x;
                        assert(sj < stack_pre.len() - 1);
                        assert(stack_pre.drop_last()[sj] == x);
                        assert(stack@.subrange(
                            0,
                            stack_pre.len() - 1,
                        ) =~= stack_pre.drop_last());
                        assert(stack@[sj] == x);
                        assert(stack@.contains(x));
                    } else {
                        assert(expanded(*g, m0, seen_pre, x));
                        lemma_expanded_grows(*g, m0, seen_pre, seen@, x);
                    }
                } else {
                    assert(seen@.skip(seen_pre.len() as int) == stack@.skip(
                        stack_pre.len() - 1,
                    ));
                    assert(seen@.skip(seen_pre.len() as int)[j - seen_pre.len()] == x);
                    assert(stack@.skip(stack_pre.len() - 1)[j - seen_pre.len()] == x);
                    assert(stack@[stack_pre.len() - 1 + (j - seen_pre.len())] == x);
                    assert(stack@.contains(x));
                }
            }
            if seen@.len() == seen_pre.len() {
                assert(seen@ =~= seen_pre);
                assert(stack@.len() == stack_pre.len() - 1);
            }
            g.lemma_distinct_ids_bound(seen@);
        }
    }
    proof {
        if stack@.len() == 0 {
            assert forall|c: u64|
                underived_of_any(*g, m0, targets@).contains(c) implies seen@.contains(c) by {
                let ti = choose|ti: int|
                    0 <= ti < targets@.len() && reachable_underived(
                        *g,
                        m0,
                        #[trigger] targets@[ti],
                        c,
                    );
                let p = choose|p: Seq<u64>|
                    is_underived_path(*g, m0, p) && p.first() == targets@[ti] && p.last() == c;
                assert(!m0.contains_key(targets@[ti]));
                assert(seen@.contains(targets@[ti]));
                assert forall|j: int|
                    0 <= j < seen@.len() implies expanded(*g, m0, seen@, #[trigger] seen@[j]) by {
                    assert(!stack@.contains(seen@[j]));
                }
                lemma_walk_complete(*g, m0, seen@, p);
            }
        }
    }
    seen
}

/// A frontier commit of a contained target is contained in the graph.
pub(crate) proof fn lemma_sound_elem_contained(g: CommitGraph, m: Map<u64, u64>, targets: Seq<u64>, c: u64)
    requires
        g.wf(),
        sound_elem(g, m, targets, c),
    ensures
        g.spec_contains(c),
        !m.contains_key(c),
{
    let ti = choose|ti: int|
        0 <= ti < targets.len() && reachable_underived(g, m, #[trigger] targets[ti], c);
    lemma_underived_reaches(g, m, targets[ti], c);
}

/// Expansion survives growing the seen list.
pub(crate) proof fn lemma_expanded_grows(g: CommitGraph, m: Map<u64, u64>, s1: Seq<u64>, s2: Seq<u64>, c: u64)
    requires
        expanded(g, m, s1, c),
        s1.is_prefix_of(s2),
    ensures
        expanded(g, m, s2, c),
{
    assert forall|k: int|
        0 <= k < g.parents_of(c).len() implies m.contains_key(#[trigger] g.parents_of(c)[k])
            || s2.contains(g.parents_of(c)[k]) by {
        if !m.contains_key(g.parents_of(c)[k]) {
            lemma_contains_prefix(s1, s2, g.parents_of(c)[k]);
        }
    }
}

/// Whether this request may derive for this type: always under the
/// force-enabled escape hatch, otherwise only when the repository has the
/// type enabled.
pub open spec fn derive_allowed(ty: TypeConfig, mode: DeriveMode) -> bool {
    mode == DeriveMode::ForceEnabled || ty.enabled
}

/// Every entry of `m1` was an entry of `m0` or lies on the underived
/// frontier of the targets: no derivation pass ever writes outside the
/// frontier it set out to derive.
pub open spec fn within_frontier(
    g: CommitGraph,
    m0: Map<u64, u64>,
    targets: Seq<u64>,
    m1: Map<u64, u64>,
) -> bool {
    forall|c: u64| #[trigger]
        m1.contains_key(c) ==> m0.contains_key(c) || underived_of_any(g, m0, targets).contains(c)
}

/// Orders collected commit ids parents-first by filtering the graph's
/// insertion order, which already lists every commit after its parents.
pub(crate) fn topo_filter(g: &CommitGraph, ids: &Vec<u64>) -> (r: Vec<u64>)
    requires
        g.wf(),
        ids@.no_duplicates(),
        forall|i: int| 0 <= i < ids@.len() ==> g.spec_contains(#[trigger] ids@[i]),
    ensures
        r@.no_duplicates(),
        r@.len() == ids@.len(),
        forall|i: int| 0 <= i < r@.len() ==> ids@.contains(#[trigger] r@[i]),
        forall|i: int| 0 <= i < ids@.len() ==> r@.contains(#[trigger] ids@[i]),
        forall|i: int, j: int|
            0 <= i < j < r@.len() ==> g.idx_of(r@[i]) < g.idx_of(r@[j]),
{
    broadcast use vstd::seq_lib::seq_to_set_is_finite;
    broadcast use vstd::set::group_set_axioms;

    let n = g.len();
    let mut r: Vec<u64> = Vec::new();
    let mut i: usize = 0;
    while i < n
        invariant
            g.wf(),
            ids@.no_duplicates(),
            forall|a: int| 0 <= a < ids@.len() ==> g.spec_contains(#[trigger] ids@[a]),
            n == g.entries().len(),
            i <= n,
            forall|a: int| 0 <= a < r@.len() ==> ids@.contains(#[trigger] r@[a]),
            forall|a: int|
                0 <= a < r@.len() ==> g.spec_contains(#[trigger] r@[a]) && g.idx_of(r@[a]) < i,
            forall|a: int, b: int| 0 <= a < b < r@.len() ==> g.idx_of(r@[a]) < g.idx_of(r@[b]),
            forall|a: int|
                0 <= a < ids@.len() && g.idx_of(#[trigger] ids@[a]) < i ==> r@.contains(ids@[a]),
        decreases n - i,
    {
        let id = g.commit_at(i).id;
        proof {
            assert(g.spec_contains(id));
            g.lemma_idx_of(id);
            assert(g.idx_of(id) == i);
        }
        if vec_contains(ids, id) {
            let ghost r0 = r@;
            r.push(id);
            proof {
                assert forall|a: int|
                    0 <= a < ids@.len() && g.idx_of(#[trigger] ids@[a]) < i + 1 implies r@.contains(
                    ids@[a],
                ) by {
                    if g.idx_of(ids@[a]) < i {
                        lemma_contains_prefix(r0, r@, ids@[a]);
                    } else {
                        g.lemma_idx_of(ids@[a]);
                        assert(ids@[a] == id);
                        assert(r@.last() == id);
                    }
                }
                assert forall|a: int| 0 <= a < r@.len() implies ids@.contains(
                    #[trigger] r@[a],
                ) by {
                    if a < r0.len() {
                        assert(r@[a] == r0[a]);
                    } else {
                        assert(r@[a] == id);
                    }
                }
            }
        } else {
            proof {
                assert forall|a: int|
                    0 <= a < ids@.len() && g.idx_of(#[trigger] ids@[a]) < i + 1 implies r@.contains(
                    ids@[a],
                ) by {
                    if g.idx_of(ids@[a]) >= i {
                        g.lemma_idx_of(ids@[a]);
                        assert(ids@[a] == id);
                        assert(ids@.contains(id));
                    }
                }
            }
        }
        i = i + 1;
    }
    proof {
        assert forall|a: int| 0 <= a < ids@.len() implies r@.contains(#[trigger] ids@[a]) by {
            g.lemma_idx_of(ids@[a]);
        }
        assert forall|a: int, b: int| 0 <= a < b < r@.len() implies r@[a] != r@[b] by {
            assert(g.idx_of(r@[a]) < g.idx_of(r@[b]));
        }
        assert(r@.to_set() =~= ids@.to_set());
        r@.unique_seq_to_set();
        ids@.unique_seq_to_set();
    }
    r
}

/// Finds the underived frontier of the targets, ordered parents-first.
/// Reused by the deriver, the counters and the graph builder; with no limit
/// the result is the whole frontier.
pub(crate) fn find_topo_sorted_underived<M: DerivedMapping>(
    g: &CommitGraph,
    mapping: &M,
    targets: &Vec<u64>,
    limit: Option<usize>,
) -> (r: Vec<u64>)
    requires
        g.wf(),
        forall|i: int| 0 <= i < targets@.len() ==> g.spec_contains(#[trigger] targets@[i]),
    ensures
        r@.no_duplicates(),
        forall|i: int, j: int|
            0 <= i < j < r@.len() ==> g.idx_of(r@[i]) < g.idx_of(r@[j]),
        forall|i: int|
            0 <= i < r@.len() ==> underived_of_any(*g, mapping.entries(), targets@).contains(
                #[trigger] r@[i],
            ),
        match limit {
            Some(l) => r@.len() < l ==> covers(*g, mapping.entries(), targets@, r@),
            None => covers(*g, mapping.entries(), targets@, r@),
        },
{
    let ghost m0 = mapping.entries();
    let collected = collect_underived(g, mapping, targets, limit);
    proof {
        assert forall|i: int| 0 <= i < collected@.len() implies g.spec_contains(
            #[trigger] collected@[i],
        ) by {
            lemma_sound_elem_contained(*g, m0, targets@, collected@[i]);
        }
    }
    let r = topo_filter(g, &collected);
    proof {
        assert forall|i: int| 0 <= i < r@.len() implies underived_of_any(
            *g,
            m0,
            targets@,
        ).contains(#[trigger] r@[i]) by {
            let a = choose|a: int| 0 <= a < collected@.len() && collected@[a] == r@[i];
            assert(sound_elem(*g, m0, targets@, collected@[a]));
        }
        assert forall|c: u64|
            underived_of_any(*g, m0, targets@).contains(c) && collected@.contains(
                c,
            ) implies #[trigger] r@.contains(c) by {
            let a = choose|a: int| 0 <= a < collected@.len() && collected@[a] == c;
        }
        assert(r@.len() == collected@.len());
    }
    r
}

/// Reads the parents' derived values from the mapping, in parent order.
/// Every parent's entry must already exist: a derivation never reads a
/// parent's value before that value was written.
fn parent_values_from<M: DerivedMapping>(mapping: &M, parents: &Vec<u64>) -> (r: Vec<u64>)
    requires
        forall|k: int|
            0 <= k < parents@.len() ==> mapping.entries().contains_key(#[trigger] parents@[k]),
    ensures
        r@.len() == parents@.len(),
        forall|k: int|
            0 <= k < parents@.len() ==> r@[k] == mapping.entries()[#[trigger] parents@[k]],
{
    let n = parents.len();
    let mut r: Vec<u64> = Vec::new();
    let mut k: usize = 0;
    while k < n
        invariant
            n == parents@.len(),
            k <= n,
            forall|j: int|
                0 <= j < parents@.len() ==> mapping.entries().contains_key(#[trigger] parents@[j]),
            r@.len() == k,
            forall|j: int|
                0 <= j < k ==> r@[j] == mapping.entries()[#[trigger] parents@[j]],
        decreases n - k,
    {
        match mapping.get_one(parents[k]) {
            Some(v) => r.push(v),
            None => {
                proof {
                    assert(false);
                }
            },
        }
        k = k + 1;
    }
    r
}

/// Membership in a pushed sequence.
proof fn lemma_contains_push(s: Seq<u64>, x: u64, y: u64)
    ensures
        s.push(x).contains(y) <==> (s.contains(y) || y == x),
{
    if s.contains(y) {
        let i = choose|i: int| 0 <= i < s.len() && s[i] == y;
        assert(s.push(x)[i] == y);
    }
    if y == x {
        assert(s.push(x).last() == y);
    }
    if s.push(x).contains(y) && y != x {
        let i = choose|i: int| 0 <= i < s.push(x).len() && s.push(x)[i] == y;
        assert(s[i] == y);
    }
}

/// A derivation target that already has an entry has an empty frontier.
proof fn lemma_mapped_frontier_empty(g: CommitGraph, m: Map<u64, u64>, t: u64)
    requires
        m.contains_key(t),
    ensures
        underived_of_any(g, m, seq![t]) =~= Set::<u64>::empty(),
{
    assert forall|c: u64| !underived_of_any(g, m, seq![t]).contains(c) by {
        if underived_of_any(g, m, seq![t]).contains(c) {
            let ti = choose|ti: int|
                0 <= ti < seq![t].len() && reachable_underived(g, m, #[trigger] seq![t][ti], c);
            assert(seq![t][ti] == t);
            let p = choose|p: Seq<u64>|
                is_underived_path(g, m, p) && p.first() == t && p.last() == c;
            assert(!m.contains_key(p[0]));
        }
    }
}

/// Derives the value of one commit, deriving any missing ancestors first.
///
/// On a cache hit the mapping is untouched: nothing is written.  Otherwise
/// the commit's underived frontier is derived parents-first; every write
/// records the canonical [`value_of`] of its commit, and a mapping entry is
/// written only after its parents' entries.  Any failure aborts the walk:
/// no entry is written for a commit whose own derivation did not succeed.
pub fn derive<M: DerivedMapping>(
    g: &CommitGraph,
    ty: &TypeConfig,
    mapping: &mut M,
    lease: &mut LeaseStore,
    csid: u64,
    mode: DeriveMode,
) -> (r: Result<u64, DeriveError>)
    requires
        g.wf(),
        mapping_correct(*g, ty.func, old(mapping).entries()),
    ensures
        mapping_correct(*g, ty.func, final(mapping).entries()),
        old(mapping).entries().submap_of(final(mapping).entries()),
        writes_closed(*g, old(mapping).entries(), final(mapping).entries()),
        (r == Err::<u64, DeriveError>(DeriveError::Disabled)) <==> !derive_allowed(*ty, mode),
        !derive_allowed(*ty, mode) ==> final(mapping).entries() == old(mapping).entries(),
        (r == Err::<u64, DeriveError>(DeriveError::UnknownCommit(csid))) <==> (derive_allowed(
            *ty,
            mode,
        ) && !g.spec_contains(csid)),
        match r {
            Err(DeriveError::UnknownCommit(t)) => t == csid,
            Err(DeriveError::Cycle) => false,
            Err(DeriveError::Failed(c)) => failed_outcome(
                *g,
                ty.func,
                old(mapping).entries(),
                csid,
                c,
                final(mapping).entries(),
            ) && !final(mapping).entries().contains_key(c),
            _ => true,
        },
        derive_allowed(*ty, mode) && !g.spec_contains(csid) ==> final(mapping).entries() == old(
            mapping,
        ).entries(),
        derive_allowed(*ty, mode) && old(mapping).entries().contains_key(csid)
            ==> final(mapping).entries() == old(mapping).entries() && r == Ok::<u64, DeriveError>(
            old(mapping).entries()[csid],
        ),
        derive_allowed(*ty, mode) && g.spec_contains(csid) ==> {
            &&& (r is Ok <==> value_of(*g, ty.func, csid) is Some)
            &&& (r is Ok ==> r.unwrap() == value_of(*g, ty.func, csid).unwrap()
                && final(mapping).entries() == derived_map(
                *g,
                ty.func,
                old(mapping).entries(),
                seq![csid],
            ))
            &&& within_frontier(
                *g,
                old(mapping).entries(),
                seq![csid],
                final(mapping).entries(),
            )
        },
{
    let ghost m0 = old(mapping).entries();
    let ghost f = ty.func;
    match mode {
        DeriveMode::OnlyIfEnabled => {
            if !ty.enabled {
                return Err(DeriveError::Disabled);
            }
        },
        DeriveMode::ForceEnabled => {},
    }
    match mapping.get_one(csid) {
        Some(v) => {
            proof {
                lemma_mapped_frontier_empty(*g, m0, csid);
                assert(mapping.entries() =~= derived_map(*g, f, m0, seq![csid]));
                assert(value_of(*g, f, csid) == Some(v));
                assert(m0.submap_of(mapping.entries()));
                assert(within_frontier(*g, m0, seq![csid], mapping.entries()));
            }
            return Ok(v);
        },
        None => {},
    }
    if !g.contains_commit(csid) {
        return Err(DeriveError::UnknownCommit(csid));
    }
    let mut targets: Vec<u64> = Vec::new();
    targets.push(csid);
    proof {
        assert(targets@ =~= seq![csid]);
    }
    let ghost tseq = targets@;
    let order = find_topo_sorted_underived(g, mapping, &targets, None);
    let n = order.len();
    let mut i: usize = 0;
    while i < n
        invariant
            g.wf(),
            f == ty.func,
            m0 == old(mapping).entries(),
            derive_allowed(*ty, mode),
            n == order@.len(),
            i <= n,
            order@.no_duplicates(),
            forall|a: int, b: int|
                0 <= a < b < n ==> g.idx_of(order@[a]) < g.idx_of(order@[b]),
            forall|a: int|
                0 <= a < n ==> underived_of_any(*g, m0, tseq).contains(#[trigger] order@[a]),
            covers(*g, m0, tseq, order@),
            tseq == seq![csid],
            g.spec_contains(csid),
            !m0.contains_key(csid),
            mapping_correct(*g, f, mapping.entries()),
            writes_closed(*g, m0, mapping.entries()),
            forall|c: u64|
                mapping.entries().contains_key(c) <==> (m0.contains_key(c) || order@.take(
                    i as int,
                ).contains(c)),
            forall|c: u64| m0.contains_key(c) ==> mapping.entries()[c] == m0[c],
        decreases n - i,
    {
        let c = order[i];
        proof {
            assert(underived_of_any(*g, m0, tseq).contains(c));
            let ti = choose|ti: int|
                0 <= ti < tseq.len() && reachable_underived(*g, m0, #[trigger] tseq[ti], c);
            assert(tseq[ti] == csid);
            lemma_underived_reaches(*g, m0, csid, c);
        }
        let idx = match g.find_index(c) {
            Some(ix) => ix,
            None => {
                proof {
                    assert(false);
                }
                0
            },
        };
        let node = g.commit_at(idx);
        proof {
            g.lemma_idx_of(c);
            assert(node.parents@ == g.parents_of(c));
            assert(node.id == c);
            assert forall|k: int|
                0 <= k < node.parents@.len() implies mapping.entries().contains_key(
                #[trigger] node.parents@[k],
            ) by {
                g.lemma_parent_idx(c, k);
                let p = g.parents_of(c)[k];
                if !m0.contains_key(p) {
                    assert(g.parents_of(c).contains(p));
                    lemma_underived_extend(*g, m0, csid, c, p);
                    assert(reachable_underived(*g, m0, tseq[0], p));
                    assert(underived_of_any(*g, m0, tseq).contains(p));
                    assert(order@.contains(p));
                    let a = choose|a: int| 0 <= a < order@.len() && order@[a] == p;
                    if a == i {
                        assert(false);
                    } else if a > i {
                        assert(g.idx_of(order@[i as int]) < g.idx_of(order@[a]));
                        assert(false);
                    }
                    assert(order@.take(i as int)[a] == p);
                    assert(order@.take(i as int).contains(p));
                }
            }
        }
        let pvals = parent_values_from(mapping, &node.parents);
        let had_lease = lease.try_acquire(&ty.name, c);
        let res = derive_from_parents(ty.func, node, &pvals);
        if had_lease {
            lease.release(&ty.name, c);
        }
        proof {
            lemma_value_of_unfold(*g, f, c);
            assert forall|k: int| 0 <= k < g.parents_of(c).len() implies value_of(
                *g,
                f,
                #[trigger] g.parents_of(c)[k],
            ) is Some by {
                assert(mapping.entries().contains_key(g.parents_of(c)[k]));
            }
            assert(pvals@ =~= Seq::new(
                g.parents_of(c).len(),
                |k: int| value_of(*g, f, g.parents_of(c)[k]).unwrap(),
            ));
            assert(value_of(*g, f, c) == spec_derive(f, c, pvals@));
        }
        match res {
            Some(v) => {
                proof {
                    assert(value_of(*g, f, c) == Some(v));
                }
                let ghost pre_entries = mapping.entries();
                mapping.put(c, v);
                proof {
                    assert(order@.take(i + 1) =~= order@.take(i as int).push(c));
                    assert forall|c2: u64|
                        mapping.entries().contains_key(c2) <==> (m0.contains_key(c2)
                            || order@.take(i + 1).contains(c2)) by {
                        lemma_contains_push(order@.take(i as int), c, c2);
                    }
                    assert forall|c2: u64| #[trigger]
                        mapping.entries().contains_key(c2) && !m0.contains_key(
                            c2,
                        ) implies forall|k: int|
                        0 <= k < g.parents_of(c2).len() ==> mapping.entries().contains_key(
                            #[trigger] g.parents_of(c2)[k],
                        ) by {
                        assert forall|k: int|
                            0 <= k < g.parents_of(c2).len() implies mapping.entries().contains_key(
                            #[trigger] g.parents_of(c2)[k],
                        ) by {
                            if c2 == c {
                                assert(g.parents_of(c)[k] == node.parents@[k]);
                                assert(pre_entries.contains_key(node.parents@[k]));
                                assert(pre_entries.dom().contains(node.parents@[k]));
                            } else {
                                assert(pre_entries.contains_key(c2));
                                assert(pre_entries.contains_key(g.parents_of(c2)[k]));
                                assert(pre_entries.dom().contains(g.parents_of(c2)[k]));
                            }
                        }
                    }
                    assert(writes_closed(*g, m0, mapping.entries()));
                }
            },
            None => {
                proof {
                    assert(value_of(*g, f, c) is None);
                    lemma_value_none_propagates(*g, f, csid, c);
                    assert forall|c2: u64| #[trigger]
                        mapping.entries().contains_key(c2) implies m0.contains_key(c2)
                            || underived_of_any(*g, m0, tseq).contains(c2) by {
                        if !m0.contains_key(c2) {
                            let a = choose|a: int|
                                0 <= a < order@.take(i as int).len() && order@.take(i as int)[a]
                                    == c2;
                            assert(order@[a] == c2);
                        }
                    }
                    assert(within_frontier(*g, m0, tseq, mapping.entries()));
                    assert forall|c2: u64|
                        m0.contains_key(c2) implies mapping.entries().contains_key(c2)
                            && mapping.entries()[c2] == m0[c2] by {}
                    assert(m0.submap_of(mapping.entries()));
                    if order@.take(i as int).contains(c) {
                        let a = choose|a: int|
                            0 <= a < order@.take(i as int).len() && order@.take(i as int)[a] == c;
                        assert(order@[a] == c && order@[i as int] == c);
                        assert(false);
                    }
                    assert(!mapping.entries().contains_key(c));
                    assert forall|c2: u64|
                        underived_of_any(*g, m0, tseq).contains(c2) && g.idx_of(c2) < g.idx_of(
                            c,
                        ) implies (#[trigger] value_of(*g, f, c2)) is Some by {
                        assert(order@.contains(c2));
                        let a = choose|a: int| 0 <= a < order@.len() && order@[a] == c2;
                        if a == i {
                            assert(c2 == c);
                            assert(false);
                        } else if a > i {
                            assert(g.idx_of(order@[i as int]) < g.idx_of(order@[a]));
                            assert(false);
                        }
                        assert(order@.take(i as int)[a] == c2);
                        assert(order@.take(i as int).contains(c2));
                        assert(mapping.entries().contains_key(c2));
                    }
                    assert forall|c2: u64| #[trigger]
                        mapping.entries().contains_key(c2) <==> (m0.contains_key(c2) || (
                        underived_of_any(*g, m0, tseq).contains(c2) && g.idx_of(c2) < g.idx_of(
                            c,
                        ))) by {
                        if mapping.entries().contains_key(c2) && !m0.contains_key(c2) {
                            let a = choose|a: int|
                                0 <= a < order@.take(i as int).len() && order@.take(i as int)[a]
                                    == c2;
                            assert(order@[a] == c2);
                            assert(underived_of_any(*g, m0, tseq).contains(c2));
                            assert(g.idx_of(order@[a]) < g.idx_of(order@[i as int]));
                        }
                        if !m0.contains_key(c2) && underived_of_any(*g, m0, tseq).contains(c2)
                            && g.idx_of(c2) < g.idx_of(c) {
                            assert(order@.contains(c2));
                            let a = choose|a: int| 0 <= a < order@.len() && order@[a] == c2;
                            if a == i {
                                assert(false);
                            } else if a > i {
                                assert(g.idx_of(order@[i as int]) < g.idx_of(order@[a]));
                                assert(false);
                            }
                            assert(order@.take(i as int)[a] == c2);
                            assert(order@.take(i as int).contains(c2));
                        }
                    }
                    assert(failed_outcome(*g, f, m0, csid, c, mapping.entries()));
                }
                return Err(DeriveError::Failed(c));
            },
        }
        i = i + 1;
    }
    proof {
        lemma_underived_self(*g, m0, csid);
        assert(reachable_underived(*g, m0, tseq[0], csid));
        assert(underived_of_any(*g, m0, tseq).contains(csid));
        assert(order@.contains(csid));
        assert(order@.take(n as int) =~= order@);
        assert forall|c2: u64|
            mapping.entries().contains_key(c2) <==> (m0.contains_key(c2) || underived_of_any(
                *g,
                m0,
                tseq,
            ).contains(c2)) by {
            if order@.contains(c2) {
                let a = choose|a: int| 0 <= a < order@.len() && order@[a] == c2;
            }
        }
        assert(mapping.entries() =~= derived_map(*g, f, m0, tseq));
        assert(within_frontier(*g, m0, tseq, mapping.entries()));
        assert(m0.submap_of(mapping.entries()));
    }
    match mapping.get_one(csid) {
        Some(v) => Ok(v),
        None => {
            proof {
                assert(false);
            }
            Err(DeriveError::Failed(csid))
        },
    }
}

/// Fetches the derived value without triggering derivation.
pub fn fetch_derived<M: DerivedMapping>(mapping: &M, csid: u64) -> (r: Option<u64>)
    ensures
        r == (if mapping.entries().contains_key(csid) {
            Some(mapping.entries()[csid])
        } else {
            None::<u64>
        }),
{
    mapping.get_one(csid)
}

/// Counts the commit's underived ancestors, capped at `limit`: the result
/// is the smaller of the true frontier size and the limit, however deep the
/// history is.
pub fn count_underived<M: DerivedMapping>(
    g: &CommitGraph,
    ty: &TypeConfig,
    mapping: &M,
    csid: u64,
    limit: u64,
) -> (r: Result<u64, DeriveError>)
    requires
        g.wf(),
    ensures
        (r == Err::<u64, DeriveError>(DeriveError::Disabled)) <==> !ty.enabled,
        (r == Err::<u64, DeriveError>(DeriveError::UnknownCommit(csid))) <==> (ty.enabled
            && !g.spec_contains(csid)),
        ty.enabled && g.spec_contains(csid) ==> r == Ok::<u64, DeriveError>(
            if underived_of_any(*g, mapping.entries(), seq![csid]).len() <= limit {
                (underived_of_any(*g, mapping.entries(), seq![csid]).len()) as u64
            } else {
                limit
            },
        ),
        ty.enabled && g.spec_contains(csid) && mapping_closed(*g, mapping.entries()) ==> r
            == Ok::<u64, DeriveError>(
            if Set::new(
                |a: u64| g.reaches(csid, a) && !mapping.entries().contains_key(a),
            ).len() <= limit {
                (Set::new(
                    |a: u64| g.reaches(csid, a) && !mapping.entries().contains_key(a),
                ).len()) as u64
            } else {
                limit
            },
        ),
{
    broadcast use vstd::set::group_set_axioms;

    if !ty.enabled {
        return Err(DeriveError::Disabled);
    }
    if !g.contains_commit(csid) {
        return Err(DeriveError::UnknownCommit(csid));
    }
    let ghost m0 = mapping.entries();
    let ghost u = underived_of_any(*g, m0, seq![csid]);
    let mut targets: Vec<u64> = Vec::new();
    targets.push(csid);
    proof {
        assert(targets@ =~= seq![csid]);
        assert forall|c: u64| u.contains(c) implies g.spec_contains(c) by {
            lemma_sound_elem_contained(*g, m0, targets@, c);
        }
        g.lemma_contained_set_finite(u);
    }
    let n = g.len();
    let unlimited = limit >= n as u64;
    let found = if unlimited {
        collect_underived(g, mapping, &targets, None)
    } else {
        collect_underived(g, mapping, &targets, Some(limit as usize))
    };
    proof {
        found@.unique_seq_to_set();
        assert forall|c: u64| found@.to_set().contains(c) implies u.contains(c) by {
            let i = choose|i: int| 0 <= i < found@.len() && found@[i] == c;
            assert(sound_elem(*g, m0, targets@, c));
        }
        vstd::set_lib::lemma_len_subset(found@.to_set(), u);
        if unlimited || found@.len() < limit as usize as int {
            assert(covers(*g, m0, targets@, found@));
            assert forall|c: u64| u.contains(c) implies found@.to_set().contains(c) by {
                assert(found@.contains(c));
            }
            assert(found@.to_set() =~= u);
        }
    }
    proof {
        if mapping_closed(*g, m0) {
            let truth = Set::new(|a: u64| g.reaches(csid, a) && !m0.contains_key(a));
            assert forall|a: u64| u.contains(a) <==> truth.contains(a) by {
                if u.contains(a) {
                    assert(reachable_underived(*g, m0, seq![csid][0], a));
                    lemma_underived_reaches(*g, m0, csid, a);
                }
                if truth.contains(a) {
                    if m0.contains_key(csid) {
                        lemma_closed_mapped_ancestors(*g, m0, csid, a);
                        assert(false);
                    }
                    lemma_closed_frontier(*g, m0, csid, a);
                    assert(reachable_underived(*g, m0, seq![csid][0], a));
                }
            }
            assert(u =~= truth);
        }
    }
    let len = found.len() as u64;
    if unlimited {
        Ok(len)
    } else if len < limit {
        Ok(len)
    } else {
        Ok(limit)
    }
}

/// Whether the commit's value is already derived: true exactly when its
/// mapping entry exists.
pub fn is_derived<M: DerivedMapping>(
    g: &CommitGraph,
    ty: &TypeConfig,
    mapping: &M,
    csid: u64,
) -> (r: Result<bool, DeriveError>)
    requires
        g.wf(),
    ensures
        (r == Err::<bool, DeriveError>(DeriveError::Disabled)) <==> !ty.enabled,
        (r == Err::<bool, DeriveError>(DeriveError::UnknownCommit(csid))) <==> (ty.enabled
            && !g.spec_contains(csid)),
        ty.enabled && g.spec_contains(csid) ==> r == Ok::<bool, DeriveError>(
            mapping.entries().contains_key(csid),
        ),
{
    let count = count_underived(g, ty, mapping, csid, 1);
    match count {
        Ok(c) => {
            proof {
                let ghost m0 = mapping.entries();
                if m0.contains_key(csid) {
                    lemma_mapped_frontier_empty(*g, m0, csid);
                    assert(underived_of_any(*g, m0, seq![csid]).len() == 0);
                } else {
                    lemma_underived_self(*g, m0, csid);
                    assert(seq![csid][0] == csid);
                    assert(underived_of_any(*g, m0, seq![csid]).contains(csid));
                    assert(underived_of_any(*g, m0, seq![csid]).remove(csid).len() + 1
                        == underived_of_any(*g, m0, seq![csid]).len()) by {
                        g.lemma_contained_set_finite(underived_of_any(*g, m0, seq![csid]));
                        assert forall|c: u64|
                            underived_of_any(*g, m0, seq![csid]).contains(c) implies g.spec_contains(
                            c,
                        ) by {
                            lemma_sound_elem_contained(*g, m0, seq![csid], c);
                        }
                    }
                }
            }
            Ok(c == 0)
        },
        Err(e) => Err(e),
    }
}

/// Lists every underived ancestor of the given commits, ordered so that
/// every commit appears after all of its parents.
pub fn find_all_underived_ancestors<M: DerivedMapping>(
    g: &CommitGraph,
    ty: &TypeConfig,
    mapping: &M,
    csids: &Vec<u64>,
) -> (r: Result<Vec<u64>, DeriveError>)
    requires
        g.wf(),
    ensures
        (r == Err::<Vec<u64>, DeriveError>(DeriveError::Disabled)) <==> !ty.enabled,
        ty.enabled ==> match r {
            Ok(v) => {
                &&& (forall|i: int| 0 <= i < csids@.len() ==> g.spec_contains(#[trigger] csids@[i]))
                &&& v@.no_duplicates()
                &&& (forall|i: int, j: int|
                    0 <= i < j < v@.len() ==> g.idx_of(v@[i]) < g.idx_of(v@[j]))
                &&& (forall|i: int|
                    0 <= i < v@.len() ==> underived_of_any(*g, mapping.entries(), csids@).contains(
                        #[trigger] v@[i],
                    ))
                &&& covers(*g, mapping.entries(), csids@, v@)
            },
            Err(DeriveError::UnknownCommit(t)) => csids@.contains(t) && !g.spec_contains(t),
            Err(_) => false,
        },
{
    if !ty.enabled {
        return Err(DeriveError::Disabled);
    }
    let n = csids.len();
    let mut i: usize = 0;
    while i < n
        invariant
            g.wf(),
            ty.enabled,
            n == csids@.len(),
            i <= n,
            forall|j: int| 0 <= j < i ==> g.spec_contains(#[trigger] csids@[j]),
        decreases n - i,
    {
        if !g.contains_commit(csids[i]) {
            return Err(DeriveError::UnknownCommit(csids[i]));
        }
        i = i + 1;
    }
    Ok(find_topo_sorted_underived(g, mapping, csids, None))
}

/// A tail of a frontier path is a frontier path.
proof fn lemma_path_suffix(g: CommitGraph, m: Map<u64, u64>, p: Seq<u64>, j: int)
    requires
        is_underived_path(g, m, p),
        0 <= j < p.len(),
    ensures
        is_underived_path(g, m, p.skip(j)),
        p.skip(j).first() == p[j],
        p.skip(j).last() == p.last(),
{
    let q = p.skip(j);
    assert forall|i: int| 0 <= i < q.len() implies g.spec_contains(#[trigger] q[i])
        && !m.contains_key(q[i]) by {
        assert(q[i] == p[i + j]);
    }
    assert forall|i: int| 1 <= i < q.len() implies g.parents_of(q[i - 1]).contains(
        #[trigger] q[i],
    ) by {
        assert(q[i] == p[i + j] && q[i - 1] == p[i + j - 1]);
        assert(g.parents_of(p[i + j - 1]).contains(p[i + j]));
    }
}

/// Idempotence of derivation: deriving a target twice is the same as
/// deriving it once.  After the first pass the target has an entry, so the
/// second pass finds an empty frontier and writes nothing.
pub proof fn lemma_derive_idempotent(g: CommitGraph, f: DeriveFunction, m: Map<u64, u64>, t: u64)
    ensures
        derived_map(g, f, derived_map(g, f, m, seq![t]), seq![t]) == derived_map(
            g,
            f,
            m,
            seq![t],
        ),
{
    let m1 = derived_map(g, f, m, seq![t]);
    if m1.contains_key(t) {
        lemma_mapped_frontier_empty(g, m1, t);
        assert(derived_map(g, f, m1, seq![t]) =~= m1);
    } else {
        assert(!m.contains_key(t));
        assert(!underived_of_any(g, m, seq![t]).contains(t));
        assert forall|c: u64| !underived_of_any(g, m1, seq![t]).contains(c) by {
            if underived_of_any(g, m1, seq![t]).contains(c) {
                let ti = choose|ti: int|
                    0 <= ti < seq![t].len() && reachable_underived(
                        g,
                        m1,
                        #[trigger] seq![t][ti],
                        c,
                    );
                let p = choose|p: Seq<u64>|
                    is_underived_path(g, m1, p) && p.first() == t && p.last() == c;
                assert(g.spec_contains(p[0]));
                lemma_underived_self(g, m, t);
                assert(reachable_underived(g, m, seq![t][0], t));
                assert(underived_of_any(g, m, seq![t]).contains(t));
            }
        }
        assert(derived_map(g, f, m1, seq![t]) =~= m1);
    }
}

/// Composition of derivation passes: deriving the targets of `ts1` and then
/// those of `ts2` leaves exactly the mapping of deriving `ts1 + ts2` in one
/// pass.  This is what makes interrupted backfills resumable.
pub proof fn lemma_derived_map_compose(
    g: CommitGraph,
    f: DeriveFunction,
    m: Map<u64, u64>,
    ts1: Seq<u64>,
    ts2: Seq<u64>,
)
    requires
        g.wf(),
    ensures
        derived_map(g, f, derived_map(g, f, m, ts1), ts2) == derived_map(g, f, m, ts1 + ts2),
{
    let m1 = derived_map(g, f, m, ts1);
    let lhs = derived_map(g, f, m1, ts2);
    let rhs = derived_map(g, f, m, ts1 + ts2);
    assert forall|c: u64| lhs.contains_key(c) implies rhs.contains_key(c) by {
        if m1.contains_key(c) && !m.contains_key(c) {
            let ti = choose|ti: int|
                0 <= ti < ts1.len() && reachable_underived(g, m, #[trigger] ts1[ti], c);
            assert((ts1 + ts2)[ti] == ts1[ti]);
            assert(underived_of_any(g, m, ts1 + ts2).contains(c));
        }
        if !m1.contains_key(c) {
            let ti = choose|ti: int|
                0 <= ti < ts2.len() && reachable_underived(g, m1, #[trigger] ts2[ti], c);
            let p = choose|p: Seq<u64>|
                is_underived_path(g, m1, p) && p.first() == ts2[ti] && p.last() == c;
            assert forall|i: int| 0 <= i < p.len() implies g.spec_contains(#[trigger] p[i])
                && !m.contains_key(p[i]) by {
                assert(!m1.contains_key(p[i]));
            }
            assert(is_underived_path(g, m, p));
            assert(reachable_underived(g, m, ts2[ti], c));
            assert((ts1 + ts2)[ts1.len() + ti] == ts2[ti]);
            assert(underived_of_any(g, m, ts1 + ts2).contains(c));
        }
    }
    assert forall|c: u64| rhs.contains_key(c) implies lhs.contains_key(c) by {
        if !m.contains_key(c) && underived_of_any(g, m, ts1 + ts2).contains(c) {
            let ti = choose|ti: int|
                0 <= ti < (ts1 + ts2).len() && reachable_underived(
                    g,
                    m,
                    #[trigger] (ts1 + ts2)[ti],
                    c,
                );
            if ti < ts1.len() {
                assert(ts1[ti] == (ts1 + ts2)[ti]);
                assert(underived_of_any(g, m, ts1).contains(c));
                assert(m1.contains_key(c));
            } else {
                let t = (ts1 + ts2)[ti];
                assert(t == ts2[ti - ts1.len()]);
                let p = choose|p: Seq<u64>|
                    is_underived_path(g, m, p) && p.first() == t && p.last() == c;
                if exists|j: int|
                    0 <= j < p.len() && underived_of_any(g, m, ts1).contains(#[trigger] p[j]) {
                    let j = choose|j: int|
                        0 <= j < p.len() && underived_of_any(g, m, ts1).contains(#[trigger] p[j]);
                    let tj = choose|tj: int|
                        0 <= tj < ts1.len() && reachable_underived(g, m, #[trigger] ts1[tj], p[j]);
                    lemma_path_suffix(g, m, p, j);
                    assert(reachable_underived(g, m, p[j], c));
                    lemma_underived_concat(g, m, ts1[tj], p[j], c);
                    assert(underived_of_any(g, m, ts1).contains(c));
                    assert(m1.contains_key(c));
                } else {
                    assert forall|i: int| 0 <= i < p.len() implies g.spec_contains(
                        #[trigger] p[i],
                    ) && !m1.contains_key(p[i]) by {
                        assert(!underived_of_any(g, m, ts1).contains(p[i]));
                        assert(!m.contains_key(p[i]));
                    }
                    assert(is_underived_path(g, m1, p));
                    assert(reachable_underived(g, m1, ts2[ti - ts1.len()], c));
                    assert(underived_of_any(g, m1, ts2).contains(c));
                }
            }
        }
    }
    assert forall|c: u64| lhs.contains_key(c) && rhs.contains_key(c) implies lhs[c] == rhs[c] by {
        if m.contains_key(c) {
            assert(m1[c] == m[c]);
        } else if m1.contains_key(c) {
            assert(m1[c] == value_of(g, f, c).unwrap());
        }
    }
    assert(lhs =~= rhs);
}

/// Derivation preserves the topological invariant: if every mapped commit's
/// parents were mapped before a pass, the same holds after it, because the
/// pass only adds a commit together with all of its missing ancestors.
pub proof fn lemma_derived_map_closed(
    g: CommitGraph,
    f: DeriveFunction,
    m: Map<u64, u64>,
    targets: Seq<u64>,
)
    requires
        g.wf(),
        mapping_closed(g, m),
    ensures
        mapping_closed(g, derived_map(g, f, m, targets)),
{
    let m1 = derived_map(g, f, m, targets);
    assert forall|c: u64| #[trigger] m1.contains_key(c) implies forall|k: int|
        0 <= k < g.parents_of(c).len() ==> m1.contains_key(#[trigger] g.parents_of(c)[k]) by {
        assert forall|k: int| 0 <= k < g.parents_of(c).len() implies m1.contains_key(
            #[trigger] g.parents_of(c)[k],
        ) by {
            let p = g.parents_of(c)[k];
            if m.contains_key(c) {
                assert(m.contains_key(p));
            } else {
                let ti = choose|ti: int|
                    0 <= ti < targets.len() && reachable_underived(g, m, #[trigger] targets[ti], c);
                lemma_underived_reaches(g, m, targets[ti], c);
                g.lemma_parent_idx(c, k);
                if !m.contains_key(p) {
                    assert(g.parents_of(c).contains(p));
                    lemma_underived_extend(g, m, targets[ti], c, p);
                    assert(underived_of_any(g, m, targets).contains(p));
                }
            }
        }
    }
}

} // verus!
