//! The derivation contract: the pure function each derived-data type
//! supplies, and the canonical value it assigns to every commit.
//!
//! A derived value must be a deterministic function of the commit and the
//! ordered derived values of its parents.  The set of derivation functions
//! is closed at build time, so it is a tagged union; [`spec_derive`] is the
//! mathematical statement of each function and [`derive_from_parents`] is
//! its executable form, proved to agree with it — which is exactly the
//! determinism the engine relies on.
//!
//! [`value_of`] lifts the per-commit function to the whole graph: it is the
//! unique value a commit's mapping entry may ever hold.

use vstd::prelude::*;

use crate::graph::Commit;
use crate::graph::CommitGraph;

verus! {

/// A derivation function of the closed set of derived-data types.
#[derive(Clone, Copy, PartialEq, Eq, Structural, Debug)]
pub enum DeriveFunction {
    /// The sum of the parents' derived values plus one (a root gets one).
    /// Arithmetic is checked: a sum beyond `u64::MAX` is a derivation error.
    SumPlusOne,
    /// Behaves like `SumPlusOne` but fails on one configured commit id;
    /// models a derivation function with a failing input.
    FailOn(u64),
}

/// One derived-data type as configured for a repository: its stable name,
/// its derivation function, whether the repository has it enabled, and the
/// registry indices of the types it depends on.
#[derive(Debug)]
pub struct TypeConfig {
    pub name: String,
    pub func: DeriveFunction,
    pub enabled: bool,
    pub prereqs: Vec<usize>,
}

/// The sum of a sequence of values, as an unbounded integer.
pub open spec fn seq_sum(vals: Seq<u64>) -> int
    decreases vals.len(),
{
    if vals.len() == 0 {
        0
    } else {
        seq_sum(vals.drop_last()) + vals.last()
    }
}

/// A sum of unsigned values is never negative.
pub proof fn lemma_seq_sum_nonneg(vals: Seq<u64>)
    ensures
        seq_sum(vals) >= 0,
    decreases vals.len(),
{
    if vals.len() > 0 {
        lemma_seq_sum_nonneg(vals.drop_last());
    }
}

/// The sum of a prefix never exceeds the sum of the whole sequence.
pub proof fn lemma_seq_sum_take(vals: Seq<u64>, i: int)
    requires
        0 <= i <= vals.len(),
    ensures
        seq_sum(vals.take(i)) <= seq_sum(vals),
    decreases vals.len() - i,
{
    if i < vals.len() {
        assert(vals.take(i + 1).drop_last() =~= vals.take(i));
        assert(vals.take(i + 1).last() == vals[i]);
        assert(seq_sum(vals.take(i)) <= seq_sum(vals.take(i + 1)));
        lemma_seq_sum_take(vals, i + 1);
    } else {
        assert(vals.take(i) =~= vals);
    }
}

/// What `SumPlusOne` returns: the checked sum of the parent values plus one.
pub open spec fn spec_sum_plus_one(parent_vals: Seq<u64>) -> Option<u64> {
    if seq_sum(parent_vals) + 1 <= u64::MAX {
        Some((seq_sum(parent_vals) + 1) as u64)
    } else {
        None
    }
}

/// What a derivation function returns for a commit and its ordered parent
/// values; `None` is a derivation error.  Every function here is a pure
/// function of its arguments: that is the determinism contract.
pub open spec fn spec_derive(f: DeriveFunction, commit_id: u64, parent_vals: Seq<u64>) -> Option<
    u64,
> {
    match f {
        DeriveFunction::SumPlusOne => spec_sum_plus_one(parent_vals),
        DeriveFunction::FailOn(bad) => if commit_id == bad {
            None
        } else {
            spec_sum_plus_one(parent_vals)
        },
    }
}

/// Sums the values, reporting overflow instead of wrapping.
fn sum_values(vals: &Vec<u64>) -> (r: Option<u64>)
    ensures
        seq_sum(vals@) >= 0,
        seq_sum(vals@) <= u64::MAX ==> r == Some((seq_sum(vals@)) as u64),
        seq_sum(vals@) > u64::MAX ==> r is None,
{
    proof {
        lemma_seq_sum_nonneg(vals@);
    }
    let n = vals.len();
    let mut acc: u64 = 0;
    let mut i: usize = 0;
    while i < n
        invariant
            n == vals@.len(),
            i <= n,
            acc == seq_sum(vals@.take(i as int)),
        decreases n - i,
    {
        proof {
            assert(vals@.take(i + 1).drop_last() =~= vals@.take(i as int));
            assert(vals@.take(i + 1).last() == vals@[i as int]);
        }
        acc = match acc.checked_add(vals[i]) {
            Some(a) => a,
            None => {
                proof {
                    lemma_seq_sum_take(vals@, i + 1);
                }
                return None;
            },
        };
        i = i + 1;
    }
    proof {
        assert(vals@.take(n as int) =~= vals@);
    }
    Some(acc)
}

/// Runs a derivation function on a commit and its ordered parent values.
///
/// The result equals [`spec_derive`] on the same inputs, so identical
/// inputs always give identical output, independent of call order,
/// batching, or interleaving.
pub fn derive_from_parents(f: DeriveFunction, commit: &Commit, parent_vals: &Vec<u64>) -> (r:
    Option<u64>)
    ensures
        r == spec_derive(f, commit.id, parent_vals@),
{
    match f {
        DeriveFunction::FailOn(bad) => {
            if commit.id == bad {
                return None;
            }
        },
        DeriveFunction::SumPlusOne => {},
    }
    match sum_values(parent_vals) {
        Some(s) => s.checked_add(1),
        None => None,
    }
}

/// The canonical derived values of the parents listed in `ps`, oldest
/// first; `None` when any parent's own derivation fails.  `bound` caps the
/// graph indices of the ids in `ps` and serves only as the termination
/// measure.
pub open spec fn parent_values(g: CommitGraph, f: DeriveFunction, ps: Seq<u64>, bound: int) -> Option<
    Seq<u64>,
>
    decreases bound, 0int, ps.len(),
    when g.wf() && g.all_below(ps, bound)
    via parent_values_decreases
{
    if ps.len() == 0 {
        Some(Seq::empty())
    } else {
        match value_of(g, f, ps[0]) {
            None => None,
            Some(v) => match parent_values(g, f, ps.drop_first(), bound) {
                None => None,
                Some(rest) => Some(seq![v] + rest),
            },
        }
    }
}

/// The canonical derived value of a commit: what the derivation function
/// yields from the commit and the canonical values of its parents, or
/// `None` when the function fails on the commit or on any ancestor.
pub open spec fn value_of(g: CommitGraph, f: DeriveFunction, c: u64) -> Option<u64>
    decreases g.idx_of(c), 1int, 0int,
    when g.wf() && g.spec_contains(c)
    via value_of_decreases
{
    match parent_values(g, f, g.parents_of(c), g.idx_of(c)) {
        None => None,
        Some(vals) => spec_derive(f, c, vals),
    }
}

#[via_fn]
proof fn parent_values_decreases(g: CommitGraph, f: DeriveFunction, ps: Seq<u64>, bound: int) {
    if g.wf() && g.all_below(ps, bound) && ps.len() > 0 {
        assert(g.spec_contains(ps[0]) && g.idx_of(ps[0]) < bound);
        assert forall|k: int| 0 <= k < ps.drop_first().len() implies g.spec_contains(
            #[trigger] ps.drop_first()[k],
        ) && g.idx_of(ps.drop_first()[k]) < bound by {
            assert(ps.drop_first()[k] == ps[k + 1]);
        }
    }
}

#[via_fn]
proof fn value_of_decreases(g: CommitGraph, f: DeriveFunction, c: u64) {
    if g.wf() && g.spec_contains(c) {
        g.lemma_idx_of(c);
        assert forall|k: int| 0 <= k < g.parents_of(c).len() implies g.spec_contains(
            #[trigger] g.parents_of(c)[k],
        ) && g.idx_of(g.parents_of(c)[k]) < g.idx_of(c) by {
            g.lemma_parent_idx(c, k);
        }
    }
}

/// `parent_values` is `Some` exactly when every listed parent has a value,
/// and then lists those values in order.  In particular the result does not
/// depend on `bound`.
pub proof fn lemma_parent_values(g: CommitGraph, f: DeriveFunction, ps: Seq<u64>, bound: int)
    requires
        g.wf(),
        g.all_below(ps, bound),
    ensures
        (parent_values(g, f, ps, bound) is Some) <==> (forall|k: int|
            0 <= k < ps.len() ==> value_of(g, f, #[trigger] ps[k]) is Some),
        parent_values(g, f, ps, bound) is Some ==> {
            let vals = parent_values(g, f, ps, bound).unwrap();
            vals.len() == ps.len() && (forall|k: int|
                0 <= k < ps.len() ==> vals[k] == value_of(g, f, #[trigger] ps[k]).unwrap())
        },
    decreases ps.len(),
{
    if ps.len() > 0 {
        assert forall|k: int| 0 <= k < ps.drop_first().len() implies g.spec_contains(
            #[trigger] ps.drop_first()[k],
        ) && g.idx_of(ps.drop_first()[k]) < bound by {
            assert(ps.drop_first()[k] == ps[k + 1]);
        }
        lemma_parent_values(g, f, ps.drop_first(), bound);
        if value_of(g, f, ps[0]) is Some && parent_values(g, f, ps.drop_first(), bound) is Some {
            let v = value_of(g, f, ps[0]).unwrap();
            let rest = parent_values(g, f, ps.drop_first(), bound).unwrap();
            assert(parent_values(g, f, ps, bound) == Some(seq![v] + rest));
            assert forall|k: int| 0 <= k < ps.len() implies (seq![v] + rest)[k] == value_of(
                g,
                f,
                #[trigger] ps[k],
            ).unwrap() by {
                if k > 0 {
                    assert(ps.drop_first()[k - 1] == ps[k]);
                    assert((seq![v] + rest)[k] == rest[k - 1]);
                }
            }
            assert forall|k: int| 0 <= k < ps.len() implies value_of(
                g,
                f,
                #[trigger] ps[k],
            ) is Some by {
                if k > 0 {
                    assert(ps.drop_first()[k - 1] == ps[k]);
                }
            }
        } else {
            assert(parent_values(g, f, ps, bound) is None);
            if value_of(g, f, ps[0]) is None {
                assert(!(value_of(g, f, ps[0]) is Some));
            } else {
                let k = choose|k: int|
                    0 <= k < ps.drop_first().len() && !(value_of(
                        g,
                        f,
                        #[trigger] ps.drop_first()[k],
                    ) is Some);
                assert(ps.drop_first()[k] == ps[k + 1]);
                assert(!(value_of(g, f, ps[k + 1]) is Some));
            }
        }
    }
}

/// Unfolds [`value_of`]: when every parent has a value, the commit's value
/// is the derivation function applied to those values in order; when some
/// parent has none, the commit has none.
pub proof fn lemma_value_of_unfold(g: CommitGraph, f: DeriveFunction, c: u64)
    requires
        g.wf(),
        g.spec_contains(c),
    ensures
        (forall|k: int|
            0 <= k < g.parents_of(c).len() ==> value_of(
                g,
                f,
                #[trigger] g.parents_of(c)[k],
            ) is Some) ==> value_of(g, f, c) == spec_derive(
            f,
            c,
            Seq::new(
                g.parents_of(c).len(),
                |k: int| value_of(g, f, g.parents_of(c)[k]).unwrap(),
            ),
        ),
        (exists|k: int|
            0 <= k < g.parents_of(c).len() && value_of(
                g,
                f,
                #[trigger] g.parents_of(c)[k],
            ) is None) ==> value_of(g, f, c) is None,
{
    g.lemma_idx_of(c);
    assert forall|k: int| 0 <= k < g.parents_of(c).len() implies g.spec_contains(
        #[trigger] g.parents_of(c)[k],
    ) && g.idx_of(g.parents_of(c)[k]) < g.idx_of(c) by {
        g.lemma_parent_idx(c, k);
    }
    let ps = g.parents_of(c);
    let bound = g.idx_of(c);
    lemma_parent_values(g, f, ps, bound);
    if forall|k: int| 0 <= k < ps.len() ==> value_of(g, f, #[trigger] ps[k]) is Some {
        let vals = parent_values(g, f, ps, bound).unwrap();
        assert(vals =~= Seq::new(ps.len(), |k: int| value_of(g, f, ps[k]).unwrap()));
    }
}

/// A failed ancestor makes every descendant's value fail too.
pub proof fn lemma_value_none_propagates(g: CommitGraph, f: DeriveFunction, from: u64, to: u64)
    requires
        g.wf(),
        g.spec_contains(from),
        g.reaches(from, to),
        value_of(g, f, to) is None,
    ensures
        value_of(g, f, from) is None,
    decreases g.idx_of(from),
{
    if from != to {
        g.lemma_reaches_step(from, to);
        let k = choose|k: int|
            0 <= k < g.parents_of(from).len() && g.reaches(#[trigger] g.parents_of(from)[k], to);
        g.lemma_parent_idx(from, k);
        g.lemma_idx_of(from);
        lemma_value_none_propagates(g, f, g.parents_of(from)[k], to);
        lemma_value_of_unfold(g, f, from);
        assert(0 <= k < g.parents_of(from).len() && value_of(
            g,
            f,
            g.parents_of(from)[k],
        ) is None);
    }
}

} // verus!
