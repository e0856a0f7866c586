//! One iteration of the tailing loop, in each of its two modes.
//!
//! The perpetual loop itself — listing the current heads, pausing when
//! nothing is pending, logging — belongs to the embedding process; these
//! functions perform one iteration over a given set of heads.  Simple mode
//! derives each pending head of every enabled type through the
//! single-commit deriver; batched mode builds a derive graph across all
//! enabled types and executes it.

use vstd::prelude::*;

use crate::contract::TypeConfig;
use crate::dag::build_derive_graph;
use crate::dag::execute_derive_graph;
use crate::dag::graph_acyclic;
use crate::dag::node_holds;
use crate::dag::nodes_all_derivable;
use crate::dag::nodes_all_known;
use crate::dag::ancestor_of_any;
use crate::dag::prereq_deps;
use crate::dag::all_in_list;
use crate::dag::is_topo_order;
use crate::dag::node_deps;
use crate::dag::DeriveNode;
use crate::derive::find_topo_sorted_underived;
use crate::derive::lemma_underived_self;
use crate::derive::mapping_correct;
use crate::derive::underived_of_any;
use crate::contract::value_of;
use crate::registry::all_heads_recorded;
use crate::graph::CommitGraph;
use crate::lease::LeaseStore;
use crate::mapping::DerivedMapping;
use crate::mapping::Mapping;
use crate::registry::reg_extends;
use crate::registry::TypeRegistry;
use crate::DeriveError;
use crate::DeriveMode;

verus! {

/// What one simple-mode iteration found, for logging and pacing: how many
/// (type, head) derivations ran, and the author timestamp of the oldest
/// commit that still lacked an entry when the iteration began.
#[derive(Clone, Copy, PartialEq, Eq, Structural, Debug)]
pub struct TailStats {
    pub derived_heads: u64,
    pub oldest_underived_timestamp: Option<u64>,
}

/// The author timestamp of the oldest commit of the heads' underived
/// frontier, or `None` when nothing is underived.
pub fn find_oldest_underived(g: &CommitGraph, mapping: &Mapping, heads: &Vec<u64>) -> (r: Option<
    u64,
>)
    requires
        g.wf(),
        forall|i: int| 0 <= i < heads@.len() ==> g.spec_contains(#[trigger] heads@[i]),
    ensures
        match r {
            Some(ts) => (exists|c: u64|
                underived_of_any(*g, mapping.entries(), heads@).contains(c) && g.node_of(
                    c,
                ).timestamp == ts) && (forall|c: u64|
                underived_of_any(*g, mapping.entries(), heads@).contains(c) ==> ts
                    <= #[trigger] g.node_of(c).timestamp),
            None => forall|c: u64|
                !(#[trigger] underived_of_any(*g, mapping.entries(), heads@).contains(c)),
        },
{
    let ghost m0 = mapping.entries();
    let found = find_topo_sorted_underived(g, mapping, heads, None);
    let n = found.len();
    if n == 0 {
        proof {
            assert forall|c: u64|
                !(#[trigger] underived_of_any(*g, m0, heads@).contains(c)) by {
                if underived_of_any(*g, m0, heads@).contains(c) {
                    assert(found@.contains(c));
                }
            }
        }
        return None;
    }
    let mut best: u64 = u64::MAX;
    let mut i: usize = 0;
    let ghost mut witness: u64 = 0u64;
    let mut have = false;
    while i < n
        invariant
            g.wf(),
            m0 == mapping.entries(),
            n == found@.len(),
            n > 0,
            i <= n,
            forall|j: int|
                0 <= j < n ==> underived_of_any(*g, m0, heads@).contains(#[trigger] found@[j]),
            have == (i > 0),
            have ==> underived_of_any(*g, m0, heads@).contains(witness) && g.node_of(
                witness,
            ).timestamp == best,
            forall|j: int| 0 <= j < i ==> best <= #[trigger] g.node_of(found@[j]).timestamp,
        decreases n - i,
    {
        let c = found[i];
        let node = match g.get_commit(c) {
            Some(nd) => nd,
            None => {
                proof {
                    crate::derive::lemma_sound_elem_contained(*g, m0, heads@, c);
                    assert(false);
                }
                return None;
            },
        };
        if !have || node.timestamp < best {
            best = node.timestamp;
            proof {
                witness = c;
            }
        }
        have = true;
        i = i + 1;
    }
    proof {
        assert forall|c: u64|
            underived_of_any(*g, m0, heads@).contains(c) implies best <= #[trigger] g.node_of(
            c,
        ).timestamp by {
            assert(found@.contains(c));
            let j = choose|j: int| 0 <= j < found@.len() && found@[j] == c;
        }
    }
    Some(best)
}

/// Derives every listed head for one type, parents first, through the
/// single-commit deriver.
fn derive_heads<M: DerivedMapping>(
    g: &CommitGraph,
    ty: &TypeConfig,
    mapping: &mut M,
    lease: &mut LeaseStore,
    heads: &Vec<u64>,
) -> (r: Result<u64, DeriveError>)
    requires
        g.wf(),
        ty.enabled,
        mapping_correct(*g, ty.func, old(mapping).entries()),
        forall|i: int| 0 <= i < heads@.len() ==> g.spec_contains(#[trigger] heads@[i]),
    ensures
        mapping_correct(*g, ty.func, final(mapping).entries()),
        old(mapping).entries().submap_of(final(mapping).entries()),
        (r is Ok) <==> (forall|j: int|
            0 <= j < heads@.len() ==> (#[trigger] value_of(*g, ty.func, heads@[j])) is Some),
        match r {
            Ok(count) => forall|j: int|
                0 <= j < heads@.len() ==> final(mapping).entries().contains_key(
                    #[trigger] heads@[j],
                ),
            Err(DeriveError::Failed(c)) => g.spec_contains(c) && value_of(*g, ty.func, c) is None,
            Err(_) => false,
        },
{
    let ghost m0 = old(mapping).entries();
    let n = heads.len();
    let mut count: u64 = 0;
    let mut i: usize = 0;
    while i < n
        invariant
            g.wf(),
            ty.enabled,
            m0 == old(mapping).entries(),
            n == heads@.len(),
            i <= n,
            count <= i,
            forall|j: int| 0 <= j < heads@.len() ==> g.spec_contains(#[trigger] heads@[j]),
            mapping_correct(*g, ty.func, mapping.entries()),
            m0.submap_of(mapping.entries()),
            forall|j: int|
                0 <= j < i ==> mapping.entries().contains_key(#[trigger] heads@[j]),
            forall|j: int|
                0 <= j < i ==> (#[trigger] value_of(*g, ty.func, heads@[j])) is Some,
        decreases n - i,
    {
        let h = heads[i];
        let ghost pre = mapping.entries();
        let already = match mapping.get_one(h) {
            Some(_) => true,
            None => false,
        };
        let res = crate::derive::derive(g, ty, mapping, lease, h, DeriveMode::OnlyIfEnabled);
        proof {
            assert(pre.submap_of(mapping.entries()));
            vstd::map_lib::lemma_submap_of_trans(m0, pre, mapping.entries());
        }
        match res {
            Ok(_) => {
                proof {
                    if !pre.contains_key(h) {
                        lemma_underived_self(*g, pre, h);
                        assert(seq![h][0] == h);
                        assert(crate::derive::reachable_underived(*g, pre, seq![h][0], h));
                        assert(underived_of_any(*g, pre, seq![h]).contains(h));
                    }
                    assert(value_of(*g, ty.func, h) is Some);
                    assert(mapping.entries().contains_key(h));
                    assert forall|j: int|
                        0 <= j < i + 1 implies mapping.entries().contains_key(
                        #[trigger] heads@[j],
                    ) by {
                        if j < i {
                            assert(pre.contains_key(heads@[j]));
                            assert(pre.dom().contains(heads@[j]));
                        }
                    }
                }
                if !already {
                    count = count + 1;
                }
            },
            Err(e) => {
                match e {
                    DeriveError::Disabled => {
                        proof {
                            assert(false);
                        }
                        return Err(DeriveError::Disabled);
                    },
                    DeriveError::Cycle => {
                        proof {
                            assert(false);
                        }
                        return Err(DeriveError::Cycle);
                    },
                    DeriveError::UnknownCommit(t) => {
                        proof {
                            assert(t == h);
                            assert(g.spec_contains(h));
                            assert(false);
                        }
                        return Err(DeriveError::UnknownCommit(t));
                    },
                    DeriveError::Failed(fc) => {
                        proof {
                            assert(g.spec_contains(fc) && value_of(*g, ty.func, fc) is None);
                            assert(value_of(*g, ty.func, heads@[i as int]) is None);
                            assert(!(forall|j: int|
                                0 <= j < heads@.len() ==> (#[trigger] value_of(
                                    *g,
                                    ty.func,
                                    heads@[j],
                                )) is Some));
                        }
                        return Err(DeriveError::Failed(fc));
                    },
                }
            },
        }
        i = i + 1;
    }
    proof {
        assert forall|j: int| 0 <= j < heads@.len() implies (#[trigger] value_of(
            *g,
            ty.func,
            heads@[j],
        )) is Some by {}
    }
    Ok(count)
}

/// One simple-mode tailing iteration: for every enabled type, report the
/// age marker of its oldest underived commit, then derive every head (and
/// so its missing ancestors).  Disabled types are left alone.
pub fn tail_one_iteration(
    g: &CommitGraph,
    reg: &mut TypeRegistry,
    lease: &mut LeaseStore,
    heads: &Vec<u64>,
) -> (r: Result<TailStats, DeriveError>)
    requires
        g.wf(),
        old(reg).wf(),
        old(reg).all_correct(*g),
        forall|i: int| 0 <= i < heads@.len() ==> g.spec_contains(#[trigger] heads@[i]),
    ensures
        final(reg).wf(),
        final(reg).types_seq() == old(reg).types_seq(),
        final(reg).all_correct(*g),
        reg_extends(*old(reg), *final(reg)),
        (r is Ok) <==> (forall|t: int, j: int|
            0 <= t < old(reg).n() && old(reg).types_seq()[t].enabled && 0 <= j < heads@.len()
                ==> (#[trigger] value_of(*g, old(reg).types_seq()[t].func, heads@[j])) is Some),
        match r {
            Ok(stats) => forall|t: int, j: int|
                0 <= t < final(reg).n() && final(reg).types_seq()[t].enabled && 0 <= j
                    < heads@.len() ==> (#[trigger] final(reg).entries_at(t)).contains_key(
                    #[trigger] heads@[j],
                ),
            Err(DeriveError::Failed(c)) => g.spec_contains(c) && (exists|t: int|
                0 <= t < old(reg).n() && old(reg).types_seq()[t].enabled && value_of(
                    *g,
                    old(reg).types_seq()[t].func,
                    c,
                ) is None),
            Err(_) => false,
        },
{
    let nt = reg.len();
    let mut oldest: Option<u64> = None;
    let mut derived_total: u64 = 0;
    let mut t: usize = 0;
    while t < nt
        invariant
            g.wf(),
            nt == reg.n(),
            t <= nt,
            forall|i: int| 0 <= i < heads@.len() ==> g.spec_contains(#[trigger] heads@[i]),
            reg.wf(),
            reg.types_seq() == old(reg).types_seq(),
            reg.n() == old(reg).n(),
            reg.all_correct(*g),
            reg_extends(*old(reg), *reg),
            forall|t2: int, j: int|
                0 <= t2 < t && reg.types_seq()[t2].enabled && 0 <= j < heads@.len() ==> (
                #[trigger] reg.entries_at(t2)).contains_key(#[trigger] heads@[j]),
            forall|t2: int, j: int|
                0 <= t2 < t && reg.types_seq()[t2].enabled && 0 <= j < heads@.len() ==> (
                #[trigger] value_of(*g, reg.types_seq()[t2].func, heads@[j])) is Some,
        decreases nt - t,
    {
        let ghost reg_pre = *reg;
        let enabled = reg.get_type(t).enabled;
        if enabled {
            let age = find_oldest_underived(g, reg.mapping_at(t), heads);
            oldest = match (oldest, age) {
                (None, a) => a,
                (Some(b), None) => Some(b),
                (Some(b), Some(a)) => if a < b {
                    Some(a)
                } else {
                    Some(b)
                },
            };
            let mut m = reg.take_mapping(t);
            let res = {
                let tc = reg.get_type(t);
                derive_heads(g, tc, &mut m, lease, heads)
            };
            let ghost m_final = m.entries();
            reg.restore_mapping(t, m);
            proof {
                assert(reg.entries_at(t as int) == m_final);
                assert(reg_pre.entries_at(t as int).submap_of(m_final));
                assert forall|t2: int|
                    0 <= t2 < old(reg).n() implies old(reg).entries_at(t2).submap_of(
                    #[trigger] reg.entries_at(t2),
                ) by {
                    if t2 == t as int {
                        vstd::map_lib::lemma_submap_of_trans(
                            old(reg).entries_at(t2),
                            reg_pre.entries_at(t2),
                            reg.entries_at(t2),
                        );
                    } else {
                        assert(reg.entries_at(t2) == reg_pre.entries_at(t2));
                        assert(old(reg).entries_at(t2).submap_of(reg_pre.entries_at(t2)));
                    }
                }
                assert(reg_extends(*old(reg), *reg));
                assert forall|t2: int|
                    0 <= t2 < reg.n() implies mapping_correct(
                    *g,
                    reg.types_seq()[t2].func,
                    #[trigger] reg.entries_at(t2),
                ) by {
                    if t2 != t as int {
                        assert(reg_pre.entries_at(t2) == reg.entries_at(t2));
                        assert(mapping_correct(
                            *g,
                            reg_pre.types_seq()[t2].func,
                            reg_pre.entries_at(t2),
                        ));
                    }
                }
            }
            match res {
                Ok(c) => {
                    derived_total = if derived_total <= u64::MAX - c {
                        derived_total + c
                    } else {
                        u64::MAX
                    };
                    proof {
                        assert forall|t2: int, j: int|
                            0 <= t2 < t + 1 && reg.types_seq()[t2].enabled && 0 <= j
                                < heads@.len() implies (#[trigger] reg.entries_at(
                            t2,
                        )).contains_key(#[trigger] heads@[j]) by {
                            if t2 < t as int {
                                assert(reg_pre.entries_at(t2).contains_key(heads@[j]));
                                assert(reg_pre.entries_at(t2).submap_of(reg.entries_at(t2)));
                                assert(reg_pre.entries_at(t2).dom().contains(heads@[j]));
                            }
                        }
                        assert forall|t2: int, j: int|
                            0 <= t2 < t + 1 && reg.types_seq()[t2].enabled && 0 <= j
                                < heads@.len() implies (#[trigger] value_of(
                            *g,
                            reg.types_seq()[t2].func,
                            heads@[j],
                        )) is Some by {}
                    }
                },
                Err(e) => {
                    match e {
                        DeriveError::Disabled => {
                            proof {
                                assert(false);
                            }
                            return Err(DeriveError::Disabled);
                        },
                        DeriveError::Cycle => {
                            proof {
                                assert(false);
                            }
                            return Err(DeriveError::Cycle);
                        },
                        DeriveError::UnknownCommit(u) => {
                            proof {
                                assert(false);
                            }
                            return Err(DeriveError::UnknownCommit(u));
                        },
                        DeriveError::Failed(fc) => {
                            proof {
                                assert(g.spec_contains(fc));
                                assert(value_of(*g, reg.types_seq()[t as int].func, fc) is None);
                                assert(!(forall|j: int|
                                    0 <= j < heads@.len() ==> (#[trigger] value_of(
                                        *g,
                                        reg.types_seq()[t as int].func,
                                        heads@[j],
                                    )) is Some));
                                let j = choose|j: int|
                                    0 <= j < heads@.len() && !((#[trigger] value_of(
                                        *g,
                                        reg.types_seq()[t as int].func,
                                        heads@[j],
                                    )) is Some);
                                assert(!((#[trigger] value_of(
                                    *g,
                                    old(reg).types_seq()[t as int].func,
                                    heads@[j],
                                )) is Some));
                            }
                            return Err(DeriveError::Failed(fc));
                        },
                    }
                },
            }
        } else {
            proof {
                assert forall|t2: int, j: int|
                    0 <= t2 < t + 1 && reg.types_seq()[t2].enabled && 0 <= j
                        < heads@.len() implies (#[trigger] reg.entries_at(t2)).contains_key(
                    #[trigger] heads@[j],
                ) by {}
            }
        }
        t = t + 1;
    }
    Ok(TailStats { derived_heads: derived_total, oldest_underived_timestamp: oldest })
}

/// Every enabled type's derivation function succeeds on every commit of
/// the heads' ancestry: the hypothesis under which a batched iteration is
/// owed success.
pub open spec fn heads_ancestry_derivable(
    g: CommitGraph,
    types: Seq<TypeConfig>,
    heads: Seq<u64>,
) -> bool {
    forall|t: int, c: u64|
        0 <= t < types.len() && types[t].enabled && g.spec_contains(c) && ancestor_of_any(
            g,
            heads,
            c,
        ) ==> (#[trigger] value_of(g, types[t].func, c)) is Some
}

/// One batched-mode tailing iteration: build the derive graph over all
/// enabled types and execute it.  Returns how many chunk nodes ran; zero
/// means nothing was pending and the caller may pause before re-listing
/// heads.  After a successful iteration every enabled type's underived
/// frontier of the heads is derived.
pub fn tail_batch_iteration(
    g: &CommitGraph,
    reg: &mut TypeRegistry,
    lease: &mut LeaseStore,
    heads: &Vec<u64>,
    chunk_size: usize,
    thin_base: u64,
) -> (r: Result<u64, DeriveError>)
    requires
        g.wf(),
        old(reg).wf(),
        old(reg).all_correct(*g),
        chunk_size >= 1,
        forall|i: int| 0 <= i < heads@.len() ==> g.spec_contains(#[trigger] heads@[i]),
    ensures
        final(reg).wf(),
        final(reg).types_seq() == old(reg).types_seq(),
        final(reg).all_correct(*g),
        reg_extends(*old(reg), *final(reg)),
        (r == Err::<u64, DeriveError>(DeriveError::Cycle)) <==> !graph_acyclic(
            prereq_deps(old(reg).types_seq()),
        ),
        graph_acyclic(prereq_deps(old(reg).types_seq())) && heads_ancestry_derivable(
            *g,
            old(reg).types_seq(),
            heads@,
        ) ==> r is Ok,
        match r {
            Ok(count) => (forall|t: int, c: u64|
                0 <= t < old(reg).n() && old(reg).types_seq()[t].enabled && #[trigger] underived_of_any(
                    *g,
                    old(reg).entries_at(t),
                    heads@,
                ).contains(c) ==> (#[trigger] final(reg).entries_at(t)).contains_key(c)) && (count
                == 0 <==> all_heads_recorded(*old(reg), heads@)),
            Err(DeriveError::Failed(c)) => exists|t: int, c2: u64|
                0 <= t < old(reg).n() && old(reg).types_seq()[t].enabled && g.spec_contains(c2)
                    && ancestor_of_any(*g, heads@, c2) && (#[trigger] value_of(
                    *g,
                    old(reg).types_seq()[t].func,
                    c2,
                )) is None,
            Err(DeriveError::Cycle) => true,
            Err(_) => false,
        },
{
    let nodes = match build_derive_graph(g, reg, heads, chunk_size, thin_base) {
        Ok(nodes) => nodes,
        Err(e) => {
            return Err(DeriveError::Cycle);
        },
    };
    let count = nodes.len() as u64;
    proof {
        lemma_forward_deps_acyclic(nodes@);
    }
    match execute_derive_graph(g, reg, lease, &nodes) {
        Ok(_) => {
            proof {
                assert forall|t: int, c: u64|
                    0 <= t < old(reg).n() && old(reg).types_seq()[t].enabled && #[trigger] underived_of_any(
                        *g,
                        old(reg).entries_at(t),
                        heads@,
                    ).contains(c) implies (#[trigger] reg.entries_at(t)).contains_key(c) by {
                    assert(node_holds(nodes@, t, c));
                    let i = choose|i: int|
                        0 <= i < nodes@.len() && (#[trigger] nodes@[i]).ty == t
                            && nodes@[i].csids@.contains(c);
                    assert(crate::dag::node_done(*reg, nodes@, i));
                    let k = choose|k: int|
                        0 <= k < nodes@[i].csids@.len() && nodes@[i].csids@[k] == c;
                    assert(reg.entries_at(nodes@[i].ty as int).contains_key(
                        nodes@[i].csids@[k],
                    ));
                }
                assert(count == 0 <==> nodes@.len() == 0);
            }
            Ok(count)
        },
        Err(e) => {
            match e {
                DeriveError::Disabled => {
                    proof {
                        assert(false);
                    }
                    Err(DeriveError::Disabled)
                },
                DeriveError::Cycle => {
                    proof {
                        assert(false);
                    }
                    Err(DeriveError::Failed(0))
                },
                DeriveError::UnknownCommit(u) => {
                    proof {
                        assert(!nodes_all_known(*g, nodes@));
                        let (i, k): (int, int) = choose|i: int, k: int|
                            0 <= i < nodes@.len() && 0 <= k < nodes@[i].csids@.len()
                                && !g.spec_contains(#[trigger] nodes@[i].csids@[k]);
                        assert(g.spec_contains(nodes@[i].csids@[k]));
                        assert(false);
                    }
                    Err(DeriveError::UnknownCommit(u))
                },
                DeriveError::Failed(fc) => {
                    proof {
                        assert(!nodes_all_derivable(*g, reg.types_seq(), nodes@));
                        let (i, k): (int, int) = choose|i: int, k: int|
                            0 <= i < nodes@.len() && 0 <= k < nodes@[i].csids@.len() && !((
                            #[trigger] value_of(
                                *g,
                                reg.types_seq()[nodes@[i].ty as int].func,
                                nodes@[i].csids@[k],
                            )) is Some);
                        let t = nodes@[i].ty as int;
                        let c2 = nodes@[i].csids@[k];
                        assert(reg.types_seq()[t].enabled);
                        assert(g.spec_contains(c2));
                        assert(ancestor_of_any(*g, heads@, c2));
                        assert(0 <= t < old(reg).n() && old(reg).types_seq()[t].enabled
                            && g.spec_contains(c2) && ancestor_of_any(*g, heads@, c2) && (
                        #[trigger] value_of(
                            *g,
                            old(reg).types_seq()[t].func,
                            c2,
                        )) is None);
                        assert(!heads_ancestry_derivable(*g, old(reg).types_seq(), heads@));
                    }
                    Err(DeriveError::Failed(fc))
                },
            }
        },
    }
}

/// A graph whose nodes depend only on earlier nodes is acyclic: the
/// building order itself is a topological order.
proof fn lemma_forward_deps_acyclic(nodes: Seq<DeriveNode>)
    requires
        nodes.len() <= usize::MAX,
        forall|i: int|
            0 <= i < nodes.len() ==> (forall|k: int|
                0 <= k < (#[trigger] nodes[i]).deps@.len() ==> (#[trigger] nodes[i].deps@[k])
                    < i),
    ensures
        graph_acyclic(node_deps(nodes)),
{
    let n = nodes.len() as int;
    let order = Seq::new(nodes.len(), |i: int| i as usize);
    assert forall|i: int, j: int| 0 <= i < j < order.len() implies order[i] != order[j] by {}
    assert(order.no_duplicates());
    assert forall|i: int| 0 <= i < order.len() implies all_in_list(
        node_deps(nodes)[(#[trigger] order[i]) as int],
        order.take(i),
    ) by {
        assert(order[i] as int == i);
        assert forall|k: int|
            0 <= k < node_deps(nodes)[i].len() implies order.take(i).contains(
            #[trigger] node_deps(nodes)[i][k],
        ) by {
            let d = node_deps(nodes)[i][k];
            assert(node_deps(nodes)[i] == nodes[i].deps@);
            assert((d as int) < i);
            assert(order.take(i)[d as int] == d);
        }
    }
    assert(is_topo_order(node_deps(nodes), order));
}

} // verus!
