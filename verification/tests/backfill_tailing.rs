//! Tests for the batch backfill executor, the derive graph and the
//! tailing iterations.

use derived_data::backfill::backfill_batch;
use derived_data::backfill::batch_derive;
use derived_data::contract::DeriveFunction;
use derived_data::contract::TypeConfig;
use derived_data::dag::build_derive_graph;
use derived_data::dag::execute_derive_graph;
use derived_data::dag::topo_sort;
use derived_data::dag::DeriveNode;
use derived_data::dag::ThinOut;
use derived_data::graph::CommitGraph;
use derived_data::lease::LeaseStore;
use derived_data::mapping::DerivedMapping;
use derived_data::mapping::Mapping;
use derived_data::registry::TypeRegistry;
use derived_data::tail::find_oldest_underived;
use derived_data::tail::tail_batch_iteration;
use derived_data::tail::tail_one_iteration;
use derived_data::DeriveError;
use derived_data::DeriveMode;

fn chain(n: u64) -> CommitGraph {
    let mut g = CommitGraph::new();
    assert!(g.add_commit(0, vec![], 1000));
    for i in 1..n {
        assert!(g.add_commit(i, vec![i - 1], 1000 + i));
    }
    g
}

fn sum_type() -> TypeConfig {
    TypeConfig {
        name: String::from("sum"),
        func: DeriveFunction::SumPlusOne,
        enabled: true,
        prereqs: vec![],
    }
}

#[test]
fn batch_derive_returns_values_in_request_order() {
    let g = chain(5);
    let ty = sum_type();
    let mut m = Mapping::new();
    let mut l = LeaseStore::new();
    let vals = batch_derive(&g, &ty, &mut m, &mut l, &vec![2, 0, 4], DeriveMode::OnlyIfEnabled)
        .unwrap();
    assert_eq!(vals, vec![3, 1, 5]);
    assert_eq!(m.len(), 5);
}

#[test]
fn backfill_skips_what_exists_and_counts_it() {
    let g = chain(10);
    let ty = sum_type();
    let mut m = Mapping::new();
    let mut l = LeaseStore::new();
    let all: Vec<u64> = (0..10).collect();
    let s1 = backfill_batch(&g, &ty, &mut m, &mut l, &all, 4).unwrap();
    assert_eq!(s1.derived, 10);
    assert_eq!(s1.skipped, 0);
    assert_eq!(m.len(), 10);
    let s2 = backfill_batch(&g, &ty, &mut m, &mut l, &all, 4).unwrap();
    assert_eq!(s2.derived, 0);
    assert_eq!(s2.skipped, 10);
    assert_eq!(m.len(), 10);
}

#[test]
fn interrupted_backfill_resumes_to_the_same_mapping() {
    let g = chain(8);
    let ty = sum_type();
    let all: Vec<u64> = (0..8).collect();
    // run one: interrupted after the first three commits succeeded
    let mut resumed = Mapping::new();
    let mut l = LeaseStore::new();
    let prefix: Vec<u64> = (0..3).collect();
    backfill_batch(&g, &ty, &mut resumed, &mut l, &prefix, 2).unwrap();
    assert_eq!(resumed.len(), 3);
    // re-run over the full list derives exactly the remaining five
    let s = backfill_batch(&g, &ty, &mut resumed, &mut l, &all, 2).unwrap();
    assert_eq!(s.derived, 5);
    assert_eq!(s.skipped, 3);
    // one uninterrupted run ends in the same mapping
    let mut oneshot = Mapping::new();
    backfill_batch(&g, &ty, &mut oneshot, &mut l, &all, 2).unwrap();
    assert_eq!(resumed.len(), oneshot.len());
    for c in 0..8 {
        assert_eq!(resumed.get_one(c), oneshot.get_one(c));
    }
}

#[test]
fn backfill_reports_a_failing_commit() {
    let g = chain(6);
    let ty = TypeConfig {
        name: String::from("failing"),
        func: DeriveFunction::FailOn(3),
        enabled: true,
        prereqs: vec![],
    };
    let mut m = Mapping::new();
    let mut l = LeaseStore::new();
    let all: Vec<u64> = (0..6).collect();
    let r = backfill_batch(&g, &ty, &mut m, &mut l, &all, 2);
    assert_eq!(r, Err(DeriveError::Failed(3)));
    assert_eq!(m.get_one(2), Some(3));
    assert_eq!(m.get_one(3), None);
}

#[test]
fn cyclic_dependency_table_is_an_error() {
    // 0 -> 1 -> 2 -> 0
    let deps = vec![vec![1], vec![2], vec![0]];
    assert_eq!(topo_sort(&deps), Err(DeriveError::Cycle));
    // a dependency naming no node is unsatisfiable too
    let dangling = vec![vec![5]];
    assert_eq!(topo_sort(&dangling), Err(DeriveError::Cycle));
    // an acyclic table schedules dependencies first
    let ok = vec![vec![1, 2], vec![2], vec![]];
    let order = topo_sort(&ok).unwrap();
    assert_eq!(order, vec![2, 1, 0]);
}

#[test]
fn cyclic_prereq_declarations_fail_graph_construction() {
    let g = chain(3);
    let mut reg = TypeRegistry::new();
    reg.register(String::from("one"), DeriveFunction::SumPlusOne, true, vec![1]);
    reg.register(String::from("two"), DeriveFunction::SumPlusOne, true, vec![0]);
    let r = build_derive_graph(&g, &reg, &vec![2], 100, 1000);
    assert_eq!(r.err(), Some(DeriveError::Cycle));
}

#[test]
fn cyclic_node_graph_fails_execution() {
    let g = chain(3);
    let mut reg = TypeRegistry::new();
    reg.register(String::from("sum"), DeriveFunction::SumPlusOne, true, vec![]);
    let mut l = LeaseStore::new();
    let nodes = vec![
        DeriveNode { ty: 0, csids: vec![0], deps: vec![1] },
        DeriveNode { ty: 0, csids: vec![1], deps: vec![0] },
    ];
    let r = execute_derive_graph(&g, &mut reg, &mut l, &nodes);
    assert_eq!(r, Err(DeriveError::Cycle));
}

#[test]
fn derive_graph_covers_the_frontier_in_chunks() {
    let g = chain(10);
    let mut reg = TypeRegistry::new();
    reg.register(String::from("sum"), DeriveFunction::SumPlusOne, true, vec![]);
    let nodes = build_derive_graph(&g, &reg, &vec![9], 4, 1000).unwrap();
    // ten commits in chunks of four
    assert_eq!(nodes.len(), 3);
    let mut total = 0;
    for nd in &nodes {
        assert!(nd.csids.len() <= 4);
        assert_eq!(nd.ty, 0);
        total += nd.csids.len();
    }
    assert_eq!(total, 10);
    let mut l = LeaseStore::new();
    let order = execute_derive_graph(&g, &mut reg, &mut l, &nodes).unwrap();
    assert_eq!(order.len(), 3);
    assert_eq!(reg.mapping_at(0).len(), 10);
    assert_eq!(reg.mapping_at(0).get_one(9), Some(10));
}

#[test]
fn prerequisite_types_run_before_dependents() {
    let g = chain(6);
    let mut reg = TypeRegistry::new();
    let base = reg.register(String::from("base"), DeriveFunction::SumPlusOne, true, vec![]);
    let _on_top = reg.register(
        String::from("derived-on-base"),
        DeriveFunction::SumPlusOne,
        true,
        vec![base],
    );
    let mut l = LeaseStore::new();
    let r = tail_batch_iteration(&g, &mut reg, &mut l, &vec![5], 3, 1000).unwrap();
    assert_eq!(r, 4);  // two chunks per type
    assert_eq!(reg.mapping_at(0).len(), 6);
    assert_eq!(reg.mapping_at(1).len(), 6);
}

#[test]
fn batched_iteration_with_nothing_pending_builds_no_nodes() {
    let g = chain(4);
    let mut reg = TypeRegistry::new();
    reg.register(String::from("sum"), DeriveFunction::SumPlusOne, true, vec![]);
    let mut l = LeaseStore::new();
    assert_eq!(tail_batch_iteration(&g, &mut reg, &mut l, &vec![3], 100, 1000), Ok(1));
    // everything derived: the next iteration is empty and the caller pauses
    assert_eq!(tail_batch_iteration(&g, &mut reg, &mut l, &vec![3], 100, 1000), Ok(0));
}

#[test]
fn simple_iteration_derives_all_enabled_types() {
    let g = chain(5);
    let mut reg = TypeRegistry::new();
    reg.register(String::from("sum"), DeriveFunction::SumPlusOne, true, vec![]);
    reg.register(String::from("off"), DeriveFunction::SumPlusOne, false, vec![]);
    let mut l = LeaseStore::new();
    let stats = tail_one_iteration(&g, &mut reg, &mut l, &vec![4]).unwrap();
    assert_eq!(stats.derived_heads, 1);
    // the oldest underived commit before the run was the root
    assert_eq!(stats.oldest_underived_timestamp, Some(1000));
    assert_eq!(reg.mapping_at(0).len(), 5);
    // the disabled type was left alone
    assert_eq!(reg.mapping_at(1).len(), 0);
    let stats2 = tail_one_iteration(&g, &mut reg, &mut l, &vec![4]).unwrap();
    assert_eq!(stats2.derived_heads, 0);
    assert_eq!(stats2.oldest_underived_timestamp, None);
}

#[test]
fn oldest_underived_follows_the_frontier() {
    let g = chain(4);
    let ty = sum_type();
    let mut m = Mapping::new();
    let mut l = LeaseStore::new();
    assert_eq!(find_oldest_underived(&g, &m, &vec![3]), Some(1000));
    derived_data::derive::derive(&g, &ty, &mut m, &mut l, 1, DeriveMode::OnlyIfEnabled).unwrap();
    assert_eq!(find_oldest_underived(&g, &m, &vec![3]), Some(1002));
    derived_data::derive::derive(&g, &ty, &mut m, &mut l, 3, DeriveMode::OnlyIfEnabled).unwrap();
    assert_eq!(find_oldest_underived(&g, &m, &vec![3]), None);
}

#[test]
fn thin_out_gaps_grow_geometrically() {
    let mut t = ThinOut::new(4);
    // first step checks, then a gap of four, then a gap of six
    assert!(t.check());
    for _ in 0..4 {
        assert!(!t.check());
    }
    assert!(t.check());
    for _ in 0..6 {
        assert!(!t.check());
    }
    assert!(t.check());
}

#[test]
fn executor_failure_keeps_earlier_nodes_work() {
    let g = chain(4);
    let mut reg = TypeRegistry::new();
    reg.register(String::from("sum"), DeriveFunction::SumPlusOne, true, vec![]);
    reg.register(String::from("failing"), DeriveFunction::FailOn(2), true, vec![]);
    let mut l = LeaseStore::new();
    let nodes = vec![
        DeriveNode { ty: 0, csids: vec![0, 1, 2, 3], deps: vec![] },
        DeriveNode { ty: 1, csids: vec![0, 1, 2, 3], deps: vec![0] },
    ];
    let r = execute_derive_graph(&g, &mut reg, &mut l, &nodes);
    assert_eq!(r, Err(DeriveError::Failed(2)));
    // the first node's type finished before the failure
    assert_eq!(reg.mapping_at(0).len(), 4);
    assert_eq!(reg.mapping_at(1).len(), 2);
}

#[test]
fn executor_reports_unknown_commits_in_nodes() {
    let g = chain(2);
    let mut reg = TypeRegistry::new();
    reg.register(String::from("sum"), DeriveFunction::SumPlusOne, true, vec![]);
    let mut l = LeaseStore::new();
    let nodes = vec![DeriveNode { ty: 0, csids: vec![0, 42], deps: vec![] }];
    let r = execute_derive_graph(&g, &mut reg, &mut l, &nodes);
    assert_eq!(r, Err(DeriveError::UnknownCommit(42)));
}
