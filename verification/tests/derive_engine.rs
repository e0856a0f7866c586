//! Scenario tests for the single-commit deriver and the finders.

use derived_data::contract::DeriveFunction;
use derived_data::contract::TypeConfig;
use derived_data::derive::count_underived;
use derived_data::derive::fetch_derived;
use derived_data::derive::find_all_underived_ancestors;
use derived_data::derive::is_derived;
use derived_data::graph::CommitGraph;
use derived_data::lease::LeaseStore;
use derived_data::mapping::DerivedMapping;
use derived_data::mapping::Mapping;
use derived_data::DeriveError;
use derived_data::DeriveMode;

const A: u64 = 1;
const B: u64 = 2;
const C: u64 = 3;

fn linear_chain() -> CommitGraph {
    let mut g = CommitGraph::new();
    assert!(g.add_commit(A, vec![], 100));
    assert!(g.add_commit(B, vec![A], 200));
    assert!(g.add_commit(C, vec![B], 300));
    g
}

fn sum_type() -> TypeConfig {
    TypeConfig {
        name: String::from("sum"),
        func: DeriveFunction::SumPlusOne,
        enabled: true,
        prereqs: vec![],
    }
}

#[test]
fn derive_linear_chain_from_empty_mapping() {
    let g = linear_chain();
    let ty = sum_type();
    let mut m = Mapping::new();
    let mut l = LeaseStore::new();
    let r = derived_data::derive::derive(&g, &ty, &mut m, &mut l, C, DeriveMode::OnlyIfEnabled);
    assert_eq!(r, Ok(3));
    assert_eq!(m.len(), 3);
    assert_eq!(m.get_one(A), Some(1));
    assert_eq!(m.get_one(B), Some(2));
    assert_eq!(m.get_one(C), Some(3));
    // a later request for the root is a pure cache hit
    let r2 = derived_data::derive::derive(&g, &ty, &mut m, &mut l, A, DeriveMode::OnlyIfEnabled);
    assert_eq!(r2, Ok(1));
    assert_eq!(m.len(), 3);
}

#[test]
fn derive_twice_is_idempotent() {
    let g = linear_chain();
    let ty = sum_type();
    let mut m = Mapping::new();
    let mut l = LeaseStore::new();
    let first = derived_data::derive::derive(&g, &ty, &mut m, &mut l, C, DeriveMode::OnlyIfEnabled);
    let len_after_first = m.len();
    let second = derived_data::derive::derive(&g, &ty, &mut m, &mut l, C, DeriveMode::OnlyIfEnabled);
    assert_eq!(first, second);
    // the second call performed no additional mapping writes
    assert_eq!(m.len(), len_after_first);
    assert_eq!(m.get_one(A), Some(1));
    assert_eq!(m.get_one(B), Some(2));
    assert_eq!(m.get_one(C), Some(3));
}

#[test]
fn two_callers_share_one_mapping() {
    // Two clients ask for the same head; with one shared mapping both
    // succeed and every commit ends with exactly one value.
    let g = linear_chain();
    let ty = sum_type();
    let mut m = Mapping::new();
    let mut caller_one_lease = LeaseStore::new();
    let mut caller_two_lease = LeaseStore::new();
    let r1 = derived_data::derive::derive(&g, &ty, &mut m, &mut caller_one_lease, C, DeriveMode::OnlyIfEnabled);
    let r2 = derived_data::derive::derive(&g, &ty, &mut m, &mut caller_two_lease, C, DeriveMode::OnlyIfEnabled);
    assert_eq!(r1, Ok(3));
    assert_eq!(r2, Ok(3));
    assert_eq!(m.len(), 3);
    assert_eq!(m.get_one(A), Some(1));
    assert_eq!(m.get_one(B), Some(2));
    assert_eq!(m.get_one(C), Some(3));
}

#[test]
fn disabled_type_fails_without_writes() {
    let g = linear_chain();
    let mut ty = sum_type();
    ty.enabled = false;
    let mut m = Mapping::new();
    let mut l = LeaseStore::new();
    let r = derived_data::derive::derive(&g, &ty, &mut m, &mut l, C, DeriveMode::OnlyIfEnabled);
    assert_eq!(r, Err(DeriveError::Disabled));
    assert_eq!(m.len(), 0);
    // the force-enabled escape hatch derives anyway
    let r2 = derived_data::derive::derive(&g, &ty, &mut m, &mut l, C, DeriveMode::ForceEnabled);
    assert_eq!(r2, Ok(3));
    assert_eq!(m.len(), 3);
}

#[test]
fn unknown_commit_is_reported() {
    let g = linear_chain();
    let ty = sum_type();
    let mut m = Mapping::new();
    let mut l = LeaseStore::new();
    let r = derived_data::derive::derive(&g, &ty, &mut m, &mut l, 77, DeriveMode::OnlyIfEnabled);
    assert_eq!(r, Err(DeriveError::UnknownCommit(77)));
    assert_eq!(m.len(), 0);
}

#[test]
fn failing_derivation_aborts_without_partial_entry() {
    let g = linear_chain();
    let ty = TypeConfig {
        name: String::from("failing"),
        func: DeriveFunction::FailOn(B),
        enabled: true,
        prereqs: vec![],
    };
    let mut m = Mapping::new();
    let mut l = LeaseStore::new();
    let r = derived_data::derive::derive(&g, &ty, &mut m, &mut l, C, DeriveMode::OnlyIfEnabled);
    assert_eq!(r, Err(DeriveError::Failed(B)));
    // the root succeeded before the failure; the failing commit and its
    // descendant have no entry
    assert_eq!(m.get_one(A), Some(1));
    assert_eq!(m.get_one(B), None);
    assert_eq!(m.get_one(C), None);
}

#[test]
fn overflowing_sum_is_a_derivation_error() {
    // each commit lists its parent twice, doubling the value and adding
    // one; 64 levels of that cannot fit in 64 bits
    let mut g = CommitGraph::new();
    assert!(g.add_commit(0, vec![], 0));
    for i in 1..=64u64 {
        assert!(g.add_commit(i, vec![i - 1, i - 1], 0));
    }
    let ty = sum_type();
    let mut m = Mapping::new();
    let mut l = LeaseStore::new();
    let r = derived_data::derive::derive(&g, &ty, &mut m, &mut l, 64, DeriveMode::OnlyIfEnabled);
    assert!(matches!(r, Err(DeriveError::Failed(_))));
}

#[test]
fn merge_commit_sums_both_parents() {
    let mut g = linear_chain();
    // D merges B and C: value = 2 + 3 + 1
    assert!(g.add_commit(4, vec![B, C], 400));
    let ty = sum_type();
    let mut m = Mapping::new();
    let mut l = LeaseStore::new();
    let r = derived_data::derive::derive(&g, &ty, &mut m, &mut l, 4, DeriveMode::OnlyIfEnabled);
    assert_eq!(r, Ok(6));
    assert_eq!(m.len(), 4);
}

#[test]
fn count_underived_is_capped_by_limit() {
    let g = linear_chain();
    let ty = sum_type();
    let mut m = Mapping::new();
    let mut l = LeaseStore::new();
    assert_eq!(count_underived(&g, &ty, &m, C, 10), Ok(3));
    assert_eq!(count_underived(&g, &ty, &m, C, 3), Ok(3));
    assert_eq!(count_underived(&g, &ty, &m, C, 2), Ok(2));
    assert_eq!(count_underived(&g, &ty, &m, C, 1), Ok(1));
    assert_eq!(count_underived(&g, &ty, &m, C, 0), Ok(0));
    // pruning at derived commits shrinks the count
    derived_data::derive::derive(&g, &ty, &mut m, &mut l, B, DeriveMode::OnlyIfEnabled).unwrap();
    assert_eq!(count_underived(&g, &ty, &m, C, 10), Ok(1));
    assert_eq!(count_underived(&g, &ty, &m, B, 10), Ok(0));
    let mut disabled = sum_type();
    disabled.enabled = false;
    assert_eq!(count_underived(&g, &disabled, &m, C, 10), Err(DeriveError::Disabled));
    assert_eq!(count_underived(&g, &ty, &m, 99, 10), Err(DeriveError::UnknownCommit(99)));
}

#[test]
fn find_all_underived_ancestors_is_topo_sorted() {
    let mut g = linear_chain();
    assert!(g.add_commit(4, vec![B, C], 400));
    let ty = sum_type();
    let mut m = Mapping::new();
    let mut l = LeaseStore::new();
    let r = find_all_underived_ancestors(&g, &ty, &m, &vec![4]).unwrap();
    assert_eq!(r, vec![A, B, C, 4]);
    derived_data::derive::derive(&g, &ty, &mut m, &mut l, B, DeriveMode::OnlyIfEnabled).unwrap();
    let r2 = find_all_underived_ancestors(&g, &ty, &m, &vec![4]).unwrap();
    assert_eq!(r2, vec![C, 4]);
    let empty = find_all_underived_ancestors(&g, &ty, &m, &vec![]).unwrap();
    assert_eq!(empty, Vec::<u64>::new());
}

#[test]
fn is_derived_and_fetch_derived_read_the_mapping() {
    let g = linear_chain();
    let ty = sum_type();
    let mut m = Mapping::new();
    let mut l = LeaseStore::new();
    assert_eq!(is_derived(&g, &ty, &m, C), Ok(false));
    assert_eq!(fetch_derived(&m, C), None);
    derived_data::derive::derive(&g, &ty, &mut m, &mut l, C, DeriveMode::OnlyIfEnabled).unwrap();
    assert_eq!(is_derived(&g, &ty, &m, C), Ok(true));
    assert_eq!(fetch_derived(&m, C), Some(3));
}

#[test]
fn graph_rejects_duplicates_and_dangling_parents() {
    let mut g = CommitGraph::new();
    assert!(g.add_commit(A, vec![], 1));
    assert!(!g.add_commit(A, vec![], 1));
    assert!(!g.add_commit(B, vec![C], 2));
    assert!(g.add_commit(B, vec![A], 2));
    assert_eq!(g.len(), 2);
}
