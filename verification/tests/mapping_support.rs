//! Tests for the mapping implementations, leases and the small
//! configuration types.

use derived_data::bookmarks::BookmarkHgKind;
use derived_data::bookmarks::Freshness;
use derived_data::config::ClientCreds;
use derived_data::config::ObjectPopularity;
use derived_data::config::ReadOnlyStorage;
use derived_data::config::Scrubbing;
use derived_data::contract::derive_from_parents;
use derived_data::contract::DeriveFunction;
use derived_data::graph::Commit;
use derived_data::lease::LeaseStore;
use derived_data::mapping::DerivedMapping;
use derived_data::mapping::Mapping;
use derived_data::mapping::RegenerateMapping;
use derived_data::scrub::LoggingScrubHandler;

#[test]
fn mapping_point_and_bulk_lookups() {
    let mut m = Mapping::new();
    assert_eq!(m.len(), 0);
    m.put(5, 50);
    m.put(6, 60);
    assert_eq!(m.len(), 2);
    assert!(m.contains(5));
    assert!(!m.contains(7));
    assert_eq!(m.get_one(6), Some(60));
    assert_eq!(m.get_many(&vec![5, 7, 6]), vec![Some(50), None, Some(60)]);
}

#[test]
fn regenerate_mapping_hides_until_rewritten() {
    let mut base = Mapping::new();
    base.put(1, 10);
    base.put(2, 20);
    let mut rm = RegenerateMapping::new(base);
    assert_eq!(rm.get_one(1), Some(10));
    rm.regenerate(&vec![1]);
    assert_eq!(rm.get_one(1), None);
    assert_eq!(rm.get_one(2), Some(20));
    assert_eq!(rm.get_many(&vec![1, 2]), vec![None, Some(20)]);
    // writing the commit again makes it visible again
    rm.put(1, 10);
    assert_eq!(rm.get_one(1), Some(10));
    let inner = rm.into_inner();
    assert_eq!(inner.get_one(1), Some(10));
}

#[test]
fn derive_from_parents_is_deterministic() {
    let commit = Commit { id: 9, parents: vec![1, 2], timestamp: 0 };
    let vals = vec![4, 5];
    let a = derive_from_parents(DeriveFunction::SumPlusOne, &commit, &vals);
    let b = derive_from_parents(DeriveFunction::SumPlusOne, &commit, &vals);
    assert_eq!(a, Some(10));
    assert_eq!(a, b);
    assert_eq!(derive_from_parents(DeriveFunction::SumPlusOne, &commit, &vec![]), Some(1));
    assert_eq!(
        derive_from_parents(DeriveFunction::SumPlusOne, &commit, &vec![u64::MAX]),
        None
    );
    assert_eq!(derive_from_parents(DeriveFunction::FailOn(9), &commit, &vals), None);
    assert_eq!(derive_from_parents(DeriveFunction::FailOn(8), &commit, &vals), Some(10));
}

#[test]
fn leases_deduplicate_but_never_block() {
    let mut l = LeaseStore::new();
    let name = String::from("sum");
    assert!(l.try_acquire(&name, 7));
    assert!(!l.try_acquire(&name, 7));
    // a different commit or type is unaffected
    assert!(l.try_acquire(&name, 8));
    assert!(l.try_acquire(&String::from("other"), 7));
    l.release(&name, 7);
    assert!(l.try_acquire(&name, 7));
    // releasing an unheld lease is harmless
    l.release(&name, 99);
}

#[test]
fn object_popularity_validates_raw_values() {
    let ok = ObjectPopularity::from_raw(String::from("reads"), 60, 1000).unwrap();
    assert_eq!(ok.category, "reads");
    assert_eq!(ok.window, 60);
    assert_eq!(ok.threshold, 1000);
    assert!(ObjectPopularity::from_raw(String::from("reads"), -1, 1000).is_err());
    assert!(ObjectPopularity::from_raw(String::from("reads"), u32::MAX as i64 + 1, 0).is_err());
    assert!(ObjectPopularity::from_raw(String::from("reads"), 60, -5).is_err());
}

#[test]
fn client_creds_need_both_paths() {
    let both = ClientCreds::from_options(
        Some(String::from("cert.pem")),
        Some(String::from("key.pem")),
    );
    let creds = both.unwrap();
    assert_eq!(creds.cert, "cert.pem");
    assert_eq!(creds.key, "key.pem");
    assert!(ClientCreds::from_options(Some(String::from("cert.pem")), None).is_none());
    assert!(ClientCreds::from_options(None, Some(String::from("key.pem"))).is_none());
    assert!(ClientCreds::from_options(None, None).is_none());
}

#[test]
fn bookmark_kinds_publish_as_documented() {
    assert!(!BookmarkHgKind::Scratch.publishing());
    assert!(!BookmarkHgKind::Scratch.pull_default());
    assert!(BookmarkHgKind::PublishingNotPullDefault.publishing());
    assert!(!BookmarkHgKind::PublishingNotPullDefault.pull_default());
    assert!(BookmarkHgKind::PullDefault.publishing());
    assert!(BookmarkHgKind::PullDefault.pull_default());
    assert_ne!(Freshness::MostRecent, Freshness::MaybeStale);
}

#[test]
fn scrub_and_storage_flags() {
    let handler = LoggingScrubHandler::new(false);
    assert!(handler.should_report());
    let quiet = LoggingScrubHandler::new(true);
    assert!(!quiet.should_report());
    assert_eq!(ReadOnlyStorage(true).0, true);
    assert_ne!(Scrubbing::Enabled, Scrubbing::Disabled);
}

#[test]
fn regenerate_then_backfill_recomputes_the_same_values() {
    let mut g = derived_data::graph::CommitGraph::new();
    assert!(g.add_commit(1, vec![], 10));
    assert!(g.add_commit(2, vec![1], 20));
    assert!(g.add_commit(3, vec![2], 30));
    let ty = derived_data::contract::TypeConfig {
        name: String::from("sum"),
        func: DeriveFunction::SumPlusOne,
        enabled: true,
        prereqs: vec![],
    };
    let mut l = LeaseStore::new();
    let mut base = Mapping::new();
    derived_data::backfill::backfill_batch(&g, &ty, &mut base, &mut l, &vec![1, 2, 3], 10)
        .unwrap();
    // hide two entries, then run the engine over the decorator: the hidden
    // commits are rederived and, derivation being pure, get the same values
    let mut rm = RegenerateMapping::new(base);
    rm.regenerate(&vec![2, 3]);
    assert_eq!(rm.get_one(2), None);
    let stats =
        derived_data::backfill::backfill_batch(&g, &ty, &mut rm, &mut l, &vec![1, 2, 3], 10)
            .unwrap();
    assert_eq!(stats.derived, 2);
    assert_eq!(stats.skipped, 1);
    assert_eq!(rm.get_one(1), Some(1));
    assert_eq!(rm.get_one(2), Some(2));
    assert_eq!(rm.get_one(3), Some(3));
}
