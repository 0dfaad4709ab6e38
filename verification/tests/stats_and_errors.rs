//! Statistics snapshots and the error boundary.

use photondb::error::Error;
use photondb::page_file;
use photondb::stats::{AtomicOpStats, AtomicSmoStats, AtomicStats};
use photondb::tree_stats;
use photondb::util::Counter;

#[test]
fn counters_count_and_snapshot() {
    let mut c = Counter::new();
    assert_eq!(c.get(), 0);
    c.inc();
    c.inc();
    assert_eq!(c.get(), 2);

    let mut ops = AtomicOpStats::default();
    ops.num_gets.inc();
    ops.num_inserts.inc();
    ops.num_inserts.inc();
    let snap = ops.snapshot();
    assert_eq!(snap.num_gets, 1);
    assert_eq!(snap.num_inserts, 2);

    let mut smo = AtomicSmoStats::default();
    smo.num_data_splits.inc();
    let snap = smo.snapshot();
    assert_eq!(snap.num_data_splits, 1);
    assert_eq!(snap.num_index_consolidates, 0);

    let whole = AtomicStats::default();
    assert_eq!(whole.num_visit_pages.get(), 0);
}

#[test]
fn counter_wraps_at_the_top() {
    let mut c = Counter { value: u64::MAX };
    c.inc();
    assert_eq!(c.get(), 0);
}

#[test]
fn txn_stats_snapshot() {
    let mut s = tree_stats::AtomicStats::default();
    s.success.get.inc();
    s.restart.write.inc();
    s.restart.write.inc();
    let snap = s.snapshot();
    assert_eq!(snap.success.get, 1);
    assert_eq!(snap.restart.write, 2);
    assert_eq!(snap.success.split_page, 0);
}

#[test]
fn corruption_crosses_the_user_boundary() {
    let e = Error::from(page_file::Error::Corrupted);
    assert!(matches!(e, Error::Corrupted));
}
