//! Point operations on the table: puts, deletes and reads at explicit LSNs.

use photondb::table::{Options, Table};

fn open_default() -> Table {
    Table::open(Options::default())
}

#[test]
fn put_then_get_visible() {
    let mut t = open_default();
    t.put(&b"a".to_vec(), 1, &b"A".to_vec()).unwrap();
    assert_eq!(t.get(&b"a".to_vec(), 2).unwrap(), Some(b"A".to_vec()));
    t.close();
}

#[test]
fn two_versions_read_at_each_lsn() {
    let mut t = open_default();
    t.put(&b"a".to_vec(), 1, &b"A".to_vec()).unwrap();
    t.put(&b"a".to_vec(), 2, &b"B".to_vec()).unwrap();
    assert_eq!(t.get(&b"a".to_vec(), 1).unwrap(), Some(b"A".to_vec()));
    assert_eq!(t.get(&b"a".to_vec(), 2).unwrap(), Some(b"B".to_vec()));
}

#[test]
fn delete_hides_at_later_lsn() {
    let mut t = open_default();
    t.put(&b"a".to_vec(), 1, &b"A".to_vec()).unwrap();
    t.delete(&b"a".to_vec(), 2).unwrap();
    assert_eq!(t.get(&b"a".to_vec(), 1).unwrap(), Some(b"A".to_vec()));
    assert_eq!(t.get(&b"a".to_vec(), 3).unwrap(), None);
}

#[test]
fn put_delete_put_last_wins() {
    let mut t = open_default();
    t.put(&b"k".to_vec(), 1, &b"one".to_vec()).unwrap();
    t.delete(&b"k".to_vec(), 2).unwrap();
    t.put(&b"k".to_vec(), 3, &b"three".to_vec()).unwrap();
    assert_eq!(t.get(&b"k".to_vec(), 100).unwrap(), Some(b"three".to_vec()));
    assert_eq!(t.get(&b"k".to_vec(), 2).unwrap(), None);
    assert_eq!(t.get(&b"k".to_vec(), 1).unwrap(), Some(b"one".to_vec()));
}

#[test]
fn read_below_first_version_sees_nothing() {
    let mut t = open_default();
    t.put(&b"a".to_vec(), 5, &b"A".to_vec()).unwrap();
    assert_eq!(t.get(&b"a".to_vec(), 4).unwrap(), None);
    assert_eq!(t.get(&b"b".to_vec(), 100).unwrap(), None);
}

#[test]
fn many_keys_all_readable() {
    let mut t = open_default();
    for i in 0..1000u64 {
        let key = format!("k{}", i).into_bytes();
        t.put(&key, i, &key.clone()).unwrap();
    }
    assert_eq!(
        t.get(&b"k500".to_vec(), 10_000).unwrap(),
        Some(b"k500".to_vec())
    );
    // Enough writes to outgrow the split size leave several leaf chains.
    assert!(t.leaf_count() >= 2);
    for i in (0..1000u64).step_by(97) {
        let key = format!("k{}", i).into_bytes();
        assert_eq!(t.get(&key, 10_000).unwrap(), Some(key.clone()));
    }
}

#[test]
fn consolidation_keeps_contents_and_shortens_chain() {
    let mut t = open_default();
    // The default leaf threshold is 8, so 20 writes force consolidations.
    for i in 0..20u64 {
        let key = format!("c{}", i % 5).into_bytes();
        t.put(&key, i, &format!("v{}", i).into_bytes()).unwrap();
    }
    assert!(t.chains[0].deltas.len() < 8);
    for i in 0..5u64 {
        let key = format!("c{}", i).into_bytes();
        assert!(t.get(&key, 10_000).unwrap().is_some());
    }
}

#[test]
fn empty_raw_key_is_a_key_like_any_other() {
    let mut t = open_default();
    t.put(&b"".to_vec(), 1, &b"root".to_vec()).unwrap();
    t.put(&b"a".to_vec(), 1, &b"A".to_vec()).unwrap();
    assert_eq!(t.get(&b"".to_vec(), 5).unwrap(), Some(b"root".to_vec()));
    assert_eq!(t.get(&b"a".to_vec(), 5).unwrap(), Some(b"A".to_vec()));
}

#[test]
fn tombstone_without_prior_put_reads_as_nothing() {
    let mut t = open_default();
    t.delete(&b"ghost".to_vec(), 3).unwrap();
    assert_eq!(t.get(&b"ghost".to_vec(), 2).unwrap(), None);
    assert_eq!(t.get(&b"ghost".to_vec(), 3).unwrap(), None);
    assert_eq!(t.get(&b"ghost".to_vec(), 9).unwrap(), None);
}

#[test]
fn consolidate_twice_is_idempotent() {
    let mut t = open_default();
    for i in 0..6u64 {
        t.put(&format!("x{}", i).into_bytes(), i, &b"v".to_vec()).unwrap();
    }
    let mut chain = t.chains.remove(0);
    chain.consolidate();
    let base_once: Vec<(Vec<u8>, u64)> = chain
        .base
        .iter()
        .map(|e| (e.0.raw.clone(), e.0.lsn))
        .collect();
    let len_once = chain.base.len();
    chain.consolidate();
    let base_twice: Vec<(Vec<u8>, u64)> = chain
        .base
        .iter()
        .map(|e| (e.0.raw.clone(), e.0.lsn))
        .collect();
    assert_eq!(base_once, base_twice);
    assert_eq!(chain.base.len(), len_once);
    assert_eq!(chain.deltas.len(), 0);
}
