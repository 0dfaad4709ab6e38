//! The sorted page codec: building, searching, iterating, and the byte-level
//! round trip.

use photondb::data::{Key, Value};
use photondb::sorted_page::{decode, PageKind, PageTier, SortedPageBuilder};

fn key(raw: &[u8], lsn: u64) -> Key {
    Key::new(raw.to_vec(), lsn)
}

fn entries() -> Vec<(Key, Value)> {
    vec![
        (key(b"apple", 9), Value::Put(b"red".to_vec())),
        (key(b"apple", 3), Value::Put(b"green".to_vec())),
        (key(b"pear", 7), Value::Delete),
        (key(b"plum", 2), Value::Put(b"".to_vec())),
    ]
}

#[test]
fn round_trip_through_bytes() {
    let builder = SortedPageBuilder::new(PageTier::Leaf, PageKind::Base);
    let page = builder.with_iter(entries()).build();
    let decoded = decode(page.as_ptr());
    assert_eq!(decoded.len(), 4);
    let source = entries();
    for (d, s) in decoded.iter().zip(source.iter()) {
        assert_eq!(d.0.raw, s.0.raw);
        assert_eq!(d.0.lsn, s.0.lsn);
        match (&d.1, &s.1) {
            (Value::Put(a), Value::Put(b)) => assert_eq!(a, b),
            (Value::Delete, Value::Delete) => {}
            _ => panic!("value kinds differ"),
        }
    }
}

#[test]
fn empty_page_round_trip() {
    let builder = SortedPageBuilder::new(PageTier::Leaf, PageKind::Delta);
    let page = builder.build();
    assert_eq!(page.as_ptr().len(), 0);
    let decoded = decode(page.as_ptr());
    assert_eq!(decoded.len(), 0);
}

#[test]
fn rank_finds_exact_and_insertion_point() {
    let builder = SortedPageBuilder::new(PageTier::Leaf, PageKind::Base);
    let page = builder.with_iter(entries()).build();
    let r = page.as_ref();
    assert_eq!(r.len(), 4);
    assert_eq!(r.rank(&key(b"apple", 9)), Ok(0));
    assert_eq!(r.rank(&key(b"pear", 7)), Ok(2));
    // A key between "apple" versions and "pear" would sit at rank 2.
    assert_eq!(r.rank(&key(b"banana", 1)), Err(2));
    // Higher LSN of the same raw key sorts first.
    assert_eq!(r.rank(&key(b"apple", 100)), Err(0));
    assert_eq!(r.rank(&key(b"zz", 1)), Err(4));
}

#[test]
fn seek_and_seek_back() {
    let builder = SortedPageBuilder::new(PageTier::Leaf, PageKind::Base);
    let page = builder.with_iter(entries()).build();
    let r = page.as_ref();
    let e = r.seek(&key(b"apple", 100)).unwrap();
    assert_eq!(e.0.raw, b"apple".to_vec());
    assert_eq!(e.0.lsn, 9);
    assert!(r.seek_back(&key(b"apple", 100)).is_none());
    let e = r.seek_back(&key(b"zz", 0)).unwrap();
    assert_eq!(e.0.raw, b"plum".to_vec());
    assert!(r.seek(&key(b"zz", 0)).is_none());
}

#[test]
fn iterator_walks_in_order_and_rewinds() {
    let builder = SortedPageBuilder::new(PageTier::Leaf, PageKind::Base);
    let page = builder.with_iter(entries()).build();
    let r = page.as_ref();
    let mut it = r.iter();
    assert!(it.last().is_none());
    let mut seen = Vec::new();
    while let Some((k, _)) = it.next() {
        let yielded = it.last().expect("just yielded");
        assert_eq!(yielded.0.raw, k.raw);
        assert_eq!(yielded.0.lsn, k.lsn);
        seen.push((k.raw, k.lsn));
    }
    assert_eq!(
        seen,
        vec![
            (b"apple".to_vec(), 9),
            (b"apple".to_vec(), 3),
            (b"pear".to_vec(), 7),
            (b"plum".to_vec(), 2)
        ]
    );
    it.rewind();
    assert!(it.last().is_none());
    let first = it.next().unwrap();
    assert_eq!(first.0.raw, b"apple".to_vec());
    assert_eq!(it.last().unwrap().0.raw, b"apple".to_vec());
    it.seek(&key(b"pear", u64::MAX));
    let next = it.next().unwrap();
    assert_eq!(next.0.raw, b"pear".to_vec());
}

#[test]
fn build_from_iter_matches_stepwise_building() {
    let a = SortedPageBuilder::new(PageTier::Leaf, PageKind::Base)
        .build_from_iter(entries());
    let mut b = SortedPageBuilder::new(PageTier::Leaf, PageKind::Base);
    for (k, v) in entries() {
        b.add(k, v);
    }
    let b = b.build();
    assert_eq!(a.as_ptr(), b.as_ptr());
}

#[test]
fn split_opens_the_upper_half() {
    let page = SortedPageBuilder::new(PageTier::Leaf, PageKind::Base)
        .build_from_iter(entries());
    let r = page.as_ref();
    let (middle, mut iter) = r.split().expect("four records split");
    assert_eq!(middle.raw, b"pear".to_vec());
    assert_eq!(middle.lsn, 7);
    let first = iter.next().unwrap();
    assert_eq!(first.0.raw, b"pear".to_vec());
    let second = iter.next().unwrap();
    assert_eq!(second.0.raw, b"plum".to_vec());
    assert!(iter.next().is_none());

    let one = SortedPageBuilder::new(PageTier::Leaf, PageKind::Base)
        .build_from_iter(vec![(key(b"only", 1), Value::Delete)]);
    assert!(one.as_ref().split().is_none());
}

#[test]
fn item_offsets_follow_the_layout() {
    let builder = SortedPageBuilder::new(PageTier::Leaf, PageKind::Base);
    let page = builder.with_iter(entries()).build();
    let r = page.as_ref();
    // The first offset doubles as the size of the offsets table.
    assert_eq!(r.item_offset(0), Some(16));
    // "apple" + length word + LSN word + tag + "red" = 5 + 4 + 8 + 1 + 3.
    assert_eq!(r.item_offset(1), Some(16 + 21));
    assert_eq!(r.item_offset(4), None);
    let item = r.item(0).unwrap();
    assert_eq!(item.len(), 21);
    assert_eq!(&item[..4], &5u32.to_le_bytes());
    assert_eq!(&item[4..9], b"apple");
}
