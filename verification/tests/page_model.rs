//! The in-memory page model: base and delta pages, consolidation, splits,
//! trims, and the structure-modification descriptors.

use photondb::page::{
    chain_get, BaseData, BaseIndex, DeltaData, DeltaIndex, Page, PageContent, PageHandle,
    PageHeader, PageIndex, SplitNode,
};

fn put(base: &mut DeltaData, k: &[u8], v: &[u8]) {
    base.add(k.to_vec(), Some(v.to_vec()));
}

fn tombstone(delta: &mut DeltaData, k: &[u8]) {
    delta.add(k.to_vec(), None);
}

fn filled_base(pairs: &[(&[u8], &[u8])]) -> BaseData {
    let mut b = BaseData::new();
    let mut d = DeltaData::new();
    for (k, v) in pairs {
        put(&mut d, k, v);
    }
    b.apply(d);
    b
}

#[test]
fn apply_overlays_puts_and_tombstones() {
    let mut base = filled_base(&[(b"a", b"1"), (b"b", b"2"), (b"c", b"3")]);
    let mut delta = DeltaData::new();
    put(&mut delta, b"b", b"20");
    tombstone(&mut delta, b"c");
    put(&mut delta, b"d", b"4");
    base.apply(delta);
    assert_eq!(base.get(&b"a".to_vec()), Some(&b"1".to_vec()));
    assert_eq!(base.get(&b"b".to_vec()), Some(&b"20".to_vec()));
    assert_eq!(base.get(&b"c".to_vec()), None);
    assert_eq!(base.get(&b"d".to_vec()), Some(&b"4".to_vec()));
    assert_eq!(base.size(), 2 + 3 + 2);
}

#[test]
fn delta_over_empty_base_reads_correctly() {
    let mut base = BaseData::new();
    let mut delta = DeltaData::new();
    put(&mut delta, b"k", b"v");
    tombstone(&mut delta, b"gone");
    assert_eq!(delta.get(&b"k".to_vec()), Some(Some(&b"v".to_vec())));
    assert_eq!(delta.get(&b"gone".to_vec()), Some(None));
    assert_eq!(delta.get(&b"other".to_vec()), None);
    base.apply(delta);
    assert_eq!(base.get(&b"k".to_vec()), Some(&b"v".to_vec()));
    assert_eq!(base.get(&b"gone".to_vec()), None);
}

#[test]
fn split_halves_and_preserves_content() {
    let base = filled_base(&[(b"a", b"1"), (b"b", b"2"), (b"c", b"3"), (b"d", b"4")]);
    let right = base.split().expect("four records split");
    assert_eq!(right.lowest(), &b"c".to_vec());
    assert_eq!(right.highest(), &b"".to_vec());
    let mut left = base;
    let middle = right.lowest().clone();
    left.retain(&b"".to_vec(), &middle);
    assert_eq!(left.get(&b"a".to_vec()), Some(&b"1".to_vec()));
    assert_eq!(left.get(&b"b".to_vec()), Some(&b"2".to_vec()));
    assert_eq!(left.get(&b"c".to_vec()), None);
    assert_eq!(right.get(&b"c".to_vec()), Some(&b"3".to_vec()));
    assert_eq!(right.get(&b"d".to_vec()), Some(&b"4".to_vec()));
    assert!(right.get(&b"b".to_vec()).is_none());
    assert_eq!(left.size() + right.size(), 2 + 2 + 2 + 2);
}

#[test]
fn split_single_record_returns_no_right_page() {
    let base = filled_base(&[(b"only", b"1")]);
    assert!(base.split().is_none());
    let empty = BaseData::new();
    assert!(empty.split().is_none());
}

#[test]
fn retain_treats_empty_highest_as_infinity() {
    let mut base = filled_base(&[(b"a", b"1"), (b"m", b"2"), (b"z", b"3")]);
    base.retain(&b"m".to_vec(), &b"".to_vec());
    assert_eq!(base.get(&b"a".to_vec()), None);
    assert_eq!(base.get(&b"m".to_vec()), Some(&b"2".to_vec()));
    assert_eq!(base.get(&b"z".to_vec()), Some(&b"3".to_vec()));
    assert_eq!(base.lowest(), &b"m".to_vec());
    assert_eq!(base.highest(), &b"".to_vec());
}

#[test]
fn delta_merge_keeps_newer_records() {
    let mut newer = DeltaData::new();
    put(&mut newer, b"k", b"new");
    let mut older = DeltaData::new();
    put(&mut older, b"k", b"old");
    put(&mut older, b"other", b"o");
    newer.merge(older);
    assert_eq!(newer.get(&b"k".to_vec()), Some(Some(&b"new".to_vec())));
    assert_eq!(newer.get(&b"other".to_vec()), Some(Some(&b"o".to_vec())));
}

#[test]
fn base_index_routes_to_greatest_separator() {
    let mut idx = BaseIndex::new();
    idx.add(b"".to_vec(), PageHandle { id: 1, epoch: 0 });
    idx.add(b"m".to_vec(), PageHandle { id: 2, epoch: 0 });
    idx.add(b"t".to_vec(), PageHandle { id: 3, epoch: 0 });
    assert_eq!(idx.get(&b"a".to_vec()).unwrap().id, 1);
    assert_eq!(idx.get(&b"m".to_vec()).unwrap().id, 2);
    assert_eq!(idx.get(&b"s".to_vec()).unwrap().id, 2);
    assert_eq!(idx.get(&b"zzz".to_vec()).unwrap().id, 3);
    assert_eq!(idx.size(), 0 + 16 + 1 + 16 + 1 + 16);
}

#[test]
fn base_index_split_halves_the_separators() {
    let mut idx = BaseIndex::new();
    idx.add(b"a".to_vec(), PageHandle { id: 1, epoch: 0 });
    idx.add(b"h".to_vec(), PageHandle { id: 2, epoch: 0 });
    idx.add(b"p".to_vec(), PageHandle { id: 3, epoch: 0 });
    idx.add(b"x".to_vec(), PageHandle { id: 4, epoch: 0 });
    let right = idx.split().expect("four separators split");
    // The right page holds exactly the separators from the middle on, so
    // every entry lies inside its own `[lowest, highest)` bounds.
    assert_eq!(right.lowest(), &b"p".to_vec());
    assert_eq!(right.get(&b"p".to_vec()).unwrap().id, 3);
    assert_eq!(right.get(&b"q".to_vec()).unwrap().id, 3);
    assert_eq!(right.get(&b"z".to_vec()).unwrap().id, 4);
    assert!(right.get(&b"o".to_vec()).is_none());
    assert_eq!(right.size(), (1 + 16) * 2);
    let mut left = idx;
    left.retain(&b"".to_vec(), &b"p".to_vec());
    assert_eq!(left.get(&b"h".to_vec()).unwrap().id, 2);
    assert_eq!(left.get(&b"o".to_vec()).unwrap().id, 2);
    assert_eq!(left.size(), (1 + 16) * 2);
    let one = {
        let mut i = BaseIndex::new();
        i.add(b"a".to_vec(), PageHandle { id: 9, epoch: 0 });
        i
    };
    assert!(one.split().is_none());
}

#[test]
fn delta_index_first_covering_wins() {
    let mut d = DeltaIndex::new();
    d.add(PageIndex {
        lowest: b"m".to_vec(),
        highest: b"t".to_vec(),
        handle: PageHandle { id: 7, epoch: 1 },
    });
    d.add(PageIndex {
        lowest: b"a".to_vec(),
        highest: b"".to_vec(),
        handle: PageHandle { id: 8, epoch: 1 },
    });
    assert_eq!(d.get(&b"p".to_vec()).unwrap().id, 7);
    assert_eq!(d.get(&b"b".to_vec()).unwrap().id, 8);
    assert!(d.get(&b"A".to_vec()).is_none());
}

#[test]
fn split_node_covers_from_middle_to_highest() {
    let node = SplitNode {
        lowest: b"a".to_vec(),
        middle: b"m".to_vec(),
        highest: b"".to_vec(),
        right_page: PageHandle { id: 5, epoch: 2 },
    };
    assert_eq!(node.covers(&b"m".to_vec()).unwrap().id, 5);
    assert_eq!(node.covers(&b"zzz".to_vec()).unwrap().id, 5);
    assert!(node.covers(&b"a".to_vec()).is_none());
}

#[test]
fn chain_reads_walk_head_to_base() {
    let mut base_page = BaseData::new();
    let mut fill = DeltaData::new();
    put(&mut fill, b"a", b"base-a");
    put(&mut fill, b"b", b"base-b");
    base_page.apply(fill);
    let base = Page {
        header: PageHeader::new(),
        content: PageContent::BaseData(base_page),
        next: None,
    };
    let mut delta = DeltaData::new();
    put(&mut delta, b"a", b"delta-a");
    tombstone(&mut delta, b"b");
    let mut head = Page {
        header: PageHeader::new(),
        content: PageContent::DeltaData(delta),
        next: None,
    };
    head.link(base);
    assert_eq!(chain_get(&head, &b"a".to_vec()), Some(b"delta-a".to_vec()));
    assert_eq!(chain_get(&head, &b"b".to_vec()), None);
    assert_eq!(chain_get(&head, &b"c".to_vec()), None);
}

#[test]
fn chain_over_empty_base_reads_the_delta() {
    let base = Page {
        header: PageHeader::new(),
        content: PageContent::BaseData(BaseData::new()),
        next: None,
    };
    let mut delta = DeltaData::new();
    put(&mut delta, b"k", b"v");
    tombstone(&mut delta, b"gone");
    let mut head = Page {
        header: PageHeader::new(),
        content: PageContent::DeltaData(delta),
        next: None,
    };
    head.link(base);
    assert_eq!(chain_get(&head, &b"k".to_vec()), Some(b"v".to_vec()));
    assert_eq!(chain_get(&head, &b"gone".to_vec()), None);
    assert_eq!(chain_get(&head, &b"absent".to_vec()), None);
}

#[test]
fn page_frames_link_and_unlink() {
    let base = Page {
        header: PageHeader::new(),
        content: PageContent::BaseData(BaseData::new()),
        next: None,
    };
    assert!(base.content.is_data());
    assert!(!base.content.is_removed());
    let mut head = Page {
        header: PageHeader::with_epoch(0),
        content: PageContent::DeltaData(DeltaData::new()),
        next: None,
    };
    head.link(base);
    assert_eq!(head.header.len, 2);
    assert_eq!(head.header.epoch, 0);
    let tail = head.unlink();
    assert!(tail.is_some());
    assert_eq!(head.header.len, 2);
    assert!(head.next.is_none());
    assert!(PageContent::RemoveData.is_removed());
    assert!(!PageContent::RemoveIndex.is_data());
}
