//! The in-memory page model: immutable page frames carrying either base or
//! delta content, linked into delta chains, together with the
//! structure-modification descriptors (split, merge, remove).
//!
//! A logical page is a delta chain: a head frame whose `next` links reach a
//! base frame. Base pages hold the materialized records of a half-open key
//! range `[lowest, highest)`; an empty `highest` stands for plus infinity.

use vstd::prelude::*;

use crate::lex::{in_range, key_in_range, lex_le, lex_lt};
use crate::smap::{
    lemma_weight_sum_insert, lemma_weight_sum_remove, lemma_weight_sum_update, weight_sum, SMap,
};

verus! {

/// Logical page identifier, allocated by the page store.
pub type PageId = u64;

/// Location of a logical page: its identifier and the page epoch under which
/// the reference was taken.
#[derive(Clone, Copy, Debug, PartialEq, Eq, Structural)]
pub struct PageHandle {
    pub id: PageId,
    pub epoch: u64,
}

/// Encoded size of a page handle: two 64-bit words.
pub const PAGE_HANDLE_SIZE: usize = 16;

/// A child reference posted on an inner page: the child covers
/// `[lowest, highest)` and is reached through `handle`.
#[derive(Clone, Debug)]
pub struct PageIndex {
    pub lowest: Vec<u8>,
    pub highest: Vec<u8>,
    pub handle: PageHandle,
}

/// Per-entry weight of a data record: key bytes plus value bytes.
pub open spec fn data_weight() -> spec_fn((Seq<u8>, Vec<u8>)) -> int {
    |e: (Seq<u8>, Vec<u8>)| e.0.len() + e.1@.len() as int
}

/// Per-entry weight of a delta record: key bytes plus value bytes for a put,
/// key bytes alone for a tombstone.
pub open spec fn delta_weight() -> spec_fn((Seq<u8>, Option<Vec<u8>>)) -> int {
    |e: (Seq<u8>, Option<Vec<u8>>)|
        e.0.len() + match e.1 {
            Some(v) => v@.len() as int,
            None => 0,
        }
}

/// Per-entry weight of an index record: key bytes plus an encoded handle.
pub open spec fn index_weight() -> spec_fn((Seq<u8>, PageHandle)) -> int {
    |e: (Seq<u8>, PageHandle)| e.0.len() + PAGE_HANDLE_SIZE as int
}

/// An optional byte vector abstracted to its byte sequence.
pub open spec fn lift_opt(v: Option<Vec<u8>>) -> Option<Seq<u8>> {
    match v {
        Some(b) => Some(b@),
        None => None,
    }
}

/// The records of a base page after a delta is overlaid: a put in the delta
/// replaces the base record, a tombstone removes it.
pub open spec fn apply_delta(
    base: Map<Seq<u8>, Seq<u8>>,
    delta: Map<Seq<u8>, Option<Seq<u8>>>,
) -> Map<Seq<u8>, Seq<u8>> {
    Map::new(
        |k: Seq<u8>|
            if delta.contains_key(k) {
                delta[k] is Some
            } else {
                base.contains_key(k)
            },
        |k: Seq<u8>|
            if delta.contains_key(k) {
                delta[k]->Some_0
            } else {
                base[k]
            },
    )
}

/// A base data page: the sorted records of one leaf range.
#[derive(Debug)]
pub struct BaseData {
    pub size: usize,
    pub lowest: Vec<u8>,
    pub highest: Vec<u8>,
    pub records: SMap<Vec<u8>>,
}

impl BaseData {
    /// The records with values abstracted to byte sequences.
    pub open spec fn records_map(self) -> Map<Seq<u8>, Seq<u8>> {
        Map::new(
            |k: Seq<u8>| self.records@.contains_key(k),
            |k: Seq<u8>| self.records@[k]@,
        )
    }

    /// The records in key order, with keys and values abstracted.
    pub open spec fn lifted_entries(self) -> Seq<(Seq<u8>, Seq<u8>)> {
        self.records.entry_seq().map(|i: int, e: (Seq<u8>, Vec<u8>)| (e.0, e.1@))
    }

    pub open spec fn wf(self) -> bool {
        &&& self.records.wf()
        &&& self.size == weight_sum(self.records.entry_seq(), data_weight())
    }

    /// Every record key lies in the page's `[lowest, highest)` range.
    pub open spec fn bounded(self) -> bool {
        forall|i: int|
            0 <= i < self.records.spec_len() ==> in_range(
                #[trigger] self.records.key_at(i),
                self.lowest@,
                self.highest@,
            )
    }

    pub fn new() -> (r: Self)
        ensures
            r.wf(),
            r.bounded(),
            r.size == 0,
            r.lowest@ == Seq::<u8>::empty(),
            r.highest@ == Seq::<u8>::empty(),
            r.records_map() == Map::<Seq<u8>, Seq<u8>>::empty(),
            r.records.spec_len() == 0,
    {
        let r = BaseData { size: 0, lowest: Vec::new(), highest: Vec::new(), records: SMap::new() };
        proof {
            assert(r.records_map() =~= Map::<Seq<u8>, Seq<u8>>::empty());
        }
        r
    }

    /// The tracked byte size of the page's records.
    pub fn size(&self) -> (n: usize)
        requires
            self.wf(),
        ensures
            n == self.size,
            n == weight_sum(self.records.entry_seq(), data_weight()),
    {
        self.size
    }

    pub fn lowest(&self) -> (r: &Vec<u8>)
        ensures
            r@ == self.lowest@,
    {
        &self.lowest
    }

    pub fn highest(&self) -> (r: &Vec<u8>)
        ensures
            r@ == self.highest@,
    {
        &self.highest
    }

    /// Looks up the record stored under `key`.
    pub fn get(&self, key: &Vec<u8>) -> (r: Option<&Vec<u8>>)
        requires
            self.wf(),
        ensures
            match r {
                Some(v) => self.records_map().contains_key(key@) && v@ == self.records_map()[key@],
                None => !self.records_map().contains_key(key@),
            },
    {
        self.records.get(key)
    }

    /// Consolidates a delta into the base: each put replaces the record under
    /// its key, each tombstone removes it. The tracked size follows.
    pub fn apply(&mut self, delta: DeltaData)
        requires
            old(self).wf(),
            delta.wf(),
            weight_sum(old(self).records.entry_seq(), data_weight()) + weight_sum(
                delta.records.entry_seq(),
                delta_weight(),
            ) <= usize::MAX as int,
        ensures
            final(self).wf(),
            final(self).lowest@ == old(self).lowest@,
            final(self).highest@ == old(self).highest@,
            final(self).records_map() == apply_delta(
                old(self).records_map(),
                delta.records_map(),
            ),
    {
        let ghost prior = *self;
        let ghost wb = data_weight();
        let ghost wd = delta_weight();
        let ghost full = weight_sum(prior.records.entry_seq(), wb) + weight_sum(
            delta.records.entry_seq(),
            wd,
        );
        proof {
            assert forall|e: (Seq<u8>, Vec<u8>)| #[trigger] wb(e) >= 0 by {}
            assert forall|e: (Seq<u8>, Option<Vec<u8>>)| #[trigger] wd(e) >= 0 by {}
            assert(delta.records.entry_seq().take(0) =~= Seq::<(Seq<u8>, Option<Vec<u8>>)>::empty());
        }
        let n = delta.records.len();
        let mut j: usize = 0;
        while j < n
            invariant
                wb == data_weight(),
                wd == delta_weight(),
                n == delta.records.spec_len(),
                j <= n,
                delta.wf(),
                self.records.wf(),
                self.size == weight_sum(self.records.entry_seq(), data_weight()),
                self.lowest@ == prior.lowest@,
                self.highest@ == prior.highest@,
                full == weight_sum(prior.records.entry_seq(), data_weight()) + weight_sum(
                    delta.records.entry_seq(),
                    delta_weight(),
                ),
                full <= usize::MAX as int,
                self.size as int <= weight_sum(prior.records.entry_seq(), data_weight())
                    + weight_sum(
                    delta.records.entry_seq().take(j as int),
                    delta_weight(),
                ),
                forall|k: Seq<u8>|
                    !prefix_has(delta, j as int, k) ==> (
                    #[trigger] self.records_map().contains_key(k)
                        == prior.records_map().contains_key(k) && (
                    prior.records_map().contains_key(k) ==> self.records_map()[k]
                        == prior.records_map()[k])),
                forall|i: int|
                    #![trigger delta.records.val_at(i)]
                    0 <= i < j ==> (match delta.records.val_at(i) {
                        Some(v) => self.records_map().contains_key(delta.records.key_at(i))
                            && self.records_map()[delta.records.key_at(i)] == v@,
                        None => !self.records_map().contains_key(delta.records.key_at(i)),
                    }),
            decreases n - j,
        {
            let ghost before = *self;
            let ghost dentry = delta.records.entry_seq()[j as int];
            proof {
                assert forall|e: (Seq<u8>, Vec<u8>)| #[trigger] wb(e) >= 0 by {}
                assert forall|e: (Seq<u8>, Option<Vec<u8>>)| #[trigger] wd(e) >= 0 by {}
                assert(delta.records.entry_seq().take(j + 1) =~= delta.records.entry_seq().take(
                    j as int,
                ).push(dentry));
                crate::smap::lemma_weight_sum_push(
                    delta.records.entry_seq().take(j as int),
                    dentry,
                    wd,
                );
                crate::smap::lemma_weight_sum_split(delta.records.entry_seq(), j + 1, wd);
                crate::smap::lemma_weight_sum_nonneg(delta.records.entry_seq().skip(j + 1), wd);
                assert(weight_sum(delta.records.entry_seq().take(j + 1), wd) <= weight_sum(
                    delta.records.entry_seq(),
                    wd,
                ));
            }
            let key = clone_bytes(delta.records.key_ref(j));
            let key_len = key.len();
            let ghost gkey = key;
            proof {
                assert(gkey@ == dentry.0);
            }
            match delta.records.val_ref(j) {
                Some(v) => {
                    let value = clone_bytes(v);
                    let val_len = value.len();
                    let ghost gvalue = value;
                    let ghost lifted_value = value@;
                    let prev = self.records.insert(key, value);
                    proof {
                        assert(self.records_map() =~= before.records_map().insert(
                            dentry.0,
                            lifted_value,
                        ));
                    }
                    match prev {
                        Some(old_v) => {
                            proof {
                                let wi = choose|i: int|
                                    0 <= i < before.records.spec_len() && before.records.key_at(i)
                                        == gkey@ && self.records.entry_seq()
                                        == before.records.entry_seq().update(i, (gkey@, gvalue));
                                crate::smap::lemma_weight_sum_update(
                                    before.records.entry_seq(),
                                    wi,
                                    (gkey@, gvalue),
                                    wb,
                                );
                                crate::smap::lemma_weight_sum_remove(
                                    before.records.entry_seq(),
                                    wi,
                                    wb,
                                );
                                crate::smap::lemma_weight_sum_nonneg(
                                    before.records.entry_seq().remove(wi),
                                    wb,
                                );
                                before.records.lemma_view_at(wi);
                                assert(old_v@ == before.records.val_at(wi)@);
                                assert(wb(before.records.entry_seq()[wi]) == key_len + old_v@.len());
                            }
                            self.size = self.size - old_v.len();
                            self.size = self.size + val_len;
                        },
                        None => {
                            proof {
                                let wi = choose|i: int|
                                    0 <= i <= before.records.spec_len() && self.records.entry_seq()
                                        == before.records.entry_seq().insert(i, (gkey@, gvalue));
                                lemma_weight_sum_insert(
                                    before.records.entry_seq(),
                                    wi,
                                    (gkey@, gvalue),
                                    wb,
                                );
                                assert(wb((gkey@, gvalue)) == key_len + val_len);
                            }
                            self.size = self.size + key_len;
                            self.size = self.size + val_len;
                        },
                    }
                },
                None => {
                    let prev = self.records.remove(&key);
                    proof {
                        assert(self.records_map() =~= before.records_map().remove(dentry.0));
                    }
                    match prev {
                        Some(old_v) => {
                            proof {
                                let wi = choose|i: int|
                                    0 <= i < before.records.spec_len() && before.records.key_at(i)
                                        == gkey@ && self.records.entry_seq()
                                        == before.records.entry_seq().remove(i);
                                crate::smap::lemma_weight_sum_remove(
                                    before.records.entry_seq(),
                                    wi,
                                    wb,
                                );
                                crate::smap::lemma_weight_sum_nonneg(
                                    before.records.entry_seq().remove(wi),
                                    wb,
                                );
                                before.records.lemma_view_at(wi);
                                assert(wb(before.records.entry_seq()[wi]) == key_len + old_v@.len());
                            }
                            self.size = self.size - key_len;
                            self.size = self.size - old_v.len();
                        },
                        None => {},
                    }
                },
            }
            proof {
                assert forall|k: Seq<u8>|
                    !prefix_has(delta, j + 1, k) implies (self.records_map().contains_key(k)
                    == prior.records_map().contains_key(k) && (prior.records_map().contains_key(k)
                    ==> self.records_map()[k] == prior.records_map()[k])) by {
                    assert(!prefix_has(delta, j as int, k));
                    assert(delta.records.key_at(j as int) != k);
                    assert(before.records_map().contains_key(k)
                        == prior.records_map().contains_key(k));
                }
                assert forall|i: int| 0 <= i < j + 1 implies (match #[trigger] delta.records.val_at(
                    i,
                ) {
                    Some(v) => self.records_map().contains_key(delta.records.key_at(i))
                        && self.records_map()[delta.records.key_at(i)] == v@,
                    None => !self.records_map().contains_key(delta.records.key_at(i)),
                }) by {
                    if i < j {
                        if delta.records.key_at(i) == delta.records.key_at(j as int) {
                            delta.records.lemma_key_at_unique(i, j as int);
                        }
                        assert(delta.records.key_at(i) != dentry.0);
                    } else {
                        assert(delta.records.val_at(i) == dentry.1);
                    }
                }
            }
            j = j + 1;
        }
        proof {
            let target = apply_delta(prior.records_map(), delta.records_map());
            assert forall|k: Seq<u8>| self.records_map().contains_key(k)
                == target.contains_key(k) by {
                delta.records.lemma_view_contains(k);
                if delta.records.contains_key_at(k) {
                    let wi = choose|i: int|
                        0 <= i < delta.records.spec_len() && delta.records.key_at(i) == k;
                    delta.records.lemma_view_at(wi);
                    assert(delta.records.val_at(wi) == delta.records@[k]);
                } else {
                    assert(!prefix_has(delta, n as int, k));
                    assert(self.records_map().contains_key(k)
                        == prior.records_map().contains_key(k));
                }
            }
            assert forall|k: Seq<u8>| self.records_map().contains_key(k) implies
                self.records_map()[k] == target[k] by {
                delta.records.lemma_view_contains(k);
                if delta.records.contains_key_at(k) {
                    let wi = choose|i: int|
                        0 <= i < delta.records.spec_len() && delta.records.key_at(i) == k;
                    delta.records.lemma_view_at(wi);
                    assert(delta.records.val_at(wi) == delta.records@[k]);
                } else {
                    assert(!prefix_has(delta, n as int, k));
                    assert(self.records_map().contains_key(k)
                        == prior.records_map().contains_key(k));
                }
            }
            assert(self.records_map() =~= target);
        }
    }

    /// Carves off the upper half of the records as a new page covering
    /// `[middle, highest)`, where `middle` is the key of the first entry of
    /// the upper half. A page with at most one record is not split.
    pub fn split(&self) -> (r: Option<BaseData>)
        requires
            self.wf(),
        ensures
            match r {
                Some(right) => {
                    &&& self.records.spec_len() >= 2
                    &&& right.wf()
                    &&& right.lowest@ == self.records.key_at(self.split_point())
                    &&& right.highest@ == self.highest@
                    &&& right.lifted_entries() == self.lifted_entries().skip(self.split_point())
                },
                None => self.records.spec_len() <= 1,
            },
    {
        let ghost wb = data_weight();
        let len = self.records.len();
        let nth = len - len / 2;
        proof {
            assert(nth == (len + 1) / 2);
        }
        if nth >= len {
            return None;
        }
        let mut right_records = SMap::new();
        let mut right_size: usize = 0;
        let mut j: usize = nth;
        proof {
            assert(self.records.entry_seq().subrange(nth as int, nth as int) =~= Seq::<
                (Seq<u8>, Vec<u8>),
            >::empty());
        }
        while j < len
            invariant
                wb == data_weight(),
                len == self.records.spec_len(),
                self.wf(),
                nth <= j <= len,
                right_records.wf(),
                right_records.spec_len() == j - nth,
                right_size == weight_sum(right_records.entry_seq(), data_weight()),
                right_size == weight_sum(
                    self.records.entry_seq().subrange(nth as int, j as int),
                    data_weight(),
                ),
                forall|t: int|
                    0 <= t < j - nth ==> #[trigger] right_records.key_at(t)
                        == self.records.key_at(nth + t),
                forall|t: int|
                    0 <= t < j - nth ==> #[trigger] right_records.val_at(t)@
                        == self.records.val_at(nth + t)@,
            decreases len - j,
        {
            proof {
                assert forall|e: (Seq<u8>, Vec<u8>)| #[trigger] wb(e) >= 0 by {}
            }
            let k = clone_bytes(self.records.key_ref(j));
            let k_len = k.len();
            let v = clone_bytes(self.records.val_ref(j));
            let v_len = v.len();
            let ghost gk = k;
            let ghost gv = v;
            let ghost sub_before = self.records.entry_seq().subrange(nth as int, j as int);
            let ghost sub_after = self.records.entry_seq().subrange(nth as int, j + 1);
            proof {
                if j > nth {
                    assert(right_records.key_at(j - nth - 1) == self.records.key_at(j - 1));
                    assert(lex_lt(self.records.key_at(j - 1), self.records.key_at(j as int)));
                }
                assert(sub_after =~= sub_before.push(self.records.entry_seq()[j as int]));
                crate::smap::lemma_weight_sum_push(
                    sub_before,
                    self.records.entry_seq()[j as int],
                    wb,
                );
                crate::smap::lemma_weight_sum_split(self.records.entry_seq(), j + 1, wb);
                crate::smap::lemma_weight_sum_split(
                    self.records.entry_seq().take(j + 1),
                    nth as int,
                    wb,
                );
                crate::smap::lemma_weight_sum_nonneg(self.records.entry_seq().skip(j + 1), wb);
                crate::smap::lemma_weight_sum_nonneg(
                    self.records.entry_seq().take(j + 1).take(nth as int),
                    wb,
                );
                assert(self.records.entry_seq().take(j + 1).skip(nth as int) =~= sub_after);
                assert(weight_sum(sub_after, wb) <= weight_sum(
                    self.records.entry_seq(),
                    wb,
                ));
            }
            let ghost right_before = right_records;
            right_records.push_last(k, v);
            proof {
                crate::smap::lemma_weight_sum_push(right_before.entry_seq(), (gk@, gv), wb);
                assert(right_records.entry_seq() == right_before.entry_seq().push((gk@, gv)));
                assert(wb((gk@, gv)) == k_len + v_len);
                assert(wb(self.records.entry_seq()[j as int]) == k_len + v_len);
                lemma_split_step(
                    self.records,
                    right_before,
                    right_records,
                    nth as int,
                    j as int,
                    gk@,
                    gv,
                );
            }
            right_size = right_size + k_len;
            right_size = right_size + v_len;
            j = j + 1;
        }
        let right = BaseData {
            size: right_size,
            lowest: clone_bytes(self.records.key_ref(nth)),
            highest: clone_bytes(&self.highest),
            records: right_records,
        };
        proof {
            assert forall|t: int| 0 <= t < right.lifted_entries().len() implies
                right.lifted_entries()[t] == self.lifted_entries().skip(nth as int)[t] by {
                assert(right_records.key_at(t) == self.records.key_at(nth + t));
                assert(right_records.val_at(t)@ == self.records.val_at(nth + t)@);
            }
            assert(right.lifted_entries() =~= self.lifted_entries().skip(nth as int));
        }
        Some(right)
    }

    /// The rank at which `split` divides the records: the start of the upper
    /// half.
    pub open spec fn split_point(self) -> int {
        ((self.records.spec_len() + 1) / 2) as int
    }

    /// Keeps only the records inside `[lowest, highest)` and adopts those
    /// bounds; an empty `highest` keeps every record from `lowest` on.
    pub fn retain(&mut self, lowest: &Vec<u8>, highest: &Vec<u8>)
        requires
            old(self).wf(),
        ensures
            final(self).wf(),
            final(self).bounded(),
            final(self).lowest@ == lowest@,
            final(self).highest@ == highest@,
            final(self).records_map() == old(self).records_map().restrict(
                Set::new(|k: Seq<u8>| in_range(k, lowest@, highest@)),
            ),
    {
        let ghost prior = *self;
        let (out, out_size) = filter_range(&self.records, lowest, highest);
        let ghost gout = out;
        self.records = out;
        self.size = out_size;
        self.lowest = clone_bytes(lowest);
        self.highest = clone_bytes(highest);
        proof {
            reveal(filter_inv);
            let len = prior.records.spec_len() as int;
            let src = prior.records;
            let target = prior.records_map().restrict(
                Set::new(|k: Seq<u8>| in_range(k, lowest@, highest@)),
            );
            assert forall|k: Seq<u8>| self.records_map().contains_key(k)
                == target.contains_key(k) by {
                gout.lemma_view_contains(k);
                src.lemma_view_contains(k);
                if gout.contains_key_at(k) {
                    let t = choose|t: int| 0 <= t < gout.spec_len() && gout.key_at(t) == k;
                    let kt = gout.key_at(t);
                    let p = choose|p: int|
                        #![trigger src.key_at(p)]
                        0 <= p < len && gout.key_at(t) == src.key_at(p) && gout.val_at(t)@
                            == src.val_at(p)@;
                    assert(src.key_at(p) == k);
                    assert(in_range(gout.key_at(t), lowest@, highest@));
                }
                if src.contains_key_at(k) && in_range(k, lowest@, highest@) {
                    let p = choose|p: int| 0 <= p < src.spec_len() && src.key_at(p) == k;
                    let kp = src.key_at(p);
                    let t = choose|t: int|
                        #![trigger gout.key_at(t)]
                        0 <= t < gout.spec_len() && gout.key_at(t) == src.key_at(p);
                    assert(gout.key_at(t) == k);
                }
            }
            assert forall|k: Seq<u8>| self.records_map().contains_key(k) implies
                self.records_map()[k] == target[k] by {
                gout.lemma_view_contains(k);
                let t = choose|t: int| 0 <= t < gout.spec_len() && gout.key_at(t) == k;
                gout.lemma_view_at(t);
                let kt = gout.key_at(t);
                let p = choose|p: int|
                    #![trigger src.key_at(p)]
                    0 <= p < len && gout.key_at(t) == src.key_at(p) && gout.val_at(t)@
                        == src.val_at(p)@;
                src.lemma_view_at(p);
            }
            assert(self.records_map() =~= target);
            assert forall|i: int| 0 <= i < self.records.spec_len() implies in_range(
                #[trigger] self.records.key_at(i),
                self.lowest@,
                self.highest@,
            ) by {
                assert(in_range(gout.key_at(i), lowest@, highest@));
            }
        }
    }
}

/// One step of a page split: pushing the record at rank `j` extends the
/// record-by-record correspondence with the upper half of the source.
proof fn lemma_split_step(
    src: SMap<Vec<u8>>,
    before: SMap<Vec<u8>>,
    after: SMap<Vec<u8>>,
    nth: int,
    j: int,
    gk: Seq<u8>,
    gv: Vec<u8>,
)
    requires
        0 <= nth <= j < src.spec_len(),
        before.spec_len() == j - nth,
        after.entry_seq() == before.entry_seq().push((gk, gv)),
        gk == src.key_at(j),
        gv@ == src.val_at(j)@,
        forall|t: int|
            0 <= t < j - nth ==> #[trigger] before.key_at(t) == src.key_at(nth + t)
                && before.val_at(t)@ == src.val_at(nth + t)@,
    ensures
        forall|t: int| 0 <= t < j + 1 - nth ==> #[trigger] after.key_at(t) == src.key_at(nth + t),
        forall|t: int| 0 <= t < j + 1 - nth ==> #[trigger] after.val_at(t)@ == src.val_at(nth + t)@,
{
    assert forall|t: int| 0 <= t < j + 1 - nth implies #[trigger] after.key_at(t) == src.key_at(
        nth + t,
    ) by {
        if t < j - nth {
            assert(after.key_at(t) == before.key_at(t));
            assert(before.key_at(t) == src.key_at(nth + t));
        } else {
            assert(after.key_at(t) == gk);
        }
    }
    assert forall|t: int| 0 <= t < j + 1 - nth implies #[trigger] after.val_at(t)@ == src.val_at(
        nth + t,
    )@ by {
        if t < j - nth {
            assert(after.val_at(t) == before.val_at(t));
            assert(before.key_at(t) == src.key_at(nth + t));
            assert(before.val_at(t)@ == src.val_at(nth + t)@);
        } else {
            assert(after.val_at(t) == gv);
        }
    }
}

/// The output of a range filter corresponds, record by record, to the
/// in-range records among the first `j` of the source.
#[verifier::opaque]
spec fn filter_inv(src: SMap<Vec<u8>>, out: SMap<Vec<u8>>, j: int, lo: Seq<u8>, hi: Seq<u8>) -> bool {
    &&& forall|t: int|
        #![trigger out.key_at(t)]
        0 <= t < out.spec_len() ==> exists|p: int|
            #![trigger src.key_at(p)]
            0 <= p < j && out.key_at(t) == src.key_at(p) && out.val_at(t)@ == src.val_at(p)@
    &&& forall|t: int| 0 <= t < out.spec_len() ==> in_range(#[trigger] out.key_at(t), lo, hi)
    &&& forall|p: int|
        #![trigger src.key_at(p)]
        0 <= p < j && in_range(src.key_at(p), lo, hi) ==> exists|t: int|
            #![trigger out.key_at(t)]
            0 <= t < out.spec_len() && out.key_at(t) == src.key_at(p)
}

proof fn lemma_filter_start(src: SMap<Vec<u8>>, out: SMap<Vec<u8>>, lo: Seq<u8>, hi: Seq<u8>)
    requires
        out.spec_len() == 0,
    ensures
        filter_inv(src, out, 0, lo, hi),
{
    reveal(filter_inv);
}

/// Pushing the in-range record at rank `j` keeps the correspondence.
proof fn lemma_filter_keep(
    src: SMap<Vec<u8>>,
    before: SMap<Vec<u8>>,
    after: SMap<Vec<u8>>,
    j: int,
    gk: Seq<u8>,
    gv: Vec<u8>,
    lo: Seq<u8>,
    hi: Seq<u8>,
)
    requires
        0 <= j < src.spec_len(),
        after.entry_seq() == before.entry_seq().push((gk, gv)),
        gk == src.key_at(j),
        gv@ == src.val_at(j)@,
        in_range(src.key_at(j), lo, hi),
        filter_inv(src, before, j, lo, hi),
    ensures
        filter_inv(src, after, j + 1, lo, hi),
{
    reveal(filter_inv);
    assert forall|t: int| #![trigger after.key_at(t)] 0 <= t < after.spec_len() implies exists|
        p: int,
    |
        #![trigger src.key_at(p)]
        0 <= p < j + 1 && after.key_at(t) == src.key_at(p) && after.val_at(t)@
            == src.val_at(p)@ by {
        if t < after.spec_len() - 1 {
            assert(after.key_at(t) == before.key_at(t));
            assert(after.val_at(t) == before.val_at(t));
            let p = choose|p: int|
                #![trigger src.key_at(p)]
                0 <= p < j && before.key_at(t) == src.key_at(p) && before.val_at(t)@
                    == src.val_at(p)@;
            assert(0 <= p < j + 1 && after.key_at(t) == src.key_at(p) && after.val_at(t)@
                == src.val_at(p)@);
        } else {
            assert(after.key_at(t) == gk);
            assert(after.val_at(t) == gv);
            assert(0 <= j < j + 1 && after.key_at(t) == src.key_at(j) && after.val_at(t)@
                == src.val_at(j)@);
        }
    }
    assert forall|t: int| 0 <= t < after.spec_len() implies in_range(
        #[trigger] after.key_at(t),
        lo,
        hi,
    ) by {
        if t < after.spec_len() - 1 {
            assert(after.key_at(t) == before.key_at(t));
        } else {
            assert(after.key_at(t) == src.key_at(j));
        }
    }
    assert forall|p: int| #![trigger src.key_at(p)]
        0 <= p < j + 1 && in_range(src.key_at(p), lo, hi) implies exists|t: int|
        #![trigger after.key_at(t)]
        0 <= t < after.spec_len() && after.key_at(t) == src.key_at(p) by {
        if p < j {
            let t = choose|t: int|
                #![trigger before.key_at(t)]
                0 <= t < before.spec_len() && before.key_at(t) == src.key_at(p);
            assert(after.key_at(t) == before.key_at(t));
            assert(0 <= t < after.spec_len() && after.key_at(t) == src.key_at(p));
        } else {
            let t0 = after.spec_len() - 1;
            assert(after.key_at(t0) == src.key_at(p));
            assert(0 <= t0 < after.spec_len() && after.key_at(t0) == src.key_at(p));
        }
    }
}

/// Skipping the out-of-range record at rank `j` keeps the correspondence.
proof fn lemma_filter_skip(
    src: SMap<Vec<u8>>,
    out: SMap<Vec<u8>>,
    j: int,
    lo: Seq<u8>,
    hi: Seq<u8>,
)
    requires
        0 <= j < src.spec_len(),
        !in_range(src.key_at(j), lo, hi),
        filter_inv(src, out, j, lo, hi),
    ensures
        filter_inv(src, out, j + 1, lo, hi),
{
    reveal(filter_inv);
    assert forall|t: int| #![trigger out.key_at(t)] 0 <= t < out.spec_len() implies exists|
        p: int,
    |
        #![trigger src.key_at(p)]
        0 <= p < j + 1 && out.key_at(t) == src.key_at(p) && out.val_at(t)@ == src.val_at(p)@ by {
        let p = choose|p: int|
            #![trigger src.key_at(p)]
            0 <= p < j && out.key_at(t) == src.key_at(p) && out.val_at(t)@ == src.val_at(p)@;
        assert(0 <= p < j + 1 && out.key_at(t) == src.key_at(p) && out.val_at(t)@
            == src.val_at(p)@);
    }
    assert forall|p: int| #![trigger src.key_at(p)]
        0 <= p < j + 1 && in_range(src.key_at(p), lo, hi) implies exists|t: int|
        #![trigger out.key_at(t)]
        0 <= t < out.spec_len() && out.key_at(t) == src.key_at(p) by {
        assert(p != j);
        let t = choose|t: int|
            #![trigger out.key_at(t)]
            0 <= t < out.spec_len() && out.key_at(t) == src.key_at(p);
        assert(0 <= t < out.spec_len() && out.key_at(t) == src.key_at(p));
    }
}

/// The next source key sorts after everything filtered so far.
proof fn lemma_filter_order(
    src: SMap<Vec<u8>>,
    out: SMap<Vec<u8>>,
    j: int,
    lo: Seq<u8>,
    hi: Seq<u8>,
)
    requires
        src.wf(),
        0 <= j < src.spec_len(),
        filter_inv(src, out, j, lo, hi),
        out.spec_len() > 0,
    ensures
        lex_lt(out.key_at(out.spec_len() - 1), src.key_at(j)),
{
    reveal(filter_inv);
    let t0 = out.spec_len() - 1;
    let k0 = out.key_at(t0);
    let p0 = choose|p: int|
        #![trigger src.key_at(p)]
        0 <= p < j && out.key_at(t0) == src.key_at(p) && out.val_at(t0)@ == src.val_at(p)@;
    assert(lex_lt(src.key_at(p0), src.key_at(j)));
}

/// Copies the records of `src` whose keys lie in `[lowest, highest)`, in
/// order, together with their total weight.
fn filter_range(src: &SMap<Vec<u8>>, lowest: &Vec<u8>, highest: &Vec<u8>) -> (r: (
    SMap<Vec<u8>>,
    usize,
))
    requires
        src.wf(),
        weight_sum(src.entry_seq(), data_weight()) <= usize::MAX as int,
    ensures
        r.0.wf(),
        r.1 == weight_sum(r.0.entry_seq(), data_weight()),
        filter_inv(*src, r.0, src.spec_len() as int, lowest@, highest@),
{
    let ghost wb = data_weight();
    let len = src.len();
    let mut out = SMap::new();
    let mut out_size: usize = 0;
    let mut j: usize = 0;
    proof {
        assert(src.entry_seq().take(0) =~= Seq::<(Seq<u8>, Vec<u8>)>::empty());
        lemma_filter_start(*src, out, lowest@, highest@);
    }
    while j < len
        invariant
            wb == data_weight(),
            len == src.spec_len(),
            src.wf(),
            weight_sum(src.entry_seq(), data_weight()) <= usize::MAX as int,
            j <= len,
            out.wf(),
            out_size == weight_sum(out.entry_seq(), data_weight()),
            out_size as int <= weight_sum(src.entry_seq().take(j as int), data_weight()),
            filter_inv(*src, out, j as int, lowest@, highest@),
        decreases len - j,
    {
        proof {
            assert forall|e: (Seq<u8>, Vec<u8>)| #[trigger] wb(e) >= 0 by {}
            assert(src.entry_seq().take(j + 1) =~= src.entry_seq().take(j as int).push(
                src.entry_seq()[j as int],
            ));
            crate::smap::lemma_weight_sum_push(
                src.entry_seq().take(j as int),
                src.entry_seq()[j as int],
                wb,
            );
        }
        let keep = key_in_range(src.key_ref(j), lowest, highest);
        if keep {
            let k = clone_bytes(src.key_ref(j));
            let k_len = k.len();
            let v = clone_bytes(src.val_ref(j));
            let v_len = v.len();
            let ghost gk = k;
            let ghost gv = v;
            let ghost out_before = out;
            proof {
                if out.spec_len() > 0 {
                    lemma_filter_order(*src, out, j as int, lowest@, highest@);
                }
                assert(wb(src.entry_seq()[j as int]) == k_len + v_len);
            }
            out.push_last(k, v);
            proof {
                crate::smap::lemma_weight_sum_push(out_before.entry_seq(), (gk@, gv), wb);
                assert(out.entry_seq() == out_before.entry_seq().push((gk@, gv)));
                assert(wb((gk@, gv)) == k_len + v_len);
                lemma_filter_keep(
                    *src,
                    out_before,
                    out,
                    j as int,
                    gk@,
                    gv,
                    lowest@,
                    highest@,
                );
                crate::smap::lemma_weight_sum_split(src.entry_seq(), j + 1, wb);
                crate::smap::lemma_weight_sum_nonneg(src.entry_seq().skip(j + 1), wb);
                assert(out_size + k_len + v_len <= weight_sum(
                    src.entry_seq().take(j + 1),
                    wb,
                ));
            }
            out_size = out_size + k_len;
            out_size = out_size + v_len;
        } else {
            proof {
                lemma_filter_skip(*src, out, j as int, lowest@, highest@);
            }
        }
        j = j + 1;
    }
    (out, out_size)
}

/// Some key among the first `n` delta records is `k`.
spec fn prefix_has(delta: DeltaData, n: int, k: Seq<u8>) -> bool {
    exists|i: int| 0 <= i < n && delta.records.key_at(i) == k
}

/// The child entry responsible for `k` on an inner page: the entry with the
/// greatest separator key that is at most `k`.
pub open spec fn spec_child(s: Seq<(Seq<u8>, PageHandle)>, k: Seq<u8>) -> Option<(
    Seq<u8>,
    PageHandle,
)>
    decreases s.len(),
{
    if s.len() == 0 {
        None
    } else if lex_le(s.last().0, k) {
        Some(s.last())
    } else {
        spec_child(s.drop_last(), k)
    }
}

proof fn lemma_spec_child_found(s: Seq<(Seq<u8>, PageHandle)>, k: Seq<u8>, i: int)
    requires
        0 <= i < s.len(),
        lex_le(s[i].0, k),
        forall|j: int| i < j < s.len() ==> lex_lt(k, #[trigger] s[j].0),
    ensures
        spec_child(s, k) == Some(s[i]),
    decreases s.len(),
{
    if i == s.len() - 1 {
    } else {
        assert(lex_lt(k, s.last().0));
        crate::lex::lemma_lex_cmp_antisym(s.last().0, k);
        let dl = s.drop_last();
        assert(dl[i] == s[i]);
        assert forall|j: int| i < j < dl.len() implies lex_lt(k, #[trigger] dl[j].0) by {
            assert(dl[j] == s[j]);
        }
        lemma_spec_child_found(dl, k, i);
    }
}

proof fn lemma_spec_child_none(s: Seq<(Seq<u8>, PageHandle)>, k: Seq<u8>)
    requires
        forall|j: int| 0 <= j < s.len() ==> lex_lt(k, #[trigger] s[j].0),
    ensures
        spec_child(s, k) is None,
    decreases s.len(),
{
    if s.len() > 0 {
        assert(lex_lt(k, s.last().0));
        crate::lex::lemma_lex_cmp_antisym(s.last().0, k);
        let dl = s.drop_last();
        assert forall|j: int| 0 <= j < dl.len() implies lex_lt(k, #[trigger] dl[j].0) by {
            assert(dl[j] == s[j]);
        }
        lemma_spec_child_none(dl, k);
    }
}

/// Which separator entries an inner-page trim keeps.
#[derive(Clone, Copy, Debug, PartialEq, Eq, Structural)]
pub enum KeepRule {
    /// Keep keys inside `[lo, hi)`, an empty `hi` standing for plus infinity.
    Within,
    /// Keep keys at most `lo`, and keys at least `hi` when `hi` is not empty.
    Outside,
}

pub open spec fn keeps(rule: KeepRule, k: Seq<u8>, lo: Seq<u8>, hi: Seq<u8>) -> bool {
    match rule {
        KeepRule::Within => in_range(k, lo, hi),
        KeepRule::Outside => lex_le(k, lo) || (lex_le(hi, k) && hi.len() != 0),
    }
}

fn keeps_key(rule: KeepRule, k: &Vec<u8>, lo: &Vec<u8>, hi: &Vec<u8>) -> (r: bool)
    ensures
        r == keeps(rule, k@, lo@, hi@),
{
    match rule {
        KeepRule::Within => key_in_range(k, lo, hi),
        KeepRule::Outside => {
            crate::lex::bytes_le(k, lo) || (hi.len() != 0 && crate::lex::bytes_le(hi, k))
        },
    }
}

/// The output of a separator trim corresponds, entry by entry, to the kept
/// entries among the first `j` of the source.
#[verifier::opaque]
spec fn trim_inv(
    src: SMap<PageHandle>,
    out: SMap<PageHandle>,
    j: int,
    rule: KeepRule,
    lo: Seq<u8>,
    hi: Seq<u8>,
) -> bool {
    &&& forall|t: int|
        #![trigger out.key_at(t)]
        0 <= t < out.spec_len() ==> exists|p: int|
            #![trigger src.key_at(p)]
            0 <= p < j && out.key_at(t) == src.key_at(p) && out.val_at(t) == src.val_at(p)
    &&& forall|t: int| 0 <= t < out.spec_len() ==> keeps(rule, #[trigger] out.key_at(t), lo, hi)
    &&& forall|p: int|
        #![trigger src.key_at(p)]
        0 <= p < j && keeps(rule, src.key_at(p), lo, hi) ==> exists|t: int|
            #![trigger out.key_at(t)]
            0 <= t < out.spec_len() && out.key_at(t) == src.key_at(p)
}

proof fn lemma_trim_keep(
    src: SMap<PageHandle>,
    before: SMap<PageHandle>,
    after: SMap<PageHandle>,
    j: int,
    gk: Seq<u8>,
    gv: PageHandle,
    rule: KeepRule,
    lo: Seq<u8>,
    hi: Seq<u8>,
)
    requires
        0 <= j < src.spec_len(),
        after.entry_seq() == before.entry_seq().push((gk, gv)),
        gk == src.key_at(j),
        gv == src.val_at(j),
        keeps(rule, src.key_at(j), lo, hi),
        trim_inv(src, before, j, rule, lo, hi),
    ensures
        trim_inv(src, after, j + 1, rule, lo, hi),
{
    reveal(trim_inv);
    assert forall|t: int| #![trigger after.key_at(t)] 0 <= t < after.spec_len() implies exists|
        p: int,
    |
        #![trigger src.key_at(p)]
        0 <= p < j + 1 && after.key_at(t) == src.key_at(p) && after.val_at(t)
            == src.val_at(p) by {
        if t < after.spec_len() - 1 {
            assert(after.key_at(t) == before.key_at(t));
            assert(after.val_at(t) == before.val_at(t));
            let p = choose|p: int|
                #![trigger src.key_at(p)]
                0 <= p < j && before.key_at(t) == src.key_at(p) && before.val_at(t)
                    == src.val_at(p);
            assert(0 <= p < j + 1 && after.key_at(t) == src.key_at(p) && after.val_at(t)
                == src.val_at(p));
        } else {
            assert(after.key_at(t) == gk);
            assert(after.val_at(t) == gv);
            assert(0 <= j < j + 1 && after.key_at(t) == src.key_at(j) && after.val_at(t)
                == src.val_at(j));
        }
    }
    assert forall|t: int| 0 <= t < after.spec_len() implies keeps(
        rule,
        #[trigger] after.key_at(t),
        lo,
        hi,
    ) by {
        if t < after.spec_len() - 1 {
            assert(after.key_at(t) == before.key_at(t));
        } else {
            assert(after.key_at(t) == src.key_at(j));
        }
    }
    assert forall|p: int| #![trigger src.key_at(p)]
        0 <= p < j + 1 && keeps(rule, src.key_at(p), lo, hi) implies exists|t: int|
        #![trigger after.key_at(t)]
        0 <= t < after.spec_len() && after.key_at(t) == src.key_at(p) by {
        if p < j {
            let t = choose|t: int|
                #![trigger before.key_at(t)]
                0 <= t < before.spec_len() && before.key_at(t) == src.key_at(p);
            assert(after.key_at(t) == before.key_at(t));
            assert(0 <= t < after.spec_len() && after.key_at(t) == src.key_at(p));
        } else {
            let t0 = after.spec_len() - 1;
            assert(after.key_at(t0) == src.key_at(p));
            assert(0 <= t0 < after.spec_len() && after.key_at(t0) == src.key_at(p));
        }
    }
}

proof fn lemma_trim_skip(
    src: SMap<PageHandle>,
    out: SMap<PageHandle>,
    j: int,
    rule: KeepRule,
    lo: Seq<u8>,
    hi: Seq<u8>,
)
    requires
        0 <= j < src.spec_len(),
        !keeps(rule, src.key_at(j), lo, hi),
        trim_inv(src, out, j, rule, lo, hi),
    ensures
        trim_inv(src, out, j + 1, rule, lo, hi),
{
    reveal(trim_inv);
    assert forall|t: int| #![trigger out.key_at(t)] 0 <= t < out.spec_len() implies exists|
        p: int,
    |
        #![trigger src.key_at(p)]
        0 <= p < j + 1 && out.key_at(t) == src.key_at(p) && out.val_at(t) == src.val_at(p) by {
        let p = choose|p: int|
            #![trigger src.key_at(p)]
            0 <= p < j && out.key_at(t) == src.key_at(p) && out.val_at(t) == src.val_at(p);
        assert(0 <= p < j + 1 && out.key_at(t) == src.key_at(p) && out.val_at(t)
            == src.val_at(p));
    }
    assert forall|p: int| #![trigger src.key_at(p)]
        0 <= p < j + 1 && keeps(rule, src.key_at(p), lo, hi) implies exists|t: int|
        #![trigger out.key_at(t)]
        0 <= t < out.spec_len() && out.key_at(t) == src.key_at(p) by {
        assert(p != j);
        let t = choose|t: int|
            #![trigger out.key_at(t)]
            0 <= t < out.spec_len() && out.key_at(t) == src.key_at(p);
        assert(0 <= t < out.spec_len() && out.key_at(t) == src.key_at(p));
    }
}

proof fn lemma_trim_order(
    src: SMap<PageHandle>,
    out: SMap<PageHandle>,
    j: int,
    rule: KeepRule,
    lo: Seq<u8>,
    hi: Seq<u8>,
)
    requires
        src.wf(),
        0 <= j < src.spec_len(),
        trim_inv(src, out, j, rule, lo, hi),
        out.spec_len() > 0,
    ensures
        lex_lt(out.key_at(out.spec_len() - 1), src.key_at(j)),
{
    reveal(trim_inv);
    let t0 = out.spec_len() - 1;
    let k0 = out.key_at(t0);
    let p0 = choose|p: int|
        #![trigger src.key_at(p)]
        0 <= p < j && out.key_at(t0) == src.key_at(p) && out.val_at(t0) == src.val_at(p);
    assert(lex_lt(src.key_at(p0), src.key_at(j)));
}

/// Copies the separator entries of `src` that the rule keeps, in order,
/// together with their total weight.
fn trim_handles(src: &SMap<PageHandle>, rule: KeepRule, lo: &Vec<u8>, hi: &Vec<u8>) -> (r: (
    SMap<PageHandle>,
    usize,
))
    requires
        src.wf(),
        weight_sum(src.entry_seq(), index_weight()) <= usize::MAX as int,
    ensures
        r.0.wf(),
        r.1 == weight_sum(r.0.entry_seq(), index_weight()),
        r.1 <= weight_sum(src.entry_seq(), index_weight()),
        trim_inv(*src, r.0, src.spec_len() as int, rule, lo@, hi@),
{
    let ghost wi = index_weight();
    let len = src.len();
    let mut out = SMap::new();
    let mut out_size: usize = 0;
    let mut j: usize = 0;
    proof {
        assert(src.entry_seq().take(0) =~= Seq::<(Seq<u8>, PageHandle)>::empty());
        reveal(trim_inv);
        assert(trim_inv(*src, out, 0, rule, lo@, hi@));
    }
    while j < len
        invariant
            wi == index_weight(),
            len == src.spec_len(),
            src.wf(),
            weight_sum(src.entry_seq(), index_weight()) <= usize::MAX as int,
            j <= len,
            out.wf(),
            out_size == weight_sum(out.entry_seq(), index_weight()),
            out_size as int <= weight_sum(src.entry_seq().take(j as int), index_weight()),
            trim_inv(*src, out, j as int, rule, lo@, hi@),
        decreases len - j,
    {
        proof {
            assert forall|e: (Seq<u8>, PageHandle)| #[trigger] wi(e) >= 0 by {}
            assert(src.entry_seq().take(j + 1) =~= src.entry_seq().take(j as int).push(
                src.entry_seq()[j as int],
            ));
            crate::smap::lemma_weight_sum_push(
                src.entry_seq().take(j as int),
                src.entry_seq()[j as int],
                wi,
            );
        }
        let keep = keeps_key(rule, src.key_ref(j), lo, hi);
        if keep {
            let k = clone_bytes(src.key_ref(j));
            let k_len = k.len();
            let v = *src.val_ref(j);
            let ghost gk = k;
            let ghost out_before = out;
            proof {
                if out.spec_len() > 0 {
                    lemma_trim_order(*src, out, j as int, rule, lo@, hi@);
                }
                assert(wi(src.entry_seq()[j as int]) == k_len + PAGE_HANDLE_SIZE);
            }
            out.push_last(k, v);
            proof {
                crate::smap::lemma_weight_sum_push(out_before.entry_seq(), (gk@, v), wi);
                assert(out.entry_seq() == out_before.entry_seq().push((gk@, v)));
                assert(wi((gk@, v)) == k_len + PAGE_HANDLE_SIZE);
                lemma_trim_keep(*src, out_before, out, j as int, gk@, v, rule, lo@, hi@);
                crate::smap::lemma_weight_sum_split(src.entry_seq(), j + 1, wi);
                crate::smap::lemma_weight_sum_nonneg(src.entry_seq().skip(j + 1), wi);
                assert(out_size + k_len + PAGE_HANDLE_SIZE <= weight_sum(
                    src.entry_seq().take(j + 1),
                    wi,
                ));
            }
            out_size = out_size + k_len;
            out_size = out_size + PAGE_HANDLE_SIZE;
        } else {
            proof {
                lemma_trim_skip(*src, out, j as int, rule, lo@, hi@);
            }
        }
        j = j + 1;
    }
    proof {
        assert(src.entry_seq().take(src.spec_len() as int) =~= src.entry_seq());
    }
    (out, out_size)
}

/// A delta data page: records to overlay on the pages behind it. A `Some`
/// value is a put, a `None` value a delete tombstone.
#[derive(Debug)]
pub struct DeltaData {
    pub records: SMap<Option<Vec<u8>>>,
}

impl DeltaData {
    /// The delta records with values abstracted to byte sequences.
    pub open spec fn records_map(self) -> Map<Seq<u8>, Option<Seq<u8>>> {
        Map::new(
            |k: Seq<u8>| self.records@.contains_key(k),
            |k: Seq<u8>|
                match self.records@[k] {
                    Some(v) => Some(v@),
                    None => None,
                },
        )
    }

    pub open spec fn wf(self) -> bool {
        self.records.wf()
    }

    pub fn new() -> (r: Self)
        ensures
            r.wf(),
            r.records_map() == Map::<Seq<u8>, Option<Seq<u8>>>::empty(),
            r.records.spec_len() == 0,
    {
        let r = DeltaData { records: SMap::new() };
        proof {
            assert(r.records_map() =~= Map::<Seq<u8>, Option<Seq<u8>>>::empty());
        }
        r
    }

    /// Looks up `key`: `None` when the delta does not speak of it,
    /// `Some(None)` for a tombstone, `Some(Some(v))` for a put.
    pub fn get(&self, key: &Vec<u8>) -> (r: Option<Option<&Vec<u8>>>)
        requires
            self.wf(),
        ensures
            match r {
                Some(Some(v)) => self.records_map().contains_key(key@) && self.records_map()[key@]
                    == Some(v@),
                Some(None) => self.records_map().contains_key(key@) && self.records_map()[key@]
                    is None,
                None => !self.records_map().contains_key(key@),
            },
    {
        match self.records.get(key) {
            Some(v) => match v {
                Some(bytes) => Some(Some(bytes)),
                None => Some(None),
            },
            None => None,
        }
    }

    /// Records a put (`Some`) or a delete tombstone (`None`) under `key`.
    pub fn add(&mut self, key: Vec<u8>, value: Option<Vec<u8>>)
        requires
            old(self).wf(),
        ensures
            final(self).wf(),
            final(self).records_map() == old(self).records_map().insert(
                key@,
                match value {
                    Some(v) => Some(v@),
                    None => None,
                },
            ),
    {
        let ghost prior = *self;
        let ghost lifted: Option<Seq<u8>> = lift_opt(value);
        self.records.insert(key, value);
        proof {
            assert(self.records_map() =~= prior.records_map().insert(key@, lifted));
        }
    }

    /// Folds another delta in; records already present win over `other`'s.
    pub fn merge(&mut self, other: DeltaData)
        requires
            old(self).wf(),
            other.wf(),
        ensures
            final(self).wf(),
            final(self).records_map() == other.records_map().union_prefer_right(
                old(self).records_map(),
            ),
    {
        let ghost prior = *self;
        let n = other.records.len();
        let mut j: usize = 0;
        while j < n
            invariant
                n == other.records.spec_len(),
                j <= n,
                other.wf(),
                self.wf(),
                forall|k: Seq<u8>|
                    prior.records_map().contains_key(k) ==> #[trigger] self.records_map().contains_key(k)
                        && self.records_map()[k] == prior.records_map()[k],
                forall|k: Seq<u8>|
                    #[trigger] self.records_map().contains_key(k) ==> prior.records_map().contains_key(k)
                        || other.records_map().contains_key(k),
                forall|k: Seq<u8>|
                    self.records_map().contains_key(k) && !prior.records_map().contains_key(k)
                        ==> #[trigger] self.records_map()[k] == other.records_map()[k],
                forall|i: int|
                    0 <= i < j ==> #[trigger] self.records_map().contains_key(
                        other.records.key_at(i),
                    ),
            decreases n - j,
        {
            let key = other.records.key_ref(j).clone();
            proof {
                assert(key@ == other.records.key_at(j as int));
            }
            let ghost before = *self;
            match self.records.get(&key) {
                Some(_) => {
                    proof {
                        assert(before.records_map().contains_key(key@));
                    }
                },
                None => {
                    let value = clone_opt_bytes(other.records.val_ref(j));
                    let ghost lifted: Option<Seq<u8>> = lift_opt(value);
                    proof {
                        assert(!before.records_map().contains_key(key@));
                    }
                    self.records.insert(key, value);
                    proof {
                        assert(self.records_map() =~= before.records_map().insert(
                            other.records.key_at(j as int),
                            lifted,
                        ));
                        other.records.lemma_view_at(j as int);
                        assert(other.records_map()[other.records.key_at(j as int)] == lifted);
                        assert forall|k: Seq<u8>| prior.records_map().contains_key(k) implies
                            self.records_map().contains_key(k) && self.records_map()[k]
                            == prior.records_map()[k] by {
                            assert(before.records_map().contains_key(k));
                            assert(k != key@);
                        }
                    }
                },
            }
            j = j + 1;
        }
        proof {
            assert forall|k: Seq<u8>| other.records_map().contains_key(k) implies
                self.records_map().contains_key(k) by {
                other.records.lemma_view_contains(k);
                let w = choose|i: int|
                    0 <= i < other.records.spec_len() && other.records.key_at(i) == k;
                assert(self.records_map().contains_key(other.records.key_at(w)));
            }
            assert(self.records_map() =~= other.records_map().union_prefer_right(
                prior.records_map(),
            ));
        }
    }
}

/// Clones an optional byte vector, preserving its abstract value.
fn clone_opt_bytes(v: &Option<Vec<u8>>) -> (r: Option<Vec<u8>>)
    ensures
        match r {
            Some(b) => v is Some && b@ == v->Some_0@,
            None => v is None,
        },
{
    match v {
        Some(b) => Some(clone_bytes(b)),
        None => None,
    }
}

/// Clones a byte vector, preserving its abstract value.
pub fn clone_bytes(v: &Vec<u8>) -> (r: Vec<u8>)
    ensures
        r@ == v@,
{
    let mut r: Vec<u8> = Vec::new();
    let mut i: usize = 0;
    while i < v.len()
        invariant
            i <= v.len(),
            r@ == v@.take(i as int),
        decreases v.len() - i,
    {
        r.push(v[i]);
        proof {
            assert(r@ =~= v@.take(i + 1));
        }
        i = i + 1;
    }
    proof {
        assert(v@.take(v@.len() as int) =~= v@);
    }
    r
}

/// A base index page: sorted separator keys mapping to child page handles
/// for one inner range.
#[derive(Debug)]
pub struct BaseIndex {
    pub size: usize,
    pub lowest: Vec<u8>,
    pub highest: Vec<u8>,
    pub children: SMap<PageHandle>,
}

impl BaseIndex {
    pub open spec fn wf(self) -> bool {
        &&& self.children.wf()
        &&& self.size == weight_sum(self.children.entry_seq(), index_weight())
    }

    pub fn new() -> (r: Self)
        ensures
            r.wf(),
            r.size == 0,
            r.lowest@ == Seq::<u8>::empty(),
            r.highest@ == Seq::<u8>::empty(),
            r.children@ == Map::<Seq<u8>, PageHandle>::empty(),
            r.children.spec_len() == 0,
    {
        BaseIndex {
            size: 0,
            lowest: Vec::new(),
            highest: Vec::new(),
            children: SMap::new(),
        }
    }

    /// The tracked byte size of the page's separator entries.
    pub fn size(&self) -> (n: usize)
        requires
            self.wf(),
        ensures
            n == self.size,
            n == weight_sum(self.children.entry_seq(), index_weight()),
    {
        self.size
    }

    pub fn lowest(&self) -> (r: &Vec<u8>)
        ensures
            r@ == self.lowest@,
    {
        &self.lowest
    }

    pub fn highest(&self) -> (r: &Vec<u8>)
        ensures
            r@ == self.highest@,
    {
        &self.highest
    }

    /// Returns the child whose separator is the greatest at most `key`.
    pub fn get(&self, key: &Vec<u8>) -> (r: Option<PageHandle>)
        requires
            self.wf(),
        ensures
            r == match spec_child(self.children.entry_seq(), key@) {
                Some(e) => Some(e.1),
                None => None,
            },
    {
        match self.children.rank(key) {
            Ok(i) => {
                proof {
                    crate::lex::lemma_lex_cmp_eq(self.children.key_at(i as int), key@);
                    assert forall|j: int| i < j < self.children.spec_len() implies lex_lt(
                        key@,
                        #[trigger] self.children.entry_seq()[j].0,
                    ) by {
                        assert(lex_lt(self.children.key_at(i as int), self.children.key_at(j)));
                    }
                    lemma_spec_child_found(self.children.entry_seq(), key@, i as int);
                }
                Some(*self.children.val_ref(i))
            },
            Err(i) => {
                if i == 0 {
                    proof {
                        assert forall|j: int| 0 <= j < self.children.spec_len() implies lex_lt(
                            key@,
                            #[trigger] self.children.entry_seq()[j].0,
                        ) by {
                            assert(lex_lt(key@, self.children.key_at(j)));
                        }
                        lemma_spec_child_none(self.children.entry_seq(), key@);
                    }
                    None
                } else {
                    proof {
                        assert(lex_lt(self.children.key_at(i - 1), key@));
                        assert forall|j: int| i - 1 < j < self.children.spec_len() implies lex_lt(
                            key@,
                            #[trigger] self.children.entry_seq()[j].0,
                        ) by {
                            assert(lex_lt(key@, self.children.key_at(j)));
                        }
                        lemma_spec_child_found(self.children.entry_seq(), key@, i - 1);
                    }
                    Some(*self.children.val_ref(i - 1))
                }
            },
        }
    }

    /// Adds or replaces the separator entry `key -> value`.
    pub fn add(&mut self, key: Vec<u8>, value: PageHandle)
        requires
            old(self).wf(),
            weight_sum(old(self).children.entry_seq(), index_weight()) + key@.len()
                + PAGE_HANDLE_SIZE <= usize::MAX as int,
        ensures
            final(self).wf(),
            final(self).lowest@ == old(self).lowest@,
            final(self).highest@ == old(self).highest@,
            final(self).children@ == old(self).children@.insert(key@, value),
            weight_sum(final(self).children.entry_seq(), index_weight()) <= weight_sum(
                old(self).children.entry_seq(),
                index_weight(),
            ) + key@.len() + PAGE_HANDLE_SIZE,
    {
        let ghost prior = *self;
        let ghost wi = index_weight();
        let key_len = key.len();
        let ghost gkey = key;
        proof {
            assert forall|e: (Seq<u8>, PageHandle)| #[trigger] wi(e) >= 0 by {}
        }
        let prev = self.children.insert(key, value);
        match prev {
            Some(_) => {
                proof {
                    let wx = choose|i: int|
                        0 <= i < prior.children.spec_len() && prior.children.key_at(i) == gkey@
                            && self.children.entry_seq() == prior.children.entry_seq().update(
                            i,
                            (gkey@, value),
                        );
                    crate::smap::lemma_weight_sum_update(
                        prior.children.entry_seq(),
                        wx,
                        (gkey@, value),
                        wi,
                    );
                    assert(wi(prior.children.entry_seq()[wx]) == key_len + PAGE_HANDLE_SIZE);
                    assert(wi((gkey@, value)) == key_len + PAGE_HANDLE_SIZE);
                }
            },
            None => {
                proof {
                    let wx = choose|i: int|
                        0 <= i <= prior.children.spec_len() && self.children.entry_seq()
                            == prior.children.entry_seq().insert(i, (gkey@, value));
                    lemma_weight_sum_insert(prior.children.entry_seq(), wx, (gkey@, value), wi);
                    assert(wi((gkey@, value)) == key_len + PAGE_HANDLE_SIZE);
                }
                self.size = self.size + key_len;
                self.size = self.size + PAGE_HANDLE_SIZE;
            },
        }
    }

    /// Folds a delta of posted child references into the base: each
    /// reference, newest posting last, refreshes or inserts the separator
    /// that covers its lowest key and obsoletes the separators strictly
    /// inside its range. The tracked size follows.
    pub fn apply(&mut self, delta: DeltaIndex)
        requires
            old(self).wf(),
            weight_sum(old(self).children.entry_seq(), index_weight()) + idx_delta_weight(
                delta.children@,
            ) <= usize::MAX as int,
        ensures
            final(self).wf(),
            final(self).lowest@ == old(self).lowest@,
            final(self).highest@ == old(self).highest@,
            final(self).children@ == index_apply(old(self).children@, delta.children@),
    {
        let ghost prior = *self;
        let ghost dcs = delta.children@;
        let n = delta.children.len();
        let mut j: usize = n;
        proof {
            assert(dcs.skip(n as int) =~= Seq::<PageIndex>::empty());
            lemma_idx_delta_weight_nonneg(dcs.skip(n as int));
        }
        while j > 0
            invariant
                n == dcs.len(),
                dcs == delta.children@,
                j <= n,
                prior.wf(),
                self.children.wf(),
                self.size == weight_sum(self.children.entry_seq(), index_weight()),
                self.lowest@ == prior.lowest@,
                self.highest@ == prior.highest@,
                self.children@ == index_apply(prior.children@, dcs.skip(j as int)),
                weight_sum(self.children.entry_seq(), index_weight()) <= weight_sum(
                    prior.children.entry_seq(),
                    index_weight(),
                ) + idx_delta_weight(dcs.skip(j as int)),
                weight_sum(prior.children.entry_seq(), index_weight()) + idx_delta_weight(dcs)
                    <= usize::MAX as int,
            decreases j,
        {
            j = j - 1;
            let e = &delta.children[j];
            let ghost m = self.children@;
            let ghost lo = e.lowest@;
            let ghost hi = e.highest@;
            let ghost h = e.handle;
            proof {
                assert(dcs.skip(j as int).first() == dcs[j as int]);
                assert(dcs.skip(j as int).drop_first() =~= dcs.skip(j + 1));
                lemma_idx_delta_weight_suffix(dcs, j as int);
                assert(idx_delta_weight(dcs.skip(j as int)) == idx_delta_weight(dcs.skip(j + 1))
                    + lo.len() + PAGE_HANDLE_SIZE);
            }
            let found: Option<usize> = match self.children.rank(&e.lowest) {
                Ok(i) => Some(i),
                Err(i) => {
                    if i == 0 {
                        None
                    } else {
                        Some(i - 1)
                    }
                },
            };
            match found {
                Some(ix) => {
                    let ghost gx = self.children.key_at(ix as int);
                    proof {
                        self.children.lemma_view_at(ix as int);
                        crate::lex::lemma_lex_cmp_eq(gx, lo);
                        assert(lex_le(gx, lo));
                        assert forall|y: Seq<u8>| #[trigger] m.contains_key(y) && lex_le(
                            y,
                            lo,
                        ) implies lex_le(y, gx) by {
                            self.children.lemma_view_contains(y);
                            let p = choose|p: int|
                                0 <= p < self.children.spec_len() && self.children.key_at(p) == y;
                            if p > ix {
                                assert(lex_lt(lo, self.children.key_at(p)));
                                crate::lex::lemma_lex_cmp_antisym(y, lo);
                                assert(false);
                            } else if p == ix {
                                crate::lex::lemma_lex_cmp_eq(y, gx);
                            } else {
                                assert(lex_lt(self.children.key_at(p), self.children.key_at(
                                    ix as int,
                                )));
                            }
                        }
                        assert(is_greatest_le(m, lo, gx));
                        let cx = choose|x: Seq<u8>| is_greatest_le(m, lo, x);
                        lemma_greatest_le_unique(m, lo, cx, gx);
                        assert(greatest_le_opt(m, lo) == Some(gx));
                        assert(m[gx] == self.children.val_at(ix as int));
                    }
                    let current = *self.children.val_ref(ix);
                    if current.id == e.handle.id {
                        let ghost entry_before = self.children.entry_seq();
                        self.children.set_val(ix, e.handle);
                        proof {
                            crate::smap::lemma_weight_sum_update(
                                entry_before,
                                ix as int,
                                (gx, h),
                                index_weight(),
                            );
                            assert(index_weight()((gx, h)) == index_weight()(
                                entry_before[ix as int],
                            ));
                            assert(self.children@ == m.insert(gx, h));
                        }
                    } else {
                        let key = clone_bytes(&e.lowest);
                        let handle = e.handle;
                        proof {
                            lemma_idx_delta_weight_nonneg(dcs.skip(j + 1));
                        }
                        self.add(key, handle);
                        proof {
                            assert(self.children@ == m.insert(lo, h));
                        }
                    }
                },
                None => {
                    proof {
                        assert forall|x: Seq<u8>| !is_greatest_le(m, lo, x) by {
                            if m.contains_key(x) {
                                self.children.lemma_view_contains(x);
                                let p = choose|p: int|
                                    0 <= p < self.children.spec_len() && self.children.key_at(p)
                                        == x;
                                assert(lex_lt(lo, self.children.key_at(p)));
                                crate::lex::lemma_lex_cmp_antisym(x, lo);
                            }
                        }
                        assert(greatest_le_opt(m, lo) is None);
                    }
                    let key = clone_bytes(&e.lowest);
                    let handle = e.handle;
                    proof {
                        lemma_idx_delta_weight_nonneg(dcs.skip(j + 1));
                    }
                    self.add(key, handle);
                    proof {
                        assert(self.children@ == m.insert(lo, h));
                    }
                },
            }
            let ghost m1 = self.children@;
            let ghost mid = self.children;
            let (out, out_size) = trim_handles(
                &self.children,
                KeepRule::Outside,
                &e.lowest,
                &e.highest,
            );
            let ghost gout = out;
            self.children = out;
            self.size = out_size;
            proof {
                reveal(trim_inv);
                let len = mid.spec_len() as int;
                let target = m1.restrict(
                    Set::new(|k: Seq<u8>| keeps(KeepRule::Outside, k, lo, hi)),
                );
                assert forall|k: Seq<u8>| self.children@.contains_key(k)
                    == target.contains_key(k) by {
                    gout.lemma_view_contains(k);
                    mid.lemma_view_contains(k);
                    if gout.contains_key_at(k) {
                        let t = choose|t: int| 0 <= t < gout.spec_len() && gout.key_at(t) == k;
                        let kt = gout.key_at(t);
                        let p = choose|p: int|
                            #![trigger mid.key_at(p)]
                            0 <= p < len && gout.key_at(t) == mid.key_at(p) && gout.val_at(t)
                                == mid.val_at(p);
                        assert(mid.key_at(p) == k);
                        assert(keeps(KeepRule::Outside, gout.key_at(t), lo, hi));
                    }
                    if mid.contains_key_at(k) && keeps(KeepRule::Outside, k, lo, hi) {
                        let p = choose|p: int| 0 <= p < mid.spec_len() && mid.key_at(p) == k;
                        let kp = mid.key_at(p);
                        assert(keeps(KeepRule::Outside, mid.key_at(p), lo, hi));
                        let t = choose|t: int|
                            #![trigger gout.key_at(t)]
                            0 <= t < gout.spec_len() && gout.key_at(t) == mid.key_at(p);
                        assert(gout.key_at(t) == k);
                    }
                }
                assert forall|k: Seq<u8>| self.children@.contains_key(k) implies self.children@[k]
                    == target[k] by {
                    gout.lemma_view_contains(k);
                    let t = choose|t: int| 0 <= t < gout.spec_len() && gout.key_at(t) == k;
                    gout.lemma_view_at(t);
                    let kt = gout.key_at(t);
                    let p = choose|p: int|
                        #![trigger mid.key_at(p)]
                        0 <= p < len && gout.key_at(t) == mid.key_at(p) && gout.val_at(t)
                            == mid.val_at(p);
                    mid.lemma_view_at(p);
                }
                assert(self.children@ =~= target);
                assert(self.children@ == index_step(m, lo, hi, h));
                assert(self.children@ == index_apply(prior.children@, dcs.skip(j as int)));
                assert(weight_sum(mid.entry_seq(), index_weight()) <= weight_sum(
                    prior.children.entry_seq(),
                    index_weight(),
                ) + idx_delta_weight(dcs.skip(j + 1)) + lo.len() + PAGE_HANDLE_SIZE);
                assert(weight_sum(self.children.entry_seq(), index_weight()) <= weight_sum(
                    mid.entry_seq(),
                    index_weight(),
                ));
            }
        }
        proof {
            assert(dcs.skip(0) =~= dcs);
        }
    }

    /// Carves off the upper half of the separators as a new page covering
    /// `[middle, highest)`, where `middle` is the first separator of the
    /// upper half. A page with at most one separator is not split.
    pub fn split(&self) -> (r: Option<BaseIndex>)
        requires
            self.wf(),
        ensures
            match r {
                Some(right) => {
                    &&& self.children.spec_len() >= 2
                    &&& right.wf()
                    &&& right.lowest@ == self.children.key_at(self.split_point())
                    &&& right.highest@ == self.highest@
                    &&& right.children.entry_seq() == self.children.entry_seq().skip(
                        self.split_point(),
                    )
                },
                None => self.children.spec_len() <= 1,
            },
    {
        let ghost wi = index_weight();
        let len = self.children.len();
        let nth = len - len / 2;
        proof {
            assert(nth == (len + 1) / 2);
        }
        if nth >= len {
            return None;
        }
        let mut right_children = SMap::new();
        let mut right_size: usize = 0;
        let mut j: usize = nth;
        proof {
            assert(self.children.entry_seq().subrange(nth as int, nth as int) =~= Seq::<
                (Seq<u8>, PageHandle),
            >::empty());
        }
        while j < len
            invariant
                wi == index_weight(),
                len == self.children.spec_len(),
                self.wf(),
                1 <= nth < len,
                nth <= j <= len,
                right_children.wf(),
                right_size == weight_sum(right_children.entry_seq(), index_weight()),
                right_children.entry_seq() == self.children.entry_seq().subrange(
                    nth as int,
                    j as int,
                ),
            decreases len - j,
        {
            proof {
                assert forall|e: (Seq<u8>, PageHandle)| #[trigger] wi(e) >= 0 by {}
            }
            let k = clone_bytes(self.children.key_ref(j));
            let k_len = k.len();
            let v = *self.children.val_ref(j);
            let ghost gk = k;
            let ghost right_before = right_children;
            proof {
                if j > nth {
                    assert(right_children.key_at(j - nth - 1) == self.children.key_at(j - 1));
                    assert(lex_lt(self.children.key_at(j - 1), self.children.key_at(j as int)));
                }
                crate::smap::lemma_weight_sum_split(self.children.entry_seq(), j + 1, wi);
                crate::smap::lemma_weight_sum_split(
                    self.children.entry_seq().take(j + 1),
                    nth as int,
                    wi,
                );
                crate::smap::lemma_weight_sum_nonneg(self.children.entry_seq().skip(j + 1), wi);
                crate::smap::lemma_weight_sum_nonneg(
                    self.children.entry_seq().take(j + 1).take(nth as int),
                    wi,
                );
                assert(self.children.entry_seq().take(j + 1).skip(nth as int)
                    =~= self.children.entry_seq().subrange(nth as int, j as int).push(
                    self.children.entry_seq()[j as int],
                ));
                crate::smap::lemma_weight_sum_push(
                    self.children.entry_seq().subrange(nth as int, j as int),
                    self.children.entry_seq()[j as int],
                    wi,
                );
                assert(wi(self.children.entry_seq()[j as int]) == k_len + PAGE_HANDLE_SIZE);
            }
            right_children.push_last(k, v);
            proof {
                assert(right_children.entry_seq() == right_before.entry_seq().push((gk@, v)));
                assert((gk@, v) == self.children.entry_seq()[j as int]);
                assert(right_children.entry_seq() =~= self.children.entry_seq().subrange(
                    nth as int,
                    j + 1,
                ));
                crate::smap::lemma_weight_sum_push(right_before.entry_seq(), (gk@, v), wi);
            }
            right_size = right_size + k_len;
            right_size = right_size + PAGE_HANDLE_SIZE;
            j = j + 1;
        }
        proof {
            assert(self.children.entry_seq().subrange(nth as int, len as int)
                =~= self.children.entry_seq().skip(nth as int));
        }
        Some(
            BaseIndex {
                size: right_size,
                lowest: clone_bytes(self.children.key_ref(nth)),
                highest: clone_bytes(&self.highest),
                children: right_children,
            },
        )
    }

    /// The rank at which `split` picks the right page's lowest separator.
    pub open spec fn split_point(self) -> int {
        ((self.children.spec_len() + 1) / 2) as int
    }

    /// Keeps only the separators inside `[lowest, highest)` and adopts those
    /// bounds; an empty `highest` keeps every separator from `lowest` on.
    pub fn retain(&mut self, lowest: &Vec<u8>, highest: &Vec<u8>)
        requires
            old(self).wf(),
        ensures
            final(self).wf(),
            final(self).lowest@ == lowest@,
            final(self).highest@ == highest@,
            final(self).children@ == old(self).children@.restrict(
                Set::new(|k: Seq<u8>| in_range(k, lowest@, highest@)),
            ),
    {
        let ghost prior = *self;
        let (out, out_size) = trim_handles(&self.children, KeepRule::Within, lowest, highest);
        let ghost gout = out;
        self.children = out;
        self.size = out_size;
        self.lowest = clone_bytes(lowest);
        self.highest = clone_bytes(highest);
        proof {
            reveal(trim_inv);
            let len = prior.children.spec_len() as int;
            let src = prior.children;
            let target = prior.children@.restrict(
                Set::new(|k: Seq<u8>| in_range(k, lowest@, highest@)),
            );
            assert forall|k: Seq<u8>| self.children@.contains_key(k)
                == target.contains_key(k) by {
                gout.lemma_view_contains(k);
                src.lemma_view_contains(k);
                if gout.contains_key_at(k) {
                    let t = choose|t: int| 0 <= t < gout.spec_len() && gout.key_at(t) == k;
                    let kt = gout.key_at(t);
                    let p = choose|p: int|
                        #![trigger src.key_at(p)]
                        0 <= p < len && gout.key_at(t) == src.key_at(p) && gout.val_at(t)
                            == src.val_at(p);
                    assert(src.key_at(p) == k);
                    assert(keeps(KeepRule::Within, gout.key_at(t), lowest@, highest@));
                }
                if src.contains_key_at(k) && in_range(k, lowest@, highest@) {
                    let p = choose|p: int| 0 <= p < src.spec_len() && src.key_at(p) == k;
                    let kp = src.key_at(p);
                    assert(keeps(KeepRule::Within, src.key_at(p), lowest@, highest@));
                    let t = choose|t: int|
                        #![trigger gout.key_at(t)]
                        0 <= t < gout.spec_len() && gout.key_at(t) == src.key_at(p);
                    assert(gout.key_at(t) == k);
                }
            }
            assert forall|k: Seq<u8>| self.children@.contains_key(k) implies self.children@[k]
                == target[k] by {
                gout.lemma_view_contains(k);
                let t = choose|t: int| 0 <= t < gout.spec_len() && gout.key_at(t) == k;
                gout.lemma_view_at(t);
                let kt = gout.key_at(t);
                let p = choose|p: int|
                    #![trigger src.key_at(p)]
                    0 <= p < len && gout.key_at(t) == src.key_at(p) && gout.val_at(t)
                        == src.val_at(p);
                src.lemma_view_at(p);
            }
            assert(self.children@ =~= target);
        }
    }
}


/// The key of the greatest separator at most `k`, when one exists.
pub open spec fn is_greatest_le(m: Map<Seq<u8>, PageHandle>, k: Seq<u8>, x: Seq<u8>) -> bool {
    &&& m.contains_key(x)
    &&& lex_le(x, k)
    &&& forall|y: Seq<u8>| #[trigger] m.contains_key(y) && lex_le(y, k) ==> lex_le(y, x)
}

pub open spec fn greatest_le_opt(m: Map<Seq<u8>, PageHandle>, k: Seq<u8>) -> Option<Seq<u8>> {
    if exists|x: Seq<u8>| is_greatest_le(m, k, x) {
        Some(choose|x: Seq<u8>| is_greatest_le(m, k, x))
    } else {
        None
    }
}

proof fn lemma_greatest_le_unique(m: Map<Seq<u8>, PageHandle>, k: Seq<u8>, a: Seq<u8>, b: Seq<u8>)
    requires
        is_greatest_le(m, k, a),
        is_greatest_le(m, k, b),
    ensures
        a == b,
{
    assert(lex_le(a, b));
    assert(lex_le(b, a));
    crate::lex::lemma_lex_cmp_antisym(a, b);
    crate::lex::lemma_lex_cmp_eq(a, b);
}

/// One posted child reference folded into an inner page's separators: the
/// child either refreshes the handle of the separator that covers its
/// lowest key, or is inserted under that key; separators strictly inside
/// `(lowest, highest)` are then obsolete and dropped.
pub open spec fn index_step(
    m: Map<Seq<u8>, PageHandle>,
    lo: Seq<u8>,
    hi: Seq<u8>,
    h: PageHandle,
) -> Map<Seq<u8>, PageHandle> {
    let m1 = match greatest_le_opt(m, lo) {
        Some(x) => if m[x].id == h.id {
            m.insert(x, h)
        } else {
            m.insert(lo, h)
        },
        None => m.insert(lo, h),
    };
    m1.restrict(Set::new(|k: Seq<u8>| keeps(KeepRule::Outside, k, lo, hi)))
}

/// A whole delta of child references folded in, newest posting first, so
/// the reference posted first lands last.
pub open spec fn index_apply(m: Map<Seq<u8>, PageHandle>, s: Seq<PageIndex>) -> Map<
    Seq<u8>,
    PageHandle,
>
    decreases s.len(),
{
    if s.len() == 0 {
        m
    } else {
        index_step(
            index_apply(m, s.drop_first()),
            s.first().lowest@,
            s.first().highest@,
            s.first().handle,
        )
    }
}

/// The bytes a delta of child references can add to an inner page.
pub open spec fn idx_delta_weight(s: Seq<PageIndex>) -> int
    decreases s.len(),
{
    if s.len() == 0 {
        0
    } else {
        idx_delta_weight(s.drop_first()) + s.first().lowest@.len() + PAGE_HANDLE_SIZE
    }
}

proof fn lemma_idx_delta_weight_nonneg(s: Seq<PageIndex>)
    ensures
        idx_delta_weight(s) >= 0,
    decreases s.len(),
{
    if s.len() > 0 {
        lemma_idx_delta_weight_nonneg(s.drop_first());
    }
}

proof fn lemma_idx_delta_weight_suffix(s: Seq<PageIndex>, j: int)
    requires
        0 <= j <= s.len(),
    ensures
        idx_delta_weight(s.skip(j)) <= idx_delta_weight(s),
    decreases j,
{
    if j == 0 {
        assert(s.skip(0) =~= s);
    } else {
        lemma_idx_delta_weight_suffix(s, j - 1);
        assert(s.skip(j - 1).drop_first() =~= s.skip(j));
        assert(s.skip(j - 1).first() == s[j - 1]);
        assert(idx_delta_weight(s.skip(j - 1)) == idx_delta_weight(s.skip(j)) + s[j
            - 1].lowest@.len() + PAGE_HANDLE_SIZE);
    }
}

/// A delta index page: a list of freshly posted child references, searched
/// in posting order.
#[derive(Debug)]
pub struct DeltaIndex {
    pub children: Vec<PageIndex>,
}

/// The first posted child reference whose range covers `k`.
pub open spec fn spec_delta_index_get(s: Seq<PageIndex>, k: Seq<u8>) -> Option<PageHandle>
    decreases s.len(),
{
    if s.len() == 0 {
        None
    } else if in_range(k, s[0].lowest@, s[0].highest@) {
        Some(s[0].handle)
    } else {
        spec_delta_index_get(s.drop_first(), k)
    }
}

impl DeltaIndex {
    pub fn new() -> (r: Self)
        ensures
            r.children@ == Seq::<PageIndex>::empty(),
    {
        let r = DeltaIndex { children: Vec::new() };
        proof {
            assert(r.children@ =~= Seq::<PageIndex>::empty());
        }
        r
    }

    /// Returns the first posted child whose range covers `key`.
    pub fn get(&self, key: &Vec<u8>) -> (r: Option<PageHandle>)
        ensures
            r == spec_delta_index_get(self.children@, key@),
    {
        let n = self.children.len();
        let mut i: usize = 0;
        proof {
            assert(self.children@.skip(0) =~= self.children@);
        }
        while i < n
            invariant
                n == self.children@.len(),
                i <= n,
                spec_delta_index_get(self.children@, key@) == spec_delta_index_get(
                    self.children@.skip(i as int),
                    key@,
                ),
            decreases n - i,
        {
            let index = &self.children[i];
            proof {
                assert(self.children@.skip(i as int)[0] == self.children@[i as int]);
            }
            if key_in_range(key, &index.lowest, &index.highest) {
                return Some(index.handle);
            }
            proof {
                assert(self.children@.skip(i as int).drop_first() =~= self.children@.skip(
                    i + 1,
                ));
            }
            i = i + 1;
        }
        proof {
            assert(self.children@.skip(n as int).len() == 0);
        }
        None
    }

    /// Posts another child reference.
    pub fn add(&mut self, index: PageIndex)
        ensures
            final(self).children@ == old(self).children@.push(index),
    {
        self.children.push(index);
    }

    /// Appends the child references of `other` after this delta's own.
    pub fn merge(&mut self, other: DeltaIndex)
        ensures
            final(self).children@ == old(self).children@ + other.children@,
    {
        let mut other = other;
        self.children.append(&mut other.children);
    }
}

/// A split descriptor: keys from `middle` on, up to `highest`, now live on
/// `right_page`.
#[derive(Clone, Debug)]
pub struct SplitNode {
    pub lowest: Vec<u8>,
    pub middle: Vec<u8>,
    pub highest: Vec<u8>,
    pub right_page: PageHandle,
}

impl SplitNode {
    /// Returns the right page's handle when `key` now belongs to it.
    pub fn covers(&self, key: &Vec<u8>) -> (r: Option<PageHandle>)
        ensures
            r == if in_range(key@, self.middle@, self.highest@) {
                Some(self.right_page)
            } else {
                Option::<PageHandle>::None
            },
    {
        if key_in_range(key, &self.middle, &self.highest) {
            Some(self.right_page)
        } else {
            None
        }
    }
}

/// A merge descriptor: the records of a removed right sibling, carried on
/// the left sibling until the parent is updated.
#[derive(Debug)]
pub struct MergeNode {
    pub lowest: Vec<u8>,
    pub highest: Vec<u8>,
    pub right_page: Box<Page>,
}

/// The body of a page frame: a base or delta page of either tier, or a
/// structure-modification descriptor.
#[derive(Debug)]
pub enum PageContent {
    BaseData(BaseData),
    DeltaData(DeltaData),
    SplitData(SplitNode),
    MergeData(MergeNode),
    RemoveData,
    BaseIndex(BaseIndex),
    DeltaIndex(DeltaIndex),
    SplitIndex(SplitNode),
    MergeIndex(MergeNode),
    RemoveIndex,
}

impl PageContent {
    /// True on the data (leaf) tier, base or delta or descriptor alike.
    pub fn is_data(&self) -> (r: bool)
        ensures
            r == (self is BaseData || self is DeltaData || self is SplitData || self is MergeData
                || self is RemoveData),
    {
        match self {
            PageContent::BaseData(_)
            | PageContent::DeltaData(_)
            | PageContent::SplitData(_)
            | PageContent::MergeData(_)
            | PageContent::RemoveData => true,
            _ => false,
        }
    }

    /// True for the descriptor that marks a logical page as removed.
    pub fn is_removed(&self) -> (r: bool)
        ensures
            r == (self is RemoveData || self is RemoveIndex),
    {
        match self {
            PageContent::RemoveData | PageContent::RemoveIndex => true,
            _ => false,
        }
    }
}

/// The header of a page frame: the length of the chain it heads and the
/// epoch of its logical page.
#[derive(Clone, Copy, Debug, PartialEq, Eq, Structural)]
pub struct PageHeader {
    pub len: usize,
    pub epoch: u64,
}

impl PageHeader {
    pub fn new() -> (r: Self)
        ensures
            r.len == 1,
            r.epoch == 0,
    {
        PageHeader { len: 1, epoch: 0 }
    }

    pub fn with_epoch(epoch: u64) -> (r: Self)
        ensures
            r.len == 1,
            r.epoch == epoch,
    {
        PageHeader { len: 1, epoch }
    }

    /// The header of a frame about to be linked in front of `next`.
    pub fn with_next(next: &Page) -> (r: Self)
        requires
            next.header.len < usize::MAX,
        ensures
            r.len == next.header.len + 1,
            r.epoch == next.header.epoch,
    {
        PageHeader { len: next.header.len + 1, epoch: next.header.epoch }
    }

    /// Like `with_next`, but opens a new epoch, as a structure modification
    /// does.
    pub fn with_next_epoch(next: &Page) -> (r: Self)
        requires
            next.header.len < usize::MAX,
            next.header.epoch < u64::MAX,
        ensures
            r.len == next.header.len + 1,
            r.epoch == next.header.epoch + 1,
    {
        PageHeader { len: next.header.len + 1, epoch: next.header.epoch + 1 }
    }
}

/// A page frame: a header, a body, and the rest of the delta chain.
#[derive(Debug)]
pub struct Page {
    pub header: PageHeader,
    pub content: PageContent,
    pub next: Option<Box<Page>>,
}

impl Page {
    /// The number of frames in the chain headed by this frame.
    pub open spec fn chain_len(self) -> nat
        decreases self,
    {
        1 + match self.next {
            Some(p) => p.chain_len(),
            None => 0,
        }
    }

    /// The header counts the chain exactly and epochs never grow toward the
    /// tail.
    pub open spec fn chain_wf(self) -> bool
        decreases self,
    {
        &&& self.header.len == self.chain_len()
        &&& match self.next {
            Some(p) => p.header.epoch <= self.header.epoch && p.chain_wf(),
            None => true,
        }
    }

    /// Links this frame in front of `next`, taking over its chain: the
    /// header counts one more frame at the same epoch.
    pub fn link(&mut self, next: Page)
        requires
            next.header.len < usize::MAX,
        ensures
            final(self).header.len == next.header.len + 1,
            final(self).header.epoch == next.header.epoch,
            final(self).content == old(self).content,
            final(self).next is Some,
            *final(self).next->Some_0 == next,
            next.chain_wf() ==> final(self).chain_wf(),
    {
        self.header = PageHeader::with_next(&next);
        let ghost gnext = next;
        self.next = Some(Box::new(next));
        proof {
            if gnext.chain_wf() {
                assert(self.chain_len() == 1 + gnext.chain_len());
            }
        }
    }

    /// Detaches the rest of the chain, handing it back so that dropping this
    /// frame cannot cascade through still-live tails.
    pub fn unlink(&mut self) -> (r: Option<Box<Page>>)
        ensures
            final(self).header == old(self).header,
            final(self).content == old(self).content,
            final(self).next is None,
            r == old(self).next,
    {
        let mut next = None;
        core::mem::swap(&mut self.next, &mut next);
        next
    }
}

/// A well-formed leaf delta chain: delta frames stacked on exactly one base
/// frame.
pub open spec fn leaf_chain_wf(p: Page) -> bool
    decreases p,
{
    match p.content {
        PageContent::BaseData(b) => b.wf() && p.next is None,
        PageContent::DeltaData(d) => d.wf() && match p.next {
            Some(q) => leaf_chain_wf(*q),
            None => false,
        },
        _ => false,
    }
}

/// The effective records of a leaf chain: each delta overlaid, head first
/// winning, on the base at the tail.
pub open spec fn leaf_chain_map(p: Page) -> Map<Seq<u8>, Seq<u8>>
    decreases p,
{
    match p.content {
        PageContent::BaseData(b) => b.records_map(),
        PageContent::DeltaData(d) => match p.next {
            Some(q) => apply_delta(leaf_chain_map(*q), d.records_map()),
            None => Map::empty(),
        },
        _ => Map::empty(),
    }
}

/// Reads `key` through a leaf chain, walking head to base: the first frame
/// that speaks of the key decides, a tombstone hiding anything behind it.
pub fn chain_get(page: &Page, key: &Vec<u8>) -> (r: Option<Vec<u8>>)
    requires
        leaf_chain_wf(*page),
    ensures
        match r {
            Some(v) => leaf_chain_map(*page).contains_key(key@) && v@ == leaf_chain_map(
                *page,
            )[key@],
            None => !leaf_chain_map(*page).contains_key(key@),
        },
    decreases *page,
{
    match &page.content {
        PageContent::BaseData(b) => match b.get(key) {
            Some(v) => Some(clone_bytes(v)),
            None => None,
        },
        PageContent::DeltaData(d) => {
            match d.get(key) {
                Some(Some(v)) => Some(clone_bytes(v)),
                Some(None) => None,
                None => {
                    match &page.next {
                        Some(q) => chain_get(q, key),
                        None => None,
                    }
                },
            }
        },
        _ => None,
    }
}

/// Splits preserve content: the records below the middle key and the right
/// half's records are disjoint and together are exactly the records of the
/// original page — no record is lost or duplicated. When the page also
/// keeps its bounds exact, "below the middle" is exactly what trimming the
/// left half to `[lowest, middle)` retains.
pub proof fn lemma_split_preserves_content(orig: BaseData, right: BaseData)
    requires
        orig.wf(),
        orig.records.spec_len() >= 2,
        right.wf(),
        right.lowest@ == orig.records.key_at(orig.split_point()),
        right.lifted_entries() == orig.lifted_entries().skip(orig.split_point()),
    ensures
        orig.records_map().restrict(
            Set::new(|k: Seq<u8>| lex_lt(k, right.lowest@)),
        ).dom().disjoint(right.records_map().dom()),
        orig.records_map() == orig.records_map().restrict(
            Set::new(|k: Seq<u8>| lex_lt(k, right.lowest@)),
        ).union_prefer_right(right.records_map()),
        orig.bounded() ==> orig.records_map().restrict(
            Set::new(|k: Seq<u8>| lex_lt(k, right.lowest@)),
        ) == orig.records_map().restrict(
            Set::new(|k: Seq<u8>| in_range(k, orig.lowest@, right.lowest@)),
        ),
{
    let nth = orig.split_point();
    let middle = orig.records.key_at(nth);
    let left = orig.records_map().restrict(Set::new(|k: Seq<u8>| lex_lt(k, middle)));
    assert(right.lifted_entries().len() == right.records.entry_seq().len());
    assert(orig.lifted_entries().len() == orig.records.entry_seq().len());
    assert(right.records.spec_len() == orig.records.spec_len() - nth);
    assert(middle.len() != 0) by {
        assert(lex_lt(orig.records.key_at(0), middle));
        if middle.len() == 0 {
            assert(crate::lex::lex_cmp(orig.records.key_at(0), middle) >= 0);
        }
    }
    assert forall|t: int| 0 <= t < right.records.spec_len() implies
        #[trigger] right.records.key_at(t) == orig.records.key_at(nth + t)
            && right.records.val_at(t)@ == orig.records.val_at(nth + t)@ by {
        assert(right.lifted_entries()[t] == orig.lifted_entries().skip(nth)[t]);
    }
    assert forall|k: Seq<u8>| #[trigger] left.contains_key(k) implies
        !right.records_map().contains_key(k) by {
        if right.records_map().contains_key(k) {
            right.records.lemma_view_contains(k);
            let t = choose|t: int|
                0 <= t < right.records.spec_len() && right.records.key_at(t) == k;
            orig.records.lemma_view_contains(k);
            let i = choose|i: int|
                0 <= i < orig.records.spec_len() && orig.records.key_at(i) == k;
            orig.records.lemma_key_at_unique(i, nth + t);
            if i > nth {
                assert(lex_lt(middle, orig.records.key_at(i)));
            }
            crate::lex::lemma_lex_cmp_eq(middle, k);
            assert(lex_le(middle, k));
            crate::lex::lemma_lex_cmp_antisym(k, middle);
        }
    }
    assert forall|k: Seq<u8>| orig.records_map().contains_key(k) implies (left.contains_key(k)
        || right.records_map().contains_key(k)) by {
        orig.records.lemma_view_contains(k);
        let i = choose|i: int| 0 <= i < orig.records.spec_len() && orig.records.key_at(i) == k;
        if i < nth {
            assert(lex_lt(orig.records.key_at(i), middle));
        } else {
            let t = i - nth;
            assert(right.records.key_at(t) == k);
            right.records.lemma_view_at(t);
        }
    }
    assert forall|k: Seq<u8>| right.records_map().contains_key(k) implies
        orig.records_map().contains_key(k) && right.records_map()[k]
        == orig.records_map()[k] by {
        right.records.lemma_view_contains(k);
        let t = choose|t: int| 0 <= t < right.records.spec_len() && right.records.key_at(t) == k;
        right.records.lemma_view_at(t);
        assert(orig.records.key_at(nth + t) == k);
        orig.records.lemma_view_at(nth + t);
        assert(right.records.val_at(t)@ == orig.records.val_at(nth + t)@);
    }
    assert forall|k: Seq<u8>| orig.records_map().contains_key(k) implies
        orig.records_map()[k] == left.union_prefer_right(right.records_map())[k] by {
        if right.records_map().contains_key(k) {
        } else {
            assert(left.contains_key(k));
            assert(left[k] == orig.records_map()[k]);
        }
    }
    assert forall|k: Seq<u8>| left.union_prefer_right(right.records_map()).contains_key(
        k,
    ) implies orig.records_map().contains_key(k) by {
        assert(left.dom().contains(k) || right.records_map().dom().contains(k));
        if !right.records_map().contains_key(k) {
            assert(left.contains_key(k));
            assert(orig.records_map().contains_key(k));
        } else {
            right.records.lemma_view_contains(k);
            let t = choose|t: int|
                0 <= t < right.records.spec_len() && right.records.key_at(t) == k;
            assert(orig.records.key_at(nth + t) == k);
            orig.records.lemma_view_at(nth + t);
        }
    }
    assert(orig.records_map() =~= left.union_prefer_right(right.records_map()));
    assert forall|k: Seq<u8>| !(#[trigger] left.dom().contains(k)
        && right.records_map().dom().contains(k)) by {
        if left.contains_key(k) {
            assert(!right.records_map().contains_key(k));
        }
    }
    assert(left.dom().disjoint(right.records_map().dom()));
    if orig.bounded() {
        assert forall|k: Seq<u8>| left.contains_key(k) == orig.records_map().restrict(
            Set::new(|k2: Seq<u8>| in_range(k2, orig.lowest@, middle)),
        ).contains_key(k) by {
            if orig.records_map().contains_key(k) {
                orig.records.lemma_view_contains(k);
                let i = choose|i: int|
                    0 <= i < orig.records.spec_len() && orig.records.key_at(i) == k;
                assert(in_range(orig.records.key_at(i), orig.lowest@, orig.highest@));
                assert(lex_le(orig.lowest@, k));
            }
        }
        assert(left =~= orig.records_map().restrict(
            Set::new(|k2: Seq<u8>| in_range(k2, orig.lowest@, middle)),
        ));
    }
}

/// Consolidating an already consolidated page changes nothing: overlaying an
/// empty delta is the identity.
pub proof fn lemma_apply_empty_delta(base: Map<Seq<u8>, Seq<u8>>)
    ensures
        apply_delta(base, Map::empty()) == base,
{
    assert(apply_delta(base, Map::<Seq<u8>, Option<Seq<u8>>>::empty()) =~= base);
}

/// A delta over an empty base reads exactly as the delta's puts: a record is
/// visible if and only if the delta holds a put for its key.
pub proof fn lemma_delta_over_empty_base(delta: Map<Seq<u8>, Option<Seq<u8>>>)
    ensures
        forall|k: Seq<u8>|
            apply_delta(Map::empty(), delta).contains_key(k) <==> delta.contains_key(k)
                && #[trigger] delta[k] is Some,
        forall|k: Seq<u8>|
            delta.contains_key(k) && #[trigger] delta[k] is Some ==> apply_delta(
                Map::empty(),
                delta,
            )[k] == delta[k]->Some_0,
{
}

} // verus!
