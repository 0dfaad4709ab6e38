//! A map from byte-string keys to values, kept as a vector of entries in
//! strictly ascending key order. It stands in for an ordered search tree:
//! lookups are binary searches, and the entry order is exposed so that pages
//! can be split and trimmed by rank.

use vstd::prelude::*;

use crate::lex::{bytes_cmp, lemma_lex_cmp_eq, lemma_lex_cmp_trans, lex_lt, Cmp};

verus! {

#[derive(Debug)]
pub struct SMap<V> {
    entries: Vec<(Vec<u8>, V)>,
}

impl<V> SMap<V> {
    /// The entries in key order, with keys abstracted to byte sequences.
    pub closed spec fn entry_seq(self) -> Seq<(Seq<u8>, V)> {
        self.entries@.map(|i: int, e: (Vec<u8>, V)| (e.0@, e.1))
    }

    pub open spec fn spec_len(self) -> nat {
        self.entry_seq().len()
    }

    pub open spec fn key_at(self, i: int) -> Seq<u8> {
        self.entry_seq()[i].0
    }

    pub open spec fn val_at(self, i: int) -> V {
        self.entry_seq()[i].1
    }

    /// Keys are in strictly ascending lexicographic order.
    pub open spec fn wf(self) -> bool {
        forall|i: int, j: int|
            0 <= i < j < self.spec_len() ==> lex_lt(self.key_at(i), self.key_at(j))
    }

    pub open spec fn contains_key_at(self, k: Seq<u8>) -> bool {
        exists|i: int| 0 <= i < self.spec_len() && self.key_at(i) == k
    }

    /// Two entries never carry the same key.
    pub proof fn lemma_key_at_unique(self, i: int, j: int)
        requires
            self.wf(),
            0 <= i < self.spec_len(),
            0 <= j < self.spec_len(),
            self.key_at(i) == self.key_at(j),
        ensures
            i == j,
    {
        lemma_lex_cmp_eq(self.key_at(i), self.key_at(j));
        if i < j {
            assert(lex_lt(self.key_at(i), self.key_at(j)));
        }
        if j < i {
            assert(lex_lt(self.key_at(j), self.key_at(i)));
            lemma_lex_cmp_eq(self.key_at(j), self.key_at(i));
        }
    }

    /// Each entry is present in the map view.
    pub proof fn lemma_view_at(self, i: int)
        requires
            self.wf(),
            0 <= i < self.spec_len(),
        ensures
            self@.contains_key(self.key_at(i)),
            self@[self.key_at(i)] == self.val_at(i),
    {
        let k = self.key_at(i);
        let w = choose|j: int| 0 <= j < self.spec_len() && self.key_at(j) == k;
        self.lemma_key_at_unique(i, w);
    }

    /// The map view holds exactly the keys of the entries.
    pub proof fn lemma_view_contains(self, k: Seq<u8>)
        ensures
            self@.contains_key(k) <==> self.contains_key_at(k),
    {
    }

    pub fn new() -> (r: Self)
        ensures
            r.wf(),
            r.spec_len() == 0,
            r@ == Map::<Seq<u8>, V>::empty(),
            r.entry_seq() == Seq::<(Seq<u8>, V)>::empty(),
    {
        let r = SMap { entries: Vec::new() };
        proof {
            assert(r.entry_seq() =~= Seq::<(Seq<u8>, V)>::empty());
            assert(r@ =~= Map::<Seq<u8>, V>::empty());
        }
        r
    }

    pub fn len(&self) -> (n: usize)
        ensures
            n == self.spec_len(),
    {
        self.entries.len()
    }

    pub fn key_ref(&self, i: usize) -> (k: &Vec<u8>)
        requires
            i < self.spec_len(),
        ensures
            k@ == self.key_at(i as int),
    {
        &self.entries[i].0
    }

    pub fn val_ref(&self, i: usize) -> (v: &V)
        requires
            i < self.spec_len(),
        ensures
            *v == self.val_at(i as int),
    {
        &self.entries[i].1
    }

    /// Replaces the value at position `i`, keeping its key.
    pub fn set_val(&mut self, i: usize, v: V)
        requires
            old(self).wf(),
            i < old(self).spec_len(),
        ensures
            final(self).wf(),
            final(self).entry_seq() == old(self).entry_seq().update(
                i as int,
                (old(self).key_at(i as int), v),
            ),
            final(self)@ == old(self)@.insert(old(self).key_at(i as int), v),
    {
        let ghost prior = *self;
        let key = self.entries[i].0.clone();
        proof {
            assert(key@ == prior.key_at(i as int));
        }
        self.entries.set(i, (key, v));
        proof {
            assert(self.entry_seq() =~= prior.entry_seq().update(
                i as int,
                (prior.key_at(i as int), v),
            ));
            assert forall|j: int| 0 <= j < self.spec_len() implies self.key_at(j)
                == prior.key_at(j) by {}
            assert forall|a: int, b: int| 0 <= a < b < self.spec_len() implies lex_lt(
                self.key_at(a),
                self.key_at(b),
            ) by {
                assert(self.key_at(a) == prior.key_at(a));
                assert(self.key_at(b) == prior.key_at(b));
            }
            assert forall|k: Seq<u8>|
                self@.contains_key(k) == prior@.insert(prior.key_at(i as int), v).contains_key(
                    k,
                ) by {
                if prior.contains_key_at(k) {
                    let w = choose|j: int| 0 <= j < prior.spec_len() && prior.key_at(j) == k;
                    assert(self.key_at(w) == k);
                }
                if self.contains_key_at(k) {
                    let w = choose|j: int| 0 <= j < self.spec_len() && self.key_at(j) == k;
                    assert(prior.key_at(w) == k);
                }
            }
            assert forall|k: Seq<u8>| self@.contains_key(k) implies self@[k] == prior@.insert(
                prior.key_at(i as int),
                v,
            )[k] by {
                let w = choose|j: int| 0 <= j < self.spec_len() && self.key_at(j) == k;
                self.lemma_view_at(w);
                if k == prior.key_at(i as int) {
                    self.lemma_key_at_unique(w, i as int);
                } else {
                    prior.lemma_view_at(w);
                }
            }
            assert(self@ =~= prior@.insert(prior.key_at(i as int), v));
        }
    }

    /// Binary search for `key`: `Ok(i)` when entry `i` carries exactly `key`,
    /// otherwise `Err(i)` with `i` the position where `key` would be inserted.
    pub fn rank(&self, key: &Vec<u8>) -> (r: Result<usize, usize>)
        requires
            self.wf(),
        ensures
            match r {
                Ok(i) => i < self.spec_len() && self.key_at(i as int) == key@,
                Err(i) => {
                    &&& i <= self.spec_len()
                    &&& forall|j: int| 0 <= j < i ==> lex_lt(self.key_at(j), key@)
                    &&& forall|j: int|
                        i <= j < self.spec_len() ==> lex_lt(key@, self.key_at(j))
                },
            },
    {
        let mut left: usize = 0;
        let mut right: usize = self.entries.len();
        while left < right
            invariant
                self.wf(),
                left <= right <= self.spec_len(),
                forall|j: int| 0 <= j < left ==> lex_lt(self.key_at(j), key@),
                forall|j: int| right <= j < self.spec_len() ==> lex_lt(key@, self.key_at(j)),
            decreases right - left,
        {
            let mid = left + (right - left) / 2;
            let e = &self.entries[mid];
            proof {
                assert(e.0@ == self.key_at(mid as int));
            }
            match bytes_cmp(&e.0, key) {
                Cmp::Less => {
                    proof {
                        assert forall|j: int| 0 <= j < mid + 1 implies lex_lt(
                            self.key_at(j),
                            key@,
                        ) by {
                            if j < mid {
                                assert(lex_lt(self.key_at(j), self.key_at(mid as int)));
                                lemma_lex_cmp_trans(self.key_at(j), self.key_at(mid as int), key@);
                            }
                        }
                    }
                    left = mid + 1;
                },
                Cmp::Greater => {
                    proof {
                        crate::lex::lemma_lex_cmp_antisym(self.key_at(mid as int), key@);
                        assert forall|j: int| mid <= j < self.spec_len() implies lex_lt(
                            key@,
                            self.key_at(j),
                        ) by {
                            if j > mid {
                                assert(lex_lt(self.key_at(mid as int), self.key_at(j)));
                                lemma_lex_cmp_trans(key@, self.key_at(mid as int), self.key_at(j));
                            }
                        }
                    }
                    right = mid;
                },
                Cmp::Equal => {
                    proof {
                        lemma_lex_cmp_eq(self.key_at(mid as int), key@);
                    }
                    return Ok(mid);
                },
            }
        }
        Err(left)
    }

    pub fn get(&self, key: &Vec<u8>) -> (r: Option<&V>)
        requires
            self.wf(),
        ensures
            match r {
                Some(v) => self@.contains_key(key@) && *v == self@[key@],
                None => !self@.contains_key(key@),
            },
    {
        match self.rank(key) {
            Ok(i) => {
                proof {
                    self.lemma_view_at(i as int);
                }
                Some(&self.entries[i].1)
            },
            Err(i) => {
                proof {
                    assert forall|j: int| 0 <= j < self.spec_len() implies self.key_at(j)
                        != key@ by {
                        lemma_lex_cmp_eq(self.key_at(j), key@);
                    }
                }
                None
            },
        }
    }

    /// Inserts `key -> value`, returning the value it replaces, if any.
    pub fn insert(&mut self, key: Vec<u8>, value: V) -> (prev: Option<V>)
        requires
            old(self).wf(),
        ensures
            final(self).wf(),
            final(self)@ == old(self)@.insert(key@, value),
            match prev {
                Some(p) => {
                    &&& old(self)@.contains_key(key@)
                    &&& p == old(self)@[key@]
                    &&& exists|i: int|
                        0 <= i < old(self).spec_len() && old(self).key_at(i) == key@
                            && final(self).entry_seq() == old(self).entry_seq().update(
                            i,
                            (key@, value),
                        )
                },
                None => {
                    &&& !old(self)@.contains_key(key@)
                    &&& exists|i: int|
                        0 <= i <= old(self).spec_len() && final(self).entry_seq()
                            == old(self).entry_seq().insert(i, (key@, value))
                },
            },
    {
        let ghost prior = *self;
        match self.rank(&key) {
            Ok(i) => {
                proof {
                    prior.lemma_view_at(i as int);
                }
                let slot = self.entries.remove(i);
                let prev_val = slot.1;
                self.entries.insert(i, (slot.0, value));
                proof {
                    assert(self.entry_seq() =~= prior.entry_seq().update(
                        i as int,
                        (key@, self.val_at(i as int)),
                    ));
                    assert forall|j: int| 0 <= j < self.spec_len() implies self.key_at(j)
                        == prior.key_at(j) by {}
                    assert forall|a: int, b: int| 0 <= a < b < self.spec_len() implies lex_lt(
                        self.key_at(a),
                        self.key_at(b),
                    ) by {
                        assert(self.key_at(a) == prior.key_at(a));
                        assert(self.key_at(b) == prior.key_at(b));
                    }
                    assert forall|k: Seq<u8>| self@.contains_key(k) <==> prior@.insert(
                        key@,
                        self.val_at(i as int),
                    ).contains_key(k) by {
                        assert(prior.key_at(i as int) == key@);
                        assert(self.key_at(i as int) == key@);
                        if prior@.insert(key@, self.val_at(i as int)).contains_key(k) {
                            if k == key@ {
                                assert(self.contains_key_at(k));
                            } else {
                                assert(prior.contains_key_at(k));
                                let w = choose|j: int|
                                    0 <= j < prior.spec_len() && prior.key_at(j) == k;
                                assert(self.key_at(w) == k);
                                assert(self.contains_key_at(k));
                            }
                            assert(self@.contains_key(k));
                        }
                        if self@.contains_key(k) {
                            assert(self.contains_key_at(k));
                            let w = choose|j: int| 0 <= j < self.spec_len() && self.key_at(j) == k;
                            assert(prior.key_at(w) == k);
                            assert(prior.contains_key_at(k));
                            assert(prior@.insert(key@, self.val_at(i as int)).contains_key(k));
                        }
                    }
                    assert forall|k: Seq<u8>| self@.contains_key(k) implies self@[k]
                        == prior@.insert(key@, self.val_at(i as int))[k] by {
                        let w = choose|j: int| 0 <= j < self.spec_len() && self.key_at(j) == k;
                        self.lemma_view_at(w);
                        if k == key@ {
                            self.lemma_key_at_unique(w, i as int);
                        } else {
                            prior.lemma_view_at(w);
                        }
                    }
                    assert(self@ =~= prior@.insert(key@, self.val_at(i as int)));
                }
                Some(prev_val)
            },
            Err(i) => {
                proof {
                    assert forall|j: int| 0 <= j < prior.spec_len() implies prior.key_at(j)
                        != key@ by {
                        lemma_lex_cmp_eq(prior.key_at(j), key@);
                    }
                }
                self.entries.insert(i, (key, value));
                proof {
                    assert(self.entry_seq() =~= prior.entry_seq().insert(
                        i as int,
                        (key@, self.val_at(i as int)),
                    ));
                    assert forall|a: int, b: int| 0 <= a < b < self.spec_len() implies lex_lt(
                        self.key_at(a),
                        self.key_at(b),
                    ) by {
                        if a == i {
                            assert(self.key_at(b) == prior.key_at(b - 1));
                        } else if b == i {
                            assert(self.key_at(a) == prior.key_at(a));
                        } else {
                            let pa: int = if a < i { a } else { a - 1 };
                            let pb: int = if b < i { b } else { b - 1 };
                            assert(self.key_at(a) == prior.key_at(pa));
                            assert(self.key_at(b) == prior.key_at(pb));
                        }
                    }
                    assert forall|k: Seq<u8>| self@.contains_key(k) == prior@.insert(
                        key@,
                        self.val_at(i as int),
                    ).contains_key(k) by {
                        assert(self.key_at(i as int) == key@);
                        if prior.contains_key_at(k) {
                            let w = choose|j: int|
                                0 <= j < prior.spec_len() && prior.key_at(j) == k;
                            if w < i {
                                assert(self.key_at(w) == k);
                            } else {
                                assert(self.key_at(w + 1) == k);
                            }
                        }
                        if self.contains_key_at(k) && k != key@ {
                            let w = choose|j: int| 0 <= j < self.spec_len() && self.key_at(j) == k;
                            if w < i {
                                assert(prior.key_at(w) == k);
                            } else {
                                assert(prior.key_at(w - 1) == k);
                            }
                        }
                    }
                    assert forall|k: Seq<u8>| self@.contains_key(k) implies self@[k]
                        == prior@.insert(key@, self.val_at(i as int))[k] by {
                        let w = choose|j: int| 0 <= j < self.spec_len() && self.key_at(j) == k;
                        self.lemma_view_at(w);
                        if k == key@ {
                            self.lemma_key_at_unique(w, i as int);
                        } else {
                            if w < i {
                                prior.lemma_view_at(w);
                            } else {
                                prior.lemma_view_at(w - 1);
                            }
                        }
                    }
                    assert(self@ =~= prior@.insert(key@, self.val_at(i as int)));
                }
                None
            },
        }
    }

    /// Removes `key`, returning the value it carried, if any.
    pub fn remove(&mut self, key: &Vec<u8>) -> (prev: Option<V>)
        requires
            old(self).wf(),
        ensures
            final(self).wf(),
            final(self)@ == old(self)@.remove(key@),
            match prev {
                Some(p) => {
                    &&& old(self)@.contains_key(key@)
                    &&& p == old(self)@[key@]
                    &&& exists|i: int|
                        0 <= i < old(self).spec_len() && old(self).key_at(i) == key@
                            && final(self).entry_seq() == old(self).entry_seq().remove(i)
                },
                None => {
                    &&& !old(self)@.contains_key(key@)
                    &&& *final(self) == *old(self)
                },
            },
    {
        let ghost prior = *self;
        match self.rank(key) {
            Ok(i) => {
                proof {
                    prior.lemma_view_at(i as int);
                }
                let slot = self.entries.remove(i);
                proof {
                    assert(self.entry_seq() =~= prior.entry_seq().remove(i as int));
                    assert forall|a: int, b: int| 0 <= a < b < self.spec_len() implies lex_lt(
                        self.key_at(a),
                        self.key_at(b),
                    ) by {
                        let pa: int = if a < i { a } else { a + 1 };
                        let pb: int = if b < i { b } else { b + 1 };
                        assert(self.key_at(a) == prior.key_at(pa));
                        assert(self.key_at(b) == prior.key_at(pb));
                    }
                    assert forall|k: Seq<u8>| self@.contains_key(k) == prior@.remove(
                        key@,
                    ).contains_key(k) by {
                        if prior.contains_key_at(k) && k != key@ {
                            let w = choose|j: int|
                                0 <= j < prior.spec_len() && prior.key_at(j) == k;
                            assert(w != i);
                            if w < i {
                                assert(self.key_at(w) == k);
                            } else {
                                assert(self.key_at(w - 1) == k);
                            }
                        }
                        if self.contains_key_at(k) {
                            let w = choose|j: int| 0 <= j < self.spec_len() && self.key_at(j) == k;
                            if w < i {
                                assert(prior.key_at(w) == k);
                            } else {
                                assert(prior.key_at(w + 1) == k);
                            }
                            if k == key@ {
                                let pw: int = if w < i { w } else { w + 1 };
                                prior.lemma_key_at_unique(pw, i as int);
                            }
                        }
                    }
                    assert forall|k: Seq<u8>| self@.contains_key(k) implies self@[k]
                        == prior@.remove(key@)[k] by {
                        let w = choose|j: int| 0 <= j < self.spec_len() && self.key_at(j) == k;
                        self.lemma_view_at(w);
                        if w < i {
                            prior.lemma_view_at(w);
                        } else {
                            prior.lemma_view_at(w + 1);
                        }
                    }
                    assert(self@ =~= prior@.remove(key@));
                }
                Some(slot.1)
            },
            Err(i) => {
                proof {
                    assert forall|j: int| 0 <= j < prior.spec_len() implies prior.key_at(j)
                        != key@ by {
                        lemma_lex_cmp_eq(prior.key_at(j), key@);
                    }
                    assert(self@ =~= prior@.remove(key@));
                }
                None
            },
        }
    }

    /// Appends an entry whose key sorts after every present key.
    pub fn push_last(&mut self, key: Vec<u8>, value: V)
        requires
            old(self).wf(),
            old(self).spec_len() == 0 || lex_lt(
                old(self).key_at(old(self).spec_len() - 1),
                key@,
            ),
        ensures
            final(self).wf(),
            final(self).entry_seq() == old(self).entry_seq().push((key@, value)),
            final(self)@ == old(self)@.insert(key@, value),
    {
        let ghost prior = *self;
        self.entries.push((key, value));
        proof {
            let n = prior.spec_len() as int;
            assert(self.entry_seq() =~= prior.entry_seq().push((key@, self.val_at(n))));
            assert forall|a: int, b: int| 0 <= a < b < self.spec_len() implies lex_lt(
                self.key_at(a),
                self.key_at(b),
            ) by {
                if b == n {
                    assert(self.key_at(a) == prior.key_at(a));
                    assert(self.key_at(b) == key@);
                    if a < n - 1 {
                        assert(lex_lt(prior.key_at(a), prior.key_at(n - 1)));
                        lemma_lex_cmp_trans(prior.key_at(a), prior.key_at(n - 1), key@);
                    }
                } else {
                    assert(self.key_at(a) == prior.key_at(a));
                    assert(self.key_at(b) == prior.key_at(b));
                    assert(lex_lt(prior.key_at(a), prior.key_at(b)));
                }
            }
            assert forall|k: Seq<u8>| self@.contains_key(k) == prior@.insert(
                key@,
                self.val_at(n),
            ).contains_key(k) by {
                assert(self.key_at(n) == key@);
                if prior.contains_key_at(k) {
                    let w = choose|j: int| 0 <= j < prior.spec_len() && prior.key_at(j) == k;
                    assert(self.key_at(w) == k);
                }
                if self.contains_key_at(k) {
                    let w = choose|j: int| 0 <= j < self.spec_len() && self.key_at(j) == k;
                    if w < n {
                        assert(prior.key_at(w) == k);
                    }
                }
            }
            assert forall|k: Seq<u8>| self@.contains_key(k) implies self@[k] == prior@.insert(
                key@,
                self.val_at(n),
            )[k] by {
                let w = choose|j: int| 0 <= j < self.spec_len() && self.key_at(j) == k;
                self.lemma_view_at(w);
                if k == key@ {
                    self.lemma_key_at_unique(w, n);
                } else {
                    prior.lemma_view_at(w);
                }
            }
            assert(self@ =~= prior@.insert(key@, self.val_at(n)));
        }
    }
}

impl<V> View for SMap<V> {
    type V = Map<Seq<u8>, V>;

    closed spec fn view(&self) -> Map<Seq<u8>, V> {
        Map::new(
            |k: Seq<u8>| self.contains_key_at(k),
            |k: Seq<u8>|
                self.val_at(
                    choose|i: int| 0 <= i < self.spec_len() && self.key_at(i) == k,
                ),
        )
    }
}

/// Total weight of a sequence of entries under a per-entry weight function;
/// pages use it to track their encoded size.
pub open spec fn weight_sum<V>(s: Seq<(Seq<u8>, V)>, w: spec_fn((Seq<u8>, V)) -> int) -> int
    decreases s.len(),
{
    if s.len() == 0 {
        0
    } else {
        weight_sum(s.drop_last(), w) + w(s.last())
    }
}

pub proof fn lemma_weight_sum_insert<V>(
    s: Seq<(Seq<u8>, V)>,
    i: int,
    e: (Seq<u8>, V),
    w: spec_fn((Seq<u8>, V)) -> int,
)
    requires
        0 <= i <= s.len(),
    ensures
        weight_sum(s.insert(i, e), w) == weight_sum(s, w) + w(e),
    decreases s.len(),
{
    let t = s.insert(i, e);
    if i == s.len() {
        assert(t.drop_last() =~= s);
    } else {
        assert(t.drop_last() =~= s.drop_last().insert(i, e));
        assert(t.last() == s.last());
        lemma_weight_sum_insert(s.drop_last(), i, e, w);
    }
}

pub proof fn lemma_weight_sum_update<V>(
    s: Seq<(Seq<u8>, V)>,
    i: int,
    e: (Seq<u8>, V),
    w: spec_fn((Seq<u8>, V)) -> int,
)
    requires
        0 <= i < s.len(),
    ensures
        weight_sum(s.update(i, e), w) == weight_sum(s, w) - w(s[i]) + w(e),
    decreases s.len(),
{
    let t = s.update(i, e);
    if i == s.len() - 1 {
        assert(t.drop_last() =~= s.drop_last());
        assert(t.last() == e);
    } else {
        assert(t.drop_last() =~= s.drop_last().update(i, e));
        assert(t.last() == s.last());
        lemma_weight_sum_update(s.drop_last(), i, e, w);
    }
}

pub proof fn lemma_weight_sum_push<V>(
    s: Seq<(Seq<u8>, V)>,
    e: (Seq<u8>, V),
    w: spec_fn((Seq<u8>, V)) -> int,
)
    ensures
        weight_sum(s.push(e), w) == weight_sum(s, w) + w(e),
{
    assert(s.push(e).drop_last() =~= s);
    assert(s.push(e).last() == e);
}

pub proof fn lemma_weight_sum_nonneg<V>(s: Seq<(Seq<u8>, V)>, w: spec_fn((Seq<u8>, V)) -> int)
    requires
        forall|e: (Seq<u8>, V)| #[trigger] w(e) >= 0,
    ensures
        weight_sum(s, w) >= 0,
    decreases s.len(),
{
    if s.len() > 0 {
        lemma_weight_sum_nonneg(s.drop_last(), w);
        assert(w(s.last()) >= 0);
    }
}

/// The weight of a sequence is the weight of a prefix plus that of the rest.
pub proof fn lemma_weight_sum_split<V>(
    s: Seq<(Seq<u8>, V)>,
    n: int,
    w: spec_fn((Seq<u8>, V)) -> int,
)
    requires
        0 <= n <= s.len(),
    ensures
        weight_sum(s, w) == weight_sum(s.take(n), w) + weight_sum(s.skip(n), w),
    decreases s.len(),
{
    if n == s.len() {
        assert(s.take(n) =~= s);
        assert(s.skip(n) =~= Seq::<(Seq<u8>, V)>::empty());
    } else {
        let dl = s.drop_last();
        lemma_weight_sum_split(dl, n, w);
        assert(dl.take(n) =~= s.take(n));
        assert(s.skip(n) =~= dl.skip(n).push(s.last()));
        lemma_weight_sum_push(dl.skip(n), s.last(), w);
    }
}

pub proof fn lemma_weight_sum_remove<V>(
    s: Seq<(Seq<u8>, V)>,
    i: int,
    w: spec_fn((Seq<u8>, V)) -> int,
)
    requires
        0 <= i < s.len(),
    ensures
        weight_sum(s.remove(i), w) == weight_sum(s, w) - w(s[i]),
    decreases s.len(),
{
    let t = s.remove(i);
    if i == s.len() - 1 {
        assert(t =~= s.drop_last());
    } else {
        assert(t.drop_last() =~= s.drop_last().remove(i));
        assert(t.last() == s.last());
        lemma_weight_sum_remove(s.drop_last(), i, w);
    }
}

} // verus!
