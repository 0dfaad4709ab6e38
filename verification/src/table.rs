//! The point-lookup table: keyed puts, deletes and gets with caller-supplied
//! logical sequence numbers (LSNs), layered over leaf delta chains.
//!
//! The table's abstract state is a map from `(raw key, lsn)` to the value
//! written at that version: bytes for a put, nothing for a delete tombstone.
//! A read at `lsn` sees the version with the greatest LSN at or below it.

use vstd::prelude::*;

use crate::data::{key_view, key_compare, value_view, Key, KeySpec, ValSpec, Value};
use crate::error::Error;
use crate::lex::{in_range, key_in_range, lemma_lex_cmp_trans, lex_le, lex_lt, Cmp};

verus! {

/// Tuning knobs recognized when a table is opened.
pub struct Options {
    pub cache_size_bytes: usize,
    pub page_file_size_bytes: usize,
    pub consolidate_threshold_leaf: usize,
    pub consolidate_threshold_inner: usize,
    pub split_size_bytes: usize,
    pub use_direct_io: bool,
    pub file_prefix: String,
}

impl Default for Options {
    fn default() -> (r: Self)
        ensures
            r.consolidate_threshold_leaf == 8,
            r.consolidate_threshold_inner == 4,
            r.split_size_bytes == 8192,
            r.page_file_size_bytes == 16777216,
            r.cache_size_bytes == 67108864,
            r.use_direct_io == false,
            r.file_prefix@ == Seq::<char>::empty(),
    {
        Options {
            cache_size_bytes: 67108864,
            page_file_size_bytes: 16777216,
            consolidate_threshold_leaf: 8,
            consolidate_threshold_inner: 4,
            split_size_bytes: 8192,
            use_direct_io: false,
            file_prefix: String::new(),
        }
    }
}

/// Entries abstracted to their key and value views.
pub open spec fn lift_entries(s: Seq<(Key, Value)>) -> Seq<(KeySpec, ValSpec)> {
    s.map(|i: int, e: (Key, Value)| (key_view(e.0), value_view(e.1)))
}

/// The versioned map written by a sequence of entries; a later entry for the
/// same `(raw, lsn)` replaces an earlier one.
pub open spec fn entries_map(s: Seq<(KeySpec, ValSpec)>) -> Map<KeySpec, ValSpec>
    decreases s.len(),
{
    if s.len() == 0 {
        Map::empty()
    } else {
        entries_map(s.drop_last()).insert(s.last().0, s.last().1)
    }
}

pub proof fn lemma_entries_map_contains(s: Seq<(KeySpec, ValSpec)>, k: KeySpec)
    ensures
        entries_map(s).contains_key(k) <==> exists|i: int| 0 <= i < s.len() && (#[trigger] s[i]).0
            == k,
    decreases s.len(),
{
    if s.len() > 0 {
        lemma_entries_map_contains(s.drop_last(), k);
        if s.last().0 == k {
            assert(s[s.len() - 1].0 == k);
        } else if entries_map(s).contains_key(k) {
            let i = choose|i: int| 0 <= i < s.drop_last().len() && (#[trigger] s.drop_last()[i]).0
                == k;
            assert(s[i].0 == k);
        } else {
            if exists|i: int| 0 <= i < s.len() && (#[trigger] s[i]).0 == k {
                let i = choose|i: int| 0 <= i < s.len() && (#[trigger] s[i]).0 == k;
                assert(s.drop_last()[i].0 == k);
            }
        }
    }
}

/// The map holds the value of the last entry written for a key.
pub proof fn lemma_entries_map_value(s: Seq<(KeySpec, ValSpec)>, i: int)
    requires
        0 <= i < s.len(),
        forall|j: int| i < j < s.len() ==> (#[trigger] s[j]).0 != s[i].0,
    ensures
        entries_map(s).contains_key(s[i].0),
        entries_map(s)[s[i].0] == s[i].1,
    decreases s.len(),
{
    if i == s.len() - 1 {
    } else {
        assert(s.drop_last()[i] == s[i]);
        assert forall|j: int| i < j < s.drop_last().len() implies (#[trigger] s.drop_last()[j]).0
            != s.drop_last()[i].0 by {
            assert(s.drop_last()[j] == s[j]);
        }
        lemma_entries_map_value(s.drop_last(), i);
        assert(s.last().0 != s[i].0);
    }
}

/// Replacing the one entry of a key rewrites its value in the map.
pub proof fn lemma_entries_map_update_unique(
    s: Seq<(KeySpec, ValSpec)>,
    i: int,
    e: (KeySpec, ValSpec),
)
    requires
        0 <= i < s.len(),
        s[i].0 == e.0,
        forall|j: int| 0 <= j < s.len() && j != i ==> (#[trigger] s[j]).0 != s[i].0,
    ensures
        entries_map(s.update(i, e)) == entries_map(s).insert(e.0, e.1),
    decreases s.len(),
{
    let t = s.update(i, e);
    if i == s.len() - 1 {
        assert(t.drop_last() =~= s.drop_last());
        assert(t.last() == e);
        assert(entries_map(t) =~= entries_map(s).insert(e.0, e.1));
    } else {
        assert(t.drop_last() =~= s.drop_last().update(i, e));
        assert(t.last() == s.last());
        assert(s.drop_last()[i] == s[i]);
        assert forall|j: int|
            0 <= j < s.drop_last().len() && j != i implies (#[trigger] s.drop_last()[j]).0
            != s.drop_last()[i].0 by {
            assert(s.drop_last()[j] == s[j]);
        }
        lemma_entries_map_update_unique(s.drop_last(), i, e);
        assert(s.last().0 != e.0);
        assert(entries_map(t) =~= entries_map(s).insert(e.0, e.1));
    }
}

pub proof fn lemma_entries_map_push(s: Seq<(KeySpec, ValSpec)>, e: (KeySpec, ValSpec))
    ensures
        entries_map(s.push(e)) == entries_map(s).insert(e.0, e.1),
{
    assert(s.push(e).drop_last() =~= s);
    assert(s.push(e).last() == e);
}

/// Version `l` of `key` is the one a read at `lsn` sees: it is present, not
/// after `lsn`, and no later version up to `lsn` exists.
pub open spec fn visible_at(
    m: Map<KeySpec, ValSpec>,
    key: Seq<u8>,
    lsn: u64,
    l: u64,
) -> bool {
    &&& m.contains_key((key, l))
    &&& l <= lsn
    &&& forall|l2: u64| l < l2 <= lsn ==> !(#[trigger] m.contains_key((key, l2)))
}

/// What a read of `key` at `lsn` sees: `None` when no version is at or below
/// `lsn`, otherwise the visible version's value.
pub open spec fn spec_lookup(m: Map<KeySpec, ValSpec>, key: Seq<u8>, lsn: u64) -> Option<
    ValSpec,
> {
    if exists|l: u64| visible_at(m, key, lsn, l) {
        Some(m[(key, choose|l: u64| visible_at(m, key, lsn, l))])
    } else {
        None
    }
}

/// At most one version of a key is visible at a given LSN.
pub proof fn lemma_visible_unique(m: Map<KeySpec, ValSpec>, key: Seq<u8>, lsn: u64, a: u64, b: u64)
    requires
        visible_at(m, key, lsn, a),
        visible_at(m, key, lsn, b),
    ensures
        a == b,
{
    if a < b {
        assert(!m.contains_key((key, b)));
    }
    if b < a {
        assert(!m.contains_key((key, a)));
    }
}

/// The read seen after writing version `lsn` of `key`, read back at any
/// `at >= lsn` with no other version in between: exactly the written value.
pub proof fn lemma_write_then_read(
    m: Map<KeySpec, ValSpec>,
    key: Seq<u8>,
    lsn: u64,
    v: ValSpec,
    at: u64,
)
    requires
        lsn <= at,
        forall|l2: u64| lsn < l2 <= at ==> !(#[trigger] m.contains_key((key, l2))),
    ensures
        spec_lookup(m.insert((key, lsn), v), key, at) == Some(v),
{
    let m2 = m.insert((key, lsn), v);
    assert(visible_at(m2, key, at, lsn));
    let l = choose|l: u64| visible_at(m2, key, at, l);
    lemma_visible_unique(m2, key, at, l, lsn);
}

/// Puts are read back: after `put(key, lsn, v)`, a read at `at >= lsn` that
/// no later write on `key` precedes returns exactly `v`.
pub proof fn lemma_put_visible(
    m: Map<KeySpec, ValSpec>,
    key: Seq<u8>,
    lsn: u64,
    v: Seq<u8>,
    at: u64,
)
    requires
        lsn <= at,
        forall|l2: u64| lsn < l2 <= at ==> !(#[trigger] m.contains_key((key, l2))),
    ensures
        spec_lookup(m.insert((key, lsn), Some(v)), key, at) == Some(Some(v)),
{
    lemma_write_then_read(m, key, lsn, Some(v), at);
}

/// Deletes are read back: after `delete(key, lsn)`, a read at `at >= lsn`
/// that no later put on `key` precedes sees the tombstone, and so returns
/// nothing.
pub proof fn lemma_delete_visible(m: Map<KeySpec, ValSpec>, key: Seq<u8>, lsn: u64, at: u64)
    requires
        lsn <= at,
        forall|l2: u64| lsn < l2 <= at ==> !(#[trigger] m.contains_key((key, l2))),
    ensures
        spec_lookup(m.insert((key, lsn), None), key, at) == Some(None::<Seq<u8>>),
{
    lemma_write_then_read(m, key, lsn, None, at);
}

/// Only the last of several writes at increasing LSNs on one key is visible
/// at or above the last LSN.
pub proof fn lemma_last_write_wins(
    m: Map<KeySpec, ValSpec>,
    key: Seq<u8>,
    l1: u64,
    v1: ValSpec,
    l2: u64,
    v2: ValSpec,
    l3: u64,
    v3: ValSpec,
    at: u64,
)
    requires
        l1 < l2 < l3 <= at,
        forall|l: u64| l3 < l <= at ==> !(#[trigger] m.contains_key((key, l))),
    ensures
        spec_lookup(
            m.insert((key, l1), v1).insert((key, l2), v2).insert((key, l3), v3),
            key,
            at,
        ) == Some(v3),
{
    let m2 = m.insert((key, l1), v1).insert((key, l2), v2);
    assert forall|l: u64| l3 < l <= at implies !(#[trigger] m2.contains_key((key, l))) by {}
    lemma_write_then_read(m2, key, l3, v3, at);
}

/// Two maps that agree on every version of `key` are read alike at `key`.
pub proof fn lemma_lookup_agrees(
    m1: Map<KeySpec, ValSpec>,
    m2: Map<KeySpec, ValSpec>,
    key: Seq<u8>,
    lsn: u64,
)
    requires
        forall|l: u64|
            #![trigger m1.contains_key((key, l))]
            #![trigger m2.contains_key((key, l))]
            m1.contains_key((key, l)) == m2.contains_key((key, l)) && (m1.contains_key((key, l))
                ==> m1[(key, l)] == m2[(key, l)]),
    ensures
        spec_lookup(m1, key, lsn) == spec_lookup(m2, key, lsn),
{
    assert forall|l: u64| #[trigger] visible_at(m1, key, lsn, l) == visible_at(
        m2,
        key,
        lsn,
        l,
    ) by {
        if visible_at(m1, key, lsn, l) {
            assert forall|l2: u64| l < l2 <= lsn implies !(#[trigger] m2.contains_key(
                (key, l2),
            )) by {
                assert(!m1.contains_key((key, l2)));
            }
        }
        if visible_at(m2, key, lsn, l) {
            assert forall|l2: u64| l < l2 <= lsn implies !(#[trigger] m1.contains_key(
                (key, l2),
            )) by {
                assert(!m2.contains_key((key, l2)));
            }
        }
    }
    if exists|l: u64| visible_at(m1, key, lsn, l) {
        let a = choose|l: u64| visible_at(m1, key, lsn, l);
        assert(visible_at(m2, key, lsn, a));
        let b = choose|l: u64| visible_at(m2, key, lsn, l);
        lemma_visible_unique(m2, key, lsn, a, b);
    } else if exists|l: u64| visible_at(m2, key, lsn, l) {
        let b = choose|l: u64| visible_at(m2, key, lsn, l);
        assert(visible_at(m1, key, lsn, b));
    }
}

/// One leaf delta chain: a base page's records and the deltas posted on top
/// of it, covering the raw-key range `[lowest, highest)`.
pub struct LeafChain {
    pub lowest: Vec<u8>,
    pub highest: Vec<u8>,
    pub base: Vec<(Key, Value)>,
    pub deltas: Vec<(Key, Value)>,
}

impl LeafChain {
    /// Base records then deltas, oldest first: the order in which the chain
    /// was written.
    pub open spec fn all_entries(self) -> Seq<(KeySpec, ValSpec)> {
        lift_entries(self.base@) + lift_entries(self.deltas@)
    }

    /// The versioned map this chain holds.
    pub open spec fn chain_map(self) -> Map<KeySpec, ValSpec> {
        entries_map(self.all_entries())
    }

    /// One frame per delta on top of the base.
    pub open spec fn chain_len(self) -> nat {
        1 + self.deltas@.len()
    }

    pub open spec fn wf(self) -> bool {
        &&& forall|i: int|
            0 <= i < self.all_entries().len() ==> in_range(
                (#[trigger] self.all_entries()[i]).0.0,
                self.lowest@,
                self.highest@,
            )
        &&& forall|i: int, j: int|
            0 <= i < j < self.base@.len() ==> (#[trigger] lift_entries(self.base@)[i]).0 != (
            #[trigger] lift_entries(self.base@)[j]).0
        &&& self.highest@.len() == 0 || lex_le(self.lowest@, self.highest@)
    }

    /// Every version this chain holds has its raw key inside the chain's
    /// range.
    pub proof fn lemma_raw_in_range(self, k: KeySpec)
        requires
            self.wf(),
            self.chain_map().contains_key(k),
        ensures
            in_range(k.0, self.lowest@, self.highest@),
    {
        lemma_entries_map_contains(self.all_entries(), k);
        let i = choose|i: int|
            0 <= i < self.all_entries().len() && (#[trigger] self.all_entries()[i]).0 == k;
        assert(in_range(self.all_entries()[i].0.0, self.lowest@, self.highest@));
    }

    /// Consolidates the chain: every delta is folded into the base, newest
    /// version of each `(raw, lsn)` winning, and the chain shrinks to its
    /// base frame. Consolidating an already consolidated chain leaves the
    /// base untouched, so doing it twice yields an identical base.
    pub fn consolidate(&mut self)
        requires
            old(self).wf(),
        ensures
            final(self).wf(),
            final(self).lowest@ == old(self).lowest@,
            final(self).highest@ == old(self).highest@,
            final(self).chain_map() == old(self).chain_map(),
            final(self).deltas@.len() == 0,
            final(self).chain_len() == 1,
            old(self).deltas@.len() == 0 ==> final(self).base == old(self).base,
    {
        let ghost prior = *self;
        let nd = self.deltas.len();
        if nd == 0 {
            proof {
                assert(self.all_entries() =~= prior.all_entries());
            }
            return ;
        }
        let ghost base0 = lift_entries(self.base@);
        let ghost deltas0 = lift_entries(self.deltas@);
        proof {
            assert((base0 + deltas0.take(0)) =~= base0);
            assert forall|i: int| 0 <= i < lift_entries(self.base@).len() implies in_range(
                (#[trigger] lift_entries(self.base@)[i]).0.0,
                self.lowest@,
                self.highest@,
            ) by {
                assert(prior.all_entries()[i] == lift_entries(prior.base@)[i]);
                assert(in_range(prior.all_entries()[i].0.0, prior.lowest@, prior.highest@));
            }
        }
        let mut j: usize = 0;
        while j < nd
            invariant
                nd == self.deltas@.len(),
                j <= nd,
                self.lowest@ == prior.lowest@,
                self.highest@ == prior.highest@,
                self.deltas == prior.deltas,
                base0 == lift_entries(prior.base@),
                deltas0 == lift_entries(prior.deltas@),
                prior.wf(),
                entries_map(lift_entries(self.base@)) == entries_map(
                    base0 + deltas0.take(j as int),
                ),
                forall|i: int|
                    0 <= i < lift_entries(self.base@).len() ==> in_range(
                        (#[trigger] lift_entries(self.base@)[i]).0.0,
                        self.lowest@,
                        self.highest@,
                    ),
                forall|a: int, b: int|
                    0 <= a < b < self.base@.len() ==> (#[trigger] lift_entries(self.base@)[a]).0
                        != (#[trigger] lift_entries(self.base@)[b]).0,
            decreases nd - j,
        {
            let ghost basec = lift_entries(self.base@);
            let ek = Key::new(
                crate::page::clone_bytes(&self.deltas[j].0.raw),
                self.deltas[j].0.lsn,
            );
            let ev = crate::data::clone_value(&self.deltas[j].1);
            let ghost dk = key_view(prior.deltas@[j as int].0);
            let ghost dv = value_view(prior.deltas@[j as int].1);
            proof {
                assert(deltas0[j as int] == (dk, dv));
                assert(key_view(ek) == dk);
                assert(value_view(ev) == dv);
                assert((base0 + deltas0.take(j + 1)) =~= (base0 + deltas0.take(j as int)).push(
                    (dk, dv),
                ));
                lemma_entries_map_push(base0 + deltas0.take(j as int), (dk, dv));
                assert(in_range(dk.0, prior.lowest@, prior.highest@)) by {
                    assert(prior.all_entries()[base0.len() + j] == (dk, dv));
                }
            }
            let found = find_entry(&self.base, &ek);
            let ghost based = self.base@;
            match found {
                Some(ix) => {
                    self.base.set(ix, (ek, ev));
                    proof {
                        assert(lift_entries(self.base@) =~= basec.update(ix as int, (dk, dv)));
                        assert forall|b: int|
                            0 <= b < basec.len() && b != ix implies (#[trigger] basec[b]).0
                            != basec[ix as int].0 by {
                            if b < ix {
                                assert(basec[b].0 != basec[ix as int].0);
                            }
                        }
                        lemma_entries_map_update_unique(basec, ix as int, (dk, dv));
                        assert forall|i2: int|
                            0 <= i2 < lift_entries(self.base@).len() implies in_range(
                            (#[trigger] lift_entries(self.base@)[i2]).0.0,
                            self.lowest@,
                            self.highest@,
                        ) by {
                            if i2 != ix {
                                assert(lift_entries(self.base@)[i2] == basec[i2]);
                                assert(in_range(basec[i2].0.0, self.lowest@, self.highest@));
                            }
                        }
                        assert forall|a: int, b: int|
                            0 <= a < b < self.base@.len() implies (#[trigger] lift_entries(
                            self.base@,
                        )[a]).0 != (#[trigger] lift_entries(self.base@)[b]).0 by {
                            if a != ix && b != ix {
                                assert(lift_entries(self.base@)[a] == basec[a]);
                                assert(lift_entries(self.base@)[b] == basec[b]);
                            } else if a == ix {
                                assert(lift_entries(self.base@)[b] == basec[b]);
                                assert(basec[b].0 != basec[ix as int].0);
                            } else {
                                assert(lift_entries(self.base@)[a] == basec[a]);
                                assert(basec[a].0 != basec[ix as int].0);
                            }
                        }
                    }
                },
                None => {
                    self.base.push((ek, ev));
                    proof {
                        assert(lift_entries(self.base@) =~= basec.push((dk, dv)));
                        lemma_entries_map_push(basec, (dk, dv));
                        assert forall|i2: int|
                            0 <= i2 < lift_entries(self.base@).len() implies in_range(
                            (#[trigger] lift_entries(self.base@)[i2]).0.0,
                            self.lowest@,
                            self.highest@,
                        ) by {
                            if i2 < lift_entries(self.base@).len() - 1 {
                                assert(lift_entries(self.base@)[i2] == basec[i2]);
                                assert(in_range(basec[i2].0.0, self.lowest@, self.highest@));
                            }
                        }
                        assert forall|a: int, b: int|
                            0 <= a < b < self.base@.len() implies (#[trigger] lift_entries(
                            self.base@,
                        )[a]).0 != (#[trigger] lift_entries(self.base@)[b]).0 by {
                            if b < self.base@.len() - 1 {
                                assert(lift_entries(self.base@)[a] == basec[a]);
                                assert(lift_entries(self.base@)[b] == basec[b]);
                            } else {
                                assert(lift_entries(self.base@)[a] == basec[a]);
                                assert(lift_entries(self.base@)[b] == (dk, dv));
                                assert(basec[a].0 != dk);
                            }
                        }
                    }
                },
            }
            j = j + 1;
        }
        self.deltas = Vec::new();
        proof {
            assert(deltas0.take(nd as int) =~= deltas0);
            assert(lift_entries(self.deltas@) =~= Seq::<(KeySpec, ValSpec)>::empty());
            assert(self.all_entries() =~= lift_entries(self.base@));
            assert(prior.all_entries() =~= base0 + deltas0);
        }
    }
}

/// The position of the entry carrying exactly the key of `k`, among entries
/// with pairwise distinct keys.
fn find_entry(base: &Vec<(Key, Value)>, k: &Key) -> (r: Option<usize>)
    ensures
        match r {
            Some(ix) => ix < base@.len() && lift_entries(base@)[ix as int].0 == key_view(*k),
            None => forall|i: int|
                0 <= i < base@.len() ==> (#[trigger] lift_entries(base@)[i]).0 != key_view(*k),
        },
{
    let n = base.len();
    let mut i: usize = 0;
    while i < n
        invariant
            n == base@.len(),
            i <= n,
            forall|a: int|
                0 <= a < i ==> (#[trigger] lift_entries(base@)[a]).0 != key_view(*k),
        decreases n - i,
    {
        let e = &base[i];
        proof {
            assert(lift_entries(base@)[i as int] == (key_view(e.0), value_view(e.1)));
        }
        if matches!(key_compare(&e.0, k), Cmp::Equal) {
            return Some(i);
        }
        i = i + 1;
    }
    None
}

/// The chains side by side partition the raw-key space: each covers a
/// well-formed range, ranges abut, and only the last is unbounded above.
pub open spec fn partition_wf(s: Seq<LeafChain>) -> bool {
    &&& forall|i: int| 0 <= i < s.len() ==> (#[trigger] s[i]).wf()
    &&& forall|i: int|
        0 <= i < s.len() - 1 ==> (#[trigger] s[i]).highest@ == s[i + 1].lowest@ && s[i].highest@.len()
            != 0
}

/// The versioned map of a row of chains.
pub open spec fn chains_map(s: Seq<LeafChain>) -> Map<KeySpec, ValSpec>
    decreases s.len(),
{
    if s.len() == 0 {
        Map::empty()
    } else {
        chains_map(s.drop_last()).union_prefer_right(s.last().chain_map())
    }
}

pub proof fn lemma_chains_map_contains(s: Seq<LeafChain>, k: KeySpec)
    ensures
        chains_map(s).contains_key(k) <==> exists|j: int|
            0 <= j < s.len() && (#[trigger] s[j]).chain_map().contains_key(k),
    decreases s.len(),
{
    if s.len() > 0 {
        lemma_chains_map_contains(s.drop_last(), k);
        if s.last().chain_map().contains_key(k) {
            assert((s[s.len() - 1]).chain_map().contains_key(k));
        } else if chains_map(s).contains_key(k) {
            let j = choose|j: int|
                0 <= j < s.drop_last().len() && (#[trigger] s.drop_last()[j]).chain_map(
                ).contains_key(k);
            assert((s[j]).chain_map().contains_key(k));
        } else {
            if exists|j: int| 0 <= j < s.len() && (#[trigger] s[j]).chain_map().contains_key(k) {
                let j = choose|j: int|
                    0 <= j < s.len() && (#[trigger] s[j]).chain_map().contains_key(k);
                assert(j < s.len() - 1);
                assert((s.drop_last()[j]).chain_map().contains_key(k));
            }
        }
    }
}

/// Ranges of distinct chains are ordered: everything before chain `j` ends
/// at or under `j`'s lower bound.
pub proof fn lemma_ranges_ordered(s: Seq<LeafChain>, i: int, j: int)
    requires
        partition_wf(s),
        0 <= i < j < s.len(),
    ensures
        s[i].highest@.len() != 0,
        lex_le(s[i].highest@, s[j].lowest@),
    decreases j - i,
{
    crate::lex::lemma_lex_cmp_eq(s[i].highest@, s[i + 1].lowest@);
    if j == i + 1 {
    } else {
        lemma_ranges_ordered(s, i + 1, j);
        assert(s[i + 1].wf());
        assert(s[i + 1].highest@.len() != 0);
        lemma_lex_cmp_trans(s[i].highest@, s[i + 1].lowest@, s[i + 1].highest@);
        lemma_lex_cmp_trans(s[i].highest@, s[i + 1].highest@, s[j].lowest@);
    }
}

/// A version whose raw key chain `i` covers is held by no other chain.
pub proof fn lemma_key_in_one_chain(s: Seq<LeafChain>, i: int, k: KeySpec)
    requires
        partition_wf(s),
        0 <= i < s.len(),
        in_range(k.0, s[i].lowest@, s[i].highest@),
    ensures
        forall|j: int|
            0 <= j < s.len() && j != i ==> !(#[trigger] s[j]).chain_map().contains_key(k),
{
    assert forall|j: int| 0 <= j < s.len() && j != i implies !(#[trigger] s[j]).chain_map(
    ).contains_key(k) by {
        if s[j].chain_map().contains_key(k) {
            assert(s[j].wf());
            s[j].lemma_raw_in_range(k);
            if j > i {
                lemma_ranges_ordered(s, i, j);
                assert(lex_lt(k.0, s[i].highest@));
                lemma_lex_cmp_trans(k.0, s[i].highest@, s[j].lowest@);
                assert(lex_lt(k.0, s[j].lowest@));
                crate::lex::lemma_lex_cmp_antisym(s[j].lowest@, k.0);
            } else {
                lemma_ranges_ordered(s, j, i);
                assert(lex_lt(k.0, s[j].highest@));
                lemma_lex_cmp_trans(s[j].highest@, s[i].lowest@, k.0);
                assert(lex_le(s[j].highest@, k.0));
                crate::lex::lemma_lex_cmp_antisym(k.0, s[j].highest@);
            }
        }
    }
}

/// Looking a version up in the row of chains is looking it up in the one
/// chain whose range covers its raw key.
pub proof fn lemma_chains_map_at(s: Seq<LeafChain>, i: int, k: KeySpec)
    requires
        partition_wf(s),
        0 <= i < s.len(),
        in_range(k.0, s[i].lowest@, s[i].highest@),
    ensures
        chains_map(s).contains_key(k) == s[i].chain_map().contains_key(k),
        s[i].chain_map().contains_key(k) ==> chains_map(s)[k] == s[i].chain_map()[k],
    decreases s.len(),
{
    lemma_key_in_one_chain(s, i, k);
    if i == s.len() - 1 {
        if chains_map(s).contains_key(k) && !s[i].chain_map().contains_key(k) {
            lemma_chains_map_contains(s.drop_last(), k);
            let j = choose|j: int|
                0 <= j < s.drop_last().len() && (#[trigger] s.drop_last()[j]).chain_map(
                ).contains_key(k);
            assert((s[j]).chain_map().contains_key(k));
        }
    } else {
        let dl = s.drop_last();
        assert forall|a: int| 0 <= a < dl.len() implies (#[trigger] dl[a]).wf() by {
            assert(dl[a] == s[a]);
        }
        assert forall|a: int| 0 <= a < dl.len() - 1 implies (#[trigger] dl[a]).highest@ == dl[a
            + 1].lowest@ && dl[a].highest@.len() != 0 by {
            assert(dl[a] == s[a]);
            assert(dl[a + 1] == s[a + 1]);
        }
        assert(dl[i] == s[i]);
        lemma_chains_map_at(dl, i, k);
        assert(!s[s.len() - 1].chain_map().contains_key(k));
    }
}

/// What a scan of the first `n` chain entries knows: `best` is the newest
/// occurrence of the greatest visible LSN of `key` seen so far.
#[verifier::opaque]
spec fn scan_inv(
    all: Seq<(KeySpec, ValSpec)>,
    key: Seq<u8>,
    lsn: u64,
    n: int,
    best: Option<(u64, ValSpec)>,
) -> bool {
    match best {
        None => forall|j: int|
            0 <= j < n ==> !((#[trigger] all[j]).0.0 == key && all[j].0.1 <= lsn),
        Some((bl, bv)) => {
            &&& bl <= lsn
            &&& exists|ix: int|
                #![trigger all[ix]]
                0 <= ix < n && all[ix].0 == (key, bl) && all[ix].1 == bv && (forall|j: int|
                    ix < j < n ==> (#[trigger] all[j]).0 != (key, bl))
            &&& forall|j: int|
                0 <= j < n && (#[trigger] all[j]).0.0 == key && all[j].0.1 <= lsn ==> all[j].0.1
                    <= bl
        },
    }
}

proof fn lemma_scan_start(all: Seq<(KeySpec, ValSpec)>, key: Seq<u8>, lsn: u64)
    ensures
        scan_inv(all, key, lsn, 0, None),
{
    reveal(scan_inv);
}

/// Stepping past an entry that does not better the scan.
proof fn lemma_scan_skip(
    all: Seq<(KeySpec, ValSpec)>,
    key: Seq<u8>,
    lsn: u64,
    n: int,
    best: Option<(u64, ValSpec)>,
)
    requires
        0 <= n < all.len(),
        scan_inv(all, key, lsn, n, best),
        match best {
            None => !(all[n].0.0 == key && all[n].0.1 <= lsn),
            Some((bl, _)) => !(all[n].0.0 == key && all[n].0.1 <= lsn) || all[n].0.1 < bl,
        },
    ensures
        scan_inv(all, key, lsn, n + 1, best),
{
    reveal(scan_inv);
    match best {
        None => {},
        Some((bl, bv)) => {
            let ix = choose|ix: int|
                #![trigger all[ix]]
                0 <= ix < n && all[ix].0 == (key, bl) && all[ix].1 == bv && (forall|j: int|
                    ix < j < n ==> (#[trigger] all[j]).0 != (key, bl));
            assert(all[n].0 != (key, bl));
            assert(0 <= ix < n + 1 && all[ix].0 == (key, bl) && all[ix].1 == bv && (forall|j: int|
                ix < j < n + 1 ==> (#[trigger] all[j]).0 != (key, bl)));
        },
    }
}

/// Stepping past a matching entry at least as new as the best so far: it
/// becomes the best.
proof fn lemma_scan_take(
    all: Seq<(KeySpec, ValSpec)>,
    key: Seq<u8>,
    lsn: u64,
    n: int,
    best: Option<(u64, ValSpec)>,
)
    requires
        0 <= n < all.len(),
        scan_inv(all, key, lsn, n, best),
        all[n].0.0 == key,
        all[n].0.1 <= lsn,
        match best {
            None => true,
            Some((bl, _)) => all[n].0.1 >= bl,
        },
    ensures
        scan_inv(all, key, lsn, n + 1, Some((all[n].0.1, all[n].1))),
{
    reveal(scan_inv);
    let nl = all[n].0.1;
    assert(all[n].0 == (key, nl));
    assert(0 <= n < n + 1 && all[n].0 == (key, nl) && all[n].1 == all[n].1 && (forall|j: int|
        n < j < n + 1 ==> (#[trigger] all[j]).0 != (key, nl)));
    assert forall|j: int|
        0 <= j < n + 1 && (#[trigger] all[j]).0.0 == key && all[j].0.1 <= lsn implies all[j].0.1
        <= nl by {
        if j < n {
            match best {
                None => {},
                Some((bl, _)) => {
                    assert(all[j].0.1 <= bl);
                },
            }
        }
    }
}

/// A finished scan has computed what a read of `key` at `lsn` sees.
proof fn lemma_scan_lookup(
    all: Seq<(KeySpec, ValSpec)>,
    key: Seq<u8>,
    lsn: u64,
    best: Option<(u64, ValSpec)>,
)
    requires
        scan_inv(all, key, lsn, all.len() as int, best),
    ensures
        spec_lookup(entries_map(all), key, lsn) == match best {
            None => None,
            Some((bl, bv)) => Some(bv),
        },
{
    reveal(scan_inv);
    let m = entries_map(all);
    let n = all.len() as int;
    match best {
        None => {
            if exists|l: u64| visible_at(m, key, lsn, l) {
                let l = choose|l: u64| visible_at(m, key, lsn, l);
                lemma_entries_map_contains(all, (key, l));
                let i = choose|i: int| 0 <= i < all.len() && (#[trigger] all[i]).0 == (key, l);
                assert(!(all[i].0.0 == key && all[i].0.1 <= lsn));
            }
        },
        Some((bl, bv)) => {
            let ix = choose|ix: int|
                #![trigger all[ix]]
                0 <= ix < n && all[ix].0 == (key, bl) && all[ix].1 == bv && (forall|j: int|
                    ix < j < n ==> (#[trigger] all[j]).0 != (key, bl));
            lemma_entries_map_value(all, ix);
            assert(m.contains_key((key, bl)) && m[(key, bl)] == bv);
            assert forall|l2: u64| bl < l2 <= lsn implies !(#[trigger] m.contains_key(
                (key, l2),
            )) by {
                if m.contains_key((key, l2)) {
                    lemma_entries_map_contains(all, (key, l2));
                    let i = choose|i: int|
                        0 <= i < all.len() && (#[trigger] all[i]).0 == (key, l2);
                    assert(all[i].0.1 <= bl);
                }
            }
            assert(visible_at(m, key, lsn, bl));
            let l = choose|l: u64| visible_at(m, key, lsn, l);
            lemma_visible_unique(m, key, lsn, l, bl);
        },
    }
}

/// The table: a row of leaf delta chains partitioning the raw-key space.
pub struct Table {
    pub chains: Vec<LeafChain>,
    pub options: Options,
}

impl View for Table {
    type V = Map<KeySpec, ValSpec>;

    open spec fn view(&self) -> Map<KeySpec, ValSpec> {
        chains_map(self.chains@)
    }
}

impl Table {
    pub open spec fn wf(self) -> bool {
        &&& self.chains@.len() >= 1
        &&& partition_wf(self.chains@)
        &&& self.chains@[0].lowest@ == Seq::<u8>::empty()
        &&& self.chains@[self.chains@.len() - 1].highest@ == Seq::<u8>::empty()
    }

    /// Opens a fresh, empty table with the given options.
    pub fn open(options: Options) -> (r: Table)
        ensures
            r.wf(),
            r@ == Map::<KeySpec, ValSpec>::empty(),
    {
        let chain = LeafChain {
            lowest: Vec::new(),
            highest: Vec::new(),
            base: Vec::new(),
            deltas: Vec::new(),
        };
        let mut chains = Vec::new();
        chains.push(chain);
        let r = Table { chains, options };
        proof {
            assert(r.chains@[0].all_entries() =~= Seq::<(KeySpec, ValSpec)>::empty());
            assert(r.chains@.last().chain_map() =~= Map::<KeySpec, ValSpec>::empty());
            assert(r.chains@.drop_last() =~= Seq::<LeafChain>::empty());
            reveal_with_fuel(chains_map, 2);
            assert(r@ =~= Map::<KeySpec, ValSpec>::empty());
        }
        r
    }

    /// Closes the table, dropping its in-memory state.
    pub fn close(self) {
    }

    /// The number of leaf-tier logical pages: one delta chain per leaf.
    pub fn leaf_count(&self) -> (n: usize)
        ensures
            n == self.chains@.len(),
    {
        self.chains.len()
    }

    /// The leaf chain whose range covers `key`.
    fn find_chain(&self, key: &Vec<u8>) -> (ci: usize)
        requires
            self.wf(),
        ensures
            ci < self.chains@.len(),
            in_range(key@, self.chains@[ci as int].lowest@, self.chains@[ci as int].highest@),
    {
        let n = self.chains.len();
        let mut i: usize = 0;
        proof {
            assert(lex_le(self.chains@[0].lowest@, key@)) by {
                assert(crate::lex::lex_cmp(self.chains@[0].lowest@, key@) <= 0);
            }
        }
        loop
            invariant
                self.wf(),
                n == self.chains@.len(),
                i < n,
                lex_le(self.chains@[i as int].lowest@, key@),
            decreases n - i,
        {
            let c = &self.chains[i];
            if key_in_range(key, &c.lowest, &c.highest) {
                return i;
            }
            proof {
                if i == n - 1 {
                    assert(self.chains@[i as int].highest@.len() == 0);
                    assert(false);
                }
                assert(self.chains@[i as int].highest@.len() != 0);
                crate::lex::lemma_lex_cmp_antisym(key@, self.chains@[i as int].highest@);
                assert(lex_le(self.chains@[i as int].highest@, key@));
            }
            i = i + 1;
        }
    }

    /// Looks `key` up at `lsn`: the visible version's bytes, or nothing when
    /// no version is visible or the visible version is a tombstone.
    pub fn get(&self, key: &Vec<u8>, lsn: u64) -> (r: Result<Option<Vec<u8>>, Error>)
        requires
            self.wf(),
        ensures
            r is Ok,
            match r->Ok_0 {
                Some(v) => spec_lookup(self@, key@, lsn) == Some(Some(v@)),
                None => spec_lookup(self@, key@, lsn) is None || spec_lookup(self@, key@, lsn)
                    == Some(None::<Seq<u8>>),
            },
    {
        let ci = self.find_chain(key);
        let chain = &self.chains[ci];
        let ghost all = chain.all_entries();
        let nb = chain.base.len();
        let nd = chain.deltas.len();
        let mut best: Option<(u64, Value)> = None;
        proof {
            lemma_scan_start(all, key@, lsn);
        }
        let mut j: usize = 0;
        while j < nb
            invariant
                self.wf(),
                ci < self.chains@.len(),
                *chain == self.chains@[ci as int],
                all == chain.all_entries(),
                nb == chain.base@.len(),
                j <= nb,
                scan_inv(all, key@, lsn, j as int, scan_best_view(best)),
            decreases nb - j,
        {
            let e = &chain.base[j];
            proof {
                assert(all[j as int] == (key_view(e.0), value_view(e.1)));
            }
            scan_step(&mut best, e, key, lsn, Ghost(all), Ghost(j as int));
            j = j + 1;
        }
        let mut j2: usize = 0;
        while j2 < nd
            invariant
                self.wf(),
                ci < self.chains@.len(),
                *chain == self.chains@[ci as int],
                all == chain.all_entries(),
                nb == chain.base@.len(),
                nd == chain.deltas@.len(),
                j2 <= nd,
                scan_inv(all, key@, lsn, nb + j2, scan_best_view(best)),
            decreases nd - j2,
        {
            let e = &chain.deltas[j2];
            proof {
                assert(all[nb + j2] == (key_view(e.0), value_view(e.1)));
            }
            scan_step(&mut best, e, key, lsn, Ghost(all), Ghost(nb + j2));
            j2 = j2 + 1;
        }
        proof {
            assert(nb + nd == all.len());
            lemma_scan_lookup(all, key@, lsn, scan_best_view(best));
            lookup_via_chain(self.chains@, ci as int, key@, lsn);
        }
        match best {
            Some((_, Value::Put(v))) => Ok(Some(v)),
            Some((_, Value::Delete)) => Ok(None),
            None => Ok(None),
        }
    }

    /// Records a put of `value` under `key` at version `lsn`.
    pub fn put(&mut self, key: &Vec<u8>, lsn: u64, value: &Vec<u8>) -> (r: Result<(), Error>)
        requires
            old(self).wf(),
        ensures
            r is Ok,
            final(self).wf(),
            final(self)@ == old(self)@.insert((key@, lsn), Some(value@)),
            final(self).chains@.len() >= old(self).chains@.len(),
    {
        self.write(key, lsn, Value::Put(crate::page::clone_bytes(value)));
        Ok(())
    }

    /// Records a delete tombstone under `key` at version `lsn`.
    pub fn delete(&mut self, key: &Vec<u8>, lsn: u64) -> (r: Result<(), Error>)
        requires
            old(self).wf(),
        ensures
            r is Ok,
            final(self).wf(),
            final(self)@ == old(self)@.insert((key@, lsn), None::<Seq<u8>>),
            final(self).chains@.len() >= old(self).chains@.len(),
    {
        self.write(key, lsn, Value::Delete);
        Ok(())
    }

    /// Appends a single-entry delta to the chain covering `key`.
    fn write(&mut self, key: &Vec<u8>, lsn: u64, value: Value)
        requires
            old(self).wf(),
        ensures
            final(self).wf(),
            final(self)@ == old(self)@.insert((key@, lsn), value_view(value)),
            final(self).chains@.len() >= old(self).chains@.len(),
    {
        let ghost prior = *self;
        let ci = self.find_chain(key);
        let ghost v = value_view(value);
        let k = Key::new(crate::page::clone_bytes(key), lsn);
        let mut chain = self.chains.remove(ci);
        let ghost chain0 = chain;
        chain.deltas.push((k, value));
        proof {
            assert(lift_entries(chain.deltas@) =~= lift_entries(chain0.deltas@).push(
                ((key@, lsn), v),
            ));
            assert(chain.all_entries() =~= chain0.all_entries().push(((key@, lsn), v)));
            lemma_entries_map_push(chain0.all_entries(), ((key@, lsn), v));
            assert(chain.chain_map() == chain0.chain_map().insert((key@, lsn), v));
            assert forall|i: int| 0 <= i < chain.all_entries().len() implies in_range(
                (#[trigger] chain.all_entries()[i]).0.0,
                chain.lowest@,
                chain.highest@,
            ) by {
                if i < chain0.all_entries().len() {
                    assert(chain.all_entries()[i] == chain0.all_entries()[i]);
                    assert(in_range(chain0.all_entries()[i].0.0, chain0.lowest@, chain0.highest@));
                }
            }
            assert forall|i: int, j: int| 0 <= i < j < chain.base@.len() implies (
            #[trigger] lift_entries(chain.base@)[i]).0 != (#[trigger] lift_entries(
                chain.base@,
            )[j]).0 by {
                assert(lift_entries(chain.base@)[i] == lift_entries(chain0.base@)[i]);
                assert(lift_entries(chain.base@)[j] == lift_entries(chain0.base@)[j]);
            }
            assert(chain.wf());
        }
        self.chains.insert(ci, chain);
        proof {
            assert(self.chains@ =~= prior.chains@.update(ci as int, chain));
            lemma_chains_map_update(prior.chains@, ci as int, chain, (key@, lsn), v);
            assert(self.chains@[0].lowest@ == prior.chains@[0].lowest@);
            assert(self.chains@[self.chains@.len() - 1].highest@ == prior.chains@[
                prior.chains@.len() - 1].highest@);
        }
        self.maintain(ci);
    }

    /// Chain maintenance after a write: when the chain's delta count
    /// reaches the leaf consolidation threshold, the deltas are folded into
    /// the base; when the consolidated base then exceeds the split size, the
    /// chain is split at a raw-key boundary into two neighboring chains.
    /// The table's contents do not change.
    fn maintain(&mut self, ci: usize)
        requires
            old(self).wf(),
            ci < old(self).chains@.len(),
        ensures
            final(self).wf(),
            final(self)@ == old(self)@,
            final(self).chains@.len() >= old(self).chains@.len(),
    {
        let ghost prior = *self;
        let threshold = self.options.consolidate_threshold_leaf;
        let split_size = self.options.split_size_bytes;
        let needs = {
            let chain = &self.chains[ci];
            chain.deltas.len() >= threshold && chain.deltas.len() > 0
        };
        if !needs {
            return ;
        }
        let mut chain = self.chains.remove(ci);
        let ghost chain0 = chain;
        proof {
            assert(chain0.wf());
        }
        chain.consolidate();
        let middle = choose_middle(&chain, split_size);
        match middle {
            None => {
                self.chains.insert(ci, chain);
                proof {
                    assert(self.chains@ =~= prior.chains@.update(ci as int, chain));
                    lemma_chains_map_same(prior.chains@, ci as int, chain);
                    assert(self.chains@[0].lowest@ == prior.chains@[0].lowest@);
                    assert(self.chains@[self.chains@.len() - 1].highest@ == prior.chains@[
                        prior.chains@.len() - 1].highest@);
                }
            },
            Some(middle) => {
                let ghost src = lift_entries(chain.base@);
                let ghost m = middle@;
                proof {
                    let q = choose|q: int|
                        0 <= q < src.len() && lex_lt((#[trigger] src[q]).0.0, m);
                    assert(m.len() != 0) by {
                        if m.len() == 0 {
                            assert(crate::lex::lex_cmp(src[q].0.0, m) >= 0);
                        }
                    }
                }
                let left_base = partition_base(&chain.base, &middle, true);
                let right_base = partition_base(&chain.base, &middle, false);
                let left = LeafChain {
                    lowest: chain.lowest,
                    highest: crate::page::clone_bytes(&middle),
                    base: left_base,
                    deltas: Vec::new(),
                };
                let right = LeafChain {
                    lowest: middle,
                    highest: chain.highest,
                    base: right_base,
                    deltas: Vec::new(),
                };
                proof {
                    lemma_split_chain_halves(chain, left, right, m);
                }
                self.chains.insert(ci, right);
                self.chains.insert(ci, left);
                proof {
                    assert(self.chains@ =~= prior.chains@.update(ci as int, left).insert(
                        ci + 1,
                        right,
                    ));
                    assert(chain.chain_map() == chain0.chain_map());
                    assert(left.chain_map().union_prefer_right(right.chain_map())
                        == prior.chains@[ci as int].chain_map());
                    lemma_chains_map_split(prior.chains@, ci as int, left, right);
                    assert(self.chains@[0].lowest@ == prior.chains@[0].lowest@);
                    assert(self.chains@[self.chains@.len() - 1].highest@ == prior.chains@[
                        prior.chains@.len() - 1].highest@);
                }
            },
        }
    }
}

/// A raw key to split a consolidated chain at: the greatest raw key of the
/// base, provided the base is over the split size and some record sorts
/// strictly below it.
fn choose_middle(chain: &LeafChain, split_size: usize) -> (r: Option<Vec<u8>>)
    requires
        chain.wf(),
    ensures
        match r {
            Some(m) => {
                &&& exists|p: int|
                    0 <= p < lift_entries(chain.base@).len() && (#[trigger] lift_entries(
                        chain.base@,
                    )[p]).0.0 == m@
                &&& exists|q: int|
                    0 <= q < lift_entries(chain.base@).len() && lex_lt(
                        (#[trigger] lift_entries(chain.base@)[q]).0.0,
                        m@,
                    )
            },
            None => true,
        },
{
    let ghost src = lift_entries(chain.base@);
    let n = chain.base.len();
    if n < 2 {
        return None;
    }
    let mut size: usize = 0;
    let mut j: usize = 0;
    while j < n
        invariant
            n == chain.base@.len(),
            j <= n,
        decreases n - j,
    {
        let e = &chain.base[j];
        let entry_size = 13usize.saturating_add(e.0.raw.len()).saturating_add(
            match &e.1 {
                Value::Put(v) => v.len(),
                Value::Delete => 0,
            },
        );
        size = size.saturating_add(entry_size);
        j = j + 1;
    }
    if size <= split_size {
        return None;
    }
    let mut mx: usize = 0;
    let mut j2: usize = 1;
    proof {
        crate::lex::lemma_lex_cmp_eq(src[0].0.0, src[0].0.0);
    }
    while j2 < n
        invariant
            n == chain.base@.len(),
            src == lift_entries(chain.base@),
            1 <= j2 <= n,
            mx < n,
            forall|p: int|
                0 <= p < j2 ==> !lex_lt(src[mx as int].0.0, (#[trigger] src[p]).0.0),
        decreases n - j2,
    {
        let better = crate::lex::bytes_lt(&chain.base[mx].0.raw, &chain.base[j2].0.raw);
        proof {
            assert(src[mx as int].0.0 == chain.base@[mx as int].0.raw@);
            assert(src[j2 as int].0.0 == chain.base@[j2 as int].0.raw@);
        }
        if better {
            let ghost old_mx = mx as int;
            mx = j2;
            proof {
                assert forall|p: int| 0 <= p < j2 + 1 implies !lex_lt(
                    src[mx as int].0.0,
                    (#[trigger] src[p]).0.0,
                ) by {
                    if p < j2 {
                        if lex_lt(src[mx as int].0.0, src[p].0.0) {
                            crate::lex::lemma_lex_cmp_trans(
                                src[old_mx].0.0,
                                src[mx as int].0.0,
                                src[p].0.0,
                            );
                        }
                    } else {
                        crate::lex::lemma_lex_cmp_eq(src[mx as int].0.0, src[p].0.0);
                    }
                }
            }
        } else {
            proof {
                assert forall|p: int| 0 <= p < j2 + 1 implies !lex_lt(
                    src[mx as int].0.0,
                    (#[trigger] src[p]).0.0,
                ) by {}
            }
        }
        j2 = j2 + 1;
    }
    let mut found_lower = false;
    let mut j3: usize = 0;
    while j3 < n
        invariant
            n == chain.base@.len(),
            src == lift_entries(chain.base@),
            j3 <= n,
            mx < n,
            found_lower ==> exists|q: int|
                0 <= q < src.len() && lex_lt((#[trigger] src[q]).0.0, src[mx as int].0.0),
        decreases n - j3,
    {
        if crate::lex::bytes_lt(&chain.base[j3].0.raw, &chain.base[mx].0.raw) {
            proof {
                assert(src[j3 as int].0.0 == chain.base@[j3 as int].0.raw@);
                assert(lex_lt(src[j3 as int].0.0, src[mx as int].0.0));
            }
            found_lower = true;
        }
        j3 = j3 + 1;
    }
    if !found_lower {
        return None;
    }
    let m = crate::page::clone_bytes(&chain.base[mx].0.raw);
    proof {
        assert(src[mx as int].0.0 == m@);
    }
    Some(m)
}

/// The two halves of a split chain are well formed, partition the original
/// range at the middle, and hold the original records between them.
proof fn lemma_split_chain_halves(chain: LeafChain, left: LeafChain, right: LeafChain, m: Seq<u8>)
    requires
        chain.wf(),
        chain.deltas@.len() == 0,
        m.len() != 0,
        exists|p: int|
            0 <= p < lift_entries(chain.base@).len() && (#[trigger] lift_entries(
                chain.base@,
            )[p]).0.0 == m,
        left.lowest@ == chain.lowest@,
        left.highest@ == m,
        lift_entries(left.base@) == filter_raw(lift_entries(chain.base@), true, m),
        left.deltas@.len() == 0,
        right.lowest@ == m,
        right.highest@ == chain.highest@,
        lift_entries(right.base@) == filter_raw(lift_entries(chain.base@), false, m),
        right.deltas@.len() == 0,
    ensures
        left.wf(),
        right.wf(),
        left.chain_map().union_prefer_right(right.chain_map()) == chain.chain_map(),
{
    let src = lift_entries(chain.base@);
    let ls = lift_entries(left.base@);
    let rs = lift_entries(right.base@);
    assert(chain.all_entries() =~= src);
    assert(left.all_entries() =~= ls);
    assert(right.all_entries() =~= rs);
    assert forall|i: int, j: int| 0 <= i < j < src.len() implies (#[trigger] src[i]).0 != (
    #[trigger] src[j]).0 by {}
    lemma_filter_raw_sub(src, true, m);
    lemma_filter_raw_sub(src, false, m);
    lemma_filter_raw_keeps(src, true, m);
    lemma_filter_raw_keeps(src, false, m);
    lemma_filter_raw_unique(src, true, m);
    lemma_filter_raw_unique(src, false, m);
    lemma_filter_raw_map(src, true, m);
    lemma_filter_raw_map(src, false, m);
    let p0 = choose|p: int| 0 <= p < src.len() && (#[trigger] src[p]).0.0 == m;
    assert(in_range(src[p0].0.0, chain.lowest@, chain.highest@)) by {
        assert(chain.all_entries()[p0] == src[p0]);
    }
    assert(lex_le(chain.lowest@, m));
    assert forall|i: int| 0 <= i < ls.len() implies in_range(
        (#[trigger] ls[i]).0.0,
        left.lowest@,
        left.highest@,
    ) by {
        let p = choose|p: int| #![trigger src[p]] 0 <= p < src.len() && ls[i] == src[p];
        assert(in_range(src[p].0.0, chain.lowest@, chain.highest@)) by {
            assert(chain.all_entries()[p] == src[p]);
        }
        assert(raw_keeps(true, ls[i].0.0, m)) by {
            assert(filter_raw(src, true, m)[i] == ls[i]);
        }
    }
    assert forall|i: int| 0 <= i < rs.len() implies in_range(
        (#[trigger] rs[i]).0.0,
        right.lowest@,
        right.highest@,
    ) by {
        let p = choose|p: int| #![trigger src[p]] 0 <= p < src.len() && rs[i] == src[p];
        assert(in_range(src[p].0.0, chain.lowest@, chain.highest@)) by {
            assert(chain.all_entries()[p] == src[p]);
        }
        assert(raw_keeps(false, rs[i].0.0, m)) by {
            assert(filter_raw(src, false, m)[i] == rs[i]);
        }
        crate::lex::lemma_lex_cmp_antisym(rs[i].0.0, m);
        assert(lex_le(m, rs[i].0.0));
    }
    assert(left.wf()) by {
        assert(lex_le(left.lowest@, left.highest@));
        assert forall|i: int, j: int| 0 <= i < j < left.base@.len() implies (
        #[trigger] lift_entries(left.base@)[i]).0 != (#[trigger] lift_entries(
            left.base@,
        )[j]).0 by {
            assert(filter_raw(src, true, m)[i] == ls[i]);
            assert(filter_raw(src, true, m)[j] == ls[j]);
        }
    }
    assert(right.wf()) by {
        if right.highest@.len() != 0 {
            assert(lex_lt(m, chain.highest@));
            assert(lex_le(right.lowest@, right.highest@));
        }
        assert forall|i: int, j: int| 0 <= i < j < right.base@.len() implies (
        #[trigger] lift_entries(right.base@)[i]).0 != (#[trigger] lift_entries(
            right.base@,
        )[j]).0 by {
            assert(filter_raw(src, false, m)[i] == rs[i]);
            assert(filter_raw(src, false, m)[j] == rs[j]);
        }
    }
    assert forall|k: KeySpec|
        left.chain_map().union_prefer_right(right.chain_map()).contains_key(k)
            == chain.chain_map().contains_key(k) by {
        assert(entries_map(filter_raw(src, true, m)).contains_key(k) == (entries_map(
            src,
        ).contains_key(k) && raw_keeps(true, k.0, m)));
        assert(entries_map(filter_raw(src, false, m)).contains_key(k) == (entries_map(
            src,
        ).contains_key(k) && raw_keeps(false, k.0, m)));
    }
    assert forall|k: KeySpec|
        left.chain_map().union_prefer_right(right.chain_map()).contains_key(k) implies
        left.chain_map().union_prefer_right(right.chain_map())[k]
        == chain.chain_map()[k] by {
        assert(entries_map(filter_raw(src, true, m)).contains_key(k) == (entries_map(
            src,
        ).contains_key(k) && raw_keeps(true, k.0, m)));
        assert(entries_map(filter_raw(src, false, m)).contains_key(k) == (entries_map(
            src,
        ).contains_key(k) && raw_keeps(false, k.0, m)));
    }
    assert(left.chain_map().union_prefer_right(right.chain_map()) =~= chain.chain_map());
}

/// Replacing a chain by one with the same bounds and contents leaves the
/// table's map unchanged.
proof fn lemma_chains_map_same(s: Seq<LeafChain>, i: int, c: LeafChain)
    requires
        partition_wf(s),
        0 <= i < s.len(),
        c.wf(),
        c.lowest@ == s[i].lowest@,
        c.highest@ == s[i].highest@,
        c.chain_map() == s[i].chain_map(),
    ensures
        chains_map(s.update(i, c)) == chains_map(s),
        partition_wf(s.update(i, c)),
    decreases s.len(),
{
    let s2 = s.update(i, c);
    assert forall|a: int| 0 <= a < s2.len() implies (#[trigger] s2[a]).wf() by {
        if a != i {
            assert(s2[a] == s[a]);
            assert(s[a].wf());
        }
    }
    assert forall|a: int| 0 <= a < s2.len() - 1 implies (#[trigger] s2[a]).highest@ == s2[a
        + 1].lowest@ && s2[a].highest@.len() != 0 by {
        assert(s[a].highest@ == s[a + 1].lowest@ && s[a].highest@.len() != 0);
    }
    if i == s.len() - 1 {
        assert(s2.drop_last() =~= s.drop_last());
        assert(chains_map(s2) =~= chains_map(s));
    } else {
        let dl = s.drop_last();
        assert forall|a: int| 0 <= a < dl.len() implies (#[trigger] dl[a]).wf() by {
            assert(dl[a] == s[a]);
        }
        assert forall|a: int| 0 <= a < dl.len() - 1 implies (#[trigger] dl[a]).highest@ == dl[a
            + 1].lowest@ && dl[a].highest@.len() != 0 by {
            assert(dl[a] == s[a]);
            assert(dl[a + 1] == s[a + 1]);
        }
        assert(dl[i] == s[i]);
        lemma_chains_map_same(dl, i, c);
        assert(s2.drop_last() =~= dl.update(i, c));
        assert(s2.last() == s.last());
        assert(chains_map(s2) =~= chains_map(s));
    }
}

/// The scan state abstracted: the best LSN and its value view.
pub open spec fn scan_best_view(best: Option<(u64, Value)>) -> Option<(u64, ValSpec)> {
    match best {
        Some((l, v)) => Some((l, value_view(v))),
        None => None,
    }
}

/// What one scan step makes of the entry at `n`.
pub open spec fn scan_step_view(
    all: Seq<(KeySpec, ValSpec)>,
    key: Seq<u8>,
    lsn: u64,
    n: int,
    best: Option<(u64, ValSpec)>,
) -> Option<(u64, ValSpec)> {
    if all[n].0.0 == key && all[n].0.1 <= lsn && (match best {
        None => true,
        Some((bl, _)) => all[n].0.1 >= bl,
    }) {
        Some((all[n].0.1, all[n].1))
    } else {
        best
    }
}

/// One step of the visibility scan over the entry at position `n`.
fn scan_step(
    best: &mut Option<(u64, Value)>,
    e: &(Key, Value),
    key: &Vec<u8>,
    lsn: u64,
    Ghost(all): Ghost<Seq<(KeySpec, ValSpec)>>,
    Ghost(n): Ghost<int>,
)
    requires
        0 <= n < all.len(),
        all[n] == (key_view(e.0), value_view(e.1)),
        scan_inv(all, key@, lsn, n, scan_best_view(*old(best))),
    ensures
        scan_best_view(*final(best)) == scan_step_view(
            all,
            key@,
            lsn,
            n,
            scan_best_view(*old(best)),
        ),
        scan_inv(all, key@, lsn, n + 1, scan_best_view(*final(best))),
{
    let ghost best0 = scan_best_view(*best);
    let matches_key = matches!(crate::lex::bytes_cmp(&e.0.raw, key), Cmp::Equal);
    proof {
        crate::lex::lemma_lex_cmp_eq(e.0.raw@, key@);
    }
    if matches_key && e.0.lsn <= lsn {
        let better = match best {
            None => true,
            Some((bl, _)) => e.0.lsn >= *bl,
        };
        if better {
            *best = Some((e.0.lsn, crate::data::clone_value(&e.1)));
            proof {
                lemma_scan_take(all, key@, lsn, n, best0);
            }
            return ;
        }
    }
    proof {
        lemma_scan_skip(all, key@, lsn, n, best0);
    }
}

/// Looking up through the covering chain is looking up in the whole table.
proof fn lookup_via_chain(s: Seq<LeafChain>, i: int, key: Seq<u8>, lsn: u64)
    requires
        partition_wf(s),
        0 <= i < s.len(),
        in_range(key, s[i].lowest@, s[i].highest@),
    ensures
        spec_lookup(chains_map(s), key, lsn) == spec_lookup(s[i].chain_map(), key, lsn),
{
    assert forall|l: u64|
        #![trigger chains_map(s).contains_key((key, l))]
        #![trigger s[i].chain_map().contains_key((key, l))]
        chains_map(s).contains_key((key, l)) == s[i].chain_map().contains_key((key, l)) && (
        chains_map(s).contains_key((key, l)) ==> chains_map(s)[(key, l)] == s[i].chain_map()[
            (key, l)]) by {
        lemma_chains_map_at(s, i, (key, l));
    }
    lemma_lookup_agrees(chains_map(s), s[i].chain_map(), key, lsn);
}

/// Writing one version into the covering chain inserts it into the table.
proof fn lemma_chains_map_update(s: Seq<LeafChain>, i: int, c: LeafChain, k: KeySpec, v: ValSpec)
    requires
        partition_wf(s),
        0 <= i < s.len(),
        in_range(k.0, s[i].lowest@, s[i].highest@),
        c.wf(),
        c.lowest@ == s[i].lowest@,
        c.highest@ == s[i].highest@,
        c.chain_map() == s[i].chain_map().insert(k, v),
    ensures
        chains_map(s.update(i, c)) == chains_map(s).insert(k, v),
        partition_wf(s.update(i, c)),
    decreases s.len(),
{
    let s2 = s.update(i, c);
    assert forall|a: int| 0 <= a < s2.len() implies (#[trigger] s2[a]).wf() by {
        if a != i {
            assert(s2[a] == s[a]);
            assert(s[a].wf());
        }
    }
    assert forall|a: int| 0 <= a < s2.len() - 1 implies (#[trigger] s2[a]).highest@ == s2[a
        + 1].lowest@ && s2[a].highest@.len() != 0 by {
        assert(s[a].highest@ == s[a + 1].lowest@ && s[a].highest@.len() != 0);
    }
    if i == s.len() - 1 {
        assert(s2.drop_last() =~= s.drop_last());
        assert(chains_map(s2) == chains_map(s.drop_last()).union_prefer_right(c.chain_map()));
        assert(chains_map(s2) =~= chains_map(s).insert(k, v));
    } else {
        lemma_key_in_one_chain(s, i, k);
        assert(!s[s.len() - 1].chain_map().contains_key(k));
        let dl = s.drop_last();
        assert forall|a: int| 0 <= a < dl.len() implies (#[trigger] dl[a]).wf() by {
            assert(dl[a] == s[a]);
        }
        assert forall|a: int| 0 <= a < dl.len() - 1 implies (#[trigger] dl[a]).highest@ == dl[a
            + 1].lowest@ && dl[a].highest@.len() != 0 by {
            assert(dl[a] == s[a]);
            assert(dl[a + 1] == s[a + 1]);
        }
        assert(dl[i] == s[i]);
        lemma_chains_map_update(dl, i, c, k, v);
        assert(s2.drop_last() =~= dl.update(i, c));
        assert(s2.last() == s.last());
        assert(chains_map(s2) == chains_map(dl.update(i, c)).union_prefer_right(
            s.last().chain_map(),
        ));
        assert(chains_map(s2) =~= chains_map(s).insert(k, v));
    }
}

/// Which records a leaf split sends to one side: the left half keeps raw
/// keys below the middle, the right half the rest.
pub open spec fn raw_keeps(below: bool, raw: Seq<u8>, middle: Seq<u8>) -> bool {
    if below {
        lex_lt(raw, middle)
    } else {
        !lex_lt(raw, middle)
    }
}

/// The records of one side of a split, in their original order.
pub open spec fn filter_raw(
    s: Seq<(KeySpec, ValSpec)>,
    below: bool,
    middle: Seq<u8>,
) -> Seq<(KeySpec, ValSpec)>
    decreases s.len(),
{
    if s.len() == 0 {
        Seq::empty()
    } else if raw_keeps(below, s.last().0.0, middle) {
        filter_raw(s.drop_last(), below, middle).push(s.last())
    } else {
        filter_raw(s.drop_last(), below, middle)
    }
}

/// Every record of a split half is a record of the source.
proof fn lemma_filter_raw_sub(s: Seq<(KeySpec, ValSpec)>, below: bool, middle: Seq<u8>)
    ensures
        forall|t: int|
            #![trigger filter_raw(s, below, middle)[t]]
            0 <= t < filter_raw(s, below, middle).len() ==> exists|p: int|
                #![trigger s[p]]
                0 <= p < s.len() && filter_raw(s, below, middle)[t] == s[p],
    decreases s.len(),
{
    if s.len() > 0 {
        let f = filter_raw(s, below, middle);
        let fd = filter_raw(s.drop_last(), below, middle);
        lemma_filter_raw_sub(s.drop_last(), below, middle);
        assert forall|t: int| #![trigger f[t]] 0 <= t < f.len() implies exists|p: int|
            #![trigger s[p]]
            0 <= p < s.len() && f[t] == s[p] by {
            if raw_keeps(below, s.last().0.0, middle) && t == f.len() - 1 {
                assert(f[t] == s[s.len() - 1]);
            } else {
                assert(f[t] == fd[t]);
                let p = choose|p: int|
                    #![trigger s.drop_last()[p]]
                    0 <= p < s.drop_last().len() && fd[t] == s.drop_last()[p];
                assert(s.drop_last()[p] == s[p]);
                assert(f[t] == s[p]);
            }
        }
    }
}

/// Every record of a split half is on its side of the middle.
proof fn lemma_filter_raw_keeps(s: Seq<(KeySpec, ValSpec)>, below: bool, middle: Seq<u8>)
    ensures
        forall|t: int|
            #![trigger filter_raw(s, below, middle)[t]]
            0 <= t < filter_raw(s, below, middle).len() ==> raw_keeps(
                below,
                filter_raw(s, below, middle)[t].0.0,
                middle,
            ),
    decreases s.len(),
{
    if s.len() > 0 {
        lemma_filter_raw_keeps(s.drop_last(), below, middle);
        let f = filter_raw(s, below, middle);
        let fd = filter_raw(s.drop_last(), below, middle);
        assert forall|t: int| #![trigger f[t]] 0 <= t < f.len() implies raw_keeps(
            below,
            f[t].0.0,
            middle,
        ) by {
            if raw_keeps(below, s.last().0.0, middle) && t == f.len() - 1 {
            } else {
                assert(f[t] == fd[t]);
                assert(raw_keeps(below, fd[t].0.0, middle));
            }
        }
    }
}

/// A split half of a page with pairwise distinct keys has pairwise distinct
/// keys.
proof fn lemma_filter_raw_unique(s: Seq<(KeySpec, ValSpec)>, below: bool, middle: Seq<u8>)
    requires
        forall|i: int, j: int|
            0 <= i < j < s.len() ==> (#[trigger] s[i]).0 != (#[trigger] s[j]).0,
    ensures
        forall|i: int, j: int|
            0 <= i < j < filter_raw(s, below, middle).len() ==> (#[trigger] filter_raw(
                s,
                below,
                middle,
            )[i]).0 != (#[trigger] filter_raw(s, below, middle)[j]).0,
    decreases s.len(),
{
    if s.len() > 0 {
        let f = filter_raw(s, below, middle);
        let fd = filter_raw(s.drop_last(), below, middle);
        assert forall|i: int, j: int|
            0 <= i < j < s.drop_last().len() implies (#[trigger] s.drop_last()[i]).0 != (
        #[trigger] s.drop_last()[j]).0 by {
            assert(s.drop_last()[i] == s[i]);
            assert(s.drop_last()[j] == s[j]);
        }
        lemma_filter_raw_unique(s.drop_last(), below, middle);
        lemma_filter_raw_sub(s.drop_last(), below, middle);
        assert forall|i: int, j: int| 0 <= i < j < f.len() implies (#[trigger] f[i]).0 != (
        #[trigger] f[j]).0 by {
            if raw_keeps(below, s.last().0.0, middle) && j == f.len() - 1 {
                assert(f[i] == fd[i]);
                let p = choose|p: int|
                    #![trigger s.drop_last()[p]]
                    0 <= p < s.drop_last().len() && fd[i] == s.drop_last()[p];
                assert(s[p] == fd[i]);
                assert(s[p].0 != s[s.len() - 1].0);
                assert(f[j] == s[s.len() - 1]);
            } else {
                assert(f[i] == fd[i]);
                assert(f[j] == fd[j]);
            }
        }
    }
}

/// A split half holds exactly the source's records on its side of the
/// middle, under their keys.
proof fn lemma_filter_raw_map(s: Seq<(KeySpec, ValSpec)>, below: bool, middle: Seq<u8>)
    ensures
        forall|k: KeySpec|
            #![trigger entries_map(filter_raw(s, below, middle)).contains_key(k)]
            {
                &&& entries_map(filter_raw(s, below, middle)).contains_key(k) == (entries_map(
                    s,
                ).contains_key(k) && raw_keeps(below, k.0, middle))
                &&& (entries_map(filter_raw(s, below, middle)).contains_key(k) ==> entries_map(
                    filter_raw(s, below, middle),
                )[k] == entries_map(s)[k])
            },
    decreases s.len(),
{
    if s.len() > 0 {
        lemma_filter_raw_map(s.drop_last(), below, middle);
        let f = filter_raw(s, below, middle);
        let fd = filter_raw(s.drop_last(), below, middle);
        let e = s.last();
        assert(entries_map(s) == entries_map(s.drop_last()).insert(e.0, e.1));
        if raw_keeps(below, e.0.0, middle) {
            assert(f.drop_last() =~= fd);
            assert(f.last() == e);
            assert(entries_map(f) == entries_map(fd).insert(e.0, e.1));
        } else {
            assert(f == fd);
        }
    }
}

/// Copies the records on one side of the middle, in order.
fn partition_base(base: &Vec<(Key, Value)>, middle: &Vec<u8>, below: bool) -> (r: Vec<(
    Key,
    Value,
)>)
    ensures
        lift_entries(r@) == filter_raw(lift_entries(base@), below, middle@),
{
    let ghost src = lift_entries(base@);
    let n = base.len();
    let mut out: Vec<(Key, Value)> = Vec::new();
    let mut j: usize = 0;
    proof {
        assert(src.take(0) =~= Seq::<(KeySpec, ValSpec)>::empty());
        assert(lift_entries(out@) =~= filter_raw(src.take(0), below, middle@));
    }
    while j < n
        invariant
            n == base@.len(),
            src == lift_entries(base@),
            j <= n,
            lift_entries(out@) == filter_raw(src.take(j as int), below, middle@),
        decreases n - j,
    {
        let e = &base[j];
        proof {
            assert(src[j as int] == (key_view(e.0), value_view(e.1)));
            assert(src.take(j + 1).drop_last() =~= src.take(j as int));
            assert(src.take(j + 1).last() == src[j as int]);
        }
        let is_below = crate::lex::bytes_lt(&e.0.raw, middle);
        if is_below == below {
            let ghost out0 = out@;
            let key = Key::new(crate::page::clone_bytes(&e.0.raw), e.0.lsn);
            let value = crate::data::clone_value(&e.1);
            out.push((key, value));
            proof {
                assert(lift_entries(out@) =~= lift_entries(out0).push(src[j as int]));
                assert(raw_keeps(below, src[j as int].0.0, middle@));
            }
        } else {
            proof {
                assert(!raw_keeps(below, src[j as int].0.0, middle@));
            }
        }
        j = j + 1;
    }
    proof {
        assert(src.take(n as int) =~= src);
    }
    out
}

/// Replacing a chain by two whose maps together are the original's leaves
/// the table's map unchanged.
proof fn lemma_chains_map_split(s: Seq<LeafChain>, i: int, l: LeafChain, r: LeafChain)
    requires
        partition_wf(s),
        0 <= i < s.len(),
        l.wf(),
        r.wf(),
        l.lowest@ == s[i].lowest@,
        r.highest@ == s[i].highest@,
        l.highest@ == r.lowest@,
        l.highest@.len() != 0,
        l.chain_map().union_prefer_right(r.chain_map()) == s[i].chain_map(),
    ensures
        chains_map(s.update(i, l).insert(i + 1, r)) == chains_map(s),
        partition_wf(s.update(i, l).insert(i + 1, r)),
    decreases s.len(),
{
    let s2 = s.update(i, l).insert(i + 1, r);
    assert(s2.len() == s.len() + 1);
    assert forall|a: int| 0 <= a < s2.len() implies (#[trigger] s2[a]).wf() by {
        if a < i {
            assert(s2[a] == s[a]);
            assert(s[a].wf());
        } else if a == i {
            assert(s2[a] == l);
        } else if a == i + 1 {
            assert(s2[a] == r);
        } else {
            assert(s2[a] == s[a - 1]);
            assert(s[a - 1].wf());
        }
    }
    assert forall|a: int| 0 <= a < s2.len() - 1 implies (#[trigger] s2[a]).highest@ == s2[a
        + 1].lowest@ && s2[a].highest@.len() != 0 by {
        if a < i - 1 {
            assert(s2[a] == s[a]);
            assert(s2[a + 1] == s[a + 1]);
            assert(s[a].highest@ == s[a + 1].lowest@ && s[a].highest@.len() != 0);
        } else if a == i - 1 {
            assert(s2[a] == s[a]);
            assert(s2[a + 1] == l);
            assert(s[a].highest@ == s[a + 1].lowest@ && s[a].highest@.len() != 0);
        } else if a == i {
            assert(s2[a] == l);
            assert(s2[a + 1] == r);
        } else if a == i + 1 {
            assert(s2[a] == r);
            assert(a + 1 < s2.len());
            assert(s2[a + 1] == s[a]);
            assert(s[a - 1].highest@ == s[a].lowest@ && s[a - 1].highest@.len() != 0);
        } else {
            assert(s2[a] == s[a - 1]);
            assert(s2[a + 1] == s[a]);
            assert(s[a - 1].highest@ == s[a].lowest@ && s[a - 1].highest@.len() != 0);
        }
    }
    if i == s.len() - 1 {
        assert(s2.drop_last() =~= s.update(i, l));
        assert(s2.last() == r);
        assert(s.update(i, l).drop_last() =~= s.drop_last());
        assert(s.update(i, l).last() == l);
        assert(chains_map(s.update(i, l)) == chains_map(s.drop_last()).union_prefer_right(
            l.chain_map(),
        ));
        assert(chains_map(s2) == chains_map(s2.drop_last()).union_prefer_right(
            s2.last().chain_map(),
        ));
        assert(chains_map(s2) == chains_map(s.drop_last()).union_prefer_right(
            l.chain_map(),
        ).union_prefer_right(r.chain_map()));
        assert(chains_map(s2) =~= chains_map(s.drop_last()).union_prefer_right(
            l.chain_map().union_prefer_right(r.chain_map()),
        ));
        assert(chains_map(s2) =~= chains_map(s));
    } else {
        let dl = s.drop_last();
        assert forall|a: int| 0 <= a < dl.len() implies (#[trigger] dl[a]).wf() by {
            assert(dl[a] == s[a]);
        }
        assert forall|a: int| 0 <= a < dl.len() - 1 implies (#[trigger] dl[a]).highest@ == dl[a
            + 1].lowest@ && dl[a].highest@.len() != 0 by {
            assert(dl[a] == s[a]);
            assert(dl[a + 1] == s[a + 1]);
        }
        assert(dl[i] == s[i]);
        lemma_chains_map_split(dl, i, l, r);
        assert(s2.drop_last() =~= dl.update(i, l).insert(i + 1, r));
        assert(s2.last() == s.last());
        assert(chains_map(s2) == chains_map(dl.update(i, l).insert(i + 1, r)).union_prefer_right(
            s.last().chain_map(),
        ));
        assert(chains_map(s2) =~= chains_map(s));
    }
}

} // verus!
