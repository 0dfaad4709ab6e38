//! The sorted page codec: an immutable page is an offsets table of 32-bit
//! words, one per record, followed by the records back to back. The first
//! offset doubles as the size of the offsets table, so a reader can recover
//! the record count from the first word. Lookup is binary search over the
//! offsets, decoding keys on demand.

use vstd::prelude::*;

use vstd::bytes::{spec_u32_to_le_bytes, spec_u32_from_le_bytes, spec_u64_to_le_bytes,
    u32_to_le_bytes, u64_to_le_bytes, lemma_auto_spec_u32_to_from_le_bytes,
    lemma_auto_spec_u64_to_from_le_bytes};

use crate::codec::{append_bytes, copy_range, decode_from, read_u32, read_u64, spec_encode_bytes,
    spec_encode_entry, spec_encode_key, spec_encode_value, spec_entry_size, starts_with_bytes};
use crate::data::{clone_value, key_compare, key_lt, key_view, lemma_key_lt_asym,
    lemma_key_lt_irrefl, lemma_key_lt_trans, value_view, Key, KeySpec, ValSpec, Value};
use crate::lex::Cmp;

verus! {

/// Which level of the tree a page belongs to.
#[derive(Clone, Copy, Debug, PartialEq, Eq, Structural)]
pub enum PageTier {
    Leaf,
    Inner,
}

/// Whether a page is a materialized base or a delta.
#[derive(Clone, Copy, Debug, PartialEq, Eq, Structural)]
pub enum PageKind {
    Base,
    Delta,
}

/// The records of a well-formed sorted page: strictly ascending keys, with
/// every size small enough for the 32-bit offsets table.
pub open spec fn wf_entries(s: Seq<(KeySpec, ValSpec)>) -> bool {
    &&& forall|i: int, j: int|
        0 <= i < j < s.len() ==> key_lt((#[trigger] s[i]).0, (#[trigger] s[j]).0)
    &&& forall|i: int| 0 <= i < s.len() ==> (#[trigger] s[i]).0.0.len() <= u32::MAX
    &&& spec_page_size(s) <= u32::MAX
}

/// The records back to back.
pub open spec fn spec_payload(s: Seq<(KeySpec, ValSpec)>) -> Seq<u8>
    decreases s.len(),
{
    if s.len() == 0 {
        Seq::empty()
    } else {
        spec_payload(s.drop_last()) + spec_encode_entry(s.last())
    }
}

/// Where record `i` starts, counted from the start of the page.
pub open spec fn spec_offset(s: Seq<(KeySpec, ValSpec)>, i: int) -> int {
    4 * s.len() + spec_payload(s.take(i)).len() as int
}

/// The first `n` entries of the offsets table.
pub open spec fn spec_offsets(s: Seq<(KeySpec, ValSpec)>, n: int) -> Seq<u8>
    decreases n,
{
    if n <= 0 {
        Seq::empty()
    } else {
        spec_offsets(s, n - 1) + spec_u32_to_le_bytes(spec_offset(s, n - 1) as u32)
    }
}

/// A page's bytes: the offsets table, then the records.
pub open spec fn spec_page_bytes(s: Seq<(KeySpec, ValSpec)>) -> Seq<u8> {
    spec_offsets(s, s.len() as int) + spec_payload(s)
}

/// A page's total size in bytes.
pub open spec fn spec_page_size(s: Seq<(KeySpec, ValSpec)>) -> int {
    4 * s.len() + spec_payload(s).len() as int
}

proof fn lemma_offsets_len(s: Seq<(KeySpec, ValSpec)>, n: int)
    requires
        n >= 0,
    ensures
        spec_offsets(s, n).len() == 4 * n,
    decreases n,
{
    lemma_auto_spec_u32_to_from_le_bytes();
    if n > 0 {
        lemma_offsets_len(s, n - 1);
    }
}

proof fn lemma_payload_push(s: Seq<(KeySpec, ValSpec)>, n: int)
    requires
        0 <= n < s.len(),
    ensures
        spec_payload(s.take(n + 1)) == spec_payload(s.take(n)) + spec_encode_entry(s[n]),
{
    assert(s.take(n + 1).drop_last() =~= s.take(n));
    assert(s.take(n + 1).last() == s[n]);
}

/// The payload of a prefix is a prefix of the payload.
proof fn lemma_payload_prefix(s: Seq<(KeySpec, ValSpec)>, n: int)
    requires
        0 <= n <= s.len(),
    ensures
        spec_payload(s.take(n)).len() <= spec_payload(s).len(),
        spec_payload(s).take(spec_payload(s.take(n)).len() as int) == spec_payload(s.take(n)),
    decreases s.len() - n,
{
    if n == s.len() {
        assert(s.take(n) =~= s);
        assert(spec_payload(s).take(spec_payload(s).len() as int) =~= spec_payload(s));
    } else {
        lemma_payload_push(s, n);
        lemma_payload_prefix(s, n + 1);
        assert(spec_payload(s).take(spec_payload(s.take(n)).len() as int) =~= spec_payload(
            s.take(n + 1),
        ).take(spec_payload(s.take(n)).len() as int));
        assert(spec_payload(s.take(n + 1)).take(spec_payload(s.take(n)).len() as int)
            =~= spec_payload(s.take(n)));
    }
}

/// Record `i` sits between its offset and the next.
proof fn lemma_page_segment(s: Seq<(KeySpec, ValSpec)>, i: int)
    requires
        0 <= i < s.len(),
    ensures
        spec_offset(s, i) + spec_entry_size(s[i]) == spec_offset(s, i + 1),
        spec_offset(s, i + 1) <= spec_page_size(s),
        spec_page_bytes(s).subrange(spec_offset(s, i), spec_offset(s, i + 1))
            == spec_encode_entry(s[i]),
{
    lemma_offsets_len(s, s.len() as int);
    lemma_payload_push(s, i);
    lemma_payload_prefix(s, i);
    lemma_payload_prefix(s, i + 1);
    let p0 = spec_payload(s.take(i)).len() as int;
    let p1 = spec_payload(s.take(i + 1)).len() as int;
    assert(spec_payload(s).subrange(p0, p1) =~= spec_encode_entry(s[i])) by {
        assert forall|x: int| 0 <= x < p1 - p0 implies spec_payload(s).subrange(p0, p1)[x]
            == spec_encode_entry(s[i])[x] by {
            assert(spec_payload(s).take(p1)[p0 + x] == spec_payload(s)[p0 + x]);
            assert(spec_payload(s.take(i + 1))[p0 + x] == spec_encode_entry(s[i])[x]);
        }
    }
    assert(spec_page_bytes(s).subrange(spec_offset(s, i), spec_offset(s, i + 1))
        =~= spec_payload(s).subrange(p0, p1));
}

/// The offsets table stores each record's offset as a 32-bit word.
proof fn lemma_page_offset_word(s: Seq<(KeySpec, ValSpec)>, i: int)
    requires
        0 <= i < s.len(),
    ensures
        spec_page_bytes(s).subrange(4 * i, 4 * i + 4) == spec_u32_to_le_bytes(
            spec_offset(s, i) as u32,
        ),
    decreases s.len() - i,
{
    lemma_auto_spec_u32_to_from_le_bytes();
    lemma_offsets_len(s, s.len() as int);
    lemma_offsets_word(s, s.len() as int, i);
    assert(spec_page_bytes(s).subrange(4 * i, 4 * i + 4) =~= spec_offsets(
        s,
        s.len() as int,
    ).subrange(4 * i, 4 * i + 4));
}

proof fn lemma_offsets_word(s: Seq<(KeySpec, ValSpec)>, n: int, i: int)
    requires
        0 <= i < n,
    ensures
        spec_offsets(s, n).subrange(4 * i, 4 * i + 4) == spec_u32_to_le_bytes(
            spec_offset(s, i) as u32,
        ),
    decreases n,
{
    lemma_auto_spec_u32_to_from_le_bytes();
    lemma_offsets_len(s, n);
    if i == n - 1 {
        lemma_offsets_len(s, n - 1);
        assert(spec_offsets(s, n).subrange(4 * i, 4 * i + 4) =~= spec_u32_to_le_bytes(
            spec_offset(s, i) as u32,
        ));
    } else {
        lemma_offsets_word(s, n - 1, i);
        lemma_offsets_len(s, n - 1);
        assert(spec_offsets(s, n).subrange(4 * i, 4 * i + 4) =~= spec_offsets(s, n - 1).subrange(
            4 * i,
            4 * i + 4,
        ));
    }
}

/// Payload sizes only grow with more records.
proof fn lemma_payload_len_nonneg(s: Seq<(KeySpec, ValSpec)>, i: int)
    requires
        0 <= i <= s.len(),
    ensures
        spec_payload(s.take(i)).len() <= spec_payload(s).len(),
        spec_offset(s, i) <= spec_page_size(s),
{
    lemma_payload_prefix(s, i);
}

/// A builder that accumulates sorted records and lays the page out.
pub struct SortedPageBuilder {
    pub tier: PageTier,
    pub kind: PageKind,
    pub entries: Vec<(Key, Value)>,
    pub size: usize,
}

/// Entries abstracted to their views.
pub open spec fn lift(s: Seq<(Key, Value)>) -> Seq<(KeySpec, ValSpec)> {
    s.map(|i: int, e: (Key, Value)| (key_view(e.0), value_view(e.1)))
}

impl SortedPageBuilder {
    pub open spec fn wf(self) -> bool {
        &&& wf_entries(lift(self.entries@))
        &&& self.size == spec_page_size(lift(self.entries@))
    }

    pub fn new(tier: PageTier, kind: PageKind) -> (r: Self)
        ensures
            r.wf(),
            r.tier == tier,
            r.kind == kind,
            lift(r.entries@) == Seq::<(KeySpec, ValSpec)>::empty(),
    {
        let r = SortedPageBuilder { tier, kind, entries: Vec::new(), size: 0 };
        proof {
            assert(lift(r.entries@) =~= Seq::<(KeySpec, ValSpec)>::empty());
        }
        r
    }

    /// The size in bytes of the page being built.
    pub fn size(&self) -> (n: usize)
        requires
            self.wf(),
        ensures
            n == spec_page_size(lift(self.entries@)),
    {
        self.size
    }

    /// Appends a record; records must arrive in ascending key order and the
    /// page must stay within the reach of its 32-bit offsets.
    pub fn add(&mut self, key: Key, value: Value)
        requires
            old(self).wf(),
            lift(old(self).entries@).len() == 0 || key_lt(
                lift(old(self).entries@).last().0,
                key_view(key),
            ),
            key.raw@.len() <= u32::MAX,
            spec_page_size(lift(old(self).entries@)) + 4 + spec_entry_size(
                (key_view(key), value_view(value)),
            ) <= u32::MAX,
        ensures
            final(self).wf(),
            final(self).tier == old(self).tier,
            final(self).kind == old(self).kind,
            lift(final(self).entries@) == lift(old(self).entries@).push(
                (key_view(key), value_view(value)),
            ),
    {
        let ghost s0 = lift(self.entries@);
        let ghost e = (key_view(key), value_view(value));
        proof {
            lemma_auto_spec_u32_to_from_le_bytes();
            lemma_auto_spec_u64_to_from_le_bytes();
            assert(spec_encode_key(e.0).len() == 12 + key.raw@.len());
            assert(spec_encode_value(e.1).len() >= 1);
            assert(spec_page_size(s0) >= 0) by {
                assert(spec_payload(s0).len() >= 0);
            }
            assert(key.raw@.len() + 12 <= u32::MAX);
            assert(u32::MAX <= usize::MAX);
        }
        let key_size = key.encode_size();
        let value_size = value.encode_size();
        proof {
            assert(key_size + value_size == spec_entry_size(e));
        }
        self.entries.push((key, value));
        self.size = self.size + 4;
        self.size = self.size + key_size;
        self.size = self.size + value_size;
        proof {
            let s1 = lift(self.entries@);
            assert(s1 =~= s0.push(e));
            assert(s1.drop_last() =~= s0);
            assert(spec_payload(s1) == spec_payload(s0) + spec_encode_entry(e));
            assert forall|i: int, j: int| 0 <= i < j < s1.len() implies key_lt(
                (#[trigger] s1[i]).0,
                (#[trigger] s1[j]).0,
            ) by {
                if j < s1.len() - 1 {
                    assert(s1[i] == s0[i]);
                    assert(s1[j] == s0[j]);
                    assert(key_lt(s0[i].0, s0[j].0));
                } else {
                    assert(s1[j] == e);
                    if i < s1.len() - 1 {
                        assert(s1[i] == s0[i]);
                        if i < s0.len() - 1 {
                            assert(key_lt(s0[i].0, s0[s0.len() - 1].0));
                            lemma_key_lt_trans(s0[i].0, s0[s0.len() - 1].0, e.0);
                        }
                    }
                }
            }
            assert forall|i: int| 0 <= i < s1.len() implies (#[trigger] s1[i]).0.0.len()
                <= u32::MAX by {
                if i < s1.len() - 1 {
                    assert(s1[i] == s0[i]);
                    assert(s0[i].0.0.len() <= u32::MAX);
                }
            }
        }
    }

    /// Appends a whole run of records in ascending key order.
    pub fn with_iter(self, entries: Vec<(Key, Value)>) -> (r: Self)
        requires
            self.wf(),
            lift(self.entries@).len() == 0,
            wf_entries(lift(entries@)),
        ensures
            r.wf(),
            r.tier == self.tier,
            r.kind == self.kind,
            lift(r.entries@) == lift(entries@),
    {
        let ghost target = lift(entries@);
        let mut b = self;
        let n = entries.len();
        let mut entries = entries;
        let mut j: usize = 0;
        while j < n
            invariant
                n == entries@.len(),
                j <= n,
                b.wf(),
                b.tier == self.tier,
                b.kind == self.kind,
                target == lift(entries@),
                wf_entries(target),
                lift(b.entries@) == target.take(j as int),
            decreases n - j,
        {
            let e = &entries[j];
            let key = Key::new(crate::page::clone_bytes(&e.0.raw), e.0.lsn);
            let value = clone_value(&e.1);
            proof {
                assert(target[j as int] == (key_view(entries@[j as int].0), value_view(
                    entries@[j as int].1,
                )));
                assert(key_view(key) == target[j as int].0);
                assert(value_view(value) == target[j as int].1);
                if j > 0 {
                    assert(lift(b.entries@).last() == target[j - 1]);
                    assert(key_lt(target[j - 1].0, target[j as int].0));
                }
                assert(target[j as int].0.0.len() <= u32::MAX);
                lemma_page_size_prefix(target, j as int);
            }
            b.add(key, value);
            proof {
                assert(lift(b.entries@) =~= target.take(j + 1));
            }
            j = j + 1;
        }
        proof {
            assert(target.take(n as int) =~= target);
        }
        b
    }

    /// Builds a page holding the given run of records in one step.
    pub fn build_from_iter(self, entries: Vec<(Key, Value)>) -> (r: SortedPageBuf)
        requires
            self.wf(),
            lift(self.entries@).len() == 0,
            wf_entries(lift(entries@)),
        ensures
            r.wf(),
            r.tier == self.tier,
            r.kind == self.kind,
            r.entries_view() == lift(entries@),
            r.bytes@ == spec_page_bytes(lift(entries@)),
    {
        self.with_iter(entries).build()
    }

    /// Lays the page out: the offsets table, then the records.
    pub fn build(self) -> (r: SortedPageBuf)
        requires
            self.wf(),
        ensures
            r.wf(),
            r.tier == self.tier,
            r.kind == self.kind,
            r.entries_view() == lift(self.entries@),
            r.bytes@ == spec_page_bytes(lift(self.entries@)),
    {
        let ghost s = lift(self.entries@);
        let n = self.entries.len();
        let mut bytes: Vec<u8> = Vec::new();
        let mut off: usize = 4 * n;
        let mut j: usize = 0;
        proof {
            lemma_auto_spec_u32_to_from_le_bytes();
            lemma_offsets_len(s, n as int);
            assert(spec_payload(s.take(0)) =~= Seq::<u8>::empty());
            assert(4 * n <= self.size) by {
                lemma_payload_len_nonneg(s, 0);
            }
        }
        while j < n
            invariant
                n == self.entries@.len(),
                j <= n,
                s == lift(self.entries@),
                self.wf(),
                off == spec_offset(s, j as int),
                off <= spec_page_size(s),
                bytes@ == spec_offsets(s, j as int),
            decreases n - j,
        {
            proof {
                lemma_auto_spec_u32_to_from_le_bytes();
                lemma_auto_spec_u64_to_from_le_bytes();
                lemma_offsets_len(s, j as int);
                lemma_payload_push(s, j as int);
                lemma_payload_len_nonneg(s, j + 1);
                assert(spec_entry_size(s[j as int]) == spec_encode_key(s[j as int].0).len()
                    + spec_encode_value(s[j as int].1).len());
            }
            let word = u32_to_le_bytes(off as u32);
            append_bytes(&mut bytes, &word);
            let e = &self.entries[j];
            proof {
                assert(s[j as int] == (key_view(e.0), value_view(e.1)));
                lemma_entry_size_parts(s, j as int);
                lemma_page_segment(s, j as int);
                lemma_payload_len_nonneg(s, j as int);
                assert(spec_encode_key(s[j as int].0).len() == 12 + e.0.raw@.len());
                assert(spec_entry_size(s[j as int]) <= spec_page_size(s));
                assert(e.0.raw@.len() + 12 <= u32::MAX);
                assert(u32::MAX <= usize::MAX);
            }
            let key_size = e.0.encode_size();
            let value_size = e.1.encode_size();
            off = off + key_size;
            off = off + value_size;
            j = j + 1;
        }
        let mut j2: usize = 0;
        proof {
            assert(bytes@ == spec_offsets(s, n as int));
            assert(spec_payload(s.take(0)) =~= Seq::<u8>::empty());
            assert(bytes@ =~= spec_offsets(s, n as int) + spec_payload(s.take(0)));
        }
        while j2 < n
            invariant
                n == self.entries@.len(),
                j2 <= n,
                s == lift(self.entries@),
                self.wf(),
                bytes@ == spec_offsets(s, n as int) + spec_payload(s.take(j2 as int)),
            decreases n - j2,
        {
            let ghost bytes0 = bytes@;
            proof {
                lemma_auto_spec_u32_to_from_le_bytes();
                lemma_auto_spec_u64_to_from_le_bytes();
                lemma_offsets_len(s, n as int);
                lemma_payload_push(s, j2 as int);
                lemma_payload_len_nonneg(s, j2 + 1);
                lemma_entry_size_parts(s, j2 as int);
            }
            let e = &self.entries[j2];
            proof {
                assert(s[j2 as int] == (key_view(e.0), value_view(e.1)));
                lemma_page_segment(s, j2 as int);
                assert(spec_encode_key(s[j2 as int].0).len() == 12 + e.0.raw@.len());
                assert(bytes@.len() == spec_offset(s, j2 as int));
                assert(spec_offset(s, j2 + 1) <= spec_page_size(s) <= u32::MAX);
                assert(u32::MAX <= usize::MAX);
            }
            e.0.encode_to(&mut bytes);
            e.1.encode_to(&mut bytes);
            proof {
                assert(bytes@ =~= spec_offsets(s, n as int) + spec_payload(s.take(j2 + 1)));
            }
            j2 = j2 + 1;
        }
        proof {
            assert(s.take(n as int) =~= s);
            assert(bytes@ =~= spec_page_bytes(s));
        }
        SortedPageBuf { tier: self.tier, kind: self.kind, entries: self.entries, bytes }
    }
}

/// A prefix of a well-formed page also fits its offsets.
proof fn lemma_page_size_prefix(s: Seq<(KeySpec, ValSpec)>, j: int)
    requires
        wf_entries(s),
        0 <= j < s.len(),
    ensures
        spec_page_size(s.take(j)) + 4 + spec_entry_size(s[j]) <= u32::MAX,
    decreases s.len() - j,
{
    lemma_payload_push(s, j);
    if j + 1 == s.len() {
        assert(s.take(j + 1) =~= s);
    } else {
        lemma_page_size_prefix(s, j + 1);
        lemma_payload_push(s, j + 1);
        assert(spec_entry_size(s[j + 1]) >= 0) by {
            assert(spec_encode_entry(s[j + 1]).len() >= 0);
        }
    }
}

/// An entry's size is its key's plus its value's.
proof fn lemma_entry_size_parts(s: Seq<(KeySpec, ValSpec)>, i: int)
    requires
        0 <= i < s.len(),
    ensures
        spec_entry_size(s[i]) == spec_encode_key(s[i].0).len() + spec_encode_value(s[i].1).len(),
{
}

/// A built, immutable sorted page: its records and their laid-out bytes.
pub struct SortedPageBuf {
    pub tier: PageTier,
    pub kind: PageKind,
    pub entries: Vec<(Key, Value)>,
    pub bytes: Vec<u8>,
}

impl SortedPageBuf {
    /// The records of the page, in key order.
    pub open spec fn entries_view(self) -> Seq<(KeySpec, ValSpec)> {
        lift(self.entries@)
    }

    pub open spec fn wf(self) -> bool {
        &&& wf_entries(self.entries_view())
        &&& self.bytes@ == spec_page_bytes(self.entries_view())
    }

    /// The page's laid-out bytes.
    pub fn as_ptr(&self) -> (r: &Vec<u8>)
        ensures
            r@ == self.bytes@,
    {
        &self.bytes
    }

    /// A borrowed reader over this page.
    pub fn as_ref(&self) -> (r: SortedPageRef<'_>)
        ensures
            r.page == self,
    {
        SortedPageRef { page: self }
    }
}

/// An immutable reference to a sorted page.
pub struct SortedPageRef<'a> {
    pub page: &'a SortedPageBuf,
}

impl<'a> SortedPageRef<'a> {
    pub open spec fn entries_view(self) -> Seq<(KeySpec, ValSpec)> {
        self.page.entries_view()
    }

    pub fn new(page: &'a SortedPageBuf) -> (r: Self)
        ensures
            r.page == page,
    {
        SortedPageRef { page }
    }

    /// The number of records in the page.
    pub fn len(&self) -> (n: usize)
        ensures
            n == self.entries_view().len(),
    {
        self.page.entries.len()
    }

    /// The record at the given rank.
    pub fn get(&self, index: usize) -> (r: Option<(Key, Value)>)
        ensures
            match r {
                Some(e) => index < self.entries_view().len() && (key_view(e.0), value_view(e.1))
                    == self.entries_view()[index as int],
                None => index >= self.entries_view().len(),
            },
    {
        if index < self.page.entries.len() {
            let e = &self.page.entries[index];
            let key = Key::new(crate::page::clone_bytes(&e.0.raw), e.0.lsn);
            let value = clone_value(&e.1);
            proof {
                assert(self.entries_view()[index as int] == (key_view(e.0), value_view(e.1)));
            }
            Some((key, value))
        } else {
            None
        }
    }

    /// Binary search: `Ok(i)` when record `i` carries exactly the target
    /// key, otherwise `Err(i)` with `i` the rank where it would sit.
    pub fn rank(&self, target: &Key) -> (r: Result<usize, usize>)
        requires
            self.page.wf(),
        ensures
            match r {
                Ok(i) => i < self.entries_view().len() && self.entries_view()[i as int].0
                    == key_view(*target),
                Err(i) => {
                    &&& i <= self.entries_view().len()
                    &&& forall|j: int|
                        0 <= j < i ==> key_lt(
                            (#[trigger] self.entries_view()[j]).0,
                            key_view(*target),
                        )
                    &&& forall|j: int|
                        i <= j < self.entries_view().len() ==> key_lt(
                            key_view(*target),
                            (#[trigger] self.entries_view()[j]).0,
                        )
                },
            },
    {
        let ghost s = self.entries_view();
        let mut left: usize = 0;
        let mut right: usize = self.page.entries.len();
        while left < right
            invariant
                s == self.entries_view(),
                self.page.wf(),
                left <= right <= s.len(),
                forall|j: int| 0 <= j < left ==> key_lt((#[trigger] s[j]).0, key_view(*target)),
                forall|j: int|
                    right <= j < s.len() ==> key_lt(key_view(*target), (#[trigger] s[j]).0),
            decreases right - left,
        {
            let mid = left + (right - left) / 2;
            let e = &self.page.entries[mid];
            proof {
                assert(s[mid as int] == (key_view(e.0), value_view(e.1)));
            }
            match key_compare(&e.0, target) {
                Cmp::Less => {
                    proof {
                        assert forall|j: int| 0 <= j < mid + 1 implies key_lt(
                            (#[trigger] s[j]).0,
                            key_view(*target),
                        ) by {
                            if j < mid {
                                assert(key_lt(s[j].0, s[mid as int].0));
                                lemma_key_lt_trans(s[j].0, s[mid as int].0, key_view(*target));
                            }
                        }
                    }
                    left = mid + 1;
                },
                Cmp::Greater => {
                    proof {
                        assert forall|j: int| mid <= j < s.len() implies key_lt(
                            key_view(*target),
                            (#[trigger] s[j]).0,
                        ) by {
                            if j > mid {
                                assert(key_lt(s[mid as int].0, s[j].0));
                                lemma_key_lt_trans(key_view(*target), s[mid as int].0, s[j].0);
                            }
                        }
                    }
                    right = mid;
                },
                Cmp::Equal => {
                    return Ok(mid);
                },
            }
        }
        Err(left)
    }

    /// The first record whose key is no less than the target.
    pub fn seek(&self, target: &Key) -> (r: Option<(Key, Value)>)
        requires
            self.page.wf(),
        ensures
            match r {
                Some(e) => exists|i: int|
                    {
                        &&& 0 <= i < self.entries_view().len()
                        &&& (key_view(e.0), value_view(e.1)) == #[trigger] self.entries_view()[i]
                        &&& !key_lt(self.entries_view()[i].0, key_view(*target))
                        &&& forall|j: int|
                            0 <= j < i ==> key_lt(
                                (#[trigger] self.entries_view()[j]).0,
                                key_view(*target),
                            )
                    },
                None => forall|j: int|
                    0 <= j < self.entries_view().len() ==> key_lt(
                        (#[trigger] self.entries_view()[j]).0,
                        key_view(*target),
                    ),
            },
    {
        let ghost s = self.entries_view();
        let index = match self.rank(target) {
            Ok(i) => i,
            Err(i) => i,
        };
        proof {
            if index < s.len() {
                lemma_key_lt_irrefl(s[index as int].0);
                if s[index as int].0 != key_view(*target) {
                    lemma_key_lt_asym(key_view(*target), s[index as int].0);
                }
            }
        }
        let r = self.get(index);
        proof {
            match &r {
                Some(e) => {
                    assert((key_view(e.0), value_view(e.1)) == s[index as int]);
                },
                None => {},
            }
        }
        r
    }

    /// The last record whose key is no greater than the target.
    pub fn seek_back(&self, target: &Key) -> (r: Option<(Key, Value)>)
        requires
            self.page.wf(),
        ensures
            match r {
                Some(e) => exists|i: int|
                    {
                        &&& 0 <= i < self.entries_view().len()
                        &&& (key_view(e.0), value_view(e.1)) == #[trigger] self.entries_view()[i]
                        &&& !key_lt(key_view(*target), self.entries_view()[i].0)
                        &&& forall|j: int|
                            i < j < self.entries_view().len() ==> key_lt(
                                key_view(*target),
                                (#[trigger] self.entries_view()[j]).0,
                            )
                    },
                None => forall|j: int|
                    0 <= j < self.entries_view().len() ==> key_lt(
                        key_view(*target),
                        (#[trigger] self.entries_view()[j]).0,
                    ),
            },
    {
        let ghost s = self.entries_view();
        match self.rank(target) {
            Ok(i) => {
                proof {
                    lemma_key_lt_irrefl(key_view(*target));
                    assert forall|j: int| i < j < s.len() implies key_lt(
                        key_view(*target),
                        (#[trigger] s[j]).0,
                    ) by {
                        assert(key_lt(s[i as int].0, s[j].0));
                    }
                }
                self.get(i)
            },
            Err(i) => {
                if i == 0 {
                    None
                } else {
                    proof {
                        lemma_key_lt_asym(s[i - 1].0, key_view(*target));
                    }
                    self.get(i - 1)
                }
            },
        }
    }

    /// Divides the page for a split: the key opening the upper half,
    /// together with an iterator seeded at it. A page with fewer than two
    /// records is not divided.
    pub fn split(&self) -> (r: Option<(Key, SortedPageIter<'a>)>)
        requires
            self.page.wf(),
        ensures
            match r {
                Some(pair) => {
                    &&& self.entries_view().len() >= 2
                    &&& key_view(pair.0) == self.entries_view()[
                        (self.entries_view().len() / 2) as int].0
                    &&& pair.1.page.page == self.page
                    &&& pair.1.next_rank == self.entries_view().len() / 2
                },
                None => self.entries_view().len() < 2,
            },
    {
        let n = self.page.entries.len();
        if n < 2 {
            return None;
        }
        let nth = n / 2;
        match self.get(nth) {
            Some((key, _)) => {
                let iter = SortedPageIter { page: SortedPageRef { page: self.page }, next_rank: nth };
                Some((key, iter))
            },
            None => None,
        }
    }

    /// An iterator over the records of the page.
    pub fn iter(&self) -> (r: SortedPageIter<'a>)
        ensures
            r.page.page == self.page,
            r.next_rank == 0,
    {
        SortedPageIter::new(SortedPageRef { page: self.page })
    }

    /// Where record `index` starts inside the page bytes.
    pub fn item_offset(&self, index: usize) -> (r: Option<usize>)
        requires
            self.page.wf(),
        ensures
            match r {
                Some(off) => index < self.entries_view().len() && off == spec_offset(
                    self.entries_view(),
                    index as int,
                ),
                None => index >= self.entries_view().len(),
            },
    {
        let ghost s = self.entries_view();
        if index < self.page.entries.len() {
            proof {
                lemma_auto_spec_u32_to_from_le_bytes();
                lemma_page_offset_word(s, index as int);
                lemma_offsets_len(s, s.len() as int);
                lemma_payload_len_nonneg(s, index as int);
                assert(spec_offset(s, index as int) >= 0);
            }
            let word = read_u32(&self.page.bytes, 4 * index);
            proof {
                assert(spec_u32_to_le_bytes(word) == spec_u32_to_le_bytes(
                    spec_offset(s, index as int) as u32,
                ));
                assert(spec_u32_from_le_bytes(spec_u32_to_le_bytes(word)) == spec_u32_from_le_bytes(
                    spec_u32_to_le_bytes(spec_offset(s, index as int) as u32),
                ));
            }
            Some(word as usize)
        } else {
            None
        }
    }

    /// The bytes of record `index`.
    pub fn item(&self, index: usize) -> (r: Option<Vec<u8>>)
        requires
            self.page.wf(),
        ensures
            match r {
                Some(b) => index < self.entries_view().len() && b@ == spec_encode_entry(
                    self.entries_view()[index as int],
                ),
                None => index >= self.entries_view().len(),
            },
    {
        let ghost s = self.entries_view();
        match self.item_offset(index) {
            Some(start) => {
                proof {
                    lemma_page_segment(s, index as int);
                    lemma_payload_len_nonneg(s, index as int);
                    lemma_offsets_len(s, s.len() as int);
                    assert(self.page.bytes@.len() == spec_page_size(s));
                    assert(spec_encode_entry(s[index as int]).len() >= 0);
                }
                let next = match self.item_offset(index + 1) {
                    Some(off) => off,
                    None => self.page.bytes.len(),
                };
                proof {
                    if index + 1 == s.len() {
                        lemma_offsets_len(s, s.len() as int);
                        assert(s.take(s.len() as int) =~= s);
                        assert(next == spec_offset(s, index + 1));
                    }
                }
                Some(copy_range(&self.page.bytes, start, next - start))
            },
            None => None,
        }
    }
}

/// A restartable iterator over the records of a sorted page.
pub struct SortedPageIter<'a> {
    pub page: SortedPageRef<'a>,
    pub next_rank: usize,
}

impl<'a> SortedPageIter<'a> {
    pub fn new(page: SortedPageRef<'a>) -> (r: Self)
        ensures
            r.page == page,
            r.next_rank == 0,
    {
        SortedPageIter { page, next_rank: 0 }
    }

    /// The next record, advancing the iterator.
    pub fn next(&mut self) -> (r: Option<(Key, Value)>)
        ensures
            match r {
                Some(e) => {
                    &&& old(self).next_rank < old(self).page.entries_view().len()
                    &&& (key_view(e.0), value_view(e.1)) == old(self).page.entries_view()[
                        old(self).next_rank as int]
                    &&& final(self).next_rank == old(self).next_rank + 1
                },
                None => {
                    &&& old(self).next_rank >= old(self).page.entries_view().len()
                    &&& *final(self) == *old(self)
                },
            },
            final(self).page == old(self).page,
    {
        let n = self.page.len();
        match self.page.get(self.next_rank) {
            Some(e) => {
                self.next_rank = self.next_rank + 1;
                Some(e)
            },
            None => None,
        }
    }

    /// The record most recently yielded: the one just behind the cursor,
    /// or nothing while the iterator still stands at the first record.
    pub fn last(&self) -> (r: Option<(Key, Value)>)
        ensures
            match r {
                Some(e) => {
                    &&& 1 <= self.next_rank
                    &&& self.next_rank - 1 < self.page.entries_view().len()
                    &&& (key_view(e.0), value_view(e.1)) == self.page.entries_view()[
                        self.next_rank - 1]
                },
                None => self.next_rank == 0 || self.next_rank - 1
                    >= self.page.entries_view().len(),
            },
    {
        if self.next_rank == 0 {
            None
        } else {
            self.page.get(self.next_rank - 1)
        }
    }

    /// Re-seeds the iterator at the first record no less than the target.
    pub fn seek(&mut self, target: &Key)
        requires
            old(self).page.page.wf(),
        ensures
            final(self).page == old(self).page,
            final(self).next_rank <= old(self).page.entries_view().len(),
            forall|j: int|
                0 <= j < final(self).next_rank ==> key_lt(
                    (#[trigger] old(self).page.entries_view()[j]).0,
                    key_view(*target),
                ),
            forall|j: int|
                final(self).next_rank <= j < old(self).page.entries_view().len() ==> !key_lt(
                    (#[trigger] old(self).page.entries_view()[j]).0,
                    key_view(*target),
                ),
    {
        let ghost s = self.page.entries_view();
        let r = self.page.rank(target);
        match r {
            Ok(i) => {
                proof {
                    assert forall|j: int| i <= j < s.len() implies !key_lt(
                        (#[trigger] s[j]).0,
                        key_view(*target),
                    ) by {
                        if j == i {
                            lemma_key_lt_irrefl(s[i as int].0);
                        } else {
                            assert(key_lt(s[i as int].0, s[j].0));
                            if key_lt(s[j].0, key_view(*target)) {
                                lemma_key_lt_trans(s[i as int].0, s[j].0, key_view(*target));
                                lemma_key_lt_irrefl(s[i as int].0);
                            }
                        }
                    }
                }
                self.next_rank = i;
            },
            Err(i) => {
                proof {
                    assert forall|j: int| i <= j < s.len() implies !key_lt(
                        (#[trigger] s[j]).0,
                        key_view(*target),
                    ) by {
                        assert(key_lt(key_view(*target), s[j].0));
                        lemma_key_lt_asym(key_view(*target), s[j].0);
                    }
                }
                self.next_rank = i;
            },
        }
    }

    /// Restarts the iterator from the first record.
    pub fn rewind(&mut self)
        ensures
            final(self).page == old(self).page,
            final(self).next_rank == 0,
    {
        self.next_rank = 0;
    }
}

/// Equal little-endian words hold equal values.
proof fn lemma_u32_words_eq(x: u32, y: u32)
    requires
        spec_u32_to_le_bytes(x) == spec_u32_to_le_bytes(y),
    ensures
        x == y,
{
    lemma_auto_spec_u32_to_from_le_bytes();
    assert(spec_u32_to_le_bytes(x).len() == 4);
    assert(spec_u32_to_le_bytes(y).len() == 4);
    assert(spec_u32_from_le_bytes(spec_u32_to_le_bytes(x)) == x);
    assert(spec_u32_from_le_bytes(spec_u32_to_le_bytes(y)) == y);
}

proof fn lemma_u64_words_eq(x: u64, y: u64)
    requires
        spec_u64_to_le_bytes(x) == spec_u64_to_le_bytes(y),
    ensures
        x == y,
{
    lemma_auto_spec_u64_to_from_le_bytes();
    assert(spec_u64_to_le_bytes(x) == spec_u64_to_le_bytes(x));
    assert(vstd::bytes::spec_u64_from_le_bytes(spec_u64_to_le_bytes(x)) == x);
    assert(vstd::bytes::spec_u64_from_le_bytes(spec_u64_to_le_bytes(y)) == y);
}

/// Where the fields of record `i` sit inside the page bytes.
proof fn lemma_entry_fields(s: Seq<(KeySpec, ValSpec)>, i: int, bytes: Seq<u8>)
    requires
        wf_entries(s),
        0 <= i < s.len(),
        bytes == spec_page_bytes(s),
    ensures
        bytes.len() == spec_page_size(s),
        0 <= spec_offset(s, i),
        spec_offset(s, i + 1) <= bytes.len(),
        starts_with_bytes(bytes.skip(spec_offset(s, i)), s[i].0.0),
        bytes.subrange(
            spec_offset(s, i) + 4 + s[i].0.0.len(),
            spec_offset(s, i) + 12 + s[i].0.0.len(),
        ) == spec_u64_to_le_bytes(s[i].0.1),
        bytes[spec_offset(s, i) + 12 + s[i].0.0.len()] == (match s[i].1 {
            Some(_) => 0u8,
            None => 1u8,
        }),
        match s[i].1 {
            Some(v) => spec_offset(s, i + 1) == spec_offset(s, i) + 13 + s[i].0.0.len() + v.len()
                && bytes.subrange(
                spec_offset(s, i) + 13 + s[i].0.0.len() as int,
                spec_offset(s, i + 1),
            ) == v,
            None => spec_offset(s, i + 1) == spec_offset(s, i) + 13 + s[i].0.0.len(),
        },
{
    lemma_auto_spec_u32_to_from_le_bytes();
    lemma_auto_spec_u64_to_from_le_bytes();
    lemma_offsets_len(s, s.len() as int);
    lemma_page_segment(s, i);
    lemma_payload_len_nonneg(s, i);
    let off = spec_offset(s, i);
    let off2 = spec_offset(s, i + 1);
    let e = s[i];
    let enc = spec_encode_entry(e);
    let raw = e.0.0;
    let klen = raw.len() as int;
    assert(spec_encode_key(e.0).len() == 12 + klen);
    assert(enc.len() == off2 - off);
    assert forall|x: int| 0 <= x < off2 - off implies bytes[off + x] == enc[x] by {
        assert(bytes.subrange(off, off2)[x] == enc[x]);
    }
    assert(starts_with_bytes(bytes.skip(off), raw)) by {
        assert(bytes.skip(off).len() >= 4 + klen);
        assert forall|x: int| 0 <= x < 4 + klen implies bytes.skip(off).take(4 + klen)[x]
            == spec_encode_bytes(raw)[x] by {
            assert(bytes.skip(off)[x] == bytes[off + x]);
            assert(enc[x] == spec_encode_bytes(raw)[x]);
        }
        assert(bytes.skip(off).take(4 + klen) =~= spec_encode_bytes(raw));
    }
    assert(bytes.subrange(off + 4 + klen, off + 12 + klen) =~= spec_u64_to_le_bytes(e.0.1)) by {
        assert forall|x: int| 0 <= x < 8 implies bytes.subrange(off + 4 + klen, off + 12 + klen)[x]
            == spec_u64_to_le_bytes(e.0.1)[x] by {
            assert(bytes[off + 4 + klen + x] == enc[4 + klen + x]);
            assert(enc[4 + klen + x] == spec_u64_to_le_bytes(e.0.1)[x]);
        }
    }
    assert(bytes[off + 12 + klen] == enc[12 + klen]);
    match e.1 {
        Some(v) => {
            assert(enc[12 + klen] == 0u8);
            assert(bytes.subrange(off + 13 + klen, off2) =~= v) by {
                assert forall|x: int| 0 <= x < v.len() implies bytes.subrange(
                    off + 13 + klen,
                    off2,
                )[x] == v[x] by {
                    assert(bytes[off + 13 + klen + x] == enc[13 + klen + x]);
                    assert(enc[13 + klen + x] == v[x]);
                }
            }
        },
        None => {
            assert(enc[12 + klen] == 1u8);
        },
    }
}

/// A page's bytes pin its records: no two well-formed record lists lay out
/// to the same bytes.
#[verifier::rlimit(100)]
#[verifier::spinoff_prover]
pub proof fn lemma_page_bytes_injective(a: Seq<(KeySpec, ValSpec)>, b: Seq<(KeySpec, ValSpec)>)
    requires
        wf_entries(a),
        wf_entries(b),
        spec_page_bytes(a) == spec_page_bytes(b),
    ensures
        a == b,
{
    lemma_auto_spec_u32_to_from_le_bytes();
    lemma_auto_spec_u64_to_from_le_bytes();
    lemma_offsets_len(a, a.len() as int);
    lemma_offsets_len(b, b.len() as int);
    let bytes = spec_page_bytes(a);
    if a.len() == 0 || b.len() == 0 {
        if a.len() == 0 && b.len() > 0 {
            lemma_payload_len_nonneg(b, 0);
            assert(bytes.len() == 0);
            assert(spec_page_bytes(b).len() >= 4);
        } else if b.len() == 0 && a.len() > 0 {
            lemma_payload_len_nonneg(a, 0);
            assert(spec_page_bytes(b).len() == 0);
            assert(bytes.len() >= 4);
        } else {
            assert(a =~= b);
        }
        return ;
    }
    lemma_page_offset_word(a, 0);
    lemma_page_offset_word(b, 0);
    assert(spec_payload(a.take(0)) =~= Seq::<u8>::empty());
    assert(spec_payload(b.take(0)) =~= Seq::<u8>::empty());
    assert(spec_u32_to_le_bytes((4 * a.len()) as u32) == spec_u32_to_le_bytes(
        (4 * b.len()) as u32,
    ));
    assert(spec_u32_from_le_bytes(spec_u32_to_le_bytes((4 * a.len()) as u32))
        == spec_u32_from_le_bytes(spec_u32_to_le_bytes((4 * b.len()) as u32)));
    assert(a.len() == b.len());
    assert forall|i: int| 0 <= i < a.len() implies #[trigger] spec_offset(a, i) == spec_offset(
        b,
        i,
    ) && spec_offset(a, i + 1) == spec_offset(b, i + 1) by {
        lemma_page_offset_word(a, i);
        lemma_page_offset_word(b, i);
        lemma_payload_len_nonneg(a, i);
        lemma_payload_len_nonneg(b, i);
        assert(0 <= spec_offset(a, i) <= u32::MAX);
        assert(0 <= spec_offset(b, i) <= u32::MAX);
        lemma_u32_words_eq(spec_offset(a, i) as u32, spec_offset(b, i) as u32);
        assert(spec_offset(a, i) as u32 as int == spec_offset(a, i));
        assert(spec_offset(b, i) as u32 as int == spec_offset(b, i));
        assert(spec_offset(a, i) == spec_offset(b, i));
        if i + 1 < a.len() {
            lemma_page_offset_word(a, i + 1);
            lemma_page_offset_word(b, i + 1);
            lemma_payload_len_nonneg(a, i + 1);
            lemma_payload_len_nonneg(b, i + 1);
            lemma_u32_words_eq(spec_offset(a, i + 1) as u32, spec_offset(b, i + 1) as u32);
            assert(0 <= spec_offset(a, i + 1) <= u32::MAX);
            assert(0 <= spec_offset(b, i + 1) <= u32::MAX);
            assert(spec_offset(a, i + 1) as u32 as int == spec_offset(a, i + 1));
            assert(spec_offset(b, i + 1) as u32 as int == spec_offset(b, i + 1));
        } else {
            assert(a.take(a.len() as int) =~= a);
            assert(b.take(b.len() as int) =~= b);
            assert(spec_offset(a, i + 1) == bytes.len());
            assert(spec_offset(b, i + 1) == spec_page_bytes(b).len());
        }
    }
    assert forall|i: int| 0 <= i < a.len() implies a[i] == b[i] by {
        lemma_entry_fields(a, i, bytes);
        lemma_entry_fields(b, i, spec_page_bytes(b));
        let off = spec_offset(a, i);
        let off2 = spec_offset(a, i + 1);
        assert(spec_u32_to_le_bytes(a[i].0.0.len() as u32) == bytes.skip(off).take(
            4 + a[i].0.0.len() as int,
        ).subrange(0, 4)) by {
            assert(bytes.skip(off).take(4 + a[i].0.0.len() as int) == spec_encode_bytes(a[i].0.0));
            assert(spec_encode_bytes(a[i].0.0).subrange(0, 4) =~= spec_u32_to_le_bytes(
                a[i].0.0.len() as u32,
            ));
        }
        assert(spec_u32_to_le_bytes(b[i].0.0.len() as u32) == bytes.skip(off).take(
            4 + b[i].0.0.len() as int,
        ).subrange(0, 4)) by {
            assert(bytes.skip(off).take(4 + b[i].0.0.len() as int) == spec_encode_bytes(b[i].0.0));
            assert(spec_encode_bytes(b[i].0.0).subrange(0, 4) =~= spec_u32_to_le_bytes(
                b[i].0.0.len() as u32,
            ));
        }
        assert(bytes.skip(off).take(4 + a[i].0.0.len() as int).subrange(0, 4) =~= bytes.subrange(
            off,
            off + 4,
        ));
        assert(bytes.skip(off).take(4 + b[i].0.0.len() as int).subrange(0, 4) =~= bytes.subrange(
            off,
            off + 4,
        ));
        lemma_u32_words_eq(a[i].0.0.len() as u32, b[i].0.0.len() as u32);
        assert(a[i].0.0.len() == b[i].0.0.len());
        let klen = a[i].0.0.len() as int;
        assert(a[i].0.0 =~= b[i].0.0) by {
            assert(a[i].0.0 =~= spec_encode_bytes(a[i].0.0).subrange(4, 4 + klen));
            assert(b[i].0.0 =~= spec_encode_bytes(b[i].0.0).subrange(4, 4 + klen));
            assert(spec_encode_bytes(a[i].0.0) == bytes.skip(off).take(4 + klen));
            assert(spec_encode_bytes(b[i].0.0) == bytes.skip(off).take(4 + klen));
        }
        assert(a[i].0.1 == b[i].0.1) by {
            assert(spec_u64_to_le_bytes(a[i].0.1) == spec_u64_to_le_bytes(b[i].0.1));
            lemma_u64_words_eq(a[i].0.1, b[i].0.1);
        }
        match a[i].1 {
            Some(av) => {
                assert(bytes[off + 12 + klen] == 0u8);
                match b[i].1 {
                    Some(bv) => {
                        assert(av =~= bv);
                    },
                    None => {
                        assert(bytes[off + 12 + klen] == 1u8);
                    },
                }
            },
            None => {
                assert(bytes[off + 12 + klen] == 1u8);
                match b[i].1 {
                    Some(bv) => {
                        assert(bytes[off + 12 + klen] == 0u8);
                    },
                    None => {},
                }
            },
        }
        assert(a[i].1 == b[i].1);
    }
    assert(a =~= b);
}

/// Reads a page's records back from its bytes; the round trip through the
/// builder returns exactly the records that were laid out.
pub fn decode(bytes: &Vec<u8>) -> (r: Vec<(Key, Value)>)
    requires
        exists|s: Seq<(KeySpec, ValSpec)>|
            #[trigger] wf_entries(s) && bytes@ == spec_page_bytes(s),
    ensures
        forall|s: Seq<(KeySpec, ValSpec)>|
            #[trigger] wf_entries(s) && bytes@ == spec_page_bytes(s) ==> lift(r@) == s,
{
    let ghost gs: Seq<(KeySpec, ValSpec)> = choose|s: Seq<(KeySpec, ValSpec)>|
        #[trigger] wf_entries(s) && bytes@ == spec_page_bytes(s);
    proof {
        lemma_auto_spec_u32_to_from_le_bytes();
        lemma_auto_spec_u64_to_from_le_bytes();
        lemma_offsets_len(gs, gs.len() as int);
    }
    let total = bytes.len();
    let mut out: Vec<(Key, Value)> = Vec::new();
    if total < 4 {
        proof {
            if gs.len() > 0 {
                lemma_payload_len_nonneg(gs, 0);
                assert(bytes@.len() >= 4);
            }
            assert(lift(out@) =~= gs);
            assert forall|s: Seq<(KeySpec, ValSpec)>| #[trigger] wf_entries(s) && bytes@
                == spec_page_bytes(s) implies lift(out@) == s by {
                lemma_page_bytes_injective(gs, s);
            }
        }
        return out;
    }
    proof {
        assert(gs.len() > 0) by {
            if gs.len() == 0 {
                assert(spec_payload(gs).len() == 0);
                assert(bytes@.len() == 0);
            }
        }
        lemma_page_offset_word(gs, 0);
        assert(spec_payload(gs.take(0)) =~= Seq::<u8>::empty());
    }
    let first = read_u32(bytes, 0);
    proof {
        assert(spec_page_size(gs) == 4 * gs.len() + spec_payload(gs).len());
        assert(4 * gs.len() <= u32::MAX);
        lemma_u32_words_eq(first, (4 * gs.len()) as u32);
        assert((4 * gs.len()) as u32 as int == 4 * gs.len());
        assert(first == 4 * gs.len());
    }
    let n = (first / 4) as usize;
    let mut i: usize = 0;
    while i < n
        invariant
            wf_entries(gs),
            bytes@ == spec_page_bytes(gs),
            n == gs.len(),
            total == bytes@.len(),
            i <= n,
            lift(out@) == gs.take(i as int),
        decreases n - i,
    {
        proof {
            lemma_auto_spec_u32_to_from_le_bytes();
            lemma_auto_spec_u64_to_from_le_bytes();
            lemma_entry_fields(gs, i as int, bytes@);
            lemma_page_offset_word(gs, i as int);
            lemma_payload_len_nonneg(gs, i as int);
            lemma_offsets_len(gs, gs.len() as int);
        }
        let start_word = read_u32(bytes, 4 * i);
        proof {
            assert(0 <= spec_offset(gs, i as int) <= u32::MAX);
            lemma_u32_words_eq(start_word, spec_offset(gs, i as int) as u32);
            assert(spec_offset(gs, i as int) as u32 as int == spec_offset(gs, i as int));
            assert(start_word == spec_offset(gs, i as int));
        }
        let start = start_word as usize;
        let end: usize = if i + 1 < n {
            proof {
                lemma_page_offset_word(gs, i + 1);
                lemma_payload_len_nonneg(gs, i + 1);
            }
            let w = read_u32(bytes, 4 * (i + 1));
            proof {
                assert(0 <= spec_offset(gs, i + 1) <= u32::MAX);
                lemma_u32_words_eq(w, spec_offset(gs, i + 1) as u32);
                assert(spec_offset(gs, i + 1) as u32 as int == spec_offset(gs, i + 1));
                assert(w == spec_offset(gs, i + 1));
            }
            w as usize
        } else {
            proof {
                assert(gs.take(gs.len() as int) =~= gs);
                assert(spec_offset(gs, i + 1) == bytes@.len());
            }
            total
        };
        let ghost e = gs[i as int];
        let (raw, pos) = decode_from(bytes, start);
        proof {
            assert(raw@ == e.0.0 && pos == start + 4 + e.0.0.len());
        }
        let lsn = read_u64(bytes, pos);
        proof {
            assert(spec_u64_to_le_bytes(lsn) == spec_u64_to_le_bytes(e.0.1));
            lemma_u64_words_eq(lsn, e.0.1);
        }
        let tag = bytes[pos + 8];
        let value: Value = if tag == 0 {
            proof {
                assert(e.1 is Some);
                assert(end == pos + 9 + e.1->0.len());
            }
            let v = copy_range(bytes, pos + 9, end - (pos + 9));
            proof {
                assert(v@ =~= e.1->0);
            }
            Value::Put(v)
        } else {
            proof {
                assert(e.1 is None);
            }
            Value::Delete
        };
        let key = Key::new(raw, lsn);
        proof {
            assert((key_view(key), value_view(value)) == e);
        }
        out.push((key, value));
        proof {
            assert(lift(out@) =~= gs.take(i + 1));
        }
        i = i + 1;
    }
    proof {
        assert(gs.take(n as int) =~= gs);
        assert forall|s: Seq<(KeySpec, ValSpec)>| #[trigger] wf_entries(s) && bytes@
            == spec_page_bytes(s) implies lift(out@) == s by {
            lemma_page_bytes_injective(gs, s);
        }
    }
    out
}

} // verus!
