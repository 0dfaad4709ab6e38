//! The page-file layout: an append-only container of page payloads followed
//! by a page-handle table, a list of deleted page addresses, a fixed-size
//! meta section, and a footer. All section offsets are multiples of the
//! block size; reads honor block alignment as a direct-I/O device would.
//!
//! A page address packs a 32-bit file identifier above a 32-bit index, so a
//! handle can be resolved knowing only the address.

use vstd::prelude::*;

use vstd::bytes::{spec_u32_to_le_bytes, spec_u64_to_le_bytes, u32_to_le_bytes, u64_to_le_bytes,
    lemma_auto_spec_u32_to_from_le_bytes, lemma_auto_spec_u64_to_from_le_bytes};

use crate::codec::{append_bytes, copy_range, read_u32, read_u64};

verus! {

/// Errors at the page-store boundary.
#[derive(Clone, Copy, Debug, PartialEq, Eq, Structural)]
pub enum Error {
    /// A footer, meta section, or table failed verification.
    Corrupted,
    /// An underlying read or write failed.
    Io,
    /// The current page file is full and could not be rolled over.
    OutOfSpace,
    /// A concurrent writer won the race for a page-table slot.
    Conflict,
}

/// Where a page sits inside its file.
#[derive(Clone, Copy, Debug, PartialEq, Eq, Structural)]
pub struct PageFileHandle {
    pub offset: u32,
    pub size: u32,
}

/// Packs a file identifier and an index into a page address.
pub fn page_addr(file_id: u32, index: u32) -> (r: u64)
    ensures
        r == spec_page_addr(file_id, index),
{
    ((file_id as u64) << 32) | (index as u64)
}

pub open spec fn spec_page_addr(file_id: u32, index: u32) -> u64 {
    ((file_id as u64) << 32) | (index as u64)
}

/// The file a page address points into: its high 32 bits.
pub fn addr_file_id(addr: u64) -> (r: u32)
    ensures
        r == spec_addr_file_id(addr),
{
    (addr >> 32) as u32
}

pub open spec fn spec_addr_file_id(addr: u64) -> u32 {
    (addr >> 32) as u32
}

/// A packed page address names its file exactly.
pub proof fn lemma_page_addr_file_id(file_id: u32, index: u32)
    ensures
        spec_addr_file_id(spec_page_addr(file_id, index)) == file_id,
{
    assert((((file_id as u64) << 32u64 | (index as u64)) >> 32u64) as u32 == file_id)
        by (bit_vector);
}

/// The next multiple of `block` at or above `n`; `block` must not be zero.
pub open spec fn spec_align_up(n: int, block: int) -> int {
    n + (if n % block == 0 {
        0int
    } else {
        block - n % block
    })
}

/// Rounds `n` up to the next multiple of `block`.
pub fn align_up(n: usize, block: usize) -> (r: usize)
    requires
        block > 0,
        n + block <= usize::MAX,
    ensures
        r == spec_align_up(n as int, block as int),
        r % block == 0,
        n <= r < n + block,
{
    let rem = n % block;
    proof {
        let ni = n as int;
        let bi = block as int;
        assert(0 <= ni % bi < bi) by (nonlinear_arith)
            requires
                bi > 0,
                ni >= 0,
        ;
        if rem != 0 {
            assert((ni + (bi - ni % bi)) % bi == 0) by (nonlinear_arith)
                requires
                    bi > 0,
                    ni >= 0,
                    ni % bi != 0,
            ;
        }
    }
    if rem == 0 {
        n
    } else {
        n + (block - rem)
    }
}

/// Rounds `n` down to a multiple of `block`.
pub fn align_down(n: usize, block: usize) -> (r: usize)
    requires
        block > 0,
    ensures
        r == n - n % block,
        r % block == 0,
        r <= n < r + block,
{
    proof {
        let ni = n as int;
        let bi = block as int;
        assert(0 <= ni % bi < bi && ni % bi <= ni && (ni - ni % bi) % bi == 0)
            by (nonlinear_arith)
            requires
                bi > 0,
                ni >= 0,
        ;
    }
    n - n % block
}

/// A positional reader over one page file that only issues block-aligned
/// reads, as a direct-I/O device requires, trimming the over-read itself.
pub struct PageFileReader {
    pub image: Vec<u8>,
    pub use_direct: bool,
    pub block_size: usize,
}

impl PageFileReader {
    pub open spec fn wf(self) -> bool {
        self.block_size > 0
    }

    /// Opens a reader over a file's bytes.
    pub fn from(image: Vec<u8>, use_direct: bool, block_size: usize) -> (r: Self)
        requires
            block_size > 0,
        ensures
            r.wf(),
            r.image@ == image@,
            r.block_size == block_size,
            r.use_direct == use_direct,
    {
        PageFileReader { image, use_direct, block_size }
    }

    /// One block-aligned read, as the device would serve it: starting at an
    /// aligned offset, at most `len` bytes, short only at end of file.
    fn read_aligned(&self, offset: usize, len: usize) -> (r: Vec<u8>)
        requires
            self.wf(),
            offset % self.block_size == 0,
            offset <= self.image@.len(),
        ensures
            r@ == self.image@.subrange(
                offset as int,
                if offset + len <= self.image@.len() {
                    offset + len
                } else {
                    self.image@.len() as int
                },
            ),
    {
        let end = if len <= self.image.len() - offset {
            offset + len
        } else {
            self.image.len()
        };
        copy_range(&self.image, offset, end - offset)
    }

    /// Fills `buf` with exactly the bytes at `[offset, offset + buf.len())`,
    /// covering the three alignment cases: aligned start and end, aligned
    /// start with an unaligned end, and an unaligned start.
    pub fn read_exact_at(&self, buf: &mut Vec<u8>, offset: usize) -> (r: Result<(), Error>)
        requires
            self.wf(),
            offset + old(buf)@.len() <= self.image@.len(),
            offset + old(buf)@.len() + 2 * self.block_size <= usize::MAX,
        ensures
            r is Ok,
            final(buf)@ == self.image@.subrange(offset as int, offset + old(buf)@.len()),
    {
        let len = buf.len();
        let bs = self.block_size;
        if offset % bs == 0 && len % bs == 0 {
            let window = self.read_aligned(offset, len);
            *buf = window;
            return Ok(());
        }
        if offset % bs == 0 {
            let want = align_up(len, bs);
            let window = self.read_aligned(offset, want);
            proof {
                assert(offset + len <= self.image@.len());
            }
            let out = copy_range(&window, 0, len);
            proof {
                assert(out@ =~= self.image@.subrange(offset as int, offset + len));
            }
            *buf = out;
            return Ok(());
        }
        let start = align_down(offset, bs);
        let want = align_up(offset - start + len, bs);
        let window = self.read_aligned(start, want);
        proof {
            assert(offset + len <= self.image@.len());
            assert(window@.len() >= offset - start + len);
        }
        let out = copy_range(&window, offset - start, len);
        proof {
            assert(out@ =~= self.image@.subrange(offset as int, offset + len));
        }
        *buf = out;
        Ok(())
    }
}

/// An append-only builder for one page file. Page payloads go in back to
/// back; `finish` lays down the page-handle table, the deleted-page list,
/// the meta section and the footer, each at a block-aligned offset.
pub struct FileBuilder {
    pub file_id: u32,
    pub block_size: usize,
    pub data: Vec<u8>,
    pub table: Vec<(u64, u64, PageFileHandle)>,
    pub delete_pages: Vec<u64>,
    pub contents: Ghost<Map<u64, Seq<u8>>>,
}

/// The magic number that ends every page file.
pub const FILE_MAGIC: u64 = 0x1A2B3C4D5E6F7081;

impl FileBuilder {
    pub open spec fn wf(self) -> bool {
        &&& self.block_size > 0
        &&& self.block_size <= u32::MAX
        &&& forall|i: int|
            0 <= i < self.table@.len() ==> {
                &&& (#[trigger] self.table@[i]).2.offset + self.table@[i].2.size
                    <= self.data@.len()
                &&& self.contents@.contains_key(self.table@[i].0)
                &&& self.contents@[self.table@[i].0] == self.data@.subrange(
                    self.table@[i].2.offset as int,
                    self.table@[i].2.offset + self.table@[i].2.size,
                )
            }
        &&& self.data@.len() <= u32::MAX
        &&& recs_size_sum(self.table@) == self.data@.len()
    }

    /// The addresses recorded so far and the bytes stored for each.
    pub open spec fn spec_contents(self) -> Map<u64, Seq<u8>> {
        self.contents@
    }

    /// Opens a builder for file `file_id` with the device's block size.
    pub fn new(file_id: u32, block_size: usize) -> (r: Self)
        requires
            block_size > 0,
            block_size <= u32::MAX,
        ensures
            r.wf(),
            r.file_id == file_id,
            r.block_size == block_size,
            r.table@.len() == 0,
            r.delete_pages@.len() == 0,
            r.data@.len() == 0,
            r.spec_contents() == Map::<u64, Seq<u8>>::empty(),
    {
        FileBuilder {
            file_id,
            block_size,
            data: Vec::new(),
            table: Vec::new(),
            delete_pages: Vec::new(),
            contents: Ghost(Map::empty()),
        }
    }

    /// Appends one page payload, returning where it sits in the file.
    pub fn add_page(&mut self, page_id: u64, page_addr: u64, content: &Vec<u8>) -> (r: Result<
        PageFileHandle,
        Error,
    >)
        requires
            old(self).wf(),
            !old(self).spec_contents().contains_key(page_addr),
            content@.len() <= u32::MAX,
        ensures
            final(self).wf(),
            final(self).file_id == old(self).file_id,
            final(self).block_size == old(self).block_size,
            final(self).delete_pages@ == old(self).delete_pages@,
            match r {
                Ok(h) => {
                    &&& final(self).spec_contents() == old(self).spec_contents().insert(
                        page_addr,
                        content@,
                    )
                    &&& final(self).table@ == old(self).table@.push((page_addr, page_id, h))
                    &&& h.offset == old(self).data@.len()
                    &&& h.size == content@.len()
                    &&& final(self).data@ == old(self).data@ + content@
                },
                Err(e) => {
                    &&& e is OutOfSpace
                    &&& old(self).data@.len() + content@.len() > u32::MAX
                    &&& *final(self) == *old(self)
                },
            },
    {
        let ghost prior = *self;
        if content.len() > u32::MAX as usize - self.data.len() {
            return Err(Error::OutOfSpace);
        }
        let offset = self.data.len() as u32;
        let size = content.len() as u32;
        let h = PageFileHandle { offset, size };
        append_bytes(&mut self.data, content);
        self.table.push((page_addr, page_id, h));
        proof {
            self.contents@ = prior.contents@.insert(page_addr, content@);
        }
        proof {
            assert(self.table@.drop_last() =~= prior.table@);
            assert(recs_size_sum(self.table@) == recs_size_sum(prior.table@) + size);
            assert forall|i: int| 0 <= i < self.table@.len() implies {
                &&& (#[trigger] self.table@[i]).2.offset + self.table@[i].2.size
                    <= self.data@.len()
                &&& self.contents@.contains_key(self.table@[i].0)
                &&& self.contents@[self.table@[i].0] == self.data@.subrange(
                    self.table@[i].2.offset as int,
                    self.table@[i].2.offset + self.table@[i].2.size,
                )
            } by {
                if i < self.table@.len() - 1 {
                    assert(self.table@[i] == prior.table@[i]);
                    assert(prior.contents@[self.table@[i].0] == prior.data@.subrange(
                        self.table@[i].2.offset as int,
                        self.table@[i].2.offset + self.table@[i].2.size,
                    ));
                    assert(self.data@.subrange(
                        self.table@[i].2.offset as int,
                        self.table@[i].2.offset + self.table@[i].2.size,
                    ) =~= prior.data@.subrange(
                        self.table@[i].2.offset as int,
                        self.table@[i].2.offset + self.table@[i].2.size,
                    ));
                } else {
                    assert(self.data@.subrange(
                        offset as int,
                        offset + size,
                    ) =~= content@);
                }
            }
        }
        Ok(h)
    }

    /// Records page addresses that this file logically deletes from older
    /// files.
    pub fn add_delete_pages(&mut self, addrs: &Vec<u64>)
        requires
            old(self).wf(),
            old(self).delete_pages@.len() + addrs@.len() <= usize::MAX,
        ensures
            final(self).wf(),
            final(self).file_id == old(self).file_id,
            final(self).block_size == old(self).block_size,
            final(self).delete_pages@ == old(self).delete_pages@ + addrs@,
            final(self).table@ == old(self).table@,
            final(self).data@ == old(self).data@,
            final(self).spec_contents() == old(self).spec_contents(),
    {
        let ghost prior = *self;
        let mut i: usize = 0;
        while i < addrs.len()
            invariant
                i <= addrs@.len(),
                prior.delete_pages@.len() + addrs@.len() <= usize::MAX,
                self.delete_pages@ == prior.delete_pages@ + addrs@.take(i as int),
                self.file_id == prior.file_id,
                self.block_size == prior.block_size,
                self.table@ == prior.table@,
                self.data@ == prior.data@,
                self.contents@ == prior.contents@,
            decreases addrs@.len() - i,
        {
            self.delete_pages.push(addrs[i]);
            proof {
                assert(self.delete_pages@ =~= prior.delete_pages@ + addrs@.take(i + 1));
            }
            i = i + 1;
        }
        proof {
            assert(self.delete_pages@ =~= prior.delete_pages@ + addrs@);
        }
    }
}

/// A wrapping 64-bit sum, the file's integrity checksum.
pub open spec fn spec_checksum(s: Seq<u8>) -> u64
    decreases s.len(),
{
    if s.len() == 0 {
        0u64
    } else {
        ((spec_checksum(s.drop_last()) as int + s.last() as int) % 0x10000000000000000) as u64
    }
}

fn add_wrap(a: u64, b: u64) -> (r: u64)
    ensures
        r == ((a as int + b as int) % 0x10000000000000000) as u64,
{
    if b <= u64::MAX - a {
        a + b
    } else {
        let r = a - (u64::MAX - b) - 1;
        proof {
            assert(r == (a as int + b as int) - 0x10000000000000000);
        }
        r
    }
}

/// The checksum of a byte run.
pub fn checksum(bytes: &Vec<u8>, start: usize, len: usize) -> (r: u64)
    requires
        start + len <= bytes@.len(),
    ensures
        r == spec_checksum(bytes@.subrange(start as int, start + len)),
{
    let total = bytes.len();
    let mut c: u64 = 0;
    let mut i: usize = 0;
    proof {
        assert(bytes@.subrange(start as int, start as int) =~= Seq::<u8>::empty());
    }
    while i < len
        invariant
            i <= len,
            total == bytes@.len(),
            start + len <= bytes@.len(),
            c == spec_checksum(bytes@.subrange(start as int, start + i)),
        decreases len - i,
    {
        let ghost pre = bytes@.subrange(start as int, start + i);
        c = add_wrap(c, bytes[start + i] as u64);
        proof {
            assert(bytes@.subrange(start as int, start + i + 1).drop_last() =~= pre);
            assert(bytes@.subrange(start as int, start + i + 1).last() == bytes@[start + i]);
        }
        i = i + 1;
    }
    c
}

/// `n` zero bytes, the padding between sections.
pub open spec fn spec_zeros(n: int) -> Seq<u8> {
    Seq::new(n as nat, |i: int| 0u8)
}

/// The byte run of the page-handle records: address, page identifier,
/// offset and size for each page.
pub open spec fn spec_recs_bytes(recs: Seq<(u64, u64, PageFileHandle)>) -> Seq<u8>
    decreases recs.len(),
{
    if recs.len() == 0 {
        Seq::empty()
    } else {
        spec_recs_bytes(recs.drop_last()) + spec_rec_bytes(recs.last())
    }
}

pub open spec fn spec_rec_bytes(r: (u64, u64, PageFileHandle)) -> Seq<u8> {
    spec_u64_to_le_bytes(r.0) + spec_u64_to_le_bytes(r.1) + spec_u32_to_le_bytes(r.2.offset)
        + spec_u32_to_le_bytes(r.2.size)
}

/// The byte run of the deleted-page addresses.
pub open spec fn spec_dels_bytes(dels: Seq<u64>) -> Seq<u8>
    decreases dels.len(),
{
    if dels.len() == 0 {
        Seq::empty()
    } else {
        spec_dels_bytes(dels.drop_last()) + spec_u64_to_le_bytes(dels.last())
    }
}

/// What one page file holds, abstractly: its identity, geometry, payload
/// bytes, page-handle records and deleted-page addresses.
pub struct FileSpec {
    pub file_id: u32,
    pub block_size: u32,
    pub data: Seq<u8>,
    pub recs: Seq<(u64, u64, PageFileHandle)>,
    pub dels: Seq<u64>,
}

impl FileSpec {
    pub open spec fn table_off(self) -> int {
        spec_align_up(self.data.len() as int, self.block_size as int)
    }

    pub open spec fn table_len(self) -> int {
        4 + 24 * self.recs.len() as int
    }

    pub open spec fn delete_off(self) -> int {
        spec_align_up(self.table_off() + self.table_len(), self.block_size as int)
    }

    pub open spec fn delete_len(self) -> int {
        4 + 8 * self.dels.len() as int
    }

    pub open spec fn meta_off(self) -> int {
        spec_align_up(self.delete_off() + self.delete_len(), self.block_size as int)
    }

    pub open spec fn meta_bytes(self) -> Seq<u8> {
        spec_u32_to_le_bytes(self.file_id) + spec_u32_to_le_bytes(self.block_size)
            + spec_u32_to_le_bytes(self.data.len() as u32) + spec_u32_to_le_bytes(
            self.table_off() as u32,
        ) + spec_u32_to_le_bytes(self.recs.len() as u32) + spec_u32_to_le_bytes(
            self.delete_off() as u32,
        ) + spec_u32_to_le_bytes(self.dels.len() as u32)
    }

    pub open spec fn footer_bytes(self) -> Seq<u8> {
        spec_u64_to_le_bytes(FILE_MAGIC) + spec_u32_to_le_bytes(self.meta_off() as u32)
            + spec_u32_to_le_bytes(28u32) + spec_u64_to_le_bytes(spec_checksum(self.meta_bytes()))
    }

    /// The whole file: payload, aligned sections, meta and footer.
    pub open spec fn image(self) -> Seq<u8> {
        self.data + spec_zeros(self.table_off() - self.data.len()) + spec_u32_to_le_bytes(
            self.recs.len() as u32,
        ) + spec_recs_bytes(self.recs) + spec_zeros(
            self.delete_off() - self.table_off() - self.table_len(),
        ) + spec_u32_to_le_bytes(self.dels.len() as u32) + spec_dels_bytes(self.dels)
            + spec_zeros(self.meta_off() - self.delete_off() - self.delete_len())
            + self.meta_bytes() + self.footer_bytes()
    }

    /// Geometry small enough that every offset fits its 32-bit field.
    pub open spec fn wf(self) -> bool {
        &&& self.block_size > 0
        &&& self.data.len() + 3 * self.block_size + 60 + 24 * self.recs.len() + 8
            * self.dels.len() <= u32::MAX
    }
}

proof fn lemma_recs_bytes_len(recs: Seq<(u64, u64, PageFileHandle)>)
    ensures
        spec_recs_bytes(recs).len() == 24 * recs.len(),
    decreases recs.len(),
{
    lemma_auto_spec_u32_to_from_le_bytes();
    lemma_auto_spec_u64_to_from_le_bytes();
    if recs.len() > 0 {
        lemma_recs_bytes_len(recs.drop_last());
    }
}

proof fn lemma_dels_bytes_len(dels: Seq<u64>)
    ensures
        spec_dels_bytes(dels).len() == 8 * dels.len(),
    decreases dels.len(),
{
    lemma_auto_spec_u64_to_from_le_bytes();
    if dels.len() > 0 {
        lemma_dels_bytes_len(dels.drop_last());
    }
}

proof fn lemma_recs_bytes_push(recs: Seq<(u64, u64, PageFileHandle)>, n: int)
    requires
        0 <= n < recs.len(),
    ensures
        spec_recs_bytes(recs.take(n + 1)) == spec_recs_bytes(recs.take(n)) + spec_rec_bytes(
            recs[n],
        ),
{
    assert(recs.take(n + 1).drop_last() =~= recs.take(n));
    assert(recs.take(n + 1).last() == recs[n]);
}

proof fn lemma_dels_bytes_push(dels: Seq<u64>, n: int)
    requires
        0 <= n < dels.len(),
    ensures
        spec_dels_bytes(dels.take(n + 1)) == spec_dels_bytes(dels.take(n)) + spec_u64_to_le_bytes(
            dels[n],
        ),
{
    assert(dels.take(n + 1).drop_last() =~= dels.take(n));
    assert(dels.take(n + 1).last() == dels[n]);
}

/// Appends `n` zero bytes.
fn append_zeros(out: &mut Vec<u8>, n: usize)
    requires
        old(out)@.len() + n <= usize::MAX,
    ensures
        final(out)@ == old(out)@ + spec_zeros(n as int),
{
    let ghost out0 = out@;
    let mut i: usize = 0;
    while i < n
        invariant
            i <= n,
            out0.len() + n <= usize::MAX,
            out@ == out0 + spec_zeros(i as int),
        decreases n - i,
    {
        out.push(0u8);
        proof {
            assert(out@ =~= out0 + spec_zeros(i + 1));
        }
        i = i + 1;
    }
}

/// The sum of the sizes of a run of page handles.
pub open spec fn handle_sum(s: Seq<(u64, PageFileHandle)>) -> int
    decreases s.len(),
{
    if s.len() == 0 {
        0
    } else {
        handle_sum(s.drop_last()) + s.last().1.size
    }
}

/// The sum of the sizes of the recorded pages.
pub open spec fn recs_size_sum(recs: Seq<(u64, u64, PageFileHandle)>) -> int
    decreases recs.len(),
{
    if recs.len() == 0 {
        0
    } else {
        recs_size_sum(recs.drop_last()) + recs.last().2.size
    }
}

proof fn lemma_recs_sum_prefix(recs: Seq<(u64, u64, PageFileHandle)>, j: int)
    requires
        0 <= j <= recs.len(),
    ensures
        recs_size_sum(recs.take(j)) <= recs_size_sum(recs),
    decreases recs.len() - j,
{
    if j == recs.len() {
        assert(recs.take(j) =~= recs);
    } else {
        lemma_recs_sum_prefix(recs, j + 1);
        assert(recs.take(j + 1).drop_last() =~= recs.take(j));
        assert(recs.take(j + 1).last() == recs[j]);
    }
}

/// The fixed-size meta section of a page file, parsed.
#[derive(Clone, Copy, Debug, PartialEq, Eq, Structural)]
pub struct FileMeta {
    pub file_id: u32,
    pub block_size: u32,
    pub total_page_size: u32,
    pub table_off: u32,
    pub table_count: u32,
    pub delete_off: u32,
    pub delete_count: u32,
}

impl FileMeta {
    pub fn get_file_id(&self) -> (r: u32)
        ensures
            r == self.file_id,
    {
        self.file_id
    }

    /// The bytes of page payload the file carries.
    pub fn total_page_size(&self) -> (r: usize)
        ensures
            r == self.total_page_size,
    {
        self.total_page_size as usize
    }
}

/// The live view of one page file: its meta, the handles of its live pages,
/// and their total size.
pub struct FileInfo {
    pub meta: FileMeta,
    pub active: Vec<(u64, PageFileHandle)>,
    pub effective_size: usize,
}

impl FileInfo {
    pub open spec fn wf(self) -> bool {
        self.effective_size == handle_sum(self.active@)
    }

    /// The handle of the live page at `addr`, if it is live in this file.
    pub fn get_page_handle(&self, addr: u64) -> (r: Option<PageFileHandle>)
        ensures
            match r {
                Some(h) => exists|i: int|
                    0 <= i < self.active@.len() && #[trigger] self.active@[i] == (addr, h),
                None => forall|i: int|
                    0 <= i < self.active@.len() ==> (#[trigger] self.active@[i]).0 != addr,
            },
    {
        let n = self.active.len();
        let mut i: usize = 0;
        while i < n
            invariant
                n == self.active@.len(),
                i <= n,
                forall|j: int| 0 <= j < i ==> (#[trigger] self.active@[j]).0 != addr,
            decreases n - i,
        {
            let e = &self.active[i];
            if e.0 == addr {
                proof {
                    assert(self.active@[i as int] == (addr, e.1));
                }
                return Some(e.1);
            }
            i = i + 1;
        }
        None
    }

    /// The total size of the file's live pages.
    pub fn effective_size(&self) -> (r: usize)
        ensures
            r == self.effective_size,
    {
        self.effective_size
    }

    pub fn meta(&self) -> (r: &FileMeta)
        ensures
            *r == self.meta,
    {
        &self.meta
    }
}

impl FileBuilder {
    /// The abstract file this builder will lay out.
    pub open spec fn spec_file(self) -> FileSpec {
        FileSpec {
            file_id: self.file_id,
            block_size: self.block_size as u32,
            data: self.data@,
            recs: self.table@,
            dels: self.delete_pages@,
        }
    }

    /// Lays the sections out into the file's bytes.
    #[verifier::rlimit(100)]
    #[verifier::spinoff_prover]
    fn build_image(&self) -> (image: Vec<u8>)
        requires
            self.wf(),
            self.spec_file().wf(),
        ensures
            image@ == self.spec_file().image(),
    {
        let ghost f = self.spec_file();
        proof {
            lemma_auto_spec_u32_to_from_le_bytes();
            lemma_auto_spec_u64_to_from_le_bytes();
            lemma_recs_bytes_len(self.table@);
            lemma_dels_bytes_len(self.delete_pages@);
        }
        let n_recs = self.table.len();
        let n_dels = self.delete_pages.len();
        let data_len = self.data.len();
        let bs = self.block_size;
        proof {
            assert(u32::MAX <= usize::MAX);
            assert(data_len + 3 * bs + 60 + 24 * n_recs + 8 * n_dels <= u32::MAX);
        }
        let t0 = align_up(data_len, bs);
        let table_len = 4 + 24 * n_recs;
        let l0 = align_up(t0 + table_len, bs);
        let delete_len = 4 + 8 * n_dels;
        let m0 = align_up(l0 + delete_len, bs);
        proof {
            assert(t0 == f.table_off());
            assert(l0 == f.delete_off());
            assert(m0 == f.meta_off());
            assert(m0 + 52 <= u32::MAX);
        }
        let mut image = copy_whole(&self.data);
        append_zeros(&mut image, t0 - data_len);
        let count_bytes = u32_to_le_bytes(n_recs as u32);
        append_bytes(&mut image, &count_bytes);
        let ghost recs_start = image@;
        proof {
            assert(recs_start.len() == t0 + 4);
            assert(spec_recs_bytes(self.table@.take(0)) =~= Seq::<u8>::empty());
            assert(image@ =~= recs_start + spec_recs_bytes(self.table@.take(0)));
        }
        let mut j: usize = 0;
        while j < n_recs
            invariant
                n_recs == self.table@.len(),
                j <= n_recs,
                t0 + 4 == recs_start.len(),
                t0 + 4 + 24 * n_recs <= l0 <= m0,
                m0 + 52 <= u32::MAX,
                image@ == recs_start + spec_recs_bytes(self.table@.take(j as int)),
            decreases n_recs - j,
        {
            proof {
                lemma_auto_spec_u32_to_from_le_bytes();
                lemma_auto_spec_u64_to_from_le_bytes();
                lemma_recs_bytes_push(self.table@, j as int);
                lemma_recs_bytes_len(self.table@.take(j as int));
                assert(image@.len() == t0 + 4 + 24 * j);
            }
            let e = &self.table[j];
            let w1 = u64_to_le_bytes(e.0);
            append_bytes(&mut image, &w1);
            let w2 = u64_to_le_bytes(e.1);
            append_bytes(&mut image, &w2);
            let w3 = u32_to_le_bytes(e.2.offset);
            append_bytes(&mut image, &w3);
            let w4 = u32_to_le_bytes(e.2.size);
            append_bytes(&mut image, &w4);
            proof {
                assert(spec_rec_bytes(self.table@[j as int]) == spec_u64_to_le_bytes(e.0)
                    + spec_u64_to_le_bytes(e.1) + spec_u32_to_le_bytes(e.2.offset)
                    + spec_u32_to_le_bytes(e.2.size));
                assert(image@ =~= recs_start + spec_recs_bytes(self.table@.take(j + 1)));
            }
            j = j + 1;
        }
        proof {
            assert(self.table@.take(n_recs as int) =~= self.table@);
            lemma_recs_bytes_len(self.table@);
            assert(image@.len() == t0 + table_len);
        }
        append_zeros(&mut image, l0 - (t0 + table_len));
        let count_bytes2 = u32_to_le_bytes(n_dels as u32);
        append_bytes(&mut image, &count_bytes2);
        let ghost dels_start = image@;
        proof {
            assert(dels_start.len() == l0 + 4);
            assert(spec_dels_bytes(self.delete_pages@.take(0)) =~= Seq::<u8>::empty());
            assert(image@ =~= dels_start + spec_dels_bytes(self.delete_pages@.take(0)));
        }
        let mut j2: usize = 0;
        while j2 < n_dels
            invariant
                n_dels == self.delete_pages@.len(),
                j2 <= n_dels,
                l0 + 4 == dels_start.len(),
                l0 + 4 + 8 * n_dels <= m0,
                m0 + 52 <= u32::MAX,
                image@ == dels_start + spec_dels_bytes(self.delete_pages@.take(j2 as int)),
            decreases n_dels - j2,
        {
            proof {
                lemma_auto_spec_u64_to_from_le_bytes();
                lemma_dels_bytes_push(self.delete_pages@, j2 as int);
                lemma_dels_bytes_len(self.delete_pages@.take(j2 as int));
                assert(image@.len() == l0 + 4 + 8 * j2);
            }
            let w = u64_to_le_bytes(self.delete_pages[j2]);
            append_bytes(&mut image, &w);
            proof {
                assert(image@ =~= dels_start + spec_dels_bytes(self.delete_pages@.take(j2 + 1)));
            }
            j2 = j2 + 1;
        }
        proof {
            assert(self.delete_pages@.take(n_dels as int) =~= self.delete_pages@);
            lemma_dels_bytes_len(self.delete_pages@);
            assert(image@.len() == l0 + delete_len);
        }
        append_zeros(&mut image, m0 - (l0 + delete_len));
        let meta_start = image.len();
        proof {
            assert(meta_start == m0);
        }
        let mw0 = u32_to_le_bytes(self.file_id);
        append_bytes(&mut image, &mw0);
        let mw1 = u32_to_le_bytes(bs as u32);
        append_bytes(&mut image, &mw1);
        let mw2 = u32_to_le_bytes(data_len as u32);
        append_bytes(&mut image, &mw2);
        let mw3 = u32_to_le_bytes(t0 as u32);
        append_bytes(&mut image, &mw3);
        let mw4 = u32_to_le_bytes(n_recs as u32);
        append_bytes(&mut image, &mw4);
        let mw5 = u32_to_le_bytes(l0 as u32);
        append_bytes(&mut image, &mw5);
        let mw6 = u32_to_le_bytes(n_dels as u32);
        append_bytes(&mut image, &mw6);
        proof {
            assert(image@.subrange(meta_start as int, meta_start + 28) =~= f.meta_bytes());
        }
        let ck = checksum(&image, meta_start, 28);
        proof {
            assert(ck == spec_checksum(f.meta_bytes()));
        }
        let fw0 = u64_to_le_bytes(FILE_MAGIC);
        append_bytes(&mut image, &fw0);
        let fw1 = u32_to_le_bytes(m0 as u32);
        append_bytes(&mut image, &fw1);
        let fw2 = u32_to_le_bytes(28u32);
        append_bytes(&mut image, &fw2);
        let fw3 = u64_to_le_bytes(ck);
        append_bytes(&mut image, &fw3);
        proof {
            assert(image@ =~= f.image());
        }
        image
    }

    /// Summarizes the live pages of the file being finished.
    fn build_info(&self) -> (info: FileInfo)
        requires
            self.wf(),
            self.spec_file().wf(),
            forall|i: int, j: int|
                0 <= i < j < self.table@.len() ==> (#[trigger] self.table@[i]).0 != (
                #[trigger] self.table@[j]).0,
        ensures
            info.wf(),
            info.meta.file_id == self.file_id,
            info.meta.block_size == self.block_size,
            info.meta.total_page_size == self.data@.len(),
            info.active@ == self.table@.map(
                |i: int, e: (u64, u64, PageFileHandle)| (e.0, e.2),
            ),
    {
        let n_recs = self.table.len();
        proof {
            assert(u32::MAX <= usize::MAX);
            assert(self.data@.len() + 3 * self.block_size + 60 + 24 * n_recs <= u32::MAX);
            assert(self.block_size <= u32::MAX);
        }
        let mut active: Vec<(u64, PageFileHandle)> = Vec::new();
        let mut effective: usize = 0;
        let mut j3: usize = 0;
        proof {
            assert(active@ =~= self.table@.take(0).map(
                |i: int, e: (u64, u64, PageFileHandle)| (e.0, e.2),
            ));
            assert(recs_size_sum(self.table@.take(0)) == 0) by {
                assert(self.table@.take(0) =~= Seq::<(u64, u64, PageFileHandle)>::empty());
            }
        }
        while j3 < n_recs
            invariant
                n_recs == self.table@.len(),
                j3 <= n_recs,
                self.wf(),
                active@ == self.table@.take(j3 as int).map(
                    |i: int, e: (u64, u64, PageFileHandle)| (e.0, e.2),
                ),
                effective == handle_sum(active@),
                effective == recs_size_sum(self.table@.take(j3 as int)),
            decreases n_recs - j3,
        {
            let ghost active0 = active@;
            proof {
                lemma_recs_sum_prefix(self.table@, j3 + 1);
                assert(self.table@.take(j3 + 1).drop_last() =~= self.table@.take(j3 as int));
                assert(self.table@.take(j3 + 1).last() == self.table@[j3 as int]);
            }
            let e = &self.table[j3];
            active.push((e.0, e.2));
            proof {
                assert(active@ =~= self.table@.take(j3 + 1).map(
                    |i: int, e: (u64, u64, PageFileHandle)| (e.0, e.2),
                ));
                assert(active@.drop_last() =~= active0);
                assert(active@.last() == (e.0, e.2));
            }
            effective = effective + e.2.size as usize;
            j3 = j3 + 1;
        }
        proof {
            assert(self.table@.take(n_recs as int) =~= self.table@);
            assert forall|a: int, b: int| 0 <= a < b < active@.len() implies (
            #[trigger] active@[a]).0 != (#[trigger] active@[b]).0 by {
                assert(active@[a].0 == self.table@[a].0);
                assert(active@[b].0 == self.table@[b].0);
            }
        }
        FileInfo {
            meta: FileMeta {
                file_id: self.file_id,
                block_size: self.block_size as u32,
                total_page_size: self.data.len() as u32,
                table_off: align_up(self.data.len(), self.block_size) as u32,
                table_count: n_recs as u32,
                delete_off: 0,
                delete_count: self.delete_pages.len() as u32,
            },
            active,
            effective_size: effective,
        }
    }

    /// Lays the file out: payload, page-handle table, deleted-page list,
    /// meta and footer, each section starting at a block-aligned offset,
    /// and returns the live view together with the file's bytes.
    pub fn finish(self) -> (r: (FileInfo, Vec<u8>))
        requires
            self.wf(),
            self.spec_file().wf(),
            forall|i: int, j: int|
                0 <= i < j < self.table@.len() ==> (#[trigger] self.table@[i]).0 != (
                #[trigger] self.table@[j]).0,
        ensures
            r.1@ == self.spec_file().image(),
            r.0.wf(),
            r.0.meta.file_id == self.file_id,
            r.0.meta.block_size == self.block_size,
            r.0.meta.total_page_size == self.data@.len(),
            r.0.active@ == self.table@.map(
                |i: int, e: (u64, u64, PageFileHandle)| (e.0, e.2),
            ),
            r.0.effective_size == self.data@.len(),
            forall|i: int|
                0 <= i < self.table@.len() ==> r.1@.subrange(
                    (#[trigger] self.table@[i]).2.offset as int,
                    self.table@[i].2.offset + self.table@[i].2.size,
                ) == self.spec_contents()[self.table@[i].0],
    {
        let image = self.build_image();
        let info = self.build_info();
        proof {
            assert(handle_sum(info.active@) == recs_size_sum(self.table@)) by {
                lemma_handle_sum_matches(self.table@);
            }
            assert forall|i: int| 0 <= i < self.table@.len() implies image@.subrange(
                (#[trigger] self.table@[i]).2.offset as int,
                self.table@[i].2.offset + self.table@[i].2.size,
            ) == self.spec_contents()[self.table@[i].0] by {
                assert(image@.subrange(
                    self.table@[i].2.offset as int,
                    self.table@[i].2.offset + self.table@[i].2.size,
                ) =~= self.data@.subrange(
                    self.table@[i].2.offset as int,
                    self.table@[i].2.offset + self.table@[i].2.size,
                ));
            }
        }
        (info, image)
    }
}

/// The mapped handle run weighs as much as the records it came from.
proof fn lemma_handle_sum_matches(recs: Seq<(u64, u64, PageFileHandle)>)
    ensures
        handle_sum(recs.map(|i: int, e: (u64, u64, PageFileHandle)| (e.0, e.2)))
            == recs_size_sum(recs),
    decreases recs.len(),
{
    let mapped = recs.map(|i: int, e: (u64, u64, PageFileHandle)| (e.0, e.2));
    if recs.len() > 0 {
        lemma_handle_sum_matches(recs.drop_last());
        assert(mapped.drop_last() =~= recs.drop_last().map(
            |i: int, e: (u64, u64, PageFileHandle)| (e.0, e.2),
        ));
        assert(mapped.last() == (recs.last().0, recs.last().2));
    } else {
        assert(mapped.len() == 0);
    }
}

/// Copies a whole byte vector.
fn copy_whole(src: &Vec<u8>) -> (r: Vec<u8>)
    ensures
        r@ == src@,
{
    let r = copy_range(src, 0, src.len());
    proof {
        assert(src@.subrange(0, src@.len() as int) =~= src@);
    }
    r
}

/// Section placement inside a laid-out file.
#[verifier::rlimit(100)]
#[verifier::spinoff_prover]
proof fn lemma_image_fields(f: FileSpec)
    requires
        f.wf(),
    ensures
        f.image().len() == f.meta_off() + 52,
        0 <= f.data.len() <= f.table_off(),
        f.table_off() + f.table_len() <= f.delete_off(),
        f.delete_off() + f.delete_len() <= f.meta_off(),
        f.meta_off() + 52 <= u32::MAX,
        f.image().subrange(0, f.data.len() as int) == f.data,
        f.image().subrange(f.table_off(), f.table_off() + 4) == spec_u32_to_le_bytes(
            f.recs.len() as u32,
        ),
        f.image().subrange(f.table_off() + 4, f.table_off() + f.table_len())
            == spec_recs_bytes(f.recs),
        f.image().subrange(f.delete_off(), f.delete_off() + 4) == spec_u32_to_le_bytes(
            f.dels.len() as u32,
        ),
        f.image().subrange(f.delete_off() + 4, f.delete_off() + f.delete_len())
            == spec_dels_bytes(f.dels),
        f.image().subrange(f.meta_off(), f.meta_off() + 28) == f.meta_bytes(),
        f.image().subrange(f.meta_off() + 28, f.meta_off() + 52) == f.footer_bytes(),
{
    lemma_auto_spec_u32_to_from_le_bytes();
    lemma_auto_spec_u64_to_from_le_bytes();
    lemma_recs_bytes_len(f.recs);
    lemma_dels_bytes_len(f.dels);
    let d = f.data.len() as int;
    let bi = f.block_size as int;
    assert(0 <= d % bi < bi && 0 <= (f.table_off() + f.table_len()) % bi < bi && 0 <= (
    f.delete_off() + f.delete_len()) % bi < bi) by (nonlinear_arith)
        requires
            bi > 0,
            d >= 0,
            f.table_off() + f.table_len() >= 0,
            f.delete_off() + f.delete_len() >= 0,
    ;
    assert(f.meta_bytes().len() == 28);
    assert(f.footer_bytes().len() == 24);
    assert(f.image().len() == f.meta_off() + 52);
    assert(f.image().subrange(0, d) =~= f.data);
    assert(f.image().subrange(f.table_off(), f.table_off() + 4) =~= spec_u32_to_le_bytes(
        f.recs.len() as u32,
    ));
    assert(f.image().subrange(f.table_off() + 4, f.table_off() + f.table_len())
        =~= spec_recs_bytes(f.recs));
    assert(f.image().subrange(f.delete_off(), f.delete_off() + 4) =~= spec_u32_to_le_bytes(
        f.dels.len() as u32,
    ));
    assert(f.image().subrange(f.delete_off() + 4, f.delete_off() + f.delete_len())
        =~= spec_dels_bytes(f.dels));
    assert(f.image().subrange(f.meta_off(), f.meta_off() + 28) =~= f.meta_bytes());
    assert(f.image().subrange(f.meta_off() + 28, f.meta_off() + 52) =~= f.footer_bytes());
}

/// Record `i` sits at rank `24 * i` of the record run.
proof fn lemma_recs_bytes_word(recs: Seq<(u64, u64, PageFileHandle)>, i: int)
    requires
        0 <= i < recs.len(),
    ensures
        spec_recs_bytes(recs).subrange(24 * i, 24 * i + 24) == spec_rec_bytes(recs[i]),
    decreases recs.len(),
{
    lemma_auto_spec_u32_to_from_le_bytes();
    lemma_auto_spec_u64_to_from_le_bytes();
    lemma_recs_bytes_len(recs);
    if i == recs.len() - 1 {
        lemma_recs_bytes_len(recs.drop_last());
        assert(spec_recs_bytes(recs).subrange(24 * i, 24 * i + 24) =~= spec_rec_bytes(recs[i]));
    } else {
        lemma_recs_bytes_word(recs.drop_last(), i);
        lemma_recs_bytes_len(recs.drop_last());
        assert(recs.drop_last()[i] == recs[i]);
        assert(spec_recs_bytes(recs).subrange(24 * i, 24 * i + 24) =~= spec_recs_bytes(
            recs.drop_last(),
        ).subrange(24 * i, 24 * i + 24));
    }
}

/// Address `i` sits at rank `8 * i` of the deleted-page run.
proof fn lemma_dels_bytes_word(dels: Seq<u64>, i: int)
    requires
        0 <= i < dels.len(),
    ensures
        spec_dels_bytes(dels).subrange(8 * i, 8 * i + 8) == spec_u64_to_le_bytes(dels[i]),
    decreases dels.len(),
{
    lemma_auto_spec_u64_to_from_le_bytes();
    lemma_dels_bytes_len(dels);
    if i == dels.len() - 1 {
        lemma_dels_bytes_len(dels.drop_last());
        assert(spec_dels_bytes(dels).subrange(8 * i, 8 * i + 8) =~= spec_u64_to_le_bytes(dels[i]));
    } else {
        lemma_dels_bytes_word(dels.drop_last(), i);
        lemma_dels_bytes_len(dels.drop_last());
        assert(spec_dels_bytes(dels).subrange(8 * i, 8 * i + 8) =~= spec_dels_bytes(
            dels.drop_last(),
        ).subrange(8 * i, 8 * i + 8));
    }
}

proof fn lemma_u32_words_eq(x: u32, y: u32)
    requires
        spec_u32_to_le_bytes(x) == spec_u32_to_le_bytes(y),
    ensures
        x == y,
{
    lemma_auto_spec_u32_to_from_le_bytes();
    assert(spec_u32_to_le_bytes(x).len() == 4);
    assert(spec_u32_to_le_bytes(y).len() == 4);
    assert(vstd::bytes::spec_u32_from_le_bytes(spec_u32_to_le_bytes(x)) == x);
    assert(vstd::bytes::spec_u32_from_le_bytes(spec_u32_to_le_bytes(y)) == y);
}

proof fn lemma_u64_words_eq(x: u64, y: u64)
    requires
        spec_u64_to_le_bytes(x) == spec_u64_to_le_bytes(y),
    ensures
        x == y,
{
    lemma_auto_spec_u64_to_from_le_bytes();
    assert(vstd::bytes::spec_u64_from_le_bytes(spec_u64_to_le_bytes(x)) == x);
    assert(vstd::bytes::spec_u64_from_le_bytes(spec_u64_to_le_bytes(y)) == y);
}

/// Equal record bytes hold equal records.
proof fn lemma_rec_bytes_eq(a: (u64, u64, PageFileHandle), b: (u64, u64, PageFileHandle))
    requires
        spec_rec_bytes(a) == spec_rec_bytes(b),
    ensures
        a == b,
{
    lemma_auto_spec_u32_to_from_le_bytes();
    lemma_auto_spec_u64_to_from_le_bytes();
    assert(spec_u64_to_le_bytes(a.0) =~= spec_rec_bytes(a).subrange(0, 8));
    assert(spec_u64_to_le_bytes(b.0) =~= spec_rec_bytes(b).subrange(0, 8));
    lemma_u64_words_eq(a.0, b.0);
    assert(spec_u64_to_le_bytes(a.1) =~= spec_rec_bytes(a).subrange(8, 16));
    assert(spec_u64_to_le_bytes(b.1) =~= spec_rec_bytes(b).subrange(8, 16));
    lemma_u64_words_eq(a.1, b.1);
    assert(spec_u32_to_le_bytes(a.2.offset) =~= spec_rec_bytes(a).subrange(16, 20));
    assert(spec_u32_to_le_bytes(b.2.offset) =~= spec_rec_bytes(b).subrange(16, 20));
    lemma_u32_words_eq(a.2.offset, b.2.offset);
    assert(spec_u32_to_le_bytes(a.2.size) =~= spec_rec_bytes(a).subrange(20, 24));
    assert(spec_u32_to_le_bytes(b.2.size) =~= spec_rec_bytes(b).subrange(20, 24));
    lemma_u32_words_eq(a.2.size, b.2.size);
}

/// A validated view of a file's meta and footer: the reader plus the parsed
/// meta whose sections have passed their bounds checks.
pub struct MetaReader {
    pub reader: PageFileReader,
    pub meta: FileMeta,
}

/// The meta a laid-out file stores.
pub open spec fn spec_meta_of(f: FileSpec) -> FileMeta {
    FileMeta {
        file_id: f.file_id,
        block_size: f.block_size,
        total_page_size: f.data.len() as u32,
        table_off: f.table_off() as u32,
        table_count: f.recs.len() as u32,
        delete_off: f.delete_off() as u32,
        delete_count: f.dels.len() as u32,
    }
}

impl MetaReader {
    pub open spec fn wf(self) -> bool {
        &&& self.reader.wf()
        &&& self.meta.table_off + 4 + 24 * self.meta.table_count <= self.reader.image@.len()
        &&& self.meta.delete_off + 4 + 8 * self.meta.delete_count <= self.reader.image@.len()
    }

    /// Reads and verifies the footer and the meta section; a file whose
    /// footer or checksum does not verify is refused as corrupted.
    #[verifier::rlimit(100)]
    #[verifier::spinoff_prover]
    pub fn open(reader: PageFileReader, file_id: u32) -> (r: Result<MetaReader, Error>)
        requires
            reader.wf(),
        ensures
            forall|f: FileSpec|
                #[trigger] f.wf() && reader.image@ == f.image() && f.file_id == file_id ==> r
                    is Ok,
            r is Ok ==> (#[trigger] (r->Ok_0)).wf() && r->Ok_0.reader == reader && (forall|
                f: FileSpec,
            |
                #[trigger] f.wf() && reader.image@ == f.image() && f.file_id == file_id
                    ==> r->Ok_0.meta == spec_meta_of(f)),
            r is Err ==> r->Err_0 is Corrupted,
    {
        let img_len = reader.image.len();
        if img_len < 52 {
            proof {
                assert forall|f: FileSpec| #[trigger] f.wf() && reader.image@ == f.image()
                    && f.file_id == file_id implies false by {
                    lemma_image_fields(f);
                }
            }
            return Err(Error::Corrupted);
        }
        let magic = read_u64(&reader.image, img_len - 24);
        let meta_off_w = read_u32(&reader.image, img_len - 16);
        let meta_len_w = read_u32(&reader.image, img_len - 12);
        let ck_w = read_u64(&reader.image, img_len - 8);
        proof {
            assert forall|f: FileSpec| #[trigger] f.wf() && reader.image@ == f.image()
                && f.file_id == file_id implies magic == FILE_MAGIC && meta_off_w
                == f.meta_off() && meta_len_w == 28 && ck_w == spec_checksum(f.meta_bytes())
                && img_len == f.meta_off() + 52 by {
                lemma_image_fields(f);
                lemma_auto_spec_u32_to_from_le_bytes();
                lemma_auto_spec_u64_to_from_le_bytes();
                let m0 = f.meta_off();
                assert(reader.image@.subrange(m0 + 28, m0 + 52) == f.footer_bytes());
                assert(spec_u64_to_le_bytes(magic) =~= f.footer_bytes().subrange(0, 8));
                assert(f.footer_bytes().subrange(0, 8) =~= spec_u64_to_le_bytes(FILE_MAGIC));
                lemma_u64_words_eq(magic, FILE_MAGIC);
                assert(spec_u32_to_le_bytes(meta_off_w) =~= f.footer_bytes().subrange(8, 12));
                assert(f.footer_bytes().subrange(8, 12) =~= spec_u32_to_le_bytes(m0 as u32));
                lemma_u32_words_eq(meta_off_w, m0 as u32);
                assert(spec_u32_to_le_bytes(meta_len_w) =~= f.footer_bytes().subrange(12, 16));
                assert(f.footer_bytes().subrange(12, 16) =~= spec_u32_to_le_bytes(28u32));
                lemma_u32_words_eq(meta_len_w, 28u32);
                assert(spec_u64_to_le_bytes(ck_w) =~= f.footer_bytes().subrange(16, 24));
                assert(f.footer_bytes().subrange(16, 24) =~= spec_u64_to_le_bytes(
                    spec_checksum(f.meta_bytes()),
                ));
                lemma_u64_words_eq(ck_w, spec_checksum(f.meta_bytes()));
            }
        }
        if magic != FILE_MAGIC {
            return Err(Error::Corrupted);
        }
        if meta_len_w != 28 {
            return Err(Error::Corrupted);
        }
        let m0 = meta_off_w as usize;
        if m0 > img_len || img_len - m0 != 52 {
            return Err(Error::Corrupted);
        }
        let ck = checksum(&reader.image, m0, 28);
        if ck != ck_w {
            proof {
                assert forall|f: FileSpec| #[trigger] f.wf() && reader.image@ == f.image()
                    && f.file_id == file_id implies false by {
                    lemma_image_fields(f);
                    assert(reader.image@.subrange(m0 as int, m0 + 28) == f.meta_bytes());
                }
            }
            return Err(Error::Corrupted);
        }
        let w_file_id = read_u32(&reader.image, m0);
        let w_bs = read_u32(&reader.image, m0 + 4);
        let w_total = read_u32(&reader.image, m0 + 8);
        let w_t0 = read_u32(&reader.image, m0 + 12);
        let w_tcount = read_u32(&reader.image, m0 + 16);
        let w_l0 = read_u32(&reader.image, m0 + 20);
        let w_dcount = read_u32(&reader.image, m0 + 24);
        proof {
            assert forall|f: FileSpec| #[trigger] f.wf() && reader.image@ == f.image()
                && f.file_id == file_id implies w_file_id == f.file_id && w_bs == f.block_size
                && w_total == f.data.len() && w_t0 == f.table_off() && w_tcount == f.recs.len()
                && w_l0 == f.delete_off() && w_dcount == f.dels.len() by {
                lemma_image_fields(f);
                lemma_auto_spec_u32_to_from_le_bytes();
                assert(reader.image@.subrange(f.meta_off(), f.meta_off() + 28) == f.meta_bytes());
                assert(spec_u32_to_le_bytes(w_file_id) =~= f.meta_bytes().subrange(0, 4));
                assert(f.meta_bytes().subrange(0, 4) =~= spec_u32_to_le_bytes(f.file_id));
                lemma_u32_words_eq(w_file_id, f.file_id);
                assert(spec_u32_to_le_bytes(w_bs) =~= f.meta_bytes().subrange(4, 8));
                assert(f.meta_bytes().subrange(4, 8) =~= spec_u32_to_le_bytes(f.block_size));
                lemma_u32_words_eq(w_bs, f.block_size);
                assert(spec_u32_to_le_bytes(w_total) =~= f.meta_bytes().subrange(8, 12));
                assert(f.meta_bytes().subrange(8, 12) =~= spec_u32_to_le_bytes(
                    f.data.len() as u32,
                ));
                lemma_u32_words_eq(w_total, f.data.len() as u32);
                assert(spec_u32_to_le_bytes(w_t0) =~= f.meta_bytes().subrange(12, 16));
                assert(f.meta_bytes().subrange(12, 16) =~= spec_u32_to_le_bytes(
                    f.table_off() as u32,
                ));
                lemma_u32_words_eq(w_t0, f.table_off() as u32);
                assert(spec_u32_to_le_bytes(w_tcount) =~= f.meta_bytes().subrange(16, 20));
                assert(f.meta_bytes().subrange(16, 20) =~= spec_u32_to_le_bytes(
                    f.recs.len() as u32,
                ));
                lemma_u32_words_eq(w_tcount, f.recs.len() as u32);
                assert(spec_u32_to_le_bytes(w_l0) =~= f.meta_bytes().subrange(20, 24));
                assert(f.meta_bytes().subrange(20, 24) =~= spec_u32_to_le_bytes(
                    f.delete_off() as u32,
                ));
                lemma_u32_words_eq(w_l0, f.delete_off() as u32);
                assert(spec_u32_to_le_bytes(w_dcount) =~= f.meta_bytes().subrange(24, 28));
                assert(f.meta_bytes().subrange(24, 28) =~= spec_u32_to_le_bytes(
                    f.dels.len() as u32,
                ));
                lemma_u32_words_eq(w_dcount, f.dels.len() as u32);
            }
        }
        if w_file_id != file_id {
            return Err(Error::Corrupted);
        }
        if w_tcount > (u32::MAX - 4) / 24 || (w_t0 as usize) > img_len || 4 + 24 * (
        w_tcount as usize) > img_len - (w_t0 as usize) {
            return Err(Error::Corrupted);
        }
        if w_dcount > (u32::MAX - 4) / 8 || (w_l0 as usize) > img_len || 4 + 8 * (
        w_dcount as usize) > img_len - (w_l0 as usize) {
            return Err(Error::Corrupted);
        }
        let meta = FileMeta {
            file_id: w_file_id,
            block_size: w_bs,
            total_page_size: w_total,
            table_off: w_t0,
            table_count: w_tcount,
            delete_off: w_l0,
            delete_count: w_dcount,
        };
        Ok(MetaReader { reader, meta })
    }

    /// The parsed meta section.
    pub fn file_metadata(&self) -> (r: FileMeta)
        ensures
            r == self.meta,
    {
        self.meta
    }
}

impl MetaReader {
    /// Parses the page-handle table: one record per live page.
    pub fn read_page_table(&self) -> (r: Vec<(u64, u64, PageFileHandle)>)
        requires
            self.wf(),
        ensures
            r@.len() == self.meta.table_count,
            forall|t: int|
                0 <= t < r@.len() ==> spec_rec_bytes(#[trigger] r@[t])
                    == self.reader.image@.subrange(
                    self.meta.table_off + 4 + 24 * t,
                    self.meta.table_off + 4 + 24 * t + 24,
                ),
            forall|f: FileSpec|
                #[trigger] f.wf() && self.reader.image@ == f.image() && self.meta
                    == spec_meta_of(f) ==> r@ == f.recs,
    {
        let image = &self.reader.image;
        let img_len = image.len();
        let t0 = self.meta.table_off as usize;
        let count = self.meta.table_count as usize;
        let mut out: Vec<(u64, u64, PageFileHandle)> = Vec::new();
        let mut i: usize = 0;
        while i < count
            invariant
                self.wf(),
                image == &self.reader.image,
                img_len == image@.len(),
                t0 == self.meta.table_off,
                count == self.meta.table_count,
                i <= count,
                out@.len() == i,
                forall|t: int|
                    0 <= t < i ==> spec_rec_bytes(#[trigger] out@[t]) == image@.subrange(
                        t0 + 4 + 24 * t,
                        t0 + 4 + 24 * t + 24,
                    ),
            decreases count - i,
        {
            let base = t0 + 4 + 24 * i;
            let addr = read_u64(image, base);
            let page_id = read_u64(image, base + 8);
            let offset = read_u32(image, base + 16);
            let size = read_u32(image, base + 20);
            let rec = (addr, page_id, PageFileHandle { offset, size });
            proof {
                lemma_auto_spec_u32_to_from_le_bytes();
                lemma_auto_spec_u64_to_from_le_bytes();
                assert(spec_rec_bytes(rec) =~= image@.subrange(
                    t0 + 4 + 24 * i,
                    t0 + 4 + 24 * i + 24,
                ));
            }
            out.push(rec);
            i = i + 1;
        }
        proof {
            assert forall|f: FileSpec| #[trigger] f.wf() && self.reader.image@ == f.image()
                && self.meta == spec_meta_of(f) implies out@ == f.recs by {
                lemma_image_fields(f);
                lemma_recs_bytes_len(f.recs);
                assert forall|t: int| 0 <= t < out@.len() implies out@[t] == f.recs[t] by {
                    lemma_recs_bytes_word(f.recs, t);
                    assert(spec_recs_bytes(f.recs).subrange(24 * t, 24 * t + 24)
                        =~= f.image().subrange(
                        f.table_off() + 4 + 24 * t,
                        f.table_off() + 4 + 24 * t + 24,
                    ));
                    assert(spec_rec_bytes(out@[t]) == spec_rec_bytes(f.recs[t]));
                    lemma_rec_bytes_eq(out@[t], f.recs[t]);
                }
                assert(out@ =~= f.recs);
            }
        }
        out
    }

    /// Parses the deleted-page list.
    pub fn read_delete_pages(&self) -> (r: Vec<u64>)
        requires
            self.wf(),
        ensures
            r@.len() == self.meta.delete_count,
            forall|f: FileSpec|
                #[trigger] f.wf() && self.reader.image@ == f.image() && self.meta
                    == spec_meta_of(f) ==> r@ == f.dels,
    {
        let image = &self.reader.image;
        let img_len = image.len();
        let l0 = self.meta.delete_off as usize;
        let count = self.meta.delete_count as usize;
        let mut out: Vec<u64> = Vec::new();
        let mut i: usize = 0;
        while i < count
            invariant
                self.wf(),
                image == &self.reader.image,
                img_len == image@.len(),
                l0 == self.meta.delete_off,
                count == self.meta.delete_count,
                i <= count,
                out@.len() == i,
                forall|t: int|
                    0 <= t < i ==> spec_u64_to_le_bytes(#[trigger] out@[t]) == image@.subrange(
                        l0 + 4 + 8 * t,
                        l0 + 4 + 8 * t + 8,
                    ),
            decreases count - i,
        {
            let addr = read_u64(image, l0 + 4 + 8 * i);
            out.push(addr);
            i = i + 1;
        }
        proof {
            assert forall|f: FileSpec| #[trigger] f.wf() && self.reader.image@ == f.image()
                && self.meta == spec_meta_of(f) implies out@ == f.dels by {
                lemma_image_fields(f);
                lemma_dels_bytes_len(f.dels);
                assert forall|t: int| 0 <= t < out@.len() implies out@[t] == f.dels[t] by {
                    lemma_dels_bytes_word(f.dels, t);
                    assert(spec_dels_bytes(f.dels).subrange(8 * t, 8 * t + 8)
                        =~= f.image().subrange(
                        f.delete_off() + 4 + 8 * t,
                        f.delete_off() + 4 + 8 * t + 8,
                    ));
                    assert(spec_u64_to_le_bytes(out@[t]) == spec_u64_to_le_bytes(f.dels[t]));
                    lemma_u64_words_eq(out@[t], f.dels[t]);
                }
                assert(out@ =~= f.dels);
            }
        }
        out
    }

    /// The handle of the page at `addr`, looked up through the file's own
    /// table.
    pub fn get_page_handle(&self, addr: u64) -> (r: Option<(u64, usize)>)
        requires
            self.wf(),
        ensures
            forall|f: FileSpec|
                #[trigger] f.wf() && self.reader.image@ == f.image() && self.meta
                    == spec_meta_of(f) ==> match r {
                    Some(h) => exists|i: int|
                        0 <= i < f.recs.len() && (#[trigger] f.recs[i]).0 == addr && h.0
                            == f.recs[i].2.offset && h.1 == f.recs[i].2.size,
                    None => forall|i: int| 0 <= i < f.recs.len() ==> (#[trigger] f.recs[i]).0
                        != addr,
                },
    {
        let table = self.read_page_table();
        let ghost gmeta = self.meta;
        let ghost gimage = self.reader.image@;
        let n = table.len();
        let mut i: usize = 0;
        while i < n
            invariant
                n == table@.len(),
                i <= n,
                forall|j: int| 0 <= j < i ==> (#[trigger] table@[j]).0 != addr,
                forall|f: FileSpec|
                    #[trigger] f.wf() && gimage == f.image() && gmeta == spec_meta_of(f)
                        ==> table@ == f.recs,
                gimage == self.reader.image@,
                gmeta == self.meta,
            decreases n - i,
        {
            let e = &table[i];
            if e.0 == addr {
                let ghost gi = i as int;
                let r = Some((e.2.offset as u64, e.2.size as usize));
                proof {
                    assert(table@[gi].0 == addr);
                    assert forall|f: FileSpec| #[trigger] f.wf() && self.reader.image@
                        == f.image() && self.meta == spec_meta_of(f) implies exists|x: int|
                        0 <= x < f.recs.len() && (#[trigger] f.recs[x]).0 == addr
                            && e.2.offset as u64 == f.recs[x].2.offset && e.2.size as usize
                            == f.recs[x].2.size by {
                        assert(table@ == f.recs);
                        assert(0 <= gi < f.recs.len() && f.recs[gi].0 == addr
                            && e.2.offset as u64 == f.recs[gi].2.offset && e.2.size as usize
                            == f.recs[gi].2.size);
                    }
                }
                return r;
            }
            i = i + 1;
        }
        proof {
            assert forall|f: FileSpec| #[trigger] f.wf() && self.reader.image@ == f.image()
                && self.meta == spec_meta_of(f) implies forall|x: int|
                0 <= x < f.recs.len() ==> (#[trigger] f.recs[x]).0 != addr by {
                assert(table@ == f.recs);
                assert forall|x: int| 0 <= x < f.recs.len() implies (#[trigger] f.recs[x]).0
                    != addr by {
                    assert(table@[x].0 != addr);
                }
            }
        }
        None
    }
}

/// Which live records survive a round of deleted-page addresses.
pub open spec fn filter_dels(s: Seq<(u64, PageFileHandle)>, dels: Seq<u64>) -> Seq<(
    u64,
    PageFileHandle,
)>
    decreases s.len(),
{
    if s.len() == 0 {
        Seq::empty()
    } else if dels.contains(s.last().0) {
        filter_dels(s.drop_last(), dels)
    } else {
        filter_dels(s.drop_last(), dels).push(s.last())
    }
}

/// True when `dels` names `addr`.
fn contains_addr(dels: &Vec<u64>, addr: u64) -> (r: bool)
    ensures
        r == dels@.contains(addr),
{
    let n = dels.len();
    let mut i: usize = 0;
    while i < n
        invariant
            n == dels@.len(),
            i <= n,
            forall|j: int| 0 <= j < i ==> dels@[j] != addr,
        decreases n - i,
    {
        if dels[i] == addr {
            proof {
                assert(dels@[i as int] == addr);
            }
            return true;
        }
        i = i + 1;
    }
    proof {
        if dels@.contains(addr) {
            let w = choose|j: int| 0 <= j < dels@.len() && dels@[j] == addr;
        }
    }
    false
}

/// Rebuilds a live set without the deleted addresses, with its new weight.
fn apply_dels(active: &Vec<(u64, PageFileHandle)>, dels: &Vec<u64>) -> (r: (
    Vec<(u64, PageFileHandle)>,
    usize,
))
    requires
        handle_sum(active@) <= usize::MAX,
    ensures
        r.0@ == filter_dels(active@, dels@),
        r.1 == handle_sum(filter_dels(active@, dels@)),
        r.1 <= handle_sum(active@),
{
    let n = active.len();
    let mut out: Vec<(u64, PageFileHandle)> = Vec::new();
    let mut sum: usize = 0;
    let mut i: usize = 0;
    proof {
        assert(filter_dels(active@.take(0), dels@) =~= Seq::<(u64, PageFileHandle)>::empty());
        assert(active@.take(0) =~= Seq::<(u64, PageFileHandle)>::empty());
        lemma_handle_sum_nonneg(active@);
    }
    while i < n
        invariant
            n == active@.len(),
            i <= n,
            handle_sum(active@) <= usize::MAX,
            out@ == filter_dels(active@.take(i as int), dels@),
            sum == handle_sum(out@),
            sum <= handle_sum(active@.take(i as int)),
            handle_sum(active@.take(i as int)) <= handle_sum(active@),
        decreases n - i,
    {
        let ghost pre = active@.take(i as int);
        proof {
            assert(active@.take(i + 1).drop_last() =~= pre);
            assert(active@.take(i + 1).last() == active@[i as int]);
            lemma_handle_sum_prefix(active@, i + 1);
        }
        let e = &active[i];
        if !contains_addr(dels, e.0) {
            let ghost out0 = out@;
            out.push((e.0, e.1));
            proof {
                assert(out@.drop_last() =~= out0);
                assert(out@.last() == active@[i as int]);
                assert((e.0, e.1) == active@[i as int]);
            }
            sum = sum + e.1.size as usize;
        }
        i = i + 1;
    }
    proof {
        assert(active@.take(n as int) =~= active@);
    }
    (out, sum)
}

/// Prefix sums of handle runs never exceed the whole.
proof fn lemma_handle_sum_prefix(s: Seq<(u64, PageFileHandle)>, j: int)
    requires
        0 <= j <= s.len(),
    ensures
        handle_sum(s.take(j)) <= handle_sum(s),
        handle_sum(s.take(j)) >= 0,
    decreases s.len() - j, s.len(),
{
    lemma_handle_sum_nonneg(s.take(j));
    if j == s.len() {
        assert(s.take(j) =~= s);
    } else {
        lemma_handle_sum_prefix(s, j + 1);
        assert(s.take(j + 1).drop_last() =~= s.take(j));
    }
}

proof fn lemma_handle_sum_nonneg(s: Seq<(u64, PageFileHandle)>)
    ensures
        handle_sum(s) >= 0,
    decreases s.len(),
{
    if s.len() > 0 {
        lemma_handle_sum_nonneg(s.drop_last());
    }
}

/// The given images are the laid-out files of the given abstract files, in
/// order, each within the machine's reach.
pub open spec fn files_match(files: Seq<(u32, Vec<u8>)>, fs: Seq<FileSpec>) -> bool {
    &&& fs.len() == files.len()
    &&& forall|j: int|
        0 <= j < fs.len() ==> {
            &&& (#[trigger] fs[j]).wf()
            &&& files[j].1@ == fs[j].image()
            &&& fs[j].file_id == files[j].0
            &&& recs_size_sum(fs[j].recs) <= usize::MAX
        }
}

/// The live handles of file `from - 1`'s pages after the delete lists of
/// files `from` to `to` have been replayed over them, oldest first.
pub open spec fn spec_replay(
    active: Seq<(u64, PageFileHandle)>,
    fs: Seq<FileSpec>,
    from: int,
    to: int,
) -> Seq<(u64, PageFileHandle)>
    decreases to - from,
{
    if from >= to {
        active
    } else {
        spec_replay(filter_dels(active, fs[from].dels), fs, from + 1, to)
    }
}

/// Replaying one more file's deletes extends the replay at its end.
proof fn lemma_replay_snoc(
    active: Seq<(u64, PageFileHandle)>,
    fs: Seq<FileSpec>,
    from: int,
    to: int,
)
    requires
        from <= to < fs.len(),
    ensures
        spec_replay(active, fs, from, to + 1) == filter_dels(
            spec_replay(active, fs, from, to),
            fs[to].dels,
        ),
    decreases to - from,
{
    if from < to {
        lemma_replay_snoc(filter_dels(active, fs[from].dels), fs, from + 1, to);
    } else {
        assert(spec_replay(active, fs, from, to) == active);
        assert(spec_replay(active, fs, from, to + 1) == spec_replay(
            filter_dels(active, fs[from].dels),
            fs,
            from + 1,
            to + 1,
        ));
        assert(spec_replay(filter_dels(active, fs[from].dels), fs, from + 1, to + 1)
            == filter_dels(active, fs[from].dels));
    }
}

/// The first `j` recovered views are the first `j` files' live pages with
/// every later processed file's deletes replayed over them.
pub open spec fn recovered_upto(
    files: Seq<(u32, Vec<u8>)>,
    fs: Seq<FileSpec>,
    map: Seq<(u32, FileInfo)>,
    j: int,
) -> bool {
    &&& map.len() == j
    &&& forall|t: int|
        0 <= t < j ==> {
            &&& (#[trigger] map[t]).0 == files[t].0
            &&& map[t].1.meta == spec_meta_of(fs[t])
            &&& map[t].1.active@ == spec_replay(
                fs[t].recs.map(|i: int, e: (u64, u64, PageFileHandle)| (e.0, e.2)),
                fs,
                t + 1,
                j,
            )
        }
}

/// Rebuilds per-file live views as recovery replays newer files' deletes.
pub struct FileInfoBuilder {
    pub file_prefix: String,
}

impl FileInfoBuilder {
    pub fn new(file_prefix: String) -> (r: Self)
        ensures
            r.file_prefix@ == file_prefix@,
    {
        FileInfoBuilder { file_prefix }
    }

    /// Folds a freshly finished file into the live map: every address the
    /// new file deletes is dropped from the older files' live sets, sizes
    /// following, and the new file is appended.
    pub fn add_file_info(
        &self,
        current: &Vec<(u32, FileInfo)>,
        new_info: FileInfo,
        delete_pages: &Vec<u64>,
    ) -> (r: Result<Vec<(u32, FileInfo)>, Error>)
        requires
            new_info.wf(),
            handle_sum(new_info.active@) <= usize::MAX,
            forall|j: int| 0 <= j < current@.len() ==> (#[trigger] current@[j]).1.wf(),
            forall|j: int|
                0 <= j < current@.len() ==> handle_sum((#[trigger] current@[j]).1.active@)
                    <= usize::MAX,
        ensures
            r is Ok,
            r->Ok_0@.len() == current@.len() + 1,
            forall|j: int| 0 <= j < r->Ok_0@.len() ==> (#[trigger] r->Ok_0@[j]).1.wf(),
            forall|j: int|
                0 <= j < r->Ok_0@.len() ==> handle_sum((#[trigger] r->Ok_0@[j]).1.active@)
                    <= usize::MAX,
            forall|j: int|
                0 <= j < current@.len() ==> {
                    &&& (#[trigger] r->Ok_0@[j]).0 == current@[j].0
                    &&& r->Ok_0@[j].1.meta == current@[j].1.meta
                    &&& r->Ok_0@[j].1.active@ == filter_dels(
                        current@[j].1.active@,
                        delete_pages@,
                    )
                    &&& r->Ok_0@[j].1.effective_size == handle_sum(
                        filter_dels(current@[j].1.active@, delete_pages@),
                    )
                },
            r->Ok_0@[current@.len() as int] == (new_info.meta.file_id, new_info),
    {
        let n = current.len();
        let mut out: Vec<(u32, FileInfo)> = Vec::new();
        let mut j: usize = 0;
        while j < n
            invariant
                n == current@.len(),
                j <= n,
                forall|t: int| 0 <= t < current@.len() ==> (#[trigger] current@[t]).1.wf(),
                forall|t: int|
                    0 <= t < current@.len() ==> handle_sum((#[trigger] current@[t]).1.active@)
                        <= usize::MAX,
                out@.len() == j,
                forall|t: int|
                    0 <= t < j ==> {
                        &&& (#[trigger] out@[t]).0 == current@[t].0
                        &&& out@[t].1.meta == current@[t].1.meta
                        &&& out@[t].1.active@ == filter_dels(
                            current@[t].1.active@,
                            delete_pages@,
                        )
                        &&& out@[t].1.effective_size == handle_sum(
                            filter_dels(current@[t].1.active@, delete_pages@),
                        )
                    },
            decreases n - j,
        {
            let entry = &current[j];
            proof {
                assert(entry.1.wf());
            }
            let (active, sum) = apply_dels(&entry.1.active, delete_pages);
            out.push((entry.0, FileInfo { meta: entry.1.meta, active, effective_size: sum }));
            j = j + 1;
        }
        let fid = new_info.meta.file_id;
        out.push((fid, new_info));
        Ok(out)
    }

    /// Rebuilds the live map of every known file from its bytes: each file's
    /// footer and meta are verified and its tables parsed, then the files'
    /// delete lists are replayed in the order given. A file whose footer
    /// does not verify is passed over, as a crash during its finalization
    /// would leave it. When every image is a laid-out file, the result names
    /// each file's live pages after all later deletes.
    pub fn recovery_base_file_infos(&self, files: &Vec<(u32, Vec<u8>)>, block_size: usize) -> (r:
        Result<Vec<(u32, FileInfo)>, Error>)
        requires
            block_size > 0,
        ensures
            r is Ok,
            r->Ok_0@.len() <= files@.len(),
            forall|t: int| 0 <= t < r->Ok_0@.len() ==> (#[trigger] r->Ok_0@[t]).1.wf(),
            forall|fs: Seq<FileSpec>|
                #[trigger] files_match(files@, fs) ==> recovered_upto(
                    files@,
                    fs,
                    r->Ok_0@,
                    files@.len() as int,
                ),
    {
        let n = files.len();
        let mut map: Vec<(u32, FileInfo)> = Vec::new();
        let mut j: usize = 0;
        while j < n
            invariant
                n == files@.len(),
                block_size > 0,
                j <= n,
                map@.len() <= j,
                forall|t: int| 0 <= t < map@.len() ==> (#[trigger] map@[t]).1.wf(),
                forall|t: int|
                    0 <= t < map@.len() ==> handle_sum((#[trigger] map@[t]).1.active@)
                        <= usize::MAX,
                forall|fs: Seq<FileSpec>|
                    #[trigger] files_match(files@, fs) ==> recovered_upto(
                        files@,
                        fs,
                        map@,
                        j as int,
                    ),
            decreases n - j,
        {
            let ghost map0 = map@;
            let entry = &files[j];
            let image = copy_whole(&entry.1);
            let reader = PageFileReader::from(image, true, block_size);
            match MetaReader::open(reader, entry.0) {
                Ok(mr) => {
                    let table = mr.read_page_table();
                    let dels = mr.read_delete_pages();
                    match build_recovered_info(mr.meta, &table) {
                        Some(info) => {
                            match self.add_file_info(&map, info, &dels) {
                                Ok(new_map) => {
                                    map = new_map;
                                    proof {
                                        assert forall|fs: Seq<FileSpec>| #[trigger] files_match(
                                            files@,
                                            fs,
                                        ) implies recovered_upto(files@, fs, map@, j + 1) by {
                                            let f = fs[j as int];
                                            assert(f.wf() && files@[j as int].1@ == f.image()
                                                && f.file_id == files@[j as int].0
                                                && recs_size_sum(f.recs) <= usize::MAX);
                                            assert(mr.meta == spec_meta_of(f));
                                            assert(table@ == f.recs);
                                            assert(dels@ == f.dels);
                                            assert(recovered_upto(files@, fs, map0, j as int));
                                            let mapped = f.recs.map(
                                                |i: int, e: (u64, u64, PageFileHandle)| (
                                                    e.0,
                                                    e.2,
                                                ),
                                            );
                                            assert forall|t: int| 0 <= t < j + 1 implies {
                                                &&& (#[trigger] map@[t]).0 == files@[t].0
                                                &&& map@[t].1.meta == spec_meta_of(fs[t])
                                                &&& map@[t].1.active@ == spec_replay(
                                                    fs[t].recs.map(
                                                        |i: int, e: (u64, u64, PageFileHandle)| (
                                                            e.0,
                                                            e.2,
                                                        ),
                                                    ),
                                                    fs,
                                                    t + 1,
                                                    j + 1,
                                                )
                                            } by {
                                                if t < j {
                                                    assert(map@[t].1.active@ == filter_dels(
                                                        map0[t].1.active@,
                                                        f.dels,
                                                    ));
                                                    lemma_replay_snoc(
                                                        fs[t].recs.map(
                                                            |i: int, e: (
                                                                u64,
                                                                u64,
                                                                PageFileHandle,
                                                            )| (e.0, e.2),
                                                        ),
                                                        fs,
                                                        t + 1,
                                                        j as int,
                                                    );
                                                } else {
                                                    assert(map@[t] == (
                                                        info.meta.file_id,
                                                        info,
                                                    ));
                                                    assert(info.active@ == mapped);
                                                    assert(spec_replay(mapped, fs, j + 1, j + 1)
                                                        == mapped);
                                                }
                                            }
                                        }
                                    }
                                },
                                Err(_) => {
                                    proof {
                                        assert(false);
                                    }
                                },
                            }
                        },
                        None => {
                            proof {
                                assert forall|fs: Seq<FileSpec>| #[trigger] files_match(
                                    files@,
                                    fs,
                                ) implies recovered_upto(files@, fs, map@, j + 1) by {
                                    let f = fs[j as int];
                                    assert(f.wf() && files@[j as int].1@ == f.image()
                                        && f.file_id == files@[j as int].0 && recs_size_sum(
                                        f.recs,
                                    ) <= usize::MAX);
                                    assert(table@ == f.recs);
                                    assert(recs_size_sum(table@) > usize::MAX);
                                }
                            }
                        },
                    }
                },
                Err(_) => {
                    proof {
                        assert forall|fs: Seq<FileSpec>| #[trigger] files_match(
                            files@,
                            fs,
                        ) implies recovered_upto(files@, fs, map@, j + 1) by {
                            let f = fs[j as int];
                            assert(f.wf() && files@[j as int].1@ == f.image() && f.file_id
                                == files@[j as int].0);
                        }
                    }
                },
            }
            j = j + 1;
        }
        Ok(map)
    }
}

/// Assembles the live view of a recovered file from its parsed table; a
/// table whose sizes overflow the machine is refused.
fn build_recovered_info(meta: FileMeta, table: &Vec<(u64, u64, PageFileHandle)>) -> (r: Option<
    FileInfo,
>)
    ensures
        match r {
            Some(info) => {
                &&& info.wf()
                &&& info.meta == meta
                &&& info.active@ == table@.map(
                    |i: int, e: (u64, u64, PageFileHandle)| (e.0, e.2),
                )
                &&& handle_sum(info.active@) <= usize::MAX
            },
            None => recs_size_sum(table@) > usize::MAX,
        },
{
    let n = table.len();
    let mut active: Vec<(u64, PageFileHandle)> = Vec::new();
    let mut sum: usize = 0;
    let mut i: usize = 0;
    proof {
        assert(active@ =~= table@.take(0).map(
            |i: int, e: (u64, u64, PageFileHandle)| (e.0, e.2),
        ));
        assert(table@.take(0) =~= Seq::<(u64, u64, PageFileHandle)>::empty());
    }
    while i < n
        invariant
            n == table@.len(),
            i <= n,
            active@ == table@.take(i as int).map(
                |i: int, e: (u64, u64, PageFileHandle)| (e.0, e.2),
            ),
            sum == handle_sum(active@),
            sum == recs_size_sum(table@.take(i as int)),
        decreases n - i,
    {
        let ghost active0 = active@;
        let e = &table[i];
        if e.2.size as usize > usize::MAX - sum {
            proof {
                lemma_handle_sum_matches(table@);
                lemma_handle_sum_matches(table@.take(i as int));
                lemma_recs_sum_prefix(table@, i + 1);
                assert(table@.take(i + 1).drop_last() =~= table@.take(i as int));
                assert(table@.take(i + 1).last() == table@[i as int]);
                assert(recs_size_sum(table@.take(i + 1)) == recs_size_sum(table@.take(i as int))
                    + e.2.size);
            }
            return None;
        }
        active.push((e.0, e.2));
        proof {
            assert(active@ =~= table@.take(i + 1).map(
                |i: int, e: (u64, u64, PageFileHandle)| (e.0, e.2),
            ));
            assert(active@.drop_last() =~= active0);
            assert(active@.last() == (e.0, e.2));
            assert(table@.take(i + 1).drop_last() =~= table@.take(i as int));
            assert(table@.take(i + 1).last() == table@[i as int]);
        }
        sum = sum + e.2.size as usize;
        i = i + 1;
    }
    proof {
        assert(table@.take(n as int) =~= table@);
    }
    Some(FileInfo { meta, active, effective_size: sum })
}

fn sum_saturating(a: usize, b: usize) -> (r: usize)
    ensures
        r == if a + b <= usize::MAX {
            a + b
        } else {
            usize::MAX as int
        },
{
    if b <= usize::MAX - a {
        a + b
    } else {
        usize::MAX
    }
}

/// Recovery equivalence: a file view parsed back from a laid-out file's
/// bytes names the same live pages, with the same handles and total size,
/// as the view its builder returned.
pub proof fn lemma_recovery_matches_build(
    f: FileSpec,
    built: FileInfo,
    recovered_meta: FileMeta,
    recovered_table: Seq<(u64, u64, PageFileHandle)>,
)
    requires
        built.meta.file_id == f.file_id,
        built.active@ == f.recs.map(|i: int, e: (u64, u64, PageFileHandle)| (e.0, e.2)),
        built.wf(),
        recovered_meta == spec_meta_of(f),
        recovered_table == f.recs,
    ensures
        recovered_meta.file_id == built.meta.file_id,
        recovered_table.map(|i: int, e: (u64, u64, PageFileHandle)| (e.0, e.2))
            == built.active@,
        handle_sum(recovered_table.map(|i: int, e: (u64, u64, PageFileHandle)| (e.0, e.2)))
            == built.effective_size,
{
}

/// The on-disk collaborators of the page store: where its files live and
/// how they are opened.
pub struct PageFiles {
    pub base: String,
    pub file_prefix: String,
    pub use_direct: bool,
}

impl PageFiles {
    /// Remembers the directory and name prefix the store's files use.
    pub fn new(base: String, file_prefile: String) -> (r: Self)
        ensures
            r.base@ == base@,
            r.file_prefix@ == file_prefile@,
            r.use_direct == true,
    {
        PageFiles { base, file_prefix: file_prefile, use_direct: true }
    }

    /// The open flags that direct I/O needs on the given platform: nothing
    /// when direct I/O is off or unsupported, else the platform's flag.
    pub fn direct_flags(&self, is_linux: bool, is_aarch64: bool) -> (r: i32)
        ensures
            r == if !self.use_direct || !is_linux {
                0i32
            } else if is_aarch64 {
                0x10000i32
            } else {
                0x4000i32
            },
    {
        if !self.use_direct {
            return 0;
        }
        if !is_linux {
            0
        } else if is_aarch64 {
            0x10000
        } else {
            0x4000
        }
    }

    /// A builder for a new page file.
    pub fn new_file_builder(&self, file_id: u32, block_size: usize) -> (r: Result<
        FileBuilder,
        Error,
    >)
        requires
            block_size > 0,
            block_size <= u32::MAX,
        ensures
            r is Ok,
            r->Ok_0.wf(),
            r->Ok_0.file_id == file_id,
            r->Ok_0.block_size == block_size,
            r->Ok_0.table@.len() == 0,
            r->Ok_0.delete_pages@.len() == 0,
            r->Ok_0.data@.len() == 0,
            r->Ok_0.spec_contents() == Map::<u64, Seq<u8>>::empty(),
    {
        Ok(FileBuilder::new(file_id, block_size))
    }

    /// A positional reader over a page file's bytes.
    pub fn open_page_reader(&self, image: Vec<u8>, block_size: usize) -> (r: Result<
        PageFileReader,
        Error,
    >)
        requires
            block_size > 0,
        ensures
            r is Ok,
            r->Ok_0.wf(),
            r->Ok_0.image@ == image@,
            r->Ok_0.block_size == block_size,
    {
        Ok(PageFileReader::from(image, self.use_direct, block_size))
    }

    /// A meta reader over a page file's bytes.
    pub fn open_meta_reader(&self, image: Vec<u8>, file_id: u32, block_size: usize) -> (r: Result<
        MetaReader,
        Error,
    >)
        requires
            block_size > 0,
        ensures
            forall|f: FileSpec|
                #[trigger] f.wf() && image@ == f.image() && f.file_id == file_id ==> r is Ok,
            r is Ok ==> (#[trigger] (r->Ok_0)).wf() && r->Ok_0.reader.image@ == image@ && (forall|
                f: FileSpec,
            |
                #[trigger] f.wf() && image@ == f.image() && f.file_id == file_id
                    ==> r->Ok_0.meta == spec_meta_of(f)),
            r is Err ==> r->Err_0 is Corrupted,
    {
        let reader = PageFileReader::from(image, true, block_size);
        MetaReader::open(reader, file_id)
    }

    /// The helper that recovery and live maintenance share.
    pub fn new_info_builder(&self) -> (r: FileInfoBuilder)
        ensures
            r.file_prefix@ == self.file_prefix@,
    {
        FileInfoBuilder::new(clone_string(&self.file_prefix))
    }
}

/// Clones a string, preserving its characters.
fn clone_string(s: &String) -> (r: String)
    ensures
        r@ == s@,
{
    s.clone()
}

} // verus!
