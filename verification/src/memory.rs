//! Regions of a process's memory: which can be read, in what blocks, and what a read returned.
//!
//! The reads and writes themselves are made by the caller, who hands the outcome back.

use crate::bytes::{le_nat, read_le};
use vstd::prelude::*;

verus! {

/// Protection flags of a page.
pub const PAGE_NOACCESS: u32 = 0x01;

pub const PAGE_READONLY: u32 = 0x02;

pub const PAGE_READWRITE: u32 = 0x04;

pub const PAGE_WRITECOPY: u32 = 0x08;

pub const PAGE_EXECUTE_READ: u32 = 0x20;

pub const PAGE_EXECUTE_READWRITE: u32 = 0x40;

pub const PAGE_EXECUTE_WRITECOPY: u32 = 0x80;

pub const PAGE_GUARD: u32 = 0x100;

/// The size of a block in which a region is read (1 MiB).
pub const CHUNK: usize = 0x10_0000;

/// How far a reader steps over an unreadable page.
pub const PAGE: usize = 0x1000;

/// The end of the user address space.
pub const USER_SPACE_END: u64 = 0x7fff_ffff_ffff;

/// A committed region of memory.
#[derive(Clone, Copy, Debug, PartialEq, Eq, Structural)]
pub struct Region {
    pub base: u64,
    pub size: usize,
    pub writable: bool,
}

impl Region {
    /// The region lies within the address space.
    pub open spec fn fits(self) -> bool {
        self.base + self.size <= u64::MAX
    }

    /// The address after the last one of the region.
    pub open spec fn end(self) -> int {
        self.base + self.size
    }
}

/// Every region lies within the address space.
pub open spec fn all_fit(regions: Seq<Region>) -> bool {
    forall|i: int| 0 <= i < regions.len() ==> (#[trigger] regions[i]).fits()
}

/// Tells whether every region lies within the address space.
pub fn regions_fit(regions: &[Region]) -> (r: bool)
    ensures
        r == all_fit(regions@),
{
    let mut i: usize = 0;
    while i < regions.len()
        invariant
            i <= regions.len(),
            forall|k: int| 0 <= k < i ==> (#[trigger] regions@[k]).fits(),
        decreases regions.len() - i,
    {
        let room: u64 = u64::MAX - regions[i].base;
        if regions[i].size as u64 > room {
            assert(!regions@[i as int].fits());
            return false;
        }
        i += 1;
    }
    true
}

/// Tells whether a protection has a flag.
pub open spec fn has_flag(protect: u32, flag: u32) -> bool {
    protect & flag != 0
}

/// Tells whether a page with that protection can be read.
pub open spec fn can_read(protect: u32) -> bool {
    &&& !has_flag(protect, PAGE_GUARD)
    &&& !has_flag(protect, PAGE_NOACCESS)
    &&& has_flag(protect, PAGE_READONLY) || has_flag(protect, PAGE_READWRITE) || has_flag(
        protect,
        PAGE_EXECUTE_READ,
    ) || has_flag(protect, PAGE_EXECUTE_READWRITE) || has_flag(protect, PAGE_WRITECOPY) || has_flag(
        protect,
        PAGE_EXECUTE_WRITECOPY,
    )
}

/// Tells whether a page with that protection can be written.
pub open spec fn can_write(protect: u32) -> bool {
    has_flag(protect, PAGE_READWRITE) || has_flag(protect, PAGE_EXECUTE_READWRITE) || has_flag(
        protect,
        PAGE_WRITECOPY,
    ) || has_flag(protect, PAGE_EXECUTE_WRITECOPY)
}

/// Tells whether a page with that protection can be read.
pub fn is_readable(protect: u32) -> (r: bool)
    ensures
        r == can_read(protect),
{
    if protect & PAGE_GUARD != 0 || protect & PAGE_NOACCESS != 0 {
        return false;
    }
    protect & PAGE_READONLY != 0 || protect & PAGE_READWRITE != 0 || protect & PAGE_EXECUTE_READ
        != 0 || protect & PAGE_EXECUTE_READWRITE != 0 || protect & PAGE_WRITECOPY != 0 || protect
        & PAGE_EXECUTE_WRITECOPY != 0
}

/// Tells whether a page with that protection can be written.
pub fn is_writable(protect: u32) -> (r: bool)
    ensures
        r == can_write(protect),
{
    protect & PAGE_READWRITE != 0 || protect & PAGE_EXECUTE_READWRITE != 0 || protect
        & PAGE_WRITECOPY != 0 || protect & PAGE_EXECUTE_WRITECOPY != 0
}

// ---------------------------------------------------------------------------
// Outcomes of single reads and writes
// ---------------------------------------------------------------------------

/// The bytes that a read of `buf` returned, of which `read` were filled.
pub open spec fn bytes_read(ok: bool, read: int, buf: Seq<u8>) -> Option<Seq<u8>> {
    if ok && (read > 0 || buf.len() == 0) {
        Some(buf.take(read))
    } else {
        None
    }
}

/// The bytes that a read returned: `buf` was asked for, `read` bytes of it were filled, and `ok`
/// says whether the call succeeded. A successful read may be partial, but not empty unless
/// nothing was asked for.
pub fn read_bytes(ok: bool, read: usize, buf: Vec<u8>) -> (r: Option<Vec<u8>>)
    requires
        read <= buf.len(),
    ensures
        match r {
            Some(v) => bytes_read(ok, read as int, buf@) == Some(v@),
            None => bytes_read(ok, read as int, buf@) is None,
        },
{
    let mut buf = buf;
    if ok && read == buf.len() {
        assert(buf@.take(read as int) == buf@);
        Some(buf)
    } else if ok && read > 0 {
        buf.truncate(read);
        assert(buf@.len() == read);
        Some(buf)
    } else {
        None
    }
}

/// Tells whether a transfer moved all of its `len` bytes.
pub fn read_into(ok: bool, read: usize, len: usize) -> (r: bool)
    ensures
        r == (ok && read == len),
{
    ok && read == len
}

/// Tells whether a write moved all of its `len` bytes.
pub fn write_bytes(ok: bool, written: usize, len: usize) -> (r: bool)
    ensures
        r == (ok && written == len),
{
    ok && written == len
}

/// The 64-bit number in eight bytes that were read in full.
pub fn read_u64(data: Option<&[u8]>) -> (r: Option<u64>)
    ensures
        match data {
            Some(d) if d@.len() == 8 => r is Some && r->0 as nat == le_nat(d@),
            _ => r is None,
        },
{
    match data {
        Some(d) => if d.len() == 8 {
            assert(d@.subrange(0, 8) == d@);
            Some(read_le(d, 0, 8))
        } else {
            None
        },
        None => None,
    }
}

// ---------------------------------------------------------------------------
// Reading a region in blocks
// ---------------------------------------------------------------------------

/// The place that a reader of one region has reached. Blocks follow each other with `overlap`
/// bytes in common.
#[derive(Clone, Copy, Debug, PartialEq, Eq, Structural)]
pub struct ChunkCursor {
    pub base: u64,
    pub size: usize,
    pub overlap: usize,
    pub off: usize,
}

/// How far the next block begins after one that was read in full.
pub open spec fn stride(overlap: int) -> int {
    if overlap < CHUNK {
        CHUNK - overlap
    } else {
        1
    }
}

impl ChunkCursor {
    /// There is a block left to read.
    pub open spec fn pending(self) -> bool {
        self.off < self.size
    }

    /// How many bytes the next block asks for.
    pub open spec fn wanted(self) -> int {
        if self.size - self.off < CHUNK {
            self.size - self.off
        } else {
            CHUNK as int
        }
    }

    /// The address of the next block.
    pub open spec fn address(self) -> u64 {
        self.base.wrapping_add(self.off as u64)
    }

    /// The offset after the next block, when `read` bytes of it came back and the call said `ok`.
    /// A block that came back short, or empty, is followed by the page after the one that stopped it.
    pub open spec fn next_off(self, ok: bool, read: int) -> int {
        if ok && read == self.wanted() {
            self.off + stride(self.overlap as int)
        } else {
            self.off + read + PAGE
        }
    }

    /// The cursor after the next block.
    pub open spec fn after(self, ok: bool, read: int) -> ChunkCursor {
        let n = self.next_off(ok, read);
        ChunkCursor {
            off: if n > usize::MAX {
                usize::MAX
            } else {
                n as usize
            },
            ..self
        }
    }

    /// The next block to read: its address and its length.
    pub fn request(&self) -> (r: Option<(u64, usize)>)
        ensures
            match r {
                Some((a, n)) => self.pending() && a == self.address() && n == self.wanted(),
                None => !self.pending(),
            },
    {
        if self.off >= self.size {
            return None;
        }
        let left = self.size - self.off;
        let want = if left < CHUNK {
            left
        } else {
            CHUNK
        };
        Some((self.base.wrapping_add(self.off as u64), want))
    }

    /// Moves past the block that was asked for, of which `read` bytes came back.
    pub fn advance(&mut self, ok: bool, read: usize)
        requires
            old(self).pending(),
            read <= old(self).wanted(),
        ensures
            *final(self) == old(self).after(ok, read as int),
    {
        let left = self.size - self.off;
        let want = if left < CHUNK {
            left
        } else {
            CHUNK
        };
        let step: usize = if ok && read == want {
            if self.overlap < CHUNK {
                CHUNK - self.overlap
            } else {
                1
            }
        } else {
            read + PAGE
        };
        self.off = self.off.saturating_add(step);
    }
}

/// A reader at the start of a region.
pub open spec fn cursor_at_start(base: u64, size: usize, overlap: usize) -> ChunkCursor {
    ChunkCursor { base, size, overlap, off: 0 }
}

/// A reader of the `size` bytes from `base` on, in blocks of at most `CHUNK` bytes of which
/// consecutive ones share `overlap` bytes.
pub fn read_chunked(base: u64, size: usize, overlap: usize) -> (r: ChunkCursor)
    ensures
        r == cursor_at_start(base, size, overlap),
{
    ChunkCursor { base, size, overlap, off: 0 }
}

/// How many bytes from `off` on, up to `end`, can be read before the first that cannot.
pub open spec fn readable_run(seen: spec_fn(int) -> bool, off: int, end: int) -> int
    decreases end - off,
{
    if off >= end || !seen(off) {
        0
    } else {
        1 + readable_run(seen, off + 1, end)
    }
}

/// Whether the bytes of a region can be read goes by pages.
pub open spec fn seen_by_page(seen: spec_fn(int) -> bool, size: int) -> bool {
    forall|x: int, y: int|
        #![trigger seen(x), seen(y)]
        0 <= x < size && 0 <= y < size && x / PAGE as int == y / PAGE as int ==> seen(x) == seen(y)
}

/// The next block begins at the start of a page, or with a byte that can be read.
pub open spec fn begins_well(c: ChunkCursor, seen: spec_fn(int) -> bool) -> bool {
    c.pending() ==> c.off as int % PAGE as int == 0 || (c.overlap > 0 && seen(c.off as int))
}

/// A region of which every byte can be read.
pub open spec fn all_seen() -> spec_fn(int) -> bool {
    |x: int| true
}

pub proof fn lemma_readable_run(seen: spec_fn(int) -> bool, off: int, end: int)
    requires
        off <= end,
    ensures
        0 <= readable_run(seen, off, end) <= end - off,
        forall|x: int| off <= x < off + readable_run(seen, off, end) ==> #[trigger] seen(x),
        readable_run(seen, off, end) < end - off ==> !seen(off + readable_run(seen, off, end)),
        off < end && seen(off) ==> readable_run(seen, off, end) > 0,
    decreases end - off,
{
    if off < end && seen(off) {
        lemma_readable_run(seen, off + 1, end);
    }
}

/// Where a block breaks off, a page follows that cannot be read; and the block after it begins well
/// again.
pub proof fn lemma_block_breaks_off(c: ChunkCursor, seen: spec_fn(int) -> bool)
    requires
        c.pending(),
        c.overlap < CHUNK,
        seen_by_page(seen, c.size as int),
        begins_well(c, seen),
    ensures
        ({
            let n = readable_run(seen, c.off as int, c.off + c.wanted());
            &&& 0 <= n <= c.wanted()
            &&& begins_well(c.after(true, n), seen)
            &&& n < c.wanted() ==> forall|y: int|
                c.off + n <= y < c.off + n + PAGE && y < c.size ==> !#[trigger] seen(y)
        }),
{
    let off = c.off as int;
    let n = readable_run(seen, off, off + c.wanted());
    lemma_readable_run(seen, off, off + c.wanted());
    let c1 = c.after(true, n);
    if n < c.wanted() {
        let stop = off + n;
        assert(!seen(stop));
        if n > 0 {
            assert(seen(stop - 1));
            assert(stop / PAGE as int != (stop - 1) / PAGE as int);
        }
        assert(stop % PAGE as int == 0);
        assert forall|y: int| stop <= y < stop + PAGE && y < c.size implies !#[trigger] seen(y) by {
            assert(y / PAGE as int == stop / PAGE as int);
        }
    } else if c1.pending() && c.overlap > 0 {
        assert(off <= c1.off < off + n);
        assert(seen(c1.off as int));
    }
}

/// Where every block is read in full, each stretch of `overlap + 1` bytes of the region lies whole
/// in one of the blocks, which begin at the multiples of the stride.
pub proof fn law_no_item_is_split(size: int, overlap: int, p: int)
    requires
        0 <= overlap < CHUNK,
        0 <= p,
        p + overlap + 1 <= size,
    ensures
        ({
            let start = (p / stride(overlap)) * stride(overlap);
            let len = if size - start < CHUNK {
                size - start
            } else {
                CHUNK as int
            };
            start <= p && p + overlap + 1 <= start + len
        }),
{
    let s = stride(overlap);
    vstd::arithmetic::div_mod::lemma_fundamental_div_mod(p, s);
    assert((p / s) * s == s * (p / s)) by (nonlinear_arith);
}

/// After a block that broke off at a page that cannot be read, also at its first byte, the next
/// block begins right behind that page.
pub proof fn law_reading_resumes_behind_page(c: ChunkCursor, read: int)
    requires
        c.pending(),
        0 <= read < c.wanted(),
        c.off + read + PAGE <= usize::MAX,
    ensures
        c.after(true, read).off == c.off + read + PAGE,
        c.after(false, read).off == c.off + read + PAGE,
        c.after(true, read).base == c.base,
        c.after(true, read).size == c.size,
{
}

// ---------------------------------------------------------------------------
// Walking the address space
// ---------------------------------------------------------------------------

/// What the system says of the pages at an address.
#[derive(Clone, Copy, Debug, PartialEq, Eq, Structural)]
pub struct PageInfo {
    pub base: u64,
    pub size: usize,
    pub committed: bool,
    pub protect: u32,
}

/// The blocks of an address space: they follow each other from address 0 on, and none is empty.
pub open spec fn tiles(blocks: Seq<PageInfo>) -> bool {
    &&& blocks.len() > 0 ==> blocks[0].base == 0
    &&& forall|i: int|
        0 <= i < blocks.len() ==> (#[trigger] blocks[i]).size > 0 && blocks[i].base
            + blocks[i].size <= u64::MAX
    &&& forall|i: int, j: int|
        #![trigger blocks[i], blocks[j]]
        0 <= i && j == i + 1 && j < blocks.len() ==> blocks[j].base == blocks[i].base
            + blocks[i].size
}

/// What the system answers about an address: the first block from the `i`-th on that holds it.
pub open spec fn block_at(blocks: Seq<PageInfo>, address: u64, i: int) -> Option<PageInfo>
    decreases blocks.len() - i,
{
    if i < 0 || i >= blocks.len() {
        None
    } else if blocks[i].base <= address < blocks[i].base + blocks[i].size {
        Some(blocks[i])
    } else {
        block_at(blocks, address, i + 1)
    }
}

/// The regions among the first `n` blocks: the committed and readable ones that begin in the user
/// address space.
pub open spec fn readable_among(blocks: Seq<PageInfo>, n: int) -> Seq<Region>
    decreases n,
{
    if n <= 0 {
        Seq::empty()
    } else if blocks[n - 1].base < USER_SPACE_END {
        readable_among(blocks, n - 1) + RegionWalk::regions_of(blocks[n - 1])
    } else {
        readable_among(blocks, n - 1)
    }
}

/// The regions that a walk has in the end, which has reached `address` and has `regions`, where
/// the blocks are what the system answers from.
pub open spec fn gathered(
    blocks: Seq<PageInfo>,
    address: u64,
    regions: Seq<Region>,
) -> Seq<Region>
    decreases USER_SPACE_END - address,
{
    match block_at(blocks, address, 0) {
        None => regions,
        Some(i) => {
            let next = RegionWalk::end_of(i);
            let more = regions + RegionWalk::regions_of(i);
            if next <= address || next >= USER_SPACE_END {
                more
            } else {
                gathered(blocks, next, more)
            }
        },
    }
}

proof fn lemma_blocks_ascend(blocks: Seq<PageInfo>, i: int, j: int)
    requires
        tiles(blocks),
        0 <= i < j < blocks.len(),
    ensures
        blocks[i].base + blocks[i].size <= blocks[j].base,
    decreases j - i,
{
    assert(blocks[j].base == blocks[j - 1].base + blocks[j - 1].size);
    if i < j - 1 {
        lemma_blocks_ascend(blocks, i, j - 1);
    }
}

proof fn lemma_block_at(blocks: Seq<PageInfo>, k: int, i: int)
    requires
        tiles(blocks),
        0 <= i <= k < blocks.len(),
    ensures
        block_at(blocks, blocks[k].base, i) == Some(blocks[k]),
    decreases k - i,
{
    assert(blocks[k].size > 0);
    if i < k {
        lemma_blocks_ascend(blocks, i, k);
        lemma_block_at(blocks, k, i + 1);
    }
}

proof fn lemma_no_block(blocks: Seq<PageInfo>, address: u64, i: int)
    requires
        tiles(blocks),
        0 <= i,
        blocks.len() > 0 ==> address >= blocks.last().base + blocks.last().size,
    ensures
        block_at(blocks, address, i) is None,
    decreases blocks.len() - i,
{
    if i < blocks.len() {
        if i < blocks.len() - 1 {
            lemma_blocks_ascend(blocks, i, blocks.len() - 1);
        }
        lemma_no_block(blocks, address, i + 1);
    }
}

proof fn lemma_rest_is_beyond(blocks: Seq<PageInfo>, k: int, n: int)
    requires
        tiles(blocks),
        0 <= k < n <= blocks.len(),
        blocks[k].base + blocks[k].size >= USER_SPACE_END,
    ensures
        readable_among(blocks, n) == readable_among(blocks, k + 1),
    decreases n - k,
{
    if k + 1 < n {
        lemma_blocks_ascend(blocks, k, n - 1);
        lemma_rest_is_beyond(blocks, k, n - 1);
    }
}

proof fn lemma_gathered(blocks: Seq<PageInfo>, k: int)
    requires
        tiles(blocks),
        0 <= k < blocks.len(),
        blocks[k].base < USER_SPACE_END,
    ensures
        gathered(blocks, blocks[k].base, readable_among(blocks, k)) == readable_among(
            blocks,
            blocks.len() as int,
        ),
    decreases blocks.len() - k,
{
    let i = blocks[k];
    lemma_block_at(blocks, k, 0);
    assert(i.size > 0);
    let next = RegionWalk::end_of(i);
    assert(next == i.base + i.size);
    assert(readable_among(blocks, k + 1) == readable_among(blocks, k) + RegionWalk::regions_of(i));
    if next >= USER_SPACE_END {
        lemma_rest_is_beyond(blocks, k, blocks.len() as int);
    } else if k + 1 < blocks.len() {
        assert(blocks[k + 1].base == next);
        lemma_gathered(blocks, k + 1);
    } else {
        lemma_no_block(blocks, next, 0);
        let all = readable_among(blocks, k + 1);
        assert(gathered(blocks, next, all) == all);
    }
}

/// A walk over the regions of a process, from address 0 upward.
pub struct RegionWalk {
    pub address: u64,
    pub done: bool,
    pub regions: Vec<Region>,
}

impl RegionWalk {
    /// The regions that one answer adds: one, where it is committed and readable.
    pub open spec fn regions_of(info: PageInfo) -> Seq<Region> {
        if info.committed && can_read(info.protect) {
            seq![Region { base: info.base, size: info.size, writable: can_write(info.protect) }]
        } else {
            Seq::empty()
        }
    }

    /// Where the pages of an answer end.
    pub open spec fn end_of(info: PageInfo) -> u64 {
        info.base.wrapping_add(info.size as u64)
    }

    /// The regions that the walk has in the end, where the blocks are what the system answers from.
    pub open spec fn gathers(self, blocks: Seq<PageInfo>) -> Seq<Region> {
        if self.done {
            self.regions@
        } else {
            gathered(blocks, self.address, self.regions@)
        }
    }

    /// A walk that has not begun.
    pub fn new() -> (r: RegionWalk)
        ensures
            r.address == 0,
            !r.done,
            r.regions@ == Seq::<Region>::empty(),
    {
        RegionWalk { address: 0, done: false, regions: Vec::new() }
    }

    /// The address to ask the system about next.
    pub fn query(&self) -> (r: Option<u64>)
        ensures
            r == (if self.done {
                None
            } else {
                Some(self.address)
            }),
    {
        if self.done {
            None
        } else {
            Some(self.address)
        }
    }

    /// Takes the system's answer. No answer ends the walk; so does one whose end is not further on,
    /// or not below the end of the user address space.
    pub fn answer(&mut self, info: Option<PageInfo>)
        requires
            !old(self).done,
        ensures
            match info {
                None => {
                    &&& final(self).done
                    &&& final(self).address == old(self).address
                    &&& final(self).regions@ == old(self).regions@
                },
                Some(i) => {
                    let next = RegionWalk::end_of(i);
                    let stop = next <= old(self).address || next >= USER_SPACE_END;
                    &&& final(self).done == stop
                    &&& final(self).address == (if stop {
                        old(self).address
                    } else {
                        next
                    })
                    &&& final(self).regions@ == old(self).regions@ + RegionWalk::regions_of(i)
                },
            },
            forall|blocks: Seq<PageInfo>|
                info == block_at(blocks, old(self).address, 0) ==> #[trigger] final(self).gathers(
                    blocks,
                ) == old(self).gathers(blocks),
    {
        match info {
            None => {
                self.done = true;
            },
            Some(i) => {
                let ghost before = self.regions@;
                if i.committed && is_readable(i.protect) {
                    self.regions.push(
                        Region { base: i.base, size: i.size, writable: is_writable(i.protect) },
                    );
                }
                assert(self.regions@ =~= before + RegionWalk::regions_of(i));
                let next = i.base.wrapping_add(i.size as u64);
                if next <= self.address || next >= USER_SPACE_END {
                    self.done = true;
                } else {
                    self.address = next;
                }
            },
        }
    }
}

/// A walk over the address space of a process. In the end it has the committed and readable blocks
/// that begin in the user address space, in their order.
pub fn enumerate_regions() -> (r: RegionWalk)
    ensures
        r.address == 0,
        !r.done,
        r.regions@ == Seq::<Region>::empty(),
        forall|blocks: Seq<PageInfo>|
            tiles(blocks) ==> #[trigger] r.gathers(blocks) == readable_among(
                blocks,
                blocks.len() as int,
            ),
{
    let r = RegionWalk::new();
    proof {
        assert forall|blocks: Seq<PageInfo>| tiles(blocks) implies #[trigger] r.gathers(blocks)
            == readable_among(blocks, blocks.len() as int) by {
            if blocks.len() > 0 {
                lemma_gathered(blocks, 0);
            } else {
                lemma_no_block(blocks, 0, 0);
            }
        }
    }
    r
}

/// The address asked about grows with every answer, so that a walk ends.
pub proof fn law_walk_moves_on(w: RegionWalk, info: PageInfo)
    requires
        !w.done,
        !(RegionWalk::end_of(info) <= w.address || RegionWalk::end_of(info) >= USER_SPACE_END),
    ensures
        w.address < RegionWalk::end_of(info) < USER_SPACE_END,
{
}

/// A page can be read where one of the rights to read is among its flags, and neither the guard nor
/// the prohibition of access; it can be written where one of the rights to write is among them.
/// Every page that can be written can also be read, unless it is guarded or prohibited.
pub proof fn law_rights_of_pages(protect: u32)
    ensures
        protect & 0x101u32 != 0 ==> !can_read(protect),
        protect & 0x101u32 == 0 ==> (can_read(protect) <==> protect & 0xeeu32 != 0),
        can_write(protect) <==> protect & 0xccu32 != 0,
        can_write(protect) && protect & 0x101u32 == 0 ==> can_read(protect),
{
    assert((protect & 0x101u32 != 0) == (protect & 0x100u32 != 0 || protect & 0x01u32 != 0))
        by (bit_vector);
    assert((protect & 0xeeu32 != 0) == (protect & 0x02u32 != 0 || protect & 0x04u32 != 0 || protect
        & 0x08u32 != 0 || protect & 0x20u32 != 0 || protect & 0x40u32 != 0 || protect & 0x80u32 != 0))
        by (bit_vector);
    assert((protect & 0xccu32 != 0) == (protect & 0x04u32 != 0 || protect & 0x08u32 != 0 || protect
        & 0x40u32 != 0 || protect & 0x80u32 != 0)) by (bit_vector);
}

/// A block of the address space is listed as a region: it is committed, can be read, and begins in
/// the user address space.
pub open spec fn is_listed(info: PageInfo) -> bool {
    &&& info.committed
    &&& can_read(info.protect)
    &&& info.base < 0x7fff_ffff_ffff
}

proof fn lemma_listed(blocks: Seq<PageInfo>, n: int) -> (at: Seq<int>)
    requires
        0 <= n <= blocks.len(),
    ensures
        at.len() == readable_among(blocks, n).len(),
        forall|i: int| 0 <= i < at.len() ==> 0 <= #[trigger] at[i] < n,
        forall|i: int, j: int| 0 <= i < j < at.len() ==> #[trigger] at[i] < #[trigger] at[j],
        forall|i: int|
            0 <= i < at.len() ==> {
                let b = blocks[#[trigger] at[i]];
                &&& is_listed(b)
                &&& readable_among(blocks, n)[i] == Region {
                    base: b.base,
                    size: b.size,
                    writable: can_write(b.protect),
                }
            },
        forall|k: int| 0 <= k < n && is_listed(#[trigger] blocks[k]) ==> at.contains(k),
    decreases n,
{
    if n <= 0 {
        Seq::empty()
    } else {
        let rest = lemma_listed(blocks, n - 1);
        let at = if is_listed(blocks[n - 1]) {
            rest.push(n - 1)
        } else {
            rest
        };
        let old = readable_among(blocks, n - 1);
        let all = readable_among(blocks, n);
        assert forall|i: int| 0 <= i < at.len() implies {
            let b = blocks[#[trigger] at[i]];
            &&& is_listed(b)
            &&& all[i] == Region { base: b.base, size: b.size, writable: can_write(b.protect) }
        } by {
            if i < rest.len() {
                assert(at[i] == rest[i]);
                assert(all[i] == old[i]);
            }
        }
        assert forall|k: int| 0 <= k < n && is_listed(#[trigger] blocks[k]) implies at.contains(k) by {
            if k < n - 1 {
                let i = choose|i: int| 0 <= i < rest.len() && rest[i] == k;
                assert(at[i] == k);
            } else {
                assert(at[rest.len() as int] == k);
            }
        }
        at
    }
}

/// A walk over the address space lists, in their order, exactly the blocks that are committed, can be
/// read and begin in the user address space, each with its address, its size and whether it can be
/// written.
pub proof fn law_walk_lists_what_can_be_read(w: RegionWalk, blocks: Seq<PageInfo>)
    requires
        tiles(blocks),
        w.address == 0,
        !w.done,
        w.regions@ == Seq::<Region>::empty(),
    ensures
        ({
            let r = w.gathers(blocks);
            exists|at: Seq<int>|
                {
                    &&& #[trigger] at.len() == r.len()
                    &&& forall|i: int| 0 <= i < at.len() ==> 0 <= #[trigger] at[i] < blocks.len()
                    &&& forall|i: int, j: int|
                        0 <= i < j < at.len() ==> #[trigger] at[i] < #[trigger] at[j]
                    &&& forall|i: int|
                        0 <= i < at.len() ==> {
                            let b = blocks[#[trigger] at[i]];
                            &&& is_listed(b)
                            &&& r[i] == Region {
                                base: b.base,
                                size: b.size,
                                writable: can_write(b.protect),
                            }
                        }
                    &&& forall|k: int|
                        0 <= k < blocks.len() && is_listed(#[trigger] blocks[k]) ==> at.contains(k)
                }
        }),
{
    if blocks.len() > 0 {
        lemma_gathered(blocks, 0);
    } else {
        lemma_no_block(blocks, 0, 0);
    }
    let at = lemma_listed(blocks, blocks.len() as int);
    assert(at.len() == w.gathers(blocks).len());
}

/// A read that succeeded gives the bytes that were filled, also where they are not all; one that
/// failed, or filled none that were asked for, gives nothing.
pub proof fn law_partial_reads_count(buf: Seq<u8>, read: int)
    requires
        0 <= read <= buf.len(),
    ensures
        bytes_read(false, read, buf) is None,
        read > 0 ==> (bytes_read(true, read, buf) matches Some(b) && b.len() == read && forall|i: int|
            0 <= i < read ==> #[trigger] b[i] == buf[i]),
        read == 0 && buf.len() > 0 ==> bytes_read(true, read, buf) is None,
        buf.len() == 0 ==> bytes_read(true, 0, buf) == Some(buf),
{
    if buf.len() == 0 {
        assert(buf.take(0) =~= buf);
    }
}

/// The next block that is asked for begins where the reader is, and has one mebibyte, or what is left
/// of the region.
pub proof fn law_next_block_is_asked_for(c: ChunkCursor)
    requires
        c.pending(),
        c.base + c.size <= u64::MAX,
    ensures
        c.address() == c.base + c.off,
        c.wanted() == (if c.size - c.off < 1024 * 1024 {
            c.size - c.off
        } else {
            0x10_0000int
        }),
        c.wanted() > 0,
        c.off + c.wanted() <= c.size,
{
}

/// A block that was read in full is followed by one that repeats its last `overlap` bytes.
pub proof fn law_blocks_overlap(c: ChunkCursor)
    requires
        c.pending(),
        c.overlap < 1024 * 1024,
        c.off + 1024 * 1024 <= usize::MAX,
    ensures
        c.after(true, c.wanted()).off + c.overlap == c.off + 1024 * 1024,
        c.after(true, c.wanted()).base == c.base,
        c.after(true, c.wanted()).size == c.size,
        c.after(true, c.wanted()).overlap == c.overlap,
        cursor_at_start(c.base, c.size, c.overlap) == (ChunkCursor { off: 0, ..c }),
{
}

/// Reading a region always goes on: a block that was read in full is followed by one that begins
/// later, by one byte where the blocks have a whole block or more in common.
pub proof fn law_reading_goes_on(c: ChunkCursor)
    requires
        c.pending(),
        c.off + 1024 * 1024 <= usize::MAX,
    ensures
        c.after(true, c.wanted()).off > c.off,
        c.overlap >= 1024 * 1024 ==> c.after(true, c.wanted()).off == c.off + 1,
{
}

} // verus!
