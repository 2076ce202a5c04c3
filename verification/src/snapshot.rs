//! Searches for a value that is not known: a picture of memory, and comparisons with it.

use crate::memory::{
    all_fit, all_seen, begins_well, cursor_at_start, lemma_block_breaks_off, lemma_readable_run,
    read_chunked, readable_run, seen_by_page, ChunkCursor, Region,
};
use crate::scan::{
    compare_pair, compared_pair, known_in, read_known, Known, Match, ScanCmp, ScanProgress,
};
use crate::value::ValueType;
use vstd::arithmetic::div_mod::{
    lemma_div_pos_is_pos, lemma_fundamental_div_mod, lemma_mod_multiples_basic,
};
use vstd::prelude::*;

verus! {

/// The largest region of which a picture is taken (256 MiB).
pub const SNAP_MAX_REGION: usize = 0x1000_0000;

/// How many bytes a picture has at most (2 GiB).
pub const SNAP_MAX_TOTAL: usize = 0x8000_0000;

/// A picture of memory: the bytes of regions, with their addresses.
pub struct Snapshot {
    pub regions: Vec<(u64, Vec<u8>)>,
}

/// The bytes of a part of memory, with its address.
pub struct Piece {
    pub base: u64,
    pub data: Seq<u8>,
}

impl View for Snapshot {
    type V = Seq<Piece>;

    open spec fn view(&self) -> Seq<Piece> {
        Seq::new(
            self.regions@.len(),
            |i: int| Piece { base: self.regions@[i].0, data: self.regions@[i].1@ },
        )
    }
}

/// Every part lies within the address space.
pub open spec fn pieces_fit(pieces: Seq<Piece>) -> bool {
    forall|i: int|
        0 <= i < pieces.len() ==> (#[trigger] pieces[i]).base + pieces[i].data.len() <= u64::MAX
            && pieces[i].data.len() <= usize::MAX
}

// ---------------------------------------------------------------------------
// Reading a region as a whole
// ---------------------------------------------------------------------------

/// A region that is being read: the place reached, and the bytes so far. What was not read is 0.
pub struct ImageView {
    pub cursor: ChunkCursor,
    pub data: Seq<u8>,
    pub any: bool,
}

impl ImageView {
    /// The invariant of a region that is being read.
    pub open spec fn wf(self) -> bool {
        &&& self.data.len() == self.cursor.size
        &&& self.cursor.overlap == 0
    }

    /// The state after a block came back.
    pub open spec fn supplied(self, ok: bool, chunk: Seq<u8>) -> ImageView {
        let take = ok && chunk.len() > 0;
        let off = self.cursor.off as int;
        ImageView {
            cursor: self.cursor.after(ok, chunk.len() as int),
            data: if take {
                self.data.take(off) + chunk + self.data.skip(off + chunk.len())
            } else {
                self.data
            },
            any: self.any || take,
        }
    }
}

/// A region of which nothing is read.
pub open spec fn blank_image(base: u64, size: usize) -> ImageView {
    ImageView {
        cursor: cursor_at_start(base, size, 0),
        data: Seq::new(size as nat, |i: int| 0u8),
        any: false,
    }
}

/// A region that is being read.
pub struct Image {
    pub cursor: ChunkCursor,
    pub data: Vec<u8>,
    pub any: bool,
}

impl View for Image {
    type V = ImageView;

    open spec fn view(&self) -> ImageView {
        ImageView { cursor: self.cursor, data: self.data@, any: self.any }
    }
}

impl Image {
    /// A region of which nothing is read.
    pub fn new(base: u64, size: usize) -> (r: Image)
        ensures
            r@ == blank_image(base, size),
            r@.wf(),
    {
        let mut data: Vec<u8> = Vec::new();
        data.resize(size, 0);
        assert(data@ =~= Seq::new(size as nat, |i: int| 0u8));
        Image { cursor: read_chunked(base, size, 0), data, any: false }
    }

    /// Takes a block.
    pub fn supply(&mut self, ok: bool, chunk: &[u8])
        requires
            old(self)@.wf(),
            old(self)@.cursor.pending(),
            chunk@.len() <= old(self)@.cursor.wanted(),
        ensures
            final(self)@ == old(self)@.supplied(ok, chunk@),
            final(self)@.wf(),
    {
        if ok && chunk.len() > 0 {
            let off = self.cursor.off;
            let ghost before = self.data@;
            let mut k: usize = 0;
            while k < chunk.len()
                invariant
                    k <= chunk.len(),
                    off + chunk.len() <= before.len(),
                    before.len() <= usize::MAX,
                    self.data@ == before.take(off as int) + chunk@.take(k as int) + before.skip(
                        off + k,
                    ),
                    self.cursor == old(self).cursor,
                    self.any == old(self).any,
                decreases chunk.len() - k,
            {
                self.data[off + k] = chunk[k];
                k += 1;
                assert(self.data@ =~= before.take(off as int) + chunk@.take(k as int)
                    + before.skip(off + k));
            }
            assert(chunk@.take(k as int) == chunk@);
            self.any = true;
        }
        self.cursor.advance(ok, chunk.len());
    }
}

/// A region after the rest of it was read, where each block brings the bytes before the first that
/// cannot be read.
pub open spec fn read_image(
    im: ImageView,
    content: Seq<u8>,
    seen: spec_fn(int) -> bool,
) -> ImageView
    decreases
            (if im.cursor.pending() {
                im.cursor.size - im.cursor.off
            } else {
                0
            }),
{
    if im.cursor.pending() {
        let c = im.cursor;
        let n = readable_run(seen, c.off as int, c.off + c.wanted());
        read_image(
            im.supplied(true, content.subrange(c.off as int, c.off + n)),
            content,
            seen,
        )
    } else {
        im
    }
}

/// The bytes of a region, with zeros for those that cannot be read.
pub open spec fn blotted(content: Seq<u8>, seen: spec_fn(int) -> bool) -> Seq<u8> {
    Seq::new(
        content.len(),
        |i: int|
            if seen(i) {
                content[i]
            } else {
                0
            },
    )
}

proof fn lemma_read_image(im: ImageView, content: Seq<u8>, seen: spec_fn(int) -> bool)
    requires
        im.wf(),
        content.len() == im.cursor.size,
        seen_by_page(seen, im.cursor.size as int),
        begins_well(im.cursor, seen),
        forall|i: int|
            0 <= i < content.len() ==> #[trigger] im.data[i] == if i < im.cursor.off {
                blotted(content, seen)[i]
            } else {
                0
            },
    ensures
        read_image(im, content, seen).data == blotted(content, seen),
        read_image(im, content, seen).any == (im.any || exists|x: int|
            im.cursor.off <= x < im.cursor.size && #[trigger] seen(x)),
        !read_image(im, content, seen).cursor.pending(),
    decreases
            (if im.cursor.pending() {
                im.cursor.size - im.cursor.off
            } else {
                0
            }),
{
    if im.cursor.pending() {
        let c = im.cursor;
        let off = c.off as int;
        let n = readable_run(seen, off, off + c.wanted());
        lemma_readable_run(seen, off, off + c.wanted());
        lemma_block_breaks_off(c, seen);
        let chunk = content.subrange(off, off + n);
        let im1 = im.supplied(true, chunk);
        assert forall|i: int| 0 <= i < content.len() implies #[trigger] im1.data[i] == if i
            < im1.cursor.off {
            blotted(content, seen)[i]
        } else {
            0
        } by {
            if off <= i < off + n {
                assert(im1.data[i] == chunk[i - off]);
                assert(seen(i));
            } else {
                assert(im1.data[i] == im.data[i]);
                if off + n <= i < im1.cursor.off {
                    assert(!seen(i));
                }
            }
        }
        lemma_read_image(im1, content, seen);
        if n > 0 {
            assert(seen(off));
        } else {
            assert forall|x: int| off <= x < c.size && #[trigger] seen(x) implies im1.cursor.off
                <= x by {}
        }
    } else {
        assert(im.data =~= blotted(content, seen));
    }
}

/// A region is pictured as it is, with zeros where it cannot be read, where each block brings the
/// bytes before the first that cannot be read. It is kept if anything of it can be read.
pub proof fn law_image_is_faithful(
    base: u64,
    size: usize,
    content: Seq<u8>,
    seen: spec_fn(int) -> bool,
)
    requires
        content.len() == size,
        seen_by_page(seen, size as int),
    ensures
        read_image(blank_image(base, size), content, seen).data == blotted(content, seen),
        read_image(blank_image(base, size), content, seen).any == (exists|x: int|
            0 <= x < size && #[trigger] seen(x)),
{
    lemma_read_image(blank_image(base, size), content, seen);
}

/// A region of which every byte can be read is pictured as it is.
pub proof fn law_readable_image_is_exact(base: u64, size: usize, content: Seq<u8>)
    requires
        content.len() == size,
    ensures
        read_image(blank_image(base, size), content, all_seen()).data == content,
{
    law_image_is_faithful(base, size, content, all_seen());
    assert(blotted(content, all_seen()) =~= content);
}

// ---------------------------------------------------------------------------
// Taking the picture
// ---------------------------------------------------------------------------

/// The state of taking a picture.
pub struct SnapView {
    pub regions: Seq<Region>,
    pub idx: int,
    pub image: Option<ImageView>,
    pub total: int,
    pub taken: Seq<Piece>,
}

impl SnapView {
    /// The invariant of taking a picture.
    pub open spec fn wf(self) -> bool {
        &&& all_fit(self.regions)
        &&& 0 <= self.idx <= self.regions.len()
        &&& 0 <= self.total <= SNAP_MAX_TOTAL
        &&& self.taken.len() <= self.idx
        &&& pieces_fit(self.taken)
        &&& match self.image {
            None => true,
            Some(im) => {
                let r = self.regions[self.idx];
                &&& self.idx < self.regions.len()
                &&& im.wf()
                &&& im.cursor.base == r.base
                &&& im.cursor.size == r.size
                &&& r.size <= SNAP_MAX_REGION
                &&& self.total + r.size <= SNAP_MAX_TOTAL
            },
        }
    }

    /// A block is waited for.
    pub open spec fn waiting(self) -> bool {
        self.image matches Some(im) && im.cursor.pending()
    }

    /// The state when the region that is being read is complete. It is kept if anything was read.
    pub open spec fn closed(self) -> SnapView {
        let im = self.image->0;
        SnapView {
            image: None,
            idx: self.idx + 1,
            total: if im.any {
                self.total + im.data.len()
            } else {
                self.total
            },
            taken: if im.any {
                self.taken.push(Piece { base: im.cursor.base, data: im.data })
            } else {
                self.taken
            },
            ..self
        }
    }

    /// The state in which a block is waited for or the picture is complete, with the progress and
    /// the block waited for. Regions that cannot be written, are empty or too large are left out;
    /// the picture ends before the region that would make it too large, or when it is stopped.
    pub open spec fn next(self, p: ScanProgress) -> (SnapView, ScanProgress, Option<(u64, usize)>)
        decreases self.regions.len() - self.idx, self.image is Some as int,
    {
        match self.image {
            Some(im) => if im.cursor.pending() {
                (self, p, Some((im.cursor.address(), im.cursor.wanted() as usize)))
            } else if self.idx >= self.regions.len() {
                (self, p, None)
            } else {
                let s = self.closed();
                s.next(
                    if im.any {
                        ScanProgress { matches: s.taken.len() as usize, ..p }
                    } else {
                        p
                    },
                )
            },
            None => if self.idx >= self.regions.len() || p.cancel {
                (SnapView { idx: self.regions.len() as int, ..self }, p, None)
            } else {
                let r = self.regions[self.idx];
                let p1 = ScanProgress { done: p.done.wrapping_add(1), ..p };
                if !r.writable || r.size == 0 || r.size > SNAP_MAX_REGION {
                    SnapView { idx: self.idx + 1, ..self }.next(p1)
                } else if self.total + r.size > SNAP_MAX_TOTAL {
                    (SnapView { idx: self.regions.len() as int, ..self }, p1, None)
                } else {
                    let im = blank_image(r.base, r.size);
                    (
                        SnapView { image: Some(im), ..self },
                        p1,
                        Some((im.cursor.address(), im.cursor.wanted() as usize)),
                    )
                }
            },
        }
    }

    /// The state after a block came back.
    pub open spec fn supplied(self, ok: bool, data: Seq<u8>) -> SnapView {
        SnapView { image: Some((self.image->0).supplied(ok, data)), ..self }
    }
}

/// Taking a picture.
pub struct SnapJob {
    pub regions: Vec<Region>,
    pub idx: usize,
    pub image: Option<Image>,
    pub total: usize,
    pub taken: Snapshot,
}

impl View for SnapJob {
    type V = SnapView;

    open spec fn view(&self) -> SnapView {
        SnapView {
            regions: self.regions@,
            idx: self.idx as int,
            image: match self.image {
                Some(im) => Some(im@),
                None => None,
            },
            total: self.total as int,
            taken: self.taken@,
        }
    }
}

/// A picture of which nothing is taken yet.
pub open spec fn picture_start(regions: Seq<Region>) -> SnapView {
    SnapView { regions, idx: 0, image: None, total: 0, taken: Seq::empty() }
}

/// A first search for an unknown value: takes a picture of the regions that can be written.
pub fn unknown_first_job(regions: Vec<Region>) -> (r: SnapJob)
    requires
        all_fit(regions@),
    ensures
        r@ == picture_start(regions@),
        r@.wf(),
{
    let r = SnapJob {
        regions,
        idx: 0,
        image: None,
        total: 0,
        taken: Snapshot { regions: Vec::new() },
    };
    assert(r@.taken =~= Seq::<Piece>::empty());
    r
}

impl SnapJob {
    /// The block that is needed next. `None` when the picture is complete.
    pub fn next(&mut self, progress: &mut ScanProgress) -> (r: Option<(u64, usize)>)
        requires
            old(self)@.wf(),
        ensures
            (final(self)@, *final(progress), r) == old(self)@.next(*old(progress)),
            final(self)@.wf(),
            r is Some == final(self)@.waiting(),
    {
        loop
            invariant
                self@.wf(),
                self@.next(*progress) == old(self)@.next(*old(progress)),
            decreases self.regions.len() - self.idx, self.image is Some as int,
        {
            let ghost before = self@;
            let mut image: Option<Image> = None;
            std::mem::swap(&mut image, &mut self.image);
            match image {
                Some(im) => {
                    if let Some((a, n)) = im.cursor.request() {
                        self.image = Some(im);
                        return Some((a, n));
                    }
                    if im.any {
                        self.total += im.data.len();
                        self.taken.regions.push((im.cursor.base, im.data));
                        assert(self.taken@ =~= before.closed().taken);
                        progress.matches = self.taken.regions.len();
                    }
                    self.idx += 1;
                    assert(self@ == before.closed());
                },
                None => {
                    if self.idx >= self.regions.len() || progress.cancel {
                        self.idx = self.regions.len();
                        return None;
                    }
                    let r = self.regions[self.idx];
                    progress.done = progress.done.wrapping_add(1);
                    if !r.writable || r.size == 0 || r.size > SNAP_MAX_REGION {
                        self.idx += 1;
                    } else if self.total + r.size > SNAP_MAX_TOTAL {
                        self.idx = self.regions.len();
                        return None;
                    } else {
                        let im = Image::new(r.base, r.size);
                        let req = im.cursor.request();
                        self.image = Some(im);
                        return req;
                    }
                },
            }
        }
    }

    /// Takes the block that was asked for.
    pub fn supply(&mut self, ok: bool, data: &[u8])
        requires
            old(self)@.wf(),
            old(self)@.waiting(),
            data@.len() <= old(self)@.image->0.cursor.wanted(),
        ensures
            final(self)@ == old(self)@.supplied(ok, data@),
            final(self)@.wf(),
    {
        let mut image: Option<Image> = None;
        std::mem::swap(&mut image, &mut self.image);
        if let Some(im) = image {
            let mut im = im;
            im.supply(ok, data);
            self.image = Some(im);
        }
    }
}

/// The state after the rest of the region that is being read was read, where each block brings the
/// bytes before the first that cannot be read.
pub open spec fn read_whole(
    s: SnapView,
    content: Seq<u8>,
    seen: spec_fn(int) -> bool,
) -> SnapView
    decreases
            (if s.waiting() {
                s.image->0.cursor.size - s.image->0.cursor.off
            } else {
                0
            }),
{
    if s.waiting() {
        let c = s.image->0.cursor;
        let n = readable_run(seen, c.off as int, c.off + c.wanted());
        read_whole(
            s.supplied(true, content.subrange(c.off as int, c.off + n)),
            content,
            seen,
        )
    } else {
        s
    }
}

/// The state and the progress after at most `n` regions with the given bytes were read, as far as
/// they can be.
pub open spec fn take_picture(
    s: SnapView,
    p: ScanProgress,
    contents: Seq<Seq<u8>>,
    seen: Seq<spec_fn(int) -> bool>,
    n: nat,
) -> (SnapView, ScanProgress)
    decreases n,
{
    let (s1, p1, req) = s.next(p);
    if req is None || n == 0 {
        (s1, p1)
    } else {
        take_picture(
            read_whole(s1, contents[s1.idx], seen[s1.idx]),
            p1,
            contents,
            seen,
            (n - 1) as nat,
        )
    }
}

/// A picture is taken of the region: it can be written, is not empty and not too large.
pub open spec fn is_pictured(r: Region) -> bool {
    r.writable && 0 < r.size <= SNAP_MAX_REGION
}

/// Something of a region can be read.
pub open spec fn some_seen(seen: spec_fn(int) -> bool, size: int) -> bool {
    exists|x: int| 0 <= x < size && #[trigger] seen(x)
}

/// The picture of the regions from the `i`-th on, where those before take `total` bytes: the regions
/// of which a picture is taken and some byte can be read, up to the first that would make the
/// picture too large.
pub open spec fn pictures(
    regions: Seq<Region>,
    contents: Seq<Seq<u8>>,
    seen: Seq<spec_fn(int) -> bool>,
    i: int,
    total: int,
) -> Seq<Piece>
    decreases regions.len() - i,
{
    if i >= regions.len() {
        Seq::empty()
    } else if !is_pictured(regions[i]) {
        pictures(regions, contents, seen, i + 1, total)
    } else if total + regions[i].size > SNAP_MAX_TOTAL {
        Seq::empty()
    } else if !some_seen(seen[i], regions[i].size as int) {
        pictures(regions, contents, seen, i + 1, total)
    } else {
        seq![Piece { base: regions[i].base, data: blotted(contents[i], seen[i]) }] + pictures(
            regions,
            contents,
            seen,
            i + 1,
            total + regions[i].size,
        )
    }
}

/// How many regions from the `i`-th on are looked at, where those before take `total` bytes. The one
/// that would make the picture too large is the last.
pub open spec fn looked_at(
    regions: Seq<Region>,
    seen: Seq<spec_fn(int) -> bool>,
    i: int,
    total: int,
) -> int
    decreases regions.len() - i,
{
    if i >= regions.len() {
        0
    } else if !is_pictured(regions[i]) {
        1 + looked_at(regions, seen, i + 1, total)
    } else if total + regions[i].size > SNAP_MAX_TOTAL {
        1
    } else if !some_seen(seen[i], regions[i].size as int) {
        1 + looked_at(regions, seen, i + 1, total)
    } else {
        1 + looked_at(regions, seen, i + 1, total + regions[i].size)
    }
}

/// The bytes of the regions are given, and what can be read of them goes by pages.
pub open spec fn laid_out(
    sizes: Seq<int>,
    contents: Seq<Seq<u8>>,
    seen: Seq<spec_fn(int) -> bool>,
) -> bool {
    &&& contents.len() == sizes.len()
    &&& seen.len() == sizes.len()
    &&& forall|i: int| 0 <= i < contents.len() ==> (#[trigger] contents[i]).len() == sizes[i]
    &&& forall|i: int| 0 <= i < seen.len() ==> seen_by_page(#[trigger] seen[i], sizes[i])
}

/// How large regions are.
pub open spec fn region_sizes(regions: Seq<Region>) -> Seq<int> {
    regions.map_values(|r: Region| r.size as int)
}

proof fn lemma_read_whole(s: SnapView, content: Seq<u8>, seen: spec_fn(int) -> bool)
    requires
        s.image is Some,
    ensures
        read_whole(s, content, seen) == (SnapView {
            image: Some(read_image(s.image->0, content, seen)),
            ..s
        }),
    decreases
            (if s.waiting() {
                s.image->0.cursor.size - s.image->0.cursor.off
            } else {
                0
            }),
{
    if s.waiting() {
        let c = s.image->0.cursor;
        let n = readable_run(seen, c.off as int, c.off + c.wanted());
        lemma_read_whole(
            s.supplied(true, content.subrange(c.off as int, c.off + n)),
            content,
            seen,
        );
    }
}

proof fn lemma_take_picture(
    s: SnapView,
    p: ScanProgress,
    contents: Seq<Seq<u8>>,
    seen: Seq<spec_fn(int) -> bool>,
    n: nat,
)
    requires
        s.image is None,
        0 <= s.idx,
        !p.cancel,
        laid_out(region_sizes(s.regions), contents, seen),
        n >= s.regions.len() - s.idx,
        p.done + s.regions.len() - s.idx <= usize::MAX,
    ensures
        ({
            let more = pictures(s.regions, contents, seen, s.idx, s.total);
            let (end, q) = take_picture(s, p, contents, seen, n);
            &&& end.taken == s.taken + more
            &&& !end.waiting()
            &&& q == (ScanProgress {
                done: (p.done + looked_at(s.regions, seen, s.idx, s.total)) as usize,
                matches: if more.len() > 0 {
                    end.taken.len() as usize
                } else {
                    p.matches
                },
                ..p
            })
        }),
    decreases s.regions.len() - s.idx,
{
    let i = s.idx;
    if i >= s.regions.len() {
        assert(s.taken + Seq::<Piece>::empty() =~= s.taken);
    } else {
        let r = s.regions[i];
        let p1 = ScanProgress { done: p.done.wrapping_add(1), ..p };
        assert(p1.done == p.done + 1);
        if !is_pictured(r) {
            let rest = SnapView { idx: i + 1, ..s };
            assert(s.next(p) == rest.next(p1));
            assert(take_picture(s, p, contents, seen, n) == take_picture(
                rest,
                p1,
                contents,
                seen,
                n,
            ));
            lemma_take_picture(rest, p1, contents, seen, n);
        } else if s.total + r.size > SNAP_MAX_TOTAL {
            assert(s.taken + Seq::<Piece>::empty() =~= s.taken);
        } else {
            let im = blank_image(r.base, r.size);
            let s1 = SnapView { image: Some(im), ..s };
            assert(im.cursor.pending());
            assert(s.next(p).0 == s1 && s.next(p).1 == p1 && s.next(p).2 is Some);
            let content = contents[i];
            assert(region_sizes(s.regions)[i] == r.size);
            assert(content.len() == r.size && seen_by_page(seen[i], r.size as int));
            lemma_read_image(im, content, seen[i]);
            lemma_read_whole(s1, content, seen[i]);
            let s2 = read_whole(s1, content, seen[i]);
            let done = s2.image->0;
            assert(done.any == some_seen(seen[i], r.size as int));
            let rest = s2.closed();
            let p2 = if done.any {
                ScanProgress { matches: rest.taken.len() as usize, ..p1 }
            } else {
                p1
            };
            assert(s2.idx == i && !done.cursor.pending());
            assert(s2.next(p1) == rest.next(p2));
            lemma_image_keeps_base(im, content, seen[i]);
            let m = (n - 1) as nat;
            assert(take_picture(s, p, contents, seen, n) == take_picture(
                s2,
                p1,
                contents,
                seen,
                m,
            ));
            assert(take_picture(s2, p1, contents, seen, m) == take_picture(
                rest,
                p2,
                contents,
                seen,
                m,
            ));
            lemma_take_picture(rest, p2, contents, seen, m);
            let later = pictures(s.regions, contents, seen, i + 1, rest.total);
            if done.any {
                let piece = Piece { base: r.base, data: blotted(content, seen[i]) };
                assert(rest.taken == s.taken.push(piece));
                assert(rest.taken + later =~= s.taken + (seq![piece] + later));
            }
        }
    }
}

proof fn lemma_image_keeps_base(im: ImageView, content: Seq<u8>, seen: spec_fn(int) -> bool)
    ensures
        read_image(im, content, seen).cursor.base == im.cursor.base,
        read_image(im, content, seen).cursor.size == im.cursor.size,
    decreases
            (if im.cursor.pending() {
                im.cursor.size - im.cursor.off
            } else {
                0
            }),
{
    if im.cursor.pending() {
        let c = im.cursor;
        let n = readable_run(seen, c.off as int, c.off + c.wanted());
        lemma_image_keeps_base(
            im.supplied(true, content.subrange(c.off as int, c.off + n)),
            content,
            seen,
        );
    }
}

/// Where nobody stops it, and each block brings the bytes before the first that cannot be read, the
/// picture holds in their order the regions that can be written, are not empty and not too large,
/// and of which some byte can be read, up to the first that would make it too large; each with
/// zeros where it cannot be read. In the end the progress has counted the regions that were looked
/// at, and holds how many are in the picture where there is one.
pub proof fn law_picture_holds_regions(
    regions: Seq<Region>,
    p: ScanProgress,
    contents: Seq<Seq<u8>>,
    seen: Seq<spec_fn(int) -> bool>,
    n: nat,
)
    requires
        !p.cancel,
        laid_out(region_sizes(regions), contents, seen),
        n >= regions.len(),
        p.done + regions.len() <= usize::MAX,
    ensures
        ({
            let all = pictures(regions, contents, seen, 0, 0);
            let (end, q) = take_picture(picture_start(regions), p, contents, seen, n);
            &&& end.taken == all
            &&& !end.waiting()
            &&& q == (ScanProgress {
                done: (p.done + looked_at(regions, seen, 0, 0)) as usize,
                matches: if all.len() > 0 {
                    all.len() as usize
                } else {
                    p.matches
                },
                ..p
            })
        }),
{
    lemma_take_picture(picture_start(regions), p, contents, seen, n);
    let all = pictures(regions, contents, seen, 0, 0);
    assert(Seq::<Piece>::empty() + all =~= all);
}

/// A picture that was stopped before it was begun is empty, and its progress stays as it is.
pub proof fn law_stopped_picture_is_empty(
    regions: Seq<Region>,
    p: ScanProgress,
    contents: Seq<Seq<u8>>,
    seen: Seq<spec_fn(int) -> bool>,
    n: nat,
)
    requires
        p.cancel,
    ensures
        ({
            let (end, q) = take_picture(picture_start(regions), p, contents, seen, n);
            &&& end.taken.len() == 0
            &&& !end.waiting()
            &&& q == p
        }),
{
}

// ---------------------------------------------------------------------------
// Comparing with the picture
// ---------------------------------------------------------------------------

/// What is looked for in a comparison with a picture.
#[derive(Clone, Copy, PartialEq, Eq, Structural, Debug)]
pub struct PairTest {
    pub vt: ValueType,
    pub fast: bool,
    pub c: ScanCmp,
}

impl PairTest {
    /// The distance between the places that are looked at.
    pub open spec fn step(self) -> int {
        if self.fast {
            self.vt.width() as int
        } else {
            1
        }
    }

    /// Tells whether the values at a place are what is looked for.
    pub open spec fn accepts(self, before: Seq<u8>, now: Seq<u8>, at: int) -> bool {
        let w = self.vt.width() as int;
        compared_pair(self.vt, self.c, before.subrange(at, at + w), now.subrange(at, at + w))
            == Some(true)
    }

    /// What is found in the first `n` places.
    pub open spec fn hits(self, base: u64, before: Seq<u8>, now: Seq<u8>, n: int) -> Seq<Match>
        decreases n,
    {
        if n <= 0 {
            Seq::empty()
        } else {
            let rest = self.hits(base, before, now, n - 1);
            let at = (n - 1) * self.step();
            if self.accepts(before, now, at) {
                rest.push(
                    Match {
                        address: (base + at) as u64,
                        last: known_in(self.vt, now.subrange(at, at + self.vt.width()))->0,
                    },
                )
            } else {
                rest
            }
        }
    }

    /// How many places a part of `len` bytes has.
    pub open spec fn places(self, len: int) -> int {
        if len < self.vt.width() {
            0
        } else {
            (len - self.vt.width()) / self.step() + 1
        }
    }

    /// What is found in a part of memory.
    pub open spec fn hits_in(self, base: u64, before: Seq<u8>, now: Seq<u8>) -> Seq<Match> {
        self.hits(base, before, now, self.places(before.len() as int))
    }
}

/// The state of a comparison with a picture.
pub struct PairView {
    pub test: PairTest,
    pub snap: Seq<Piece>,
    pub idx: int,
    pub image: Option<ImageView>,
    pub found: Seq<Match>,
}

impl PairView {
    /// The invariant of a comparison with a picture.
    pub open spec fn wf(self) -> bool {
        &&& pieces_fit(self.snap)
        &&& 0 <= self.idx <= self.snap.len()
        &&& self.test.vt.width() == 0 ==> self.idx == self.snap.len()
        &&& crate::scan::all_fit(self.found)
        &&& match self.image {
            None => true,
            Some(im) => {
                &&& self.idx < self.snap.len()
                &&& im.wf()
                &&& im.cursor.base == self.snap[self.idx].base
                &&& im.cursor.size == self.snap[self.idx].data.len()
            },
        }
    }

    /// A block is waited for.
    pub open spec fn waiting(self) -> bool {
        self.image matches Some(im) && im.cursor.pending()
    }

    /// The state when a part is read and compared.
    pub open spec fn closed(self) -> PairView {
        let piece = self.snap[self.idx];
        PairView {
            image: None,
            idx: self.idx + 1,
            found: self.found + self.test.hits_in(piece.base, piece.data, (self.image->0).data),
            ..self
        }
    }

    /// The state in which a block is waited for or the comparison is over, with the progress and
    /// the block waited for.
    pub open spec fn next(self, p: ScanProgress) -> (PairView, ScanProgress, Option<(u64, usize)>)
        decreases self.snap.len() - self.idx, self.image is None as int,
    {
        if self.idx >= self.snap.len() {
            (self, p, None)
        } else {
            match self.image {
                Some(im) => if im.cursor.pending() {
                    (self, p, Some((im.cursor.address(), im.cursor.wanted() as usize)))
                } else {
                    let s = self.closed();
                    s.next(
                        ScanProgress {
                            done: p.done.wrapping_add(1),
                            matches: s.found.len() as usize,
                            ..p
                        },
                    )
                },
                None => if p.cancel {
                    (PairView { idx: self.snap.len() as int, ..self }, p, None)
                } else {
                    let piece = self.snap[self.idx];
                    PairView {
                        image: Some(blank_image(piece.base, piece.data.len() as usize)),
                        ..self
                    }.next(p)
                },
            }
        }
    }

    /// The state after a block came back.
    pub open spec fn supplied(self, ok: bool, data: Seq<u8>) -> PairView {
        PairView { image: Some((self.image->0).supplied(ok, data)), ..self }
    }
}

/// A comparison with a picture.
pub struct PairJob {
    pub test: PairTest,
    pub snap: Snapshot,
    pub idx: usize,
    pub image: Option<Image>,
    pub found: Vec<Match>,
}

impl View for PairJob {
    type V = PairView;

    open spec fn view(&self) -> PairView {
        PairView {
            test: self.test,
            snap: self.snap@,
            idx: self.idx as int,
            image: match self.image {
                Some(im) => Some(im@),
                None => None,
            },
            found: self.found@,
        }
    }
}

/// A comparison that has not begun. Texts are not compared.
pub open spec fn pair_start(test: PairTest, snap: Seq<Piece>) -> PairView {
    PairView {
        test,
        snap,
        idx: if test.vt.width() == 0 {
            snap.len() as int
        } else {
            0
        },
        image: None,
        found: Seq::empty(),
    }
}

/// A search for values that changed, or not, since a picture was taken.
pub fn unknown_next_job(snap: Snapshot, value_type: ValueType, fast_scan: bool, c: ScanCmp) -> (r:
    PairJob)
    requires
        pieces_fit(snap@),
    ensures
        r@ == pair_start(PairTest { vt: value_type, fast: fast_scan, c }, snap@),
        r@.wf(),
{
    let idx: usize = if value_type.size() == 0 {
        snap.regions.len()
    } else {
        0
    };
    PairJob {
        test: PairTest { vt: value_type, fast: fast_scan, c },
        snap,
        idx,
        image: None,
        found: Vec::new(),
    }
}

impl PairJob {
    fn compare_piece(&mut self, now: &Vec<u8>)
        requires
            old(self)@.wf(),
            old(self)@.idx < old(self)@.snap.len(),
            now@.len() == old(self)@.snap[old(self)@.idx].data.len(),
        ensures
            final(self)@ == (PairView {
                found: old(self)@.found + old(self)@.test.hits_in(
                    old(self)@.snap[old(self)@.idx].base,
                    old(self)@.snap[old(self)@.idx].data,
                    now@,
                ),
                ..old(self)@
            }),
            crate::scan::all_fit(final(self)@.found),
    {
        let ghost start = self@;
        let ghost piece = start.snap[start.idx];
        let t = self.test;
        let w = t.vt.size();
        let step: usize = if t.fast {
            w
        } else {
            1
        };
        let base = self.snap.regions[self.idx].0;
        let len = self.snap.regions[self.idx].1.len();
        assert(piece.base == base && piece.data.len() == len);
        let mut off: usize = 0;
        let ghost mut n: int = 0;
        assert(self@.found =~= start.found + t.hits(base, piece.data, now@, 0));
        while off <= len && len - off >= w
            invariant
                start == old(self)@,
                start.wf(),
                start.idx < start.snap.len(),
                piece == start.snap[start.idx],
                t == start.test,
                w == t.vt.width(),
                1 <= step <= w,
                step == t.step(),
                base == piece.base,
                len == piece.data.len(),
                now@.len() == len,
                self@ == (PairView { found: self@.found, ..start }),
                self@.found == start.found + t.hits(base, piece.data, now@, n),
                crate::scan::all_fit(self@.found),
                0 <= n,
                off == n * step,
                off <= len + step,
                n == 0 || (n - 1) * step + w <= len,
            decreases len + step - off,
        {
            let ghost regions = self.snap.regions@;
            assert(start.snap[start.idx].data == regions[self.idx as int].1@);
            let oldb = &self.snap.regions[self.idx].1[off..off + w];
            let newb = &now[off..off + w];
            assert(oldb@ =~= piece.data.subrange(off as int, off + w));
            assert(newb@ =~= now@.subrange(off as int, off + w));
            let hit = match compare_pair(t.vt, &t.c, oldb, newb) {
                Some(b) => b,
                None => false,
            };
            let reading = read_known(t.vt, newb);
            if hit {
                let last = match reading {
                    Some(k) => k,
                    None => Known::Float(0),
                };
                self.found.push(Match { address: base + off as u64, last });
            }
            proof {
                assert((n + 1) * step == n * step + step) by (nonlinear_arith);
                n = n + 1;
                assert((n - 1) * t.step() == off);
                assert(self@.found =~= start.found + t.hits(base, piece.data, now@, n));
            }
            off += step;
        }
        proof {
            lemma_places(t, len as int, n);
        }
    }

    /// The block that is needed next. `None` when the search is over.
    pub fn next(&mut self, progress: &mut ScanProgress) -> (r: Option<(u64, usize)>)
        requires
            old(self)@.wf(),
        ensures
            (final(self)@, *final(progress), r) == old(self)@.next(*old(progress)),
            final(self)@.wf(),
            r is Some ==> final(self)@.waiting(),
    {
        loop
            invariant
                self@.wf(),
                self@.next(*progress) == old(self)@.next(*old(progress)),
            decreases self.snap.regions.len() - self.idx, self.image is None as int,
        {
            if self.idx >= self.snap.regions.len() {
                return None;
            }
            let ghost before = self@;
            let mut image: Option<Image> = None;
            std::mem::swap(&mut image, &mut self.image);
            match image {
                Some(im) => {
                    if let Some((a, n)) = im.cursor.request() {
                        self.image = Some(im);
                        return Some((a, n));
                    }
                    self.compare_piece(&im.data);
                    self.idx += 1;
                    assert(self@ == before.closed());
                    progress.done = progress.done.wrapping_add(1);
                    progress.matches = self.found.len();
                },
                None => {
                    if progress.cancel {
                        self.idx = self.snap.regions.len();
                        return None;
                    }
                    let base = self.snap.regions[self.idx].0;
                    let len = self.snap.regions[self.idx].1.len();
                    self.image = Some(Image::new(base, len));
                },
            }
        }
    }

    /// Takes the block that was asked for.
    pub fn supply(&mut self, ok: bool, data: &[u8])
        requires
            old(self)@.wf(),
            old(self)@.waiting(),
            data@.len() <= old(self)@.image->0.cursor.wanted(),
        ensures
            final(self)@ == old(self)@.supplied(ok, data@),
            final(self)@.wf(),
    {
        let mut image: Option<Image> = None;
        std::mem::swap(&mut image, &mut self.image);
        if let Some(im) = image {
            let mut im = im;
            im.supply(ok, data);
            self.image = Some(im);
        }
    }
}

proof fn lemma_places(t: PairTest, len: int, n: int)
    requires
        1 <= t.step() <= t.vt.width(),
        0 <= n,
        n == 0 || (n - 1) * t.step() + t.vt.width() <= len,
        0 <= len,
        n * t.step() + t.vt.width() > len,
    ensures
        n == t.places(len),
{
    let s = t.step();
    let w = t.vt.width() as int;
    if n > 0 {
        let q = n - 1;
        assert(n * s == q * s + s) by (nonlinear_arith)
            requires
                q == n - 1,
        ;
        let r = len - w - q * s;
        vstd::arithmetic::div_mod::lemma_fundamental_div_mod_converse(len - w, s, q, r);
    } else {
        assert(n * s == 0) by (nonlinear_arith)
            requires
                n == 0,
        ;
    }
}

/// The state after the rest of the part that is being read was read, where each block brings the
/// bytes before the first that cannot be read.
pub open spec fn read_again(
    s: PairView,
    content: Seq<u8>,
    seen: spec_fn(int) -> bool,
) -> PairView
    decreases
            (if s.waiting() {
                s.image->0.cursor.size - s.image->0.cursor.off
            } else {
                0
            }),
{
    if s.waiting() {
        let c = s.image->0.cursor;
        let n = readable_run(seen, c.off as int, c.off + c.wanted());
        read_again(
            s.supplied(true, content.subrange(c.off as int, c.off + n)),
            content,
            seen,
        )
    } else {
        s
    }
}

/// The state and the progress after at most `n` parts with the given bytes were read, as far as they
/// can be.
pub open spec fn compare_all(
    s: PairView,
    p: ScanProgress,
    contents: Seq<Seq<u8>>,
    seen: Seq<spec_fn(int) -> bool>,
    n: nat,
) -> (PairView, ScanProgress)
    decreases n,
{
    let (s1, p1, req) = s.next(p);
    if req is None || n == 0 {
        (s1, p1)
    } else {
        compare_all(
            read_again(s1, contents[s1.idx], seen[s1.idx]),
            p1,
            contents,
            seen,
            (n - 1) as nat,
        )
    }
}

/// What is found in the parts of a picture from the `i`-th on, part by part. What cannot be read
/// now counts as zero.
pub open spec fn pair_hits(
    test: PairTest,
    snap: Seq<Piece>,
    contents: Seq<Seq<u8>>,
    seen: Seq<spec_fn(int) -> bool>,
    i: int,
) -> Seq<Match>
    decreases snap.len() - i,
{
    if i >= snap.len() {
        Seq::empty()
    } else {
        test.hits_in(snap[i].base, snap[i].data, blotted(contents[i], seen[i])) + pair_hits(
            test,
            snap,
            contents,
            seen,
            i + 1,
        )
    }
}

/// How large the parts of a picture are.
pub open spec fn piece_sizes(snap: Seq<Piece>) -> Seq<int> {
    snap.map_values(|p: Piece| p.data.len() as int)
}

proof fn lemma_read_again(s: PairView, content: Seq<u8>, seen: spec_fn(int) -> bool)
    requires
        s.image is Some,
    ensures
        read_again(s, content, seen) == (PairView {
            image: Some(read_image(s.image->0, content, seen)),
            ..s
        }),
    decreases
            (if s.waiting() {
                s.image->0.cursor.size - s.image->0.cursor.off
            } else {
                0
            }),
{
    if s.waiting() {
        let c = s.image->0.cursor;
        let n = readable_run(seen, c.off as int, c.off + c.wanted());
        lemma_read_again(
            s.supplied(true, content.subrange(c.off as int, c.off + n)),
            content,
            seen,
        );
    }
}

proof fn lemma_compare_all(
    s: PairView,
    p: ScanProgress,
    contents: Seq<Seq<u8>>,
    seen: Seq<spec_fn(int) -> bool>,
    n: nat,
)
    requires
        s.image is None,
        0 <= s.idx <= s.snap.len(),
        !p.cancel,
        pieces_fit(s.snap),
        laid_out(piece_sizes(s.snap), contents, seen),
        n >= s.snap.len() - s.idx,
        p.done + s.snap.len() - s.idx <= usize::MAX,
    ensures
        ({
            let (end, q) = compare_all(s, p, contents, seen, n);
            &&& end.found == s.found + pair_hits(s.test, s.snap, contents, seen, s.idx)
            &&& !end.waiting()
            &&& q == (ScanProgress {
                done: (p.done + s.snap.len() - s.idx) as usize,
                matches: if s.idx < s.snap.len() {
                    end.found.len() as usize
                } else {
                    p.matches
                },
                ..p
            })
        }),
    decreases s.snap.len() - s.idx,
{
    let i = s.idx;
    if i >= s.snap.len() {
        assert(s.found + Seq::<Match>::empty() =~= s.found);
    } else {
        let piece = s.snap[i];
        let im = blank_image(piece.base, piece.data.len() as usize);
        let s1 = PairView { image: Some(im), ..s };
        assert(s.next(p) == s1.next(p));
        let content = contents[i];
        assert(piece_sizes(s.snap)[i] == piece.data.len());
        assert(content.len() == piece.data.len() && seen_by_page(
            seen[i],
            piece.data.len() as int,
        ));
        lemma_read_image(im, content, seen[i]);
        lemma_read_again(s1, content, seen[i]);
        let s2 = read_again(s1, content, seen[i]);
        let rest = s2.closed();
        let p2 = ScanProgress {
            done: p.done.wrapping_add(1),
            matches: rest.found.len() as usize,
            ..p
        };
        assert(p2.done == p.done + 1);
        assert(s2.idx == i && !s2.image->0.cursor.pending());
        assert(s2.next(p) == rest.next(p2));
        let m: nat = if im.cursor.pending() {
            (n - 1) as nat
        } else {
            n
        };
        assert(compare_all(s, p, contents, seen, n) == compare_all(s2, p, contents, seen, m));
        assert(compare_all(s2, p, contents, seen, m) == compare_all(rest, p2, contents, seen, m));
        lemma_compare_all(rest, p2, contents, seen, m);
        let here = s.test.hits_in(piece.base, piece.data, blotted(content, seen[i]));
        let later = pair_hits(s.test, s.snap, contents, seen, i + 1);
        assert(rest.found == s.found + here);
        assert(s.found + here + later =~= s.found + (here + later));
    }
}

/// Where nobody stops it, and each block brings the bytes before the first that cannot be read, a
/// comparison with a picture finds what there is in each of its parts, part by part. In the end the
/// progress has counted the parts, and holds how much was found where there is one. A comparison of
/// texts finds nothing and leaves the progress as it is.
pub proof fn law_comparison_covers_picture(
    test: PairTest,
    snap: Seq<Piece>,
    p: ScanProgress,
    contents: Seq<Seq<u8>>,
    seen: Seq<spec_fn(int) -> bool>,
    n: nat,
)
    requires
        !p.cancel,
        pieces_fit(snap),
        laid_out(piece_sizes(snap), contents, seen),
        n >= snap.len(),
        p.done + snap.len() <= usize::MAX,
    ensures
        ({
            let (end, q) = compare_all(pair_start(test, snap), p, contents, seen, n);
            &&& !end.waiting()
            &&& test.vt.width() == 0 ==> end.found.len() == 0 && q == p
            &&& test.vt.width() > 0 ==> {
                &&& end.found == pair_hits(test, snap, contents, seen, 0)
                &&& q == (ScanProgress {
                    done: (p.done + snap.len()) as usize,
                    matches: if snap.len() > 0 {
                        end.found.len() as usize
                    } else {
                        p.matches
                    },
                    ..p
                })
            }
        }),
{
    let s = pair_start(test, snap);
    lemma_compare_all(s, p, contents, seen, n);
    let all = pair_hits(test, snap, contents, seen, s.idx);
    assert(Seq::<Match>::empty() + all =~= all);
}

/// A comparison that was stopped before it began finds nothing and leaves the progress as it is.
pub proof fn law_stopped_comparison_finds_nothing(
    test: PairTest,
    snap: Seq<Piece>,
    p: ScanProgress,
    contents: Seq<Seq<u8>>,
    seen: Seq<spec_fn(int) -> bool>,
    n: nat,
)
    requires
        p.cancel,
    ensures
        ({
            let (end, q) = compare_all(pair_start(test, snap), p, contents, seen, n);
            &&& end.found.len() == 0
            &&& !end.waiting()
            &&& q == p
        }),
{
}

/// Where memory did not change since the picture, "changed" finds nothing, and for integers
/// "unchanged" finds every place.
pub proof fn law_unchanged_picture(t: PairTest, base: u64, data: Seq<u8>, n: int)
    requires
        t.vt.width() > 0,
        0 <= n <= t.places(data.len() as int),
    ensures
        t.c.kind is Changed && t.vt.int_kind() ==> t.hits(base, data, data, n).len() == 0,
        t.c.kind is Unchanged && t.vt.int_kind() ==> t.hits(base, data, data, n).len() == n,
    decreases n,
{
    if n > 0 {
        law_unchanged_picture(t, base, data, n - 1);
        let w = t.vt.width() as int;
        let at = (n - 1) * t.step();
        let s = t.step();
        let q = (data.len() - w) / s;
        vstd::arithmetic::div_mod::lemma_fundamental_div_mod(data.len() - w, s);
        assert(0 <= at && at <= s * q) by (nonlinear_arith)
            requires
                at == (n - 1) * s,
                1 <= n <= q + 1,
                s >= 1,
        ;
        let b = data.subrange(at, at + w);
        assert(b.len() == w);
    }
}

// ---------------------------------------------------------------------------
// What a picture holds, and what a comparison finds
// ---------------------------------------------------------------------------

/// A piece is the picture of a region: it has its address and its size, the bytes that can be read,
/// and zeros for the others.
pub open spec fn depicts(
    region: Region,
    content: Seq<u8>,
    seen: spec_fn(int) -> bool,
    piece: Piece,
) -> bool {
    &&& piece.base == region.base
    &&& piece.data.len() == content.len()
    &&& forall|x: int|
        0 <= x < content.len() ==> #[trigger] piece.data[x] == (if seen(x) {
            content[x]
        } else {
            0
        })
}

/// A region belongs into a picture: it can be written, has from one byte to 256 MiB, and some byte of
/// it can be read.
pub open spec fn belongs(region: Region, seen: spec_fn(int) -> bool) -> bool {
    &&& region.writable
    &&& 1 <= region.size <= 256 * 1024 * 1024
    &&& exists|x: int| 0 <= x < region.size && #[trigger] seen(x)
}

/// How many bytes of the first `n` regions belong into a picture.
pub open spec fn filled(regions: Seq<Region>, seen: Seq<spec_fn(int) -> bool>, n: int) -> int
    decreases n,
{
    if n <= 0 {
        0
    } else {
        filled(regions, seen, n - 1) + (if belongs(regions[n - 1], seen[n - 1]) {
            regions[n - 1].size as int
        } else {
            0
        })
    }
}

/// A region finds room in a picture: what belongs there of the regions before it leaves as much of
/// 2 GiB. Whether a region that can be written can also be read is not known when it is given room.
pub open spec fn finds_room(regions: Seq<Region>, seen: Seq<spec_fn(int) -> bool>, i: int) -> bool {
    let r = regions[i];
    r.writable && 1 <= r.size <= 256 * 1024 * 1024 ==> filled(regions, seen, i) + r.size <= 2 * 1024
        * 1024 * 1024
}

/// Every region up to the `i`-th finds room.
pub open spec fn all_find_room(regions: Seq<Region>, seen: Seq<spec_fn(int) -> bool>, i: int) -> bool {
    forall|j: int| 0 <= j <= i ==> #[trigger] finds_room(regions, seen, j)
}

proof fn lemma_pictures_at(
    regions: Seq<Region>,
    contents: Seq<Seq<u8>>,
    seen: Seq<spec_fn(int) -> bool>,
    i: int,
) -> (at: Seq<int>)
    requires
        0 <= i <= regions.len(),
        laid_out(region_sizes(regions), contents, seen),
        all_find_room(regions, seen, i - 1),
    ensures
        ({
            let all = pictures(regions, contents, seen, i, filled(regions, seen, i));
            &&& at.len() == all.len()
            &&& forall|k: int| 0 <= k < at.len() ==> i <= #[trigger] at[k] < regions.len()
            &&& forall|j: int, k: int| 0 <= j < k < at.len() ==> #[trigger] at[j] < #[trigger] at[k]
            &&& forall|k: int|
                0 <= k < at.len() ==> belongs(regions[#[trigger] at[k]], seen[at[k]])
                    && all_find_room(regions, seen, at[k]) && depicts(
                    regions[at[k]],
                    contents[at[k]],
                    seen[at[k]],
                    all[k],
                )
            &&& forall|q: int|
                i <= q < regions.len() && belongs(#[trigger] regions[q], seen[q]) && all_find_room(
                    regions,
                    seen,
                    q,
                ) ==> at.contains(q)
        }),
    decreases regions.len() - i,
{
    if i >= regions.len() {
        Seq::empty()
    } else {
        let r = regions[i];
        let total = filled(regions, seen, i);
        let all = pictures(regions, contents, seen, i, total);
        assert(region_sizes(regions)[i] == r.size);
        assert(is_pictured(r) <==> r.writable && 1 <= r.size <= 256 * 1024 * 1024);
        assert(belongs(r, seen[i]) <==> is_pictured(r) && some_seen(seen[i], r.size as int));
        if is_pictured(r) && total + r.size > SNAP_MAX_TOTAL {
            assert(!finds_room(regions, seen, i));
            Seq::empty()
        } else {
            assert(finds_room(regions, seen, i));
            assert(all_find_room(regions, seen, i)) by {
                assert forall|j: int| 0 <= j <= i implies #[trigger] finds_room(
                    regions,
                    seen,
                    j,
                ) by {}
            }
            let later = lemma_pictures_at(regions, contents, seen, i + 1);
            let tail = pictures(regions, contents, seen, i + 1, filled(regions, seen, i + 1));
            if !belongs(r, seen[i]) {
                assert(all == tail);
                later
            } else {
                let at = seq![i] + later;
                assert(all == seq![Piece { base: r.base, data: blotted(contents[i], seen[i]) }]
                    + tail);
                assert forall|k: int| 0 <= k < at.len() implies i <= #[trigger] at[k]
                    < regions.len() && belongs(regions[at[k]], seen[at[k]]) && all_find_room(
                    regions,
                    seen,
                    at[k],
                ) && depicts(regions[at[k]], contents[at[k]], seen[at[k]], all[k]) by {
                    if k > 0 {
                        assert(at[k] == later[k - 1]);
                        assert(all[k] == tail[k - 1]);
                    } else {
                        assert(contents[i].len() == r.size);
                    }
                }
                assert forall|q: int|
                    i <= q < regions.len() && belongs(#[trigger] regions[q], seen[q])
                        && all_find_room(regions, seen, q) implies at.contains(q) by {
                    if q == i {
                        assert(at[0] == q);
                    } else {
                        let k = choose|k: int| 0 <= k < later.len() && later[k] == q;
                        assert(at[k + 1] == q);
                    }
                }
                assert forall|j: int, k: int| 0 <= j < k < at.len() implies #[trigger] at[j]
                    < #[trigger] at[k] by {
                    assert(at[k] == later[k - 1]);
                    if j > 0 {
                        assert(at[j] == later[j - 1]);
                    }
                }
                at
            }
        }
    }
}

/// A picture that nobody stops holds, in their order and each as it can be read, exactly the regions
/// that can be written, are neither empty nor larger than 256 MiB, and of which some byte can be read,
/// up to the first that finds no room.
pub proof fn law_picture_holds_what_belongs(
    regions: Seq<Region>,
    p: ScanProgress,
    contents: Seq<Seq<u8>>,
    seen: Seq<spec_fn(int) -> bool>,
    n: nat,
)
    requires
        !p.cancel,
        laid_out(region_sizes(regions), contents, seen),
        n >= regions.len(),
        p.done + regions.len() <= usize::MAX,
    ensures
        ({
            let taken = take_picture(picture_start(regions), p, contents, seen, n).0.taken;
            exists|at: Seq<int>|
                {
                    &&& #[trigger] at.len() == taken.len()
                    &&& forall|k: int| 0 <= k < at.len() ==> 0 <= #[trigger] at[k] < regions.len()
                    &&& forall|j: int, k: int|
                        0 <= j < k < at.len() ==> #[trigger] at[j] < #[trigger] at[k]
                    &&& forall|k: int|
                        0 <= k < at.len() ==> belongs(regions[#[trigger] at[k]], seen[at[k]])
                            && all_find_room(regions, seen, at[k]) && depicts(
                            regions[at[k]],
                            contents[at[k]],
                            seen[at[k]],
                            taken[k],
                        )
                    &&& forall|q: int|
                        0 <= q < regions.len() && belongs(#[trigger] regions[q], seen[q])
                            && all_find_room(regions, seen, q) ==> at.contains(q)
                }
        }),
{
    law_picture_holds_regions(regions, p, contents, seen, n);
    let at = lemma_pictures_at(regions, contents, seen, 0);
    assert(at.len() == take_picture(picture_start(regions), p, contents, seen, n).0.taken.len());
}

/// A comparison finds something at the distance `off` in a piece of a picture: the value lies in the
/// piece, at a multiple of its size in a fast search, and the comparison accepts the one that is
/// there now beside the one in the picture.
pub open spec fn differs_at(test: PairTest, before: Seq<u8>, now: Seq<u8>, off: int) -> bool {
    let w = test.vt.width() as int;
    &&& 0 <= off
    &&& off + w <= before.len()
    &&& test.fast ==> off % w == 0
    &&& compared_pair(test.vt, test.c, before.subrange(off, off + w), now.subrange(off, off + w))
        == Some(true)
}

/// A match says where in a piece something was found, and the value that is there now.
pub open spec fn tells(test: PairTest, base: u64, now: Seq<u8>, off: int, m: Match) -> bool {
    &&& m.address == base + off
    &&& known_in(test.vt, now.subrange(off, off + test.vt.width())) == Some(m.last)
}

proof fn lemma_hits_at(test: PairTest, base: u64, before: Seq<u8>, now: Seq<u8>, n: int) -> (at: Seq<
    int,
>)
    requires
        test.vt.width() > 0,
        base + before.len() <= u64::MAX,
        0 <= n <= test.places(before.len() as int),
    ensures
        at.len() == test.hits(base, before, now, n).len(),
        forall|k: int|
            0 <= k < at.len() ==> differs_at(test, before, now, #[trigger] at[k]) && at[k] < n
                * test.step() && tells(test, base, now, at[k], test.hits(base, before, now, n)[k]),
        forall|j: int, k: int| 0 <= j < k < at.len() ==> #[trigger] at[j] < #[trigger] at[k],
        forall|off: int|
            #![trigger differs_at(test, before, now, off)]
            off < n * test.step() && differs_at(test, before, now, off) ==> at.contains(off),
    decreases n,
{
    let step = test.step();
    let w = test.vt.width() as int;
    if n <= 0 {
        assert(n * step == 0) by (nonlinear_arith)
            requires
                n == 0,
        ;
        Seq::empty()
    } else {
        let rest = lemma_hits_at(test, base, before, now, n - 1);
        let off = (n - 1) * step;
        assert(n * step == off + step) by (nonlinear_arith)
            requires
                off == (n - 1) * step,
        ;
        let old = test.hits(base, before, now, n - 1);
        let all = test.hits(base, before, now, n);
        let q = (before.len() - w) / step;
        lemma_fundamental_div_mod(before.len() - w, step);
        assert(0 <= off && off <= step * q) by (nonlinear_arith)
            requires
                off == (n - 1) * step,
                1 <= n <= q + 1,
                step >= 1,
        ;
        lemma_mod_multiples_basic(n - 1, step);
        let hit = test.accepts(before, now, off);
        assert(hit <==> differs_at(test, before, now, off));
        let at = if hit {
            rest.push(off)
        } else {
            rest
        };
        assert forall|k: int| 0 <= k < at.len() implies differs_at(
            test,
            before,
            now,
            #[trigger] at[k],
        ) && at[k] < n * step && tells(test, base, now, at[k], all[k]) by {
            if k < rest.len() {
                assert(at[k] == rest[k]);
                assert(all[k] == old[k]);
            }
        }
        assert forall|x: int|
            #![trigger differs_at(test, before, now, x)]
            x < n * step && differs_at(test, before, now, x) implies at.contains(x) by {
            if x < off {
                let k = choose|k: int| 0 <= k < rest.len() && rest[k] == x;
                assert(at[k] == x);
            } else {
                if test.fast {
                    lemma_fundamental_div_mod(x, step);
                    assert(x == off) by (nonlinear_arith)
                        requires
                            x == step * (x / step),
                            off == (n - 1) * step,
                            off <= x < off + step,
                            step >= 1,
                    ;
                }
                assert(x == off);
                assert(at[rest.len() as int] == x);
            }
        }
        at
    }
}

proof fn lemma_pair_spots(
    test: PairTest,
    snap: Seq<Piece>,
    contents: Seq<Seq<u8>>,
    seen: Seq<spec_fn(int) -> bool>,
    i: int,
) -> (spots: Seq<(int, int)>)
    requires
        test.vt.width() > 0,
        pieces_fit(snap),
        0 <= i <= snap.len(),
        laid_out(piece_sizes(snap), contents, seen),
    ensures
        spots.len() == pair_hits(test, snap, contents, seen, i).len(),
        forall|a: int, b: int|
            0 <= a < b < spots.len() ==> (#[trigger] spots[a]).0 < (#[trigger] spots[b]).0 || (
            spots[a].0 == spots[b].0 && spots[a].1 < spots[b].1),
        forall|a: int|
            #![trigger spots[a]]
            0 <= a < spots.len() ==> {
                let (k, off) = spots[a];
                &&& i <= k < snap.len()
                &&& differs_at(test, snap[k].data, blotted(contents[k], seen[k]), off)
                &&& tells(
                    test,
                    snap[k].base,
                    blotted(contents[k], seen[k]),
                    off,
                    pair_hits(test, snap, contents, seen, i)[a],
                )
            },
        forall|k: int, off: int|
            #![trigger differs_at(test, snap[k].data, blotted(contents[k], seen[k]), off)]
            i <= k < snap.len() && differs_at(
                test,
                snap[k].data,
                blotted(contents[k], seen[k]),
                off,
            ) ==> spots.contains((k, off)),
    decreases snap.len() - i,
{
    if i >= snap.len() {
        Seq::empty()
    } else {
        let rest = lemma_pair_spots(test, snap, contents, seen, i + 1);
        let now = blotted(contents[i], seen[i]);
        let before = snap[i].data;
        let n = test.places(before.len() as int);
        let w = test.vt.width() as int;
        let step = test.step();
        if before.len() >= w {
            lemma_fundamental_div_mod(before.len() - w, step);
            lemma_div_pos_is_pos(before.len() - w, step);
        }
        let at = lemma_hits_at(test, snap[i].base, before, now, n);
        let here = at.map_values(|off: int| (i, off));
        let spots = here + rest;
        let new = test.hits_in(snap[i].base, before, now);
        let old = pair_hits(test, snap, contents, seen, i + 1);
        let all = pair_hits(test, snap, contents, seen, i);
        assert forall|a: int, b: int| 0 <= a < b < spots.len() implies (#[trigger] spots[a]).0 < (
        #[trigger] spots[b]).0 || (spots[a].0 == spots[b].0 && spots[a].1 < spots[b].1) by {
            if b < here.len() {
                assert(spots[a] == (i, at[a]) && spots[b] == (i, at[b]));
            } else if a < here.len() {
                assert(spots[a] == (i, at[a]) && spots[b] == rest[b - here.len()]);
            } else {
                assert(spots[a] == rest[a - here.len()] && spots[b] == rest[b - here.len()]);
            }
        }
        assert forall|a: int| #![trigger spots[a]] 0 <= a < spots.len() implies {
            let (k, off) = spots[a];
            &&& i <= k < snap.len()
            &&& differs_at(test, snap[k].data, blotted(contents[k], seen[k]), off)
            &&& tells(test, snap[k].base, blotted(contents[k], seen[k]), off, all[a])
        } by {
            if a < here.len() {
                assert(spots[a] == (i, at[a]));
                assert(all[a] == new[a]);
            } else {
                assert(spots[a] == rest[a - here.len()]);
                assert(all[a] == old[a - here.len()]);
            }
        }
        assert forall|k: int, off: int|
            #![trigger differs_at(test, snap[k].data, blotted(contents[k], seen[k]), off)]
            i <= k < snap.len() && differs_at(
                test,
                snap[k].data,
                blotted(contents[k], seen[k]),
                off,
            ) implies spots.contains((k, off)) by {
            if k > i {
                let a = choose|a: int| 0 <= a < rest.len() && rest[a] == (k, off);
                assert(spots[here.len() + a] == (k, off));
            } else {
                assert(off <= before.len() - w);
                assert(before.len() - w < n * step) by (nonlinear_arith)
                    requires
                        before.len() - w == step * ((before.len() - w) / step) + (before.len() - w)
                            % step,
                        (before.len() - w) % step < step,
                        n == (before.len() - w) / step + 1,
                ;
                let a = choose|a: int| 0 <= a < at.len() && at[a] == off;
                assert(spots[a] == (k, off));
            }
        }
        spots
    }
}

/// A comparison with a picture that nobody stops finds, piece by piece and there in ascending order,
/// exactly the places at which the comparison accepts the value that is there now beside the one in
/// the picture; what cannot be read now counts as zero. Each match says where, and what value is
/// there now.
pub proof fn law_comparison_finds_what_differs(
    test: PairTest,
    snap: Seq<Piece>,
    p: ScanProgress,
    contents: Seq<Seq<u8>>,
    seen: Seq<spec_fn(int) -> bool>,
    n: nat,
)
    requires
        !p.cancel,
        test.vt.width() > 0,
        pieces_fit(snap),
        laid_out(piece_sizes(snap), contents, seen),
        n >= snap.len(),
        p.done + snap.len() <= usize::MAX,
    ensures
        ({
            let found = compare_all(pair_start(test, snap), p, contents, seen, n).0.found;
            exists|spots: Seq<(int, int)>|
                {
                    &&& #[trigger] spots.len() == found.len()
                    &&& forall|a: int, b: int|
                        0 <= a < b < spots.len() ==> (#[trigger] spots[a]).0 < (
                        #[trigger] spots[b]).0 || (spots[a].0 == spots[b].0 && spots[a].1
                            < spots[b].1)
                    &&& forall|a: int|
                        #![trigger spots[a]]
                        0 <= a < spots.len() ==> {
                            let (k, off) = spots[a];
                            &&& 0 <= k < snap.len()
                            &&& differs_at(
                                test,
                                snap[k].data,
                                blotted(contents[k], seen[k]),
                                off,
                            )
                            &&& tells(
                                test,
                                snap[k].base,
                                blotted(contents[k], seen[k]),
                                off,
                                found[a],
                            )
                        }
                    &&& forall|k: int, off: int|
                        #![trigger differs_at(test, snap[k].data, blotted(contents[k], seen[k]), off)]
                        0 <= k < snap.len() && differs_at(
                            test,
                            snap[k].data,
                            blotted(contents[k], seen[k]),
                            off,
                        ) ==> spots.contains((k, off))
                }
        }),
{
    law_comparison_covers_picture(test, snap, p, contents, seen, n);
    let spots = lemma_pair_spots(test, snap, contents, seen, 0);
    assert(spots.len() == compare_all(pair_start(test, snap), p, contents, seen, n).0.found.len());
}

/// Taking a picture and comparing with one stop between two regions, and keep what they have.
pub proof fn law_pictures_stop_between_regions(s: SnapView, t: PairView, p: ScanProgress)
    requires
        p.cancel,
    ensures
        s.image is None ==> {
            let (end, q, req) = s.next(p);
            req is None && end.taken == s.taken && q == p
        },
        s.waiting() ==> {
            let (same, q, req) = s.next(p);
            req is Some && same == s && q == p
        },
        t.image is None ==> {
            let (end, q, req) = t.next(p);
            req is None && end.found == t.found && q == p
        },
        t.waiting() && t.idx < t.snap.len() ==> {
            let (same, q, req) = t.next(p);
            req is Some && same == t && q == p
        },
{
}

/// Where taking a picture waits for a block, it asks for the next bytes of the region that it is in.
pub proof fn law_picture_asks_for_its_region(s: SnapView, p: ScanProgress)
    requires
        s.wf(),
    ensures
        ({
            let (k, q, req) = s.next(p);
            req matches Some((a, n)) ==> {
                let r = k.regions[k.idx];
                let off = (k.image->0).cursor.off;
                &&& k.regions == s.regions
                &&& s.idx <= k.idx < k.regions.len()
                &&& k.image is Some
                &&& off < r.size
                &&& a == r.base + off
                &&& n == (if r.size - off < 1024 * 1024 {
                    r.size - off
                } else {
                    0x10_0000int
                })
                &&& k.idx > s.idx || s.image is None ==> off == 0
            }
        }),
    decreases s.regions.len() - s.idx, s.image is Some as int,
{
    match s.image {
        Some(im) => {
            assert(s.regions[s.idx].fits());
            if im.cursor.pending() {
                crate::memory::law_next_block_is_asked_for(im.cursor);
            } else if s.idx < s.regions.len() {
                lemma_closed_wf(s);
                law_picture_asks_for_its_region(
                    s.closed(),
                    if im.any {
                        ScanProgress { matches: s.closed().taken.len() as usize, ..p }
                    } else {
                        p
                    },
                );
            }
        },
        None => {
            if !(s.idx >= s.regions.len() || p.cancel) {
                let r = s.regions[s.idx];
                assert(r.fits());
                let p1 = ScanProgress { done: p.done.wrapping_add(1), ..p };
                if !r.writable || r.size == 0 || r.size > SNAP_MAX_REGION {
                    law_picture_asks_for_its_region(SnapView { idx: s.idx + 1, ..s }, p1);
                } else if s.total + r.size <= SNAP_MAX_TOTAL {
                    let im = blank_image(r.base, r.size);
                    crate::memory::law_next_block_is_asked_for(im.cursor);
                }
            }
        },
    }
}

proof fn lemma_closed_wf(s: SnapView)
    requires
        s.wf(),
        s.image is Some,
        s.idx < s.regions.len(),
    ensures
        s.closed().wf(),
{
    let im = s.image->0;
    let t = s.closed();
    if im.any {
        let piece = Piece { base: im.cursor.base, data: im.data };
        assert(t.taken == s.taken.push(piece));
        assert(s.regions[s.idx].fits());
        assert forall|i: int| 0 <= i < t.taken.len() implies (#[trigger] t.taken[i]).base
            + t.taken[i].data.len() <= u64::MAX && t.taken[i].data.len() <= usize::MAX by {
            if i < s.taken.len() {
                assert(t.taken[i] == s.taken[i]);
            }
        }
    }
}

/// Where a comparison with a picture waits for a block, it asks for the next bytes of the piece that
/// it is at.
pub proof fn law_comparison_asks_for_its_piece(s: PairView, p: ScanProgress)
    requires
        s.wf(),
        s.waiting() || s.image is None,
    ensures
        s.image is None && s.idx < s.snap.len() && !p.cancel && s.snap[s.idx].data.len() > 0 ==> {
            let (k, q, req) = s.next(p);
            let n = s.snap[s.idx].data.len();
            &&& k.idx == s.idx
            &&& q == p
            &&& req == Some(
                (
                    s.snap[s.idx].base,
                    (if n < 1024 * 1024 {
                        n as int
                    } else {
                        0x10_0000int
                    }) as usize,
                ),
            )
        },
        s.waiting() ==> {
            let (k, q, req) = s.next(p);
            let n = s.snap[s.idx].data.len();
            let off = (s.image->0).cursor.off;
            &&& k == s
            &&& q == p
            &&& req == Some(
                (
                    (s.snap[s.idx].base + off) as u64,
                    (if n - off < 1024 * 1024 {
                        n - off
                    } else {
                        0x10_0000int
                    }) as usize,
                ),
            )
        },
{
    if s.idx < s.snap.len() {
        let piece = s.snap[s.idx];
        if s.waiting() {
            crate::memory::law_next_block_is_asked_for((s.image->0).cursor);
        } else if !p.cancel && piece.data.len() > 0 {
            let im = blank_image(piece.base, piece.data.len() as usize);
            let t = PairView { image: Some(im), ..s };
            assert(s.next(p) == t.next(p));
            crate::memory::law_next_block_is_asked_for(im.cursor);
        }
    }
}

} // verus!
