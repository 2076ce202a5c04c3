//! A search over all regions, which asks its caller for one block of memory after another.

use crate::aob::{begins_with, matches_at};
use crate::bytes::same_bytes;
use crate::memory::{
    all_fit, all_seen, begins_well, cursor_at_start, lemma_block_breaks_off, lemma_readable_run,
    read_chunked, readable_run, seen_by_page, ChunkCursor, Region, CHUNK,
};
use crate::scan::{
    compare, compared, known_in, no_number, read_known, unknown, Known, Match, ScanCmp,
    ScanProgress,
};
use crate::value::ValueType;
use vstd::prelude::*;

verus! {

/// What a search looks for at an address.
pub enum Probe {
    /// A value that a comparison accepts; `fast` looks at aligned addresses only.
    Value { vt: ValueType, c: ScanCmp, fast: bool },
    /// These bytes.
    Text(Vec<u8>),
    /// Bytes that a pattern allows.
    Pattern(Vec<Option<u8>>),
}

/// What a probe looks for.
pub enum ProbeView {
    Value { vt: ValueType, c: ScanCmp, fast: bool },
    Text(Seq<u8>),
    Pattern(Seq<Option<u8>>),
}

impl View for Probe {
    type V = ProbeView;

    open spec fn view(&self) -> ProbeView {
        match self {
            Probe::Value { vt, c, fast } => ProbeView::Value { vt: *vt, c: *c, fast: *fast },
            Probe::Text(t) => ProbeView::Text(t@),
            Probe::Pattern(t) => ProbeView::Pattern(t@),
        }
    }
}

impl ProbeView {
    /// How many bytes are looked at.
    pub open spec fn width(self) -> nat {
        match self {
            ProbeView::Value { vt, .. } => vt.width(),
            ProbeView::Text(t) => t.len(),
            ProbeView::Pattern(t) => t.len(),
        }
    }

    /// The distances from the start of a region that are looked at are the multiples of this.
    pub open spec fn grid(self) -> int {
        if self matches ProbeView::Value { fast, .. } && fast && self.width() > 0 {
            self.width() as int
        } else {
            1
        }
    }

    /// Tells whether the bytes at an address are what is looked for.
    pub open spec fn accepts(self, window: Seq<u8>) -> bool {
        match self {
            ProbeView::Value { vt, c, .. } => compared(vt, c, window, unknown()) == Some(true),
            ProbeView::Text(t) => window == t,
            ProbeView::Pattern(t) => begins_with(window, t),
        }
    }

    /// What is remembered of accepted bytes.
    pub open spec fn reading(self, window: Seq<u8>) -> Known {
        match self {
            ProbeView::Value { vt, .. } => known_in(vt, window)->0,
            _ => no_number(),
        }
    }

    /// Tells whether something is found at the distance `at` from the start of a region, of which
    /// `data` are the bytes from `from` on.
    pub open spec fn found_at(self, from: int, data: Seq<u8>, at: int) -> bool {
        &&& at % self.grid() == 0
        &&& self.accepts(data.subrange(at - from, at - from + self.width()))
    }

    /// What is found at the distances from `lo` up to `hi`, in ascending order.
    pub open spec fn hits(self, base: int, from: int, data: Seq<u8>, lo: int, hi: int) -> Seq<Match>
        decreases hi - lo,
    {
        if hi <= lo {
            Seq::empty()
        } else {
            let rest = self.hits(base, from, data, lo, hi - 1);
            if self.found_at(from, data, hi - 1) {
                rest.push(
                    Match {
                        address: (base + hi - 1) as u64,
                        last: self.reading(
                            data.subrange(hi - 1 - from, hi - 1 - from + self.width()),
                        ),
                    },
                )
            } else {
                rest
            }
        }
    }

    /// What a search of a whole region finds, read as one piece.
    pub open spec fn hits_in(self, region: Region, content: Seq<u8>) -> Seq<Match> {
        self.hits(region.base as int, 0, content, 0, content.len() - self.width() + 1)
    }

    /// What there is at the distances from `lo` up to `hi` in a region of which only a part can be
    /// read.
    pub open spec fn clear_hits(
        self,
        base: int,
        content: Seq<u8>,
        seen: spec_fn(int) -> bool,
        lo: int,
        hi: int,
    ) -> Seq<Match>
        decreases hi - lo,
    {
        if hi <= lo {
            Seq::empty()
        } else {
            let rest = self.clear_hits(base, content, seen, lo, hi - 1);
            if self.found_at(0, content, hi - 1) && clear(seen, hi - 1, self.width() as int) {
                rest.push(
                    Match {
                        address: (base + hi - 1) as u64,
                        last: self.reading(content.subrange(hi - 1, hi - 1 + self.width())),
                    },
                )
            } else {
                rest
            }
        }
    }

    /// What there is in the part of a region that can be read.
    pub open spec fn clear_hits_in(
        self,
        region: Region,
        content: Seq<u8>,
        seen: spec_fn(int) -> bool,
    ) -> Seq<Match> {
        self.clear_hits(region.base as int, content, seen, 0, content.len() - self.width() + 1)
    }
}

impl Probe {
    /// How many bytes are looked at.
    pub fn width(&self) -> (r: usize)
        ensures
            r == self@.width(),
    {
        match self {
            Probe::Value { vt, .. } => vt.size(),
            Probe::Text(t) => t.len(),
            Probe::Pattern(t) => t.len(),
        }
    }

    fn grid(&self) -> (r: usize)
        ensures
            r == self@.grid(),
            1 <= r,
            self@.width() > 0 ==> r <= self@.width(),
    {
        match self {
            Probe::Value { vt, fast, .. } => {
                let n = vt.size();
                if *fast && n > 0 {
                    n
                } else {
                    1
                }
            },
            _ => 1,
        }
    }

    /// What is remembered of the bytes of a window, where they are what is looked for.
    pub fn examine(&self, window: &[u8]) -> (r: Option<Known>)
        requires
            window@.len() == self@.width(),
        ensures
            r == (if self@.accepts(window@) {
                Some(self@.reading(window@))
            } else {
                None
            }),
            r matches Some(k) ==> k.fits(),
    {
        match self {
            Probe::Value { vt, c, .. } => match compare(*vt, c, window, Known::Float(crate::ieee::NAN)) {
                Some(true) => read_known(*vt, window),
                _ => None,
            },
            Probe::Text(t) => if same_bytes(window, t.as_slice()) {
                Some(Known::Float(0))
            } else {
                None
            },
            Probe::Pattern(t) => if matches_at(window, t.as_slice()) {
                Some(Known::Float(0))
            } else {
                None
            },
        }
    }
}

/// The `n` bytes at the distance `at` can all be read.
pub open spec fn clear(seen: spec_fn(int) -> bool, at: int, n: int) -> bool {
    forall|x: int| at <= x < at + n ==> #[trigger] seen(x)
}

/// The first `n` items of a sequence, or all where there are fewer.
pub open spec fn at_most<T>(s: Seq<T>, n: int) -> Seq<T> {
    if s.len() <= n {
        s
    } else {
        s.take(n)
    }
}

// ---------------------------------------------------------------------------
// Facts about what is found
// ---------------------------------------------------------------------------

proof fn lemma_hits_bounds(p: ProbeView, base: int, from: int, data: Seq<u8>, lo: int, hi: int)
    requires
        0 <= base + lo,
        base + hi <= u64::MAX + 1,
    ensures
        p.hits(base, from, data, lo, hi).len() <= if hi > lo {
            hi - lo
        } else {
            0
        },
        forall|i: int|
            0 <= i < p.hits(base, from, data, lo, hi).len() ==> base + lo <= (
            #[trigger] p.hits(base, from, data, lo, hi)[i]).address < base + hi,
    decreases hi - lo,
{
    if hi > lo {
        lemma_hits_bounds(p, base, from, data, lo, hi - 1);
    }
}

proof fn lemma_hits_split(
    p: ProbeView,
    base: int,
    from: int,
    data: Seq<u8>,
    lo: int,
    mid: int,
    hi: int,
)
    requires
        lo <= mid <= hi,
    ensures
        p.hits(base, from, data, lo, hi) == p.hits(base, from, data, lo, mid) + p.hits(
            base,
            from,
            data,
            mid,
            hi,
        ),
    decreases hi - mid,
{
    if mid < hi {
        lemma_hits_split(p, base, from, data, lo, mid, hi - 1);
    }
    assert(p.hits(base, from, data, lo, hi) =~= p.hits(base, from, data, lo, mid) + p.hits(
        base,
        from,
        data,
        mid,
        hi,
    ));
}

proof fn lemma_hits_none(p: ProbeView, base: int, from: int, data: Seq<u8>, lo: int, hi: int)
    requires
        forall|at: int| lo <= at < hi ==> !#[trigger] p.found_at(from, data, at),
    ensures
        p.hits(base, from, data, lo, hi).len() == 0,
    decreases hi - lo,
{
    if hi > lo {
        assert(!p.found_at(from, data, hi - 1));
        lemma_hits_none(p, base, from, data, lo, hi - 1);
    }
}

proof fn lemma_hits_of_block(
    p: ProbeView,
    base: int,
    content: Seq<u8>,
    from: int,
    len: int,
    lo: int,
    hi: int,
)
    requires
        0 <= from <= lo,
        0 <= len,
        from + len <= content.len(),
        hi <= from + len - p.width() + 1,
    ensures
        p.hits(base, from, content.subrange(from, from + len), lo, hi) == p.hits(
            base,
            0,
            content,
            lo,
            hi,
        ),
    decreases hi - lo,
{
    if hi > lo {
        lemma_hits_of_block(p, base, content, from, len, lo, hi - 1);
        let at = hi - 1;
        assert(content.subrange(from, from + len).subrange(at - from, at - from + p.width())
            =~= content.subrange(at, at + p.width()));
    }
}

proof fn lemma_on_grid(x: int, g: int)
    requires
        0 <= x,
        0 < g,
    ensures
        ({
            let k = if x % g == 0 {
                0
            } else {
                g - x % g
            };
            &&& 0 <= k < g
            &&& (x + k) % g == 0
            &&& forall|at: int| x <= at < x + k ==> #[trigger] (at % g) != 0
        }),
{
    let q = x / g;
    let m = x % g;
    vstd::arithmetic::div_mod::lemma_fundamental_div_mod(x, g);
    if m != 0 {
        assert(g * (q + 1) == g * q + g) by (nonlinear_arith);
        assert((q + 1) * g == g * (q + 1)) by (nonlinear_arith);
        vstd::arithmetic::div_mod::lemma_fundamental_div_mod_converse(x + (g - m), g, q + 1, 0);
        assert forall|at: int| x <= at < x + (g - m) implies #[trigger] (at % g) != 0 by {
            assert(q * g == g * q) by (nonlinear_arith);
            vstd::arithmetic::div_mod::lemma_fundamental_div_mod_converse(
                at,
                g,
                q,
                m + (at - x),
            );
        }
    }
}

proof fn lemma_off_grid(x: int, g: int)
    requires
        0 <= x,
        0 < g,
        x % g == 0,
    ensures
        (x + g) % g == 0,
        forall|at: int| x < at < x + g ==> #[trigger] (at % g) != 0,
{
    let q = x / g;
    vstd::arithmetic::div_mod::lemma_fundamental_div_mod(x, g);
    assert(g * (q + 1) == g * q + g) by (nonlinear_arith);
    assert((q + 1) * g == g * (q + 1) && q * g == g * q) by (nonlinear_arith);
    vstd::arithmetic::div_mod::lemma_fundamental_div_mod_converse(x + g, g, q + 1, 0);
    assert forall|at: int| x < at < x + g implies #[trigger] (at % g) != 0 by {
        vstd::arithmetic::div_mod::lemma_fundamental_div_mod_converse(at, g, q, at - x);
    }
}

// ---------------------------------------------------------------------------
// The job
// ---------------------------------------------------------------------------

/// The state of a search.
pub struct JobView {
    pub probe: ProbeView,
    pub regions: Seq<Region>,
    pub limit: int,
    pub idx: int,
    pub cursor: Option<ChunkCursor>,
    pub last: Option<u64>,
    pub found: Seq<Match>,
}

impl JobView {
    /// The invariant of a search.
    pub open spec fn wf(self) -> bool {
        &&& all_fit(self.regions)
        &&& 0 <= self.idx <= self.regions.len()
        &&& self.probe.width() == 0 ==> self.idx == self.regions.len()
        &&& 0 <= self.found.len() <= self.limit
        &&& crate::scan::all_fit(self.found)
        &&& match self.cursor {
            None => true,
            Some(c) => {
                let r = self.regions[self.idx];
                &&& self.idx < self.regions.len()
                &&& c.base == r.base
                &&& c.size == r.size
                &&& c.overlap == self.probe.width() - 1
            },
        }
    }

    /// The search waits for a block.
    pub open spec fn waiting(self) -> bool {
        self.cursor matches Some(c) && c.pending()
    }

    /// The state in which the search next waits for a block or is over, with the progress and the
    /// block it waits for. A search stops between regions, when it is asked to or has found as
    /// much as it may.
    pub open spec fn next(self, p: ScanProgress) -> (JobView, ScanProgress, Option<(u64, usize)>)
        decreases self.regions.len() - self.idx, self.cursor is Some as int,
    {
        match self.cursor {
            Some(c) => if c.pending() {
                (self, p, Some((c.address(), c.wanted() as usize)))
            } else if self.idx >= self.regions.len() {
                (self, p, None)
            } else {
                JobView { cursor: None, idx: self.idx + 1, ..self }.next(
                    ScanProgress {
                        done: p.done.wrapping_add(1),
                        matches: self.found.len() as usize,
                        ..p
                    },
                )
            },
            None => if self.idx >= self.regions.len() || p.cancel || self.found.len()
                >= self.limit {
                (JobView { idx: self.regions.len() as int, ..self }, p, None)
            } else {
                let r = self.regions[self.idx];
                let c = cursor_at_start(r.base, r.size, (self.probe.width() - 1) as usize);
                if c.pending() {
                    (
                        JobView { cursor: Some(c), last: None, ..self },
                        p,
                        Some((c.address(), c.wanted() as usize)),
                    )
                } else {
                    JobView { idx: self.idx + 1, last: None, ..self }.next(
                        ScanProgress {
                            done: p.done.wrapping_add(1),
                            matches: self.found.len() as usize,
                            ..p
                        },
                    )
                }
            },
        }
    }

    /// What a block adds: what is found in it beyond the last address found in the region, as far
    /// as the limit allows.
    pub open spec fn news(self, data: Seq<u8>) -> Seq<Match> {
        let c = self.cursor->0;
        let from = c.off as int;
        let lo = match self.last {
            Some(l) if l - c.base + 1 > from => l - c.base + 1,
            _ => from,
        };
        at_most(
            self.probe.hits(
                c.base as int,
                from,
                data,
                lo,
                from + data.len() - self.probe.width() + 1,
            ),
            self.limit - self.found.len(),
        )
    }

    /// The state after a block came back.
    pub open spec fn supplied(self, ok: bool, data: Seq<u8>) -> JobView {
        let c = self.cursor->0;
        let news = if ok && data.len() > 0 {
            self.news(data)
        } else {
            Seq::empty()
        };
        JobView {
            cursor: Some(c.after(ok, data.len() as int)),
            last: if news.len() > 0 {
                Some(news.last().address)
            } else {
                self.last
            },
            found: self.found + news,
            ..self
        }
    }
}

/// A search over all regions.
pub struct ScanJob {
    pub probe: Probe,
    pub regions: Vec<Region>,
    pub limit: usize,
    pub idx: usize,
    pub cursor: Option<ChunkCursor>,
    pub last: Option<u64>,
    pub found: Vec<Match>,
}

impl View for ScanJob {
    type V = JobView;

    open spec fn view(&self) -> JobView {
        JobView {
            probe: self.probe@,
            regions: self.regions@,
            limit: self.limit as int,
            idx: self.idx as int,
            cursor: self.cursor,
            last: self.last,
            found: self.found@,
        }
    }
}

/// The start of a search.
pub open spec fn job_start(probe: ProbeView, regions: Seq<Region>, limit: int) -> JobView {
    JobView {
        probe,
        regions,
        limit,
        idx: if probe.width() == 0 {
            regions.len() as int
        } else {
            0
        },
        cursor: None,
        last: None,
        found: Seq::empty(),
    }
}

impl ScanJob {
    /// A search that has not begun. One that looks at no bytes finds nothing.
    pub fn new(probe: Probe, regions: Vec<Region>, limit: usize) -> (r: ScanJob)
        requires
            all_fit(regions@),
        ensures
            r@ == job_start(probe@, regions@, limit as int),
            r@.wf(),
    {
        let idx: usize = if probe.width() == 0 {
            regions.len()
        } else {
            0
        };
        ScanJob { probe, regions, limit, idx, cursor: None, last: None, found: Vec::new() }
    }

    /// The block that the search needs next: its address and its length. `None` when the search
    /// is over.
    pub fn next(&mut self, progress: &mut ScanProgress) -> (r: Option<(u64, usize)>)
        requires
            old(self)@.wf(),
        ensures
            (final(self)@, *final(progress), r) == old(self)@.next(*old(progress)),
            final(self)@.wf(),
            r is Some == final(self)@.waiting(),
    {
        let ghost start = self@;
        let ghost p0 = *progress;
        loop
            invariant
                self@.wf(),
                start == old(self)@,
                p0 == *old(progress),
                self@.next(*progress) == start.next(p0),
            decreases self.regions.len() - self.idx, self.cursor is Some as int,
        {
            match self.cursor {
                Some(c) => {
                    match c.request() {
                        Some((a, n)) => {
                            return Some((a, n));
                        },
                        None => {
                            self.cursor = None;
                            self.idx += 1;
                            progress.done = progress.done.wrapping_add(1);
                            progress.matches = self.found.len();
                        },
                    }
                },
                None => {
                    if self.idx >= self.regions.len() || progress.cancel || self.found.len()
                        >= self.limit {
                        self.idx = self.regions.len();
                        return None;
                    }
                    let r = self.regions[self.idx];
                    let overlap: usize = self.probe.width() - 1;
                    self.last = None;
                    let c = read_chunked(r.base, r.size, overlap);
                    match c.request() {
                        Some((a, n)) => {
                            self.cursor = Some(c);
                            return Some((a, n));
                        },
                        None => {
                            self.idx += 1;
                            progress.done = progress.done.wrapping_add(1);
                            progress.matches = self.found.len();
                        },
                    }
                },
            }
        }
    }

    #[verifier::rlimit(60)]
    fn scan_block(&mut self, c: ChunkCursor, data: &[u8])
        requires
            old(self)@.wf(),
            old(self)@.cursor == Some(c),
            c.pending(),
            0 < data@.len() <= c.wanted(),
        ensures
            ({
                let news = old(self)@.news(data@);
                final(self)@ == JobView {
                    last: if news.len() > 0 {
                        Some(news.last().address)
                    } else {
                        old(self)@.last
                    },
                    found: old(self)@.found + news,
                    ..old(self)@
                }
            }),
            crate::scan::all_fit(final(self)@.found),
    {
        let ghost start = self@;
        let ghost p = start.probe;
        let w = self.probe.width();
        let g = self.probe.grid();
        let from = c.off;
        let ghost base = c.base as int;
        let ghost end = from + data.len() - w + 1;
        let ghost lo = match start.last {
            Some(l) if l - base + 1 > from => l - base + 1,
            _ => from as int,
        };
        let ghost room = start.limit - start.found.len();
        if self.found.len() >= self.limit {
            assert(at_most(p.hits(base, from as int, data@, lo, end), 0).len() == 0);
            assert(start.news(data@).len() == 0);
            assert(self@.found =~= start.found + start.news(data@));
            return;
        }
        let m: usize = from % g;
        let mut i: usize = if m == 0 {
            0
        } else {
            g - m
        };
        let ghost mut done: int = from as int;
        proof {
            lemma_on_grid(from as int, g as int);
            assert(p.hits(base, from as int, data@, lo, done).len() == 0);
            assert(self@.found =~= start.found + p.hits(base, from as int, data@, lo, done));
        }
        let ghost mut cur = p.hits(base, from as int, data@, lo, done);
        while i <= data.len() && data.len() - i >= w
            invariant
                start == old(self)@,
                start.wf(),
                start.cursor == Some(c),
                c.pending(),
                p == start.probe,
                p == self.probe@,
                w == p.width(),
                0 < w,
                g == p.grid(),
                1 <= g <= w,
                from == c.off,
                base == c.base,
                end == from + data.len() - w + 1,
                0 < data@.len() <= c.wanted(),
                lo == (match start.last {
                    Some(l) if l - base + 1 > from => l - base + 1,
                    _ => from as int,
                }),
                room == start.limit - start.found.len(),
                room > 0,
                self@ == (JobView { last: self.last, found: self.found@, ..start }),
                cur == p.hits(base, from as int, data@, lo, done),
                self@.found == start.found + cur,
                crate::scan::all_fit(self@.found),
                cur.len() < room,
                self.last == (if cur.len() > 0 {
                    Some(cur.last().address)
                } else {
                    start.last
                }),
                i <= data.len() + g,
                (from + i) % (g as int) == 0,
                from <= done <= from + i,
                done <= from || done <= end,
                forall|at: int| done <= at < from + i ==> #[trigger] (at % (g as int)) != 0,
            decreases data.len() + g - i,
        {
            let window = &data[i..i + w];
            let at: usize = from + i;
            proof {
                assert forall|x: int| done <= x < at implies !#[trigger] p.found_at(
                    from as int,
                    data@,
                    x,
                ) by {
                    assert(x % (g as int) != 0);
                }
                lemma_hits_none(p, base, from as int, data@, done, at as int);
                if done >= lo {
                    lemma_hits_split(p, base, from as int, data@, lo, done, at as int);
                } else if at >= lo {
                    lemma_hits_none(p, base, from as int, data@, lo, at as int);
                }
                assert(p.hits(base, from as int, data@, lo, at as int) =~= cur);
                assert(window@ =~= data@.subrange(at - from, at - from + w));
                lemma_hits_bounds(p, base, from as int, data@, lo, done);
            }
            if let Some(k) = self.probe.examine(window) {
                let address: u64 = c.base + at as u64;
                let fresh = match self.last {
                    Some(l) => address > l,
                    None => true,
                };
                assert(fresh == (at >= lo));
                if fresh {
                    self.found.push(Match { address, last: k });
                    self.last = Some(address);
                }
            }
            proof {
                let next = p.hits(base, from as int, data@, lo, at + 1);
                assert(next == (if at >= lo && p.found_at(from as int, data@, at as int) {
                    cur.push(Match { address: (base + at) as u64, last: p.reading(window@) })
                } else {
                    cur
                }));
                done = at + 1;
                cur = next;
                assert(self@.found =~= start.found + cur);
                lemma_off_grid(at as int, g as int);
            }
            if self.found.len() >= self.limit {
                proof {
                    if done >= lo {
                        lemma_hits_split(p, base, from as int, data@, lo, done, end);
                    }
                    assert(start.news(data@) =~= cur);
                    assert(self@.found =~= start.found + start.news(data@));
                }
                return;
            }
            i += g;
        }
        proof {
            assert forall|x: int| done <= x < end implies !#[trigger] p.found_at(
                from as int,
                data@,
                x,
            ) by {
                assert(x % (g as int) != 0);
            }
            if end > done {
                lemma_hits_none(p, base, from as int, data@, done, end);
                if done >= lo {
                    lemma_hits_split(p, base, from as int, data@, lo, done, end);
                } else {
                    lemma_hits_none(p, base, from as int, data@, lo, end);
                }
            }
            assert(p.hits(base, from as int, data@, lo, end) =~= cur);
            assert(start.news(data@) =~= cur);
        }
    }

    /// Takes the block that was asked for: `data` are the bytes that came back, and `ok` says
    /// whether the call succeeded.
    pub fn supply(&mut self, ok: bool, data: &[u8])
        requires
            old(self)@.wf(),
            old(self)@.waiting(),
            data@.len() <= old(self)@.cursor->0.wanted(),
        ensures
            final(self)@ == old(self)@.supplied(ok, data@),
            final(self)@.wf(),
    {
        if let Some(c) = self.cursor {
            if ok && data.len() > 0 {
                self.scan_block(c, data);
            }
            let mut c = c;
            c.advance(ok, data.len());
            self.cursor = Some(c);
            assert(self@.found =~= old(self)@.supplied(ok, data@).found);
        }
    }
}

// ---------------------------------------------------------------------------
// Laws
// ---------------------------------------------------------------------------

/// What is found stands in ascending order, and no address twice.
pub proof fn law_hits_ascend(p: ProbeView, base: int, from: int, data: Seq<u8>, lo: int, hi: int)
    requires
        0 <= base + lo,
        base + hi <= u64::MAX + 1,
    ensures
        forall|i: int, j: int|
            0 <= i < j < p.hits(base, from, data, lo, hi).len() ==> (#[trigger] p.hits(
                base,
                from,
                data,
                lo,
                hi,
            )[i]).address < (#[trigger] p.hits(base, from, data, lo, hi)[j]).address,
    decreases hi - lo,
{
    if hi > lo {
        law_hits_ascend(p, base, from, data, lo, hi - 1);
        lemma_hits_bounds(p, base, from, data, lo, hi - 1);
    }
}

/// The state after the rest of a region with the given bytes was read, where each block brings the
/// bytes before the first that cannot be read.
pub open spec fn read_region(
    j: JobView,
    content: Seq<u8>,
    seen: spec_fn(int) -> bool,
) -> JobView
    decreases
            (if j.waiting() {
                j.cursor->0.size - j.cursor->0.off
            } else {
                0
            }),
{
    if j.waiting() {
        let c = j.cursor->0;
        let n = readable_run(seen, c.off as int, c.off + c.wanted());
        read_region(
            j.supplied(true, content.subrange(c.off as int, c.off + n)),
            content,
            seen,
        )
    } else {
        j
    }
}

/// The state and the progress after at most `n` regions with the given bytes were read, as far as
/// they can be.
pub open spec fn run(
    j: JobView,
    p: ScanProgress,
    contents: Seq<Seq<u8>>,
    seen: Seq<spec_fn(int) -> bool>,
    n: nat,
) -> (JobView, ScanProgress)
    decreases n,
{
    let (j1, p1, req) = j.next(p);
    if req is None || n == 0 {
        (j1, p1)
    } else {
        run(
            read_region(j1, contents[j1.idx], seen[j1.idx]),
            p1,
            contents,
            seen,
            (n - 1) as nat,
        )
    }
}

/// What there is in the first `k` regions, as far as they can be read.
pub open spec fn clear_all_hits(
    probe: ProbeView,
    regions: Seq<Region>,
    contents: Seq<Seq<u8>>,
    seen: Seq<spec_fn(int) -> bool>,
    k: int,
) -> Seq<Match>
    decreases k,
{
    if k <= 0 {
        Seq::empty()
    } else {
        clear_all_hits(probe, regions, contents, seen, k - 1) + probe.clear_hits_in(
            regions[k - 1],
            contents[k - 1],
            seen[k - 1],
        )
    }
}

/// What searches of the first `k` regions find, each region read as one piece.
pub open spec fn all_hits(
    probe: ProbeView,
    regions: Seq<Region>,
    contents: Seq<Seq<u8>>,
    k: int,
) -> Seq<Match>
    decreases k,
{
    if k <= 0 {
        Seq::empty()
    } else {
        all_hits(probe, regions, contents, k - 1) + probe.hits_in(
            regions[k - 1],
            contents[k - 1],
        )
    }
}

/// The bytes of the regions are given, and what can be read of them goes by pages.
pub open spec fn laid_out(
    regions: Seq<Region>,
    contents: Seq<Seq<u8>>,
    seen: Seq<spec_fn(int) -> bool>,
) -> bool {
    &&& contents.len() == regions.len()
    &&& seen.len() == regions.len()
    &&& forall|i: int|
        0 <= i < contents.len() ==> (#[trigger] contents[i]).len() == regions[i].size
    &&& forall|i: int|
        0 <= i < seen.len() ==> seen_by_page(#[trigger] seen[i], regions[i].size as int)
}

proof fn lemma_at_most_concat<T>(a: Seq<T>, b: Seq<T>, limit: int)
    requires
        0 <= limit,
    ensures
        at_most(a, limit) + at_most(b, limit - at_most(a, limit).len()) == at_most(a + b, limit),
{
    assert(at_most(a, limit) + at_most(b, limit - at_most(a, limit).len()) =~= at_most(
        a + b,
        limit,
    ));
}

proof fn lemma_all_hits_prefix(
    probe: ProbeView,
    regions: Seq<Region>,
    contents: Seq<Seq<u8>>,
    seen: Seq<spec_fn(int) -> bool>,
    k: int,
    m: int,
    limit: int,
)
    requires
        0 <= k <= m,
        0 <= limit <= at_most(clear_all_hits(probe, regions, contents, seen, k), limit).len(),
    ensures
        at_most(clear_all_hits(probe, regions, contents, seen, m), limit) == at_most(
            clear_all_hits(probe, regions, contents, seen, k),
            limit,
        ),
    decreases m - k,
{
    if k < m {
        lemma_all_hits_prefix(probe, regions, contents, seen, k, m - 1, limit);
        let a = clear_all_hits(probe, regions, contents, seen, m - 1);
        let b = probe.clear_hits_in(regions[m - 1], contents[m - 1], seen[m - 1]);
        assert(at_most(a, limit).len() >= limit);
        assert(at_most(a + b, limit) =~= at_most(a, limit));
    }
}

proof fn lemma_clear_split(
    p: ProbeView,
    base: int,
    content: Seq<u8>,
    seen: spec_fn(int) -> bool,
    lo: int,
    mid: int,
    hi: int,
)
    requires
        lo <= mid <= hi,
    ensures
        p.clear_hits(base, content, seen, lo, hi) == p.clear_hits(base, content, seen, lo, mid)
            + p.clear_hits(base, content, seen, mid, hi),
    decreases hi - mid,
{
    if mid < hi {
        lemma_clear_split(p, base, content, seen, lo, mid, hi - 1);
    }
    assert(p.clear_hits(base, content, seen, lo, hi) =~= p.clear_hits(
        base,
        content,
        seen,
        lo,
        mid,
    ) + p.clear_hits(base, content, seen, mid, hi));
}

proof fn lemma_clear_none(
    p: ProbeView,
    base: int,
    content: Seq<u8>,
    seen: spec_fn(int) -> bool,
    lo: int,
    hi: int,
)
    requires
        forall|at: int| lo <= at < hi ==> !#[trigger] clear(seen, at, p.width() as int),
    ensures
        p.clear_hits(base, content, seen, lo, hi).len() == 0,
    decreases hi - lo,
{
    if hi > lo {
        assert(!clear(seen, hi - 1, p.width() as int));
        lemma_clear_none(p, base, content, seen, lo, hi - 1);
    }
}

proof fn lemma_clear_stretch(
    p: ProbeView,
    base: int,
    content: Seq<u8>,
    seen: spec_fn(int) -> bool,
    lo: int,
    hi: int,
)
    requires
        forall|x: int| lo <= x < hi + p.width() - 1 ==> #[trigger] seen(x),
    ensures
        p.clear_hits(base, content, seen, lo, hi) == p.hits(base, 0, content, lo, hi),
    decreases hi - lo,
{
    if hi > lo {
        lemma_clear_stretch(p, base, content, seen, lo, hi - 1);
        assert(clear(seen, hi - 1, p.width() as int));
    }
}

proof fn lemma_region_read(
    j: JobView,
    before: Seq<Match>,
    content: Seq<u8>,
    seen: spec_fn(int) -> bool,
)
    requires
        j.wf(),
        j.cursor is Some,
        content.len() == j.cursor->0.size,
        0 < j.probe.width() <= CHUNK,
        seen_by_page(seen, j.cursor->0.size as int),
        begins_well(j.cursor->0, seen),
        j.last matches Some(l) ==> l < j.cursor->0.base + j.cursor->0.off,
        ({
            let c = j.cursor->0;
            let w = j.probe.width() as int;
            let k = if c.off < c.size - w + 1 {
                c.off as int
            } else {
                c.size - w + 1
            };
            j.found == at_most(
                before + j.probe.clear_hits(c.base as int, content, seen, 0, k),
                j.limit,
            )
        }),
    ensures
        ({
            let r = read_region(j, content, seen);
            &&& r.wf()
            &&& !r.waiting()
            &&& r == JobView { cursor: r.cursor, last: r.last, found: r.found, ..j }
            &&& r.cursor is Some
            &&& r.found == at_most(
                before + j.probe.clear_hits_in(j.regions[j.idx], content, seen),
                j.limit,
            )
        }),
    decreases
            (if j.waiting() {
                j.cursor->0.size - j.cursor->0.off
            } else {
                0
            }),
{
    let c = j.cursor->0;
    let w = j.probe.width() as int;
    let base = c.base as int;
    if j.waiting() {
        let off = c.off as int;
        let want = c.wanted();
        let len = readable_run(seen, off, off + want);
        lemma_readable_run(seen, off, off + want);
        lemma_block_breaks_off(c, seen);
        let data = content.subrange(off, off + len);
        let j1 = j.supplied(true, data);
        let hi = off + len - w + 1;
        let k = if off < c.size - w + 1 {
            off
        } else {
            c.size - w + 1
        };
        let c1 = c.after(true, len);
        let k1 = if c1.off < c.size - w + 1 {
            c1.off as int
        } else {
            c.size - w + 1
        };
        let news = j.probe.hits(base, off, data, off, hi);
        lemma_hits_of_block(j.probe, base, content, off, len, off, hi);
        lemma_hits_bounds(j.probe, base, off, data, off, hi);
        lemma_clear_stretch(j.probe, base, content, seen, off, hi);
        assert(j.news(data) == at_most(news, j.limit - j.found.len()));
        let a = before + j.probe.clear_hits(base, content, seen, 0, k);
        let mid = if hi > off {
            hi
        } else {
            off
        };
        assert(j.probe.clear_hits(base, content, seen, off, mid) == news);
        if k1 > k {
            assert(k == off);
            assert(mid <= k1);
            assert forall|at: int| mid <= at < k1 implies !#[trigger] clear(seen, at, w) by {
                assert(len < want);
                let stop = if at < off + len {
                    off + len
                } else {
                    at
                };
                assert(!seen(stop) && at <= stop < at + w);
            }
            lemma_clear_none(j.probe, base, content, seen, mid, k1);
            lemma_clear_split(j.probe, base, content, seen, 0, off, k1);
            lemma_clear_split(j.probe, base, content, seen, off, mid, k1);
            assert(j.probe.clear_hits(base, content, seen, 0, k1) =~= j.probe.clear_hits(
                base,
                content,
                seen,
                0,
                k,
            ) + news);
        } else {
            assert(k1 == k || (k1 <= 0 && k <= 0));
            assert(hi <= off);
            assert(j.probe.clear_hits(base, content, seen, 0, k1) =~= j.probe.clear_hits(
                base,
                content,
                seen,
                0,
                k,
            ) + news);
        }
        assert(a + news =~= before + j.probe.clear_hits(base, content, seen, 0, k1));
        lemma_at_most_concat(a, news, j.limit);
        assert(j1.found == at_most(
            before + j.probe.clear_hits(base, content, seen, 0, k1),
            j.limit,
        ));
        assert(crate::scan::all_fit(j.news(data))) by {
            lemma_hits_fit(j.probe, base, off, data, off, hi);
        }
        assert(j1.wf());
        lemma_region_read(j1, before, content, seen);
    } else {
        assert(j.probe.clear_hits_in(j.regions[j.idx], content, seen) == j.probe.clear_hits(
            base,
            content,
            seen,
            0,
            c.size - w + 1,
        ));
    }
}

proof fn lemma_known_fits(vt: ValueType, bytes: Seq<u8>)
    ensures
        known_in(vt, bytes) matches Some(k) ==> k.fits(),
{
    crate::bytes::lemma_span_values();
    if vt.int_kind() && bytes.len() >= vt.width() {
        crate::bytes::lemma_le_nat_bound(bytes.take(vt.width() as int));
    }
}

proof fn lemma_hits_fit(p: ProbeView, base: int, from: int, data: Seq<u8>, lo: int, hi: int)
    ensures
        crate::scan::all_fit(p.hits(base, from, data, lo, hi)),
    decreases hi - lo,
{
    if hi > lo {
        lemma_hits_fit(p, base, from, data, lo, hi - 1);
        let window = data.subrange(hi - 1 - from, hi - 1 - from + p.width());
        if let ProbeView::Value { vt, .. } = p {
            lemma_known_fits(vt, window);
        }
    }
}

proof fn lemma_next_region(
    j: JobView,
    p: ScanProgress,
    contents: Seq<Seq<u8>>,
    seen: Seq<spec_fn(int) -> bool>,
)
    requires
        j.wf(),
        !p.cancel,
        0 < j.probe.width() <= CHUNK,
        laid_out(j.regions, contents, seen),
        !j.waiting(),
        j.found == at_most(
            clear_all_hits(
                j.probe,
                j.regions,
                contents,
                seen,
                j.idx + if j.cursor is Some {
                    1int
                } else {
                    0int
                },
            ),
            j.limit,
        ),
    ensures
        ({
            let (j1, p1, req) = j.next(p);
            &&& j1.wf()
            &&& !p1.cancel
            &&& j1.probe == j.probe
            &&& j1.regions == j.regions
            &&& j1.limit == j.limit
            &&& req is None ==> j1.found == at_most(
                clear_all_hits(j.probe, j.regions, contents, seen, j.regions.len() as int),
                j.limit,
            )
            &&& req is Some ==> {
                let r = j1.regions[j1.idx];
                &&& j1.idx >= j.idx + if j.cursor is Some {
                    1int
                } else {
                    0int
                }
                &&& j1.idx < j1.regions.len()
                &&& j1.cursor == Some(
                    cursor_at_start(r.base, r.size, (j.probe.width() - 1) as usize),
                )
                &&& j1.last is None
                &&& j1.found == at_most(
                    clear_all_hits(j.probe, j.regions, contents, seen, j1.idx),
                    j.limit,
                )
            }
        }),
    decreases j.regions.len() - j.idx, j.cursor is Some as int,
{
    let w = j.probe.width() as int;
    match j.cursor {
        Some(c) => {
            lemma_next_region(
                JobView { cursor: None, idx: j.idx + 1, ..j },
                ScanProgress {
                    done: p.done.wrapping_add(1),
                    matches: j.found.len() as usize,
                    ..p
                },
                contents,
                seen,
            );
        },
        None => {
            if j.idx >= j.regions.len() {
            } else if j.found.len() >= j.limit {
                lemma_all_hits_prefix(
                    j.probe,
                    j.regions,
                    contents,
                    seen,
                    j.idx,
                    j.regions.len() as int,
                    j.limit,
                );
            } else {
                let r = j.regions[j.idx];
                let c = cursor_at_start(r.base, r.size, (w - 1) as usize);
                if !c.pending() {
                    assert(contents[j.idx].len() == 0);
                    assert(j.probe.clear_hits_in(r, contents[j.idx], seen[j.idx]).len() == 0);
                    assert(clear_all_hits(j.probe, j.regions, contents, seen, j.idx + 1)
                        =~= clear_all_hits(j.probe, j.regions, contents, seen, j.idx));
                    lemma_next_region(
                        JobView { idx: j.idx + 1, last: None, ..j },
                        ScanProgress {
                            done: p.done.wrapping_add(1),
                            matches: j.found.len() as usize,
                            ..p
                        },
                        contents,
                        seen,
                    );
                }
            }
        },
    }
}

proof fn lemma_run(
    j: JobView,
    p: ScanProgress,
    contents: Seq<Seq<u8>>,
    seen: Seq<spec_fn(int) -> bool>,
    n: nat,
)
    requires
        j.wf(),
        !p.cancel,
        0 < j.probe.width() <= CHUNK,
        laid_out(j.regions, contents, seen),
        !j.waiting(),
        j.found == at_most(
            clear_all_hits(
                j.probe,
                j.regions,
                contents,
                seen,
                j.idx + if j.cursor is Some {
                    1int
                } else {
                    0int
                },
            ),
            j.limit,
        ),
        n >= j.regions.len() - j.idx - if j.cursor is Some {
            1int
        } else {
            0int
        },
    ensures
        run(j, p, contents, seen, n).0.found == at_most(
            clear_all_hits(j.probe, j.regions, contents, seen, j.regions.len() as int),
            j.limit,
        ),
        !run(j, p, contents, seen, n).0.waiting(),
    decreases n,
{
    lemma_next_region(j, p, contents, seen);
    let (j1, p1, req) = j.next(p);
    if req is None {
        lemma_next_none(j, p);
    } else {
        let content = contents[j1.idx];
        let s = seen[j1.idx];
        let base = j1.regions[j1.idx].base as int;
        let before = clear_all_hits(j.probe, j.regions, contents, seen, j1.idx);
        let w = j.probe.width() as int;
        let size = j1.regions[j1.idx].size as int;
        let k = if 0 < size - w + 1 {
            0
        } else {
            size - w + 1
        };
        assert(j1.probe.clear_hits(base, content, s, 0, k) =~= Seq::<Match>::empty());
        assert(before + Seq::<Match>::empty() =~= before);
        lemma_region_read(j1, before, content, s);
        lemma_run(read_region(j1, content, s), p1, contents, seen, (n - 1) as nat);
    }
}

proof fn lemma_next_none(j: JobView, p: ScanProgress)
    requires
        j.wf(),
    ensures
        j.next(p).2 is Some == j.next(p).0.waiting(),
    decreases j.regions.len() - j.idx, j.cursor is Some as int,
{
    match j.cursor {
        Some(c) => {
            if !c.pending() {
                lemma_next_none(
                    JobView { cursor: None, idx: j.idx + 1, ..j },
                    ScanProgress {
                        done: p.done.wrapping_add(1),
                        matches: j.found.len() as usize,
                        ..p
                    },
                );
            }
        },
        None => {
            if !(j.idx >= j.regions.len() || p.cancel || j.found.len() >= j.limit) {
                lemma_next_none(
                    JobView { idx: j.idx + 1, last: None, ..j },
                    ScanProgress {
                        done: p.done.wrapping_add(1),
                        matches: j.found.len() as usize,
                        ..p
                    },
                );
            }
        },
    }
}

/// Where nobody stops the search, and each block brings the bytes before the first that cannot be
/// read, reading the regions in blocks finds all that lies in readable memory, up to the limit:
/// nothing is lost at pages that cannot be read or across the border of two blocks, and nothing is
/// found twice. What is looked for has to fit into a block.
pub proof fn law_broken_blocks_lose_nothing(
    probe: ProbeView,
    regions: Seq<Region>,
    limit: int,
    p: ScanProgress,
    contents: Seq<Seq<u8>>,
    seen: Seq<spec_fn(int) -> bool>,
    n: nat,
)
    requires
        all_fit(regions),
        0 < probe.width() <= CHUNK,
        0 <= limit,
        !p.cancel,
        laid_out(regions, contents, seen),
        n >= regions.len(),
    ensures
        ({
            let end = run(job_start(probe, regions, limit), p, contents, seen, n).0;
            &&& end.found == at_most(
                clear_all_hits(probe, regions, contents, seen, regions.len() as int),
                limit,
            )
            &&& !end.waiting()
        }),
{
    let j = job_start(probe, regions, limit);
    assert(j.found =~= at_most(clear_all_hits(probe, regions, contents, seen, 0), limit));
    lemma_run(j, p, contents, seen, n);
}

/// Where every byte can be read and nobody stops the search, reading the regions in blocks finds
/// what reading each of them as one piece would find, up to the limit.
pub proof fn law_blocks_find_everything(
    probe: ProbeView,
    regions: Seq<Region>,
    limit: int,
    p: ScanProgress,
    contents: Seq<Seq<u8>>,
    n: nat,
)
    requires
        all_fit(regions),
        0 < probe.width() <= CHUNK,
        0 <= limit,
        !p.cancel,
        contents.len() == regions.len(),
        forall|i: int|
            0 <= i < contents.len() ==> (#[trigger] contents[i]).len() == regions[i].size,
        n >= regions.len(),
    ensures
        ({
            let end = run(
                job_start(probe, regions, limit),
                p,
                contents,
                all_regions_seen(regions.len()),
                n,
            ).0;
            &&& end.found == at_most(all_hits(probe, regions, contents, regions.len() as int), limit)
            &&& !end.waiting()
        }),
{
    let seen = all_regions_seen(regions.len());
    law_broken_blocks_lose_nothing(probe, regions, limit, p, contents, seen, n);
    lemma_clear_of_all(probe, regions, contents, regions.len() as int);
}

/// Regions of which every byte can be read.
pub open spec fn all_regions_seen(n: nat) -> Seq<spec_fn(int) -> bool> {
    Seq::new(n, |i: int| all_seen())
}

proof fn lemma_clear_of_all(
    probe: ProbeView,
    regions: Seq<Region>,
    contents: Seq<Seq<u8>>,
    k: int,
)
    requires
        k <= regions.len(),
    ensures
        clear_all_hits(probe, regions, contents, all_regions_seen(regions.len()), k) == all_hits(
            probe,
            regions,
            contents,
            k,
        ),
    decreases k,
{
    if k > 0 {
        lemma_clear_of_all(probe, regions, contents, k - 1);
        lemma_clear_stretch(
            probe,
            regions[k - 1].base as int,
            contents[k - 1],
            all_seen(),
            0,
            contents[k - 1].len() - probe.width() + 1,
        );
    }
}

/// How many regions a search visits, of which it has visited `k`: it goes on until it has found as
/// much as it may.
pub open spec fn visited(
    probe: ProbeView,
    regions: Seq<Region>,
    contents: Seq<Seq<u8>>,
    seen: Seq<spec_fn(int) -> bool>,
    limit: int,
    k: int,
) -> int
    decreases regions.len() - k,
{
    if k >= regions.len() || clear_all_hits(probe, regions, contents, seen, k).len() >= limit {
        k
    } else {
        visited(probe, regions, contents, seen, limit, k + 1)
    }
}

proof fn lemma_visited(
    probe: ProbeView,
    regions: Seq<Region>,
    contents: Seq<Seq<u8>>,
    seen: Seq<spec_fn(int) -> bool>,
    limit: int,
    k: int,
)
    requires
        k <= regions.len(),
    ensures
        k <= visited(probe, regions, contents, seen, limit, k) <= regions.len(),
    decreases regions.len() - k,
{
    if !(k >= regions.len() || clear_all_hits(probe, regions, contents, seen, k).len() >= limit) {
        lemma_visited(probe, regions, contents, seen, limit, k + 1);
    }
}

/// The progress `p` when `more` regions were visited since, and `found` is found in all.
pub open spec fn counted(p: ScanProgress, more: int, found: nat) -> ScanProgress {
    ScanProgress {
        done: (p.done + more) as usize,
        matches: if more > 0 {
            found as usize
        } else {
            p.matches
        },
        ..p
    }
}

proof fn lemma_next_progress(
    j: JobView,
    p: ScanProgress,
    contents: Seq<Seq<u8>>,
    seen: Seq<spec_fn(int) -> bool>,
)
    requires
        j.wf(),
        !p.cancel,
        0 < j.probe.width() <= CHUNK,
        laid_out(j.regions, contents, seen),
        !j.waiting(),
        p.done + j.regions.len() - j.idx <= usize::MAX,
        j.found == at_most(
            clear_all_hits(
                j.probe,
                j.regions,
                contents,
                seen,
                j.idx + if j.cursor is Some {
                    1int
                } else {
                    0int
                },
            ),
            j.limit,
        ),
    ensures
        ({
            let (j1, p1, req) = j.next(p);
            let m = j.idx + if j.cursor is Some {
                1int
            } else {
                0int
            };
            let v = visited(j.probe, j.regions, contents, seen, j.limit, m);
            &&& j1.found == j.found
            &&& req is None ==> p1 == counted(p, v - j.idx, j.found.len())
            &&& req is Some ==> {
                &&& p1 == counted(p, j1.idx - j.idx, j.found.len())
                &&& v == visited(j.probe, j.regions, contents, seen, j.limit, j1.idx + 1)
            }
        }),
    decreases j.regions.len() - j.idx, j.cursor is Some as int,
{
    match j.cursor {
        Some(c) => {
            let p1 = ScanProgress {
                done: p.done.wrapping_add(1),
                matches: j.found.len() as usize,
                ..p
            };
            lemma_visited(j.probe, j.regions, contents, seen, j.limit, j.idx + 1);
            let rest = JobView { cursor: None, idx: j.idx + 1, ..j };
            lemma_next_region(rest, p1, contents, seen);
            lemma_next_progress(rest, p1, contents, seen);
        },
        None => {
            if !(j.idx >= j.regions.len() || j.found.len() >= j.limit) {
                let r = j.regions[j.idx];
                let c = cursor_at_start(r.base, r.size, (j.probe.width() - 1) as usize);
                if !c.pending() {
                    let p1 = ScanProgress {
                        done: p.done.wrapping_add(1),
                        matches: j.found.len() as usize,
                        ..p
                    };
                    assert(contents[j.idx].len() == 0);
                    assert(j.probe.clear_hits_in(r, contents[j.idx], seen[j.idx]).len() == 0);
                    assert(clear_all_hits(j.probe, j.regions, contents, seen, j.idx + 1)
                        =~= clear_all_hits(j.probe, j.regions, contents, seen, j.idx));
                    lemma_visited(j.probe, j.regions, contents, seen, j.limit, j.idx + 1);
                    let rest = JobView { idx: j.idx + 1, last: None, ..j };
                    lemma_next_region(rest, p1, contents, seen);
                    lemma_next_progress(rest, p1, contents, seen);
                }
            }
        },
    }
}

proof fn lemma_run_progress(
    j: JobView,
    p: ScanProgress,
    contents: Seq<Seq<u8>>,
    seen: Seq<spec_fn(int) -> bool>,
    n: nat,
)
    requires
        j.wf(),
        !p.cancel,
        0 < j.probe.width() <= CHUNK,
        laid_out(j.regions, contents, seen),
        !j.waiting(),
        p.done + j.regions.len() - j.idx <= usize::MAX,
        j.found == at_most(
            clear_all_hits(
                j.probe,
                j.regions,
                contents,
                seen,
                j.idx + if j.cursor is Some {
                    1int
                } else {
                    0int
                },
            ),
            j.limit,
        ),
        n >= j.regions.len() - j.idx - if j.cursor is Some {
            1int
        } else {
            0int
        },
    ensures
        ({
            let m = j.idx + if j.cursor is Some {
                1int
            } else {
                0int
            };
            let v = visited(j.probe, j.regions, contents, seen, j.limit, m);
            let (end, q) = run(j, p, contents, seen, n);
            q == counted(p, v - j.idx, end.found.len())
        }),
    decreases n,
{
    lemma_next_region(j, p, contents, seen);
    lemma_next_progress(j, p, contents, seen);
    let (j1, p1, req) = j.next(p);
    if req is Some {
        let content = contents[j1.idx];
        let s = seen[j1.idx];
        let before = clear_all_hits(j.probe, j.regions, contents, seen, j1.idx);
        let w = j.probe.width() as int;
        let size = j1.regions[j1.idx].size as int;
        let k = if 0 < size - w + 1 {
            0
        } else {
            size - w + 1
        };
        assert(j1.probe.clear_hits(j1.regions[j1.idx].base as int, content, s, 0, k)
            =~= Seq::<Match>::empty());
        assert(before + Seq::<Match>::empty() =~= before);
        lemma_region_read(j1, before, content, s);
        lemma_visited(j.probe, j.regions, contents, seen, j.limit, j1.idx + 1);
        lemma_run_progress(read_region(j1, content, s), p1, contents, seen, (n - 1) as nat);
    }
}

/// At the end of a search that nobody stops, the progress has counted every region that was visited,
/// and where one was it holds how much was found.
pub proof fn law_progress_counts_regions(
    probe: ProbeView,
    regions: Seq<Region>,
    limit: int,
    p: ScanProgress,
    contents: Seq<Seq<u8>>,
    seen: Seq<spec_fn(int) -> bool>,
    n: nat,
)
    requires
        all_fit(regions),
        0 < probe.width() <= CHUNK,
        0 <= limit,
        !p.cancel,
        laid_out(regions, contents, seen),
        n >= regions.len(),
        p.done + regions.len() <= usize::MAX,
    ensures
        ({
            let v = visited(probe, regions, contents, seen, limit, 0);
            let (end, q) = run(job_start(probe, regions, limit), p, contents, seen, n);
            &&& 0 <= v <= regions.len()
            &&& limit > 0 && regions.len() > 0 ==> v > 0
            &&& q.done == p.done + v
            &&& q.matches == (if v > 0 {
                end.found.len() as usize
            } else {
                p.matches
            })
            &&& q.total == p.total
            &&& !q.cancel
        }),
{
    let j = job_start(probe, regions, limit);
    assert(j.found =~= at_most(clear_all_hits(probe, regions, contents, seen, 0), limit));
    lemma_visited(probe, regions, contents, seen, limit, 0);
    if limit > 0 && regions.len() > 0 {
        lemma_visited(probe, regions, contents, seen, limit, 1);
    }
    lemma_run_progress(j, p, contents, seen, n);
}

/// A search that was stopped before it began finds nothing and leaves the progress as it is.
pub proof fn law_stopped_search_finds_nothing(
    probe: ProbeView,
    regions: Seq<Region>,
    limit: int,
    p: ScanProgress,
    contents: Seq<Seq<u8>>,
    seen: Seq<spec_fn(int) -> bool>,
    n: nat,
)
    requires
        p.cancel,
    ensures
        ({
            let (end, q) = run(job_start(probe, regions, limit), p, contents, seen, n);
            &&& end.found.len() == 0
            &&& !end.waiting()
            &&& q == p
        }),
{
}

proof fn lemma_next_ignores_progress(j: JobView, p: ScanProgress, q: ScanProgress)
    requires
        p.cancel == q.cancel,
    ensures
        j.next(p).0 == j.next(q).0,
        j.next(p).2 == j.next(q).2,
        j.next(p).1.cancel == j.next(q).1.cancel,
    decreases j.regions.len() - j.idx, j.cursor is Some as int,
{
    let p1 = ScanProgress {
        done: p.done.wrapping_add(1),
        matches: j.found.len() as usize,
        ..p
    };
    let q1 = ScanProgress {
        done: q.done.wrapping_add(1),
        matches: j.found.len() as usize,
        ..q
    };
    match j.cursor {
        Some(c) => {
            if !c.pending() && j.idx < j.regions.len() {
                lemma_next_ignores_progress(
                    JobView { cursor: None, idx: j.idx + 1, ..j },
                    p1,
                    q1,
                );
            }
        },
        None => {
            if !(j.idx >= j.regions.len() || p.cancel || j.found.len() >= j.limit) {
                lemma_next_ignores_progress(JobView { idx: j.idx + 1, last: None, ..j }, p1, q1);
            }
        },
    }
}

/// What a search finds does not depend on its progress, unless it is stopped: a search that is
/// watched finds what one with a progress of its own finds.
pub proof fn law_watching_changes_nothing(
    j: JobView,
    p: ScanProgress,
    q: ScanProgress,
    contents: Seq<Seq<u8>>,
    seen: Seq<spec_fn(int) -> bool>,
    n: nat,
)
    requires
        p.cancel == q.cancel,
    ensures
        run(j, p, contents, seen, n).0 == run(j, q, contents, seen, n).0,
    decreases n,
{
    lemma_next_ignores_progress(j, p, q);
    let (j1, p1, req) = j.next(p);
    let q1 = j.next(q).1;
    if req is Some && n > 0 {
        law_watching_changes_nothing(
            read_region(j1, contents[j1.idx], seen[j1.idx]),
            p1,
            q1,
            contents,
            seen,
            (n - 1) as nat,
        );
    }
}

// ---------------------------------------------------------------------------
// The searches
// ---------------------------------------------------------------------------

/// A first search for values that a comparison accepts.
pub fn first_scan_job(
    regions: Vec<Region>,
    value_type: ValueType,
    fast_scan: bool,
    c: ScanCmp,
) -> (r: ScanJob)
    requires
        all_fit(regions@),
    ensures
        r@ == job_start(
            ProbeView::Value { vt: value_type, c, fast: fast_scan },
            regions@,
            usize::MAX as int,
        ),
        r@.wf(),
{
    ScanJob::new(Probe::Value { vt: value_type, c, fast: fast_scan }, regions, usize::MAX)
}

/// A first search for the bytes of a text.
pub fn first_scan_string_job(regions: Vec<Region>, pattern: Vec<u8>) -> (r: ScanJob)
    requires
        all_fit(regions@),
    ensures
        r@ == job_start(ProbeView::Text(pattern@), regions@, usize::MAX as int),
        r@.wf(),
{
    ScanJob::new(Probe::Text(pattern), regions, usize::MAX)
}

/// A search for at most `limit` addresses at which a pattern fits.
pub fn aob_scan_job(regions: Vec<Region>, pat: Vec<Option<u8>>, limit: usize) -> (r: ScanJob)
    requires
        all_fit(regions@),
    ensures
        r@ == job_start(ProbeView::Pattern(pat@), regions@, limit as int),
        r@.wf(),
{
    ScanJob::new(Probe::Pattern(pat), regions, limit)
}

/// A search like `aob_scan_job`, with a progress of its own, so that nobody stops it.
pub fn aob_scan(regions: Vec<Region>, pat: Vec<Option<u8>>, limit: usize) -> (r: (
    ScanJob,
    ScanProgress,
))
    requires
        all_fit(regions@),
    ensures
        r.0@ == job_start(ProbeView::Pattern(pat@), regions@, limit as int),
        r.0@.wf(),
        r.1 == (ScanProgress {
            done: 0,
            total: if regions@.len() == 0 {
                1
            } else {
                regions@.len() as usize
            },
            matches: 0,
            cancel: false,
        }),
{
    let n = regions.len();
    (ScanJob::new(Probe::Pattern(pat), regions, limit), ScanProgress::new(n))
}

/// The addresses that a search found.
pub fn addresses(found: &Vec<Match>) -> (r: Vec<u64>)
    ensures
        r@ == found@.map_values(|m: Match| m.address),
{
    let mut out: Vec<u64> = Vec::new();
    let mut i: usize = 0;
    while i < found.len()
        invariant
            i <= found.len(),
            out@ == found@.take(i as int).map_values(|m: Match| m.address),
        decreases found.len() - i,
    {
        out.push(found[i].address);
        i += 1;
        assert(out@ =~= found@.take(i as int).map_values(|m: Match| m.address));
    }
    assert(found@.take(i as int) == found@);
    out
}

// ---------------------------------------------------------------------------
// What the searches find
// ---------------------------------------------------------------------------

/// What is looked for stands at the distance `off` from the start of a region: its bytes lie in the
/// region and can be read, and they are a value that the comparison accepts, the text, or what the
/// pattern allows. A fast search for values looks only at multiples of their size.
pub open spec fn stands_at(
    probe: ProbeView,
    content: Seq<u8>,
    seen: spec_fn(int) -> bool,
    off: int,
) -> bool {
    let n = match probe {
        ProbeView::Value { vt, .. } => vt.width() as int,
        ProbeView::Text(t) => t.len() as int,
        ProbeView::Pattern(t) => t.len() as int,
    };
    &&& 0 <= off
    &&& off + n <= content.len()
    &&& forall|x: int| off <= x < off + n ==> #[trigger] seen(x)
    &&& match probe {
        ProbeView::Value { vt, c, fast } => {
            &&& fast ==> off % n == 0
            &&& compared(vt, c, content.subrange(off, off + n), unknown()) == Some(true)
        },
        ProbeView::Text(t) => forall|i: int|
            0 <= i < n ==> content[off + i] == #[trigger] t[i],
        ProbeView::Pattern(t) => forall|i: int|
            0 <= i < n ==> (#[trigger] t[i] matches Some(b) ==> content[off + i] == b),
    }
}

/// A match says where something stands: its address, and for a value the value there.
pub open spec fn describes(probe: ProbeView, region: Region, content: Seq<u8>, off: int, m: Match) -> bool {
    &&& m.address == region.base + off
    &&& probe matches ProbeView::Value { vt, .. } ==> known_in(
        vt,
        content.subrange(off, off + vt.width()),
    ) == Some(m.last)
    &&& !(probe is Value) ==> m.last == Known::Float(0)
}

/// Places, each given by a region and a distance in it, in their order.
pub open spec fn in_order(spots: Seq<(int, int)>) -> bool {
    forall|i: int, j: int|
        0 <= i < j < spots.len() ==> (#[trigger] spots[i]).0 < (#[trigger] spots[j]).0 || (
        spots[i].0 == spots[j].0 && spots[i].1 < spots[j].1)
}

proof fn lemma_accepts(probe: ProbeView, content: Seq<u8>, seen: spec_fn(int) -> bool, off: int)
    requires
        probe.width() > 0,
        0 <= off,
        off + probe.width() <= content.len(),
    ensures
        stands_at(probe, content, seen, off) <==> probe.found_at(0, content, off) && clear(
            seen,
            off,
            probe.width() as int,
        ),
{
    let n = probe.width() as int;
    let w = content.subrange(off, off + n);
    assert(content.subrange(off - 0, off - 0 + n) == w);
    assert forall|i: int| 0 <= i < n implies #[trigger] w[i] == content[off + i] by {}
    match probe {
        ProbeView::Value { vt, c, fast } => {
            if !fast {
                assert(off % 1 == 0);
            }
        },
        ProbeView::Text(t) => {
            assert(off % 1 == 0);
            if forall|i: int| 0 <= i < n ==> content[off + i] == #[trigger] t[i] {
                assert(w =~= t);
            }
            if w == t {
                assert forall|i: int| 0 <= i < n implies content[off + i] == #[trigger] t[i] by {
                    assert(w[i] == t[i]);
                }
            }
        },
        ProbeView::Pattern(t) => {
            assert(off % 1 == 0);
            if begins_with(w, t) {
                assert forall|i: int| 0 <= i < n implies (#[trigger] t[i] matches Some(b)
                    ==> content[off + i] == b) by {
                    assert(w[i] == content[off + i]);
                }
            }
            if stands_at(probe, content, seen, off) {
                assert forall|i: int| 0 <= i < t.len() implies (#[trigger] t[i] matches Some(b)
                    ==> w[i] == b) by {
                    assert(w[i] == content[off + i]);
                }
            }
        },
    }
}

proof fn lemma_spots_in(
    probe: ProbeView,
    region: Region,
    content: Seq<u8>,
    seen: spec_fn(int) -> bool,
    k: int,
    hi: int,
) -> (spots: Seq<(int, int)>)
    requires
        probe.width() > 0,
        region.fits(),
        content.len() == region.size,
        hi + probe.width() <= content.len() + 1,
    ensures
        in_order(spots),
        spots.len() == probe.clear_hits(region.base as int, content, seen, 0, hi).len(),
        forall|i: int|
            #![trigger spots[i]]
            0 <= i < spots.len() ==> {
                &&& spots[i].0 == k
                &&& spots[i].1 < hi
                &&& stands_at(probe, content, seen, spots[i].1)
                &&& describes(
                    probe,
                    region,
                    content,
                    spots[i].1,
                    probe.clear_hits(region.base as int, content, seen, 0, hi)[i],
                )
            },
        forall|off: int|
            #![trigger stands_at(probe, content, seen, off)]
            off < hi && stands_at(probe, content, seen, off) ==> spots.contains((k, off)),
    decreases hi,
{
    if hi <= 0 {
        Seq::empty()
    } else {
        let rest = lemma_spots_in(probe, region, content, seen, k, hi - 1);
        let before = probe.clear_hits(region.base as int, content, seen, 0, hi - 1);
        let all = probe.clear_hits(region.base as int, content, seen, 0, hi);
        lemma_accepts(probe, content, seen, hi - 1);
        let spots = if stands_at(probe, content, seen, hi - 1) {
            let s = rest.push((k, hi - 1));
            assert(all[rest.len() as int].address == region.base + hi - 1);
            assert forall|i: int| #![trigger s[i]] 0 <= i < s.len() implies describes(
                probe,
                region,
                content,
                s[i].1,
                all[i],
            ) by {
                if i < rest.len() {
                    assert(s[i] == rest[i]);
                    assert(all[i] == before[i]);
                }
            }
            assert(s[rest.len() as int] == (k, hi - 1));
            s
        } else {
            rest
        };
        assert forall|off: int|
            #![trigger stands_at(probe, content, seen, off)]
            off < hi && stands_at(probe, content, seen, off) implies spots.contains((k, off)) by {
            if off < hi - 1 {
                let i = choose|i: int| 0 <= i < rest.len() && rest[i] == (k, off);
                assert(spots[i] == (k, off));
            } else {
                assert(spots[rest.len() as int] == (k, off));
            }
        }
        spots
    }
}

proof fn lemma_spots(
    probe: ProbeView,
    regions: Seq<Region>,
    contents: Seq<Seq<u8>>,
    seen: Seq<spec_fn(int) -> bool>,
    n: int,
) -> (spots: Seq<(int, int)>)
    requires
        probe.width() > 0,
        all_fit(regions),
        0 <= n <= regions.len(),
        laid_out(regions, contents, seen),
    ensures
        in_order(spots),
        spots.len() == clear_all_hits(probe, regions, contents, seen, n).len(),
        forall|i: int|
            #![trigger spots[i]]
            0 <= i < spots.len() ==> {
                let (k, off) = spots[i];
                &&& 0 <= k < n
                &&& stands_at(probe, contents[k], seen[k], off)
                &&& describes(
                    probe,
                    regions[k],
                    contents[k],
                    off,
                    clear_all_hits(probe, regions, contents, seen, n)[i],
                )
            },
        forall|k: int, off: int|
            #![trigger stands_at(probe, contents[k], seen[k], off)]
            0 <= k < n && stands_at(probe, contents[k], seen[k], off) ==> spots.contains((k, off)),
    decreases n,
{
    if n <= 0 {
        Seq::empty()
    } else {
        let rest = lemma_spots(probe, regions, contents, seen, n - 1);
        let k = n - 1;
        let region = regions[k];
        assert(region.fits());
        assert(contents[k].len() == region.size);
        let hi = contents[k].len() - probe.width() + 1;
        let here = lemma_spots_in(probe, region, contents[k], seen[k], k, hi);
        let spots = rest + here;
        let old = clear_all_hits(probe, regions, contents, seen, n - 1);
        let new = probe.clear_hits_in(region, contents[k], seen[k]);
        let all = clear_all_hits(probe, regions, contents, seen, n);
        assert forall|i: int, j: int| 0 <= i < j < spots.len() implies (#[trigger] spots[i]).0 < (
        #[trigger] spots[j]).0 || (spots[i].0 == spots[j].0 && spots[i].1 < spots[j].1) by {
            if j < rest.len() {
                assert(spots[i] == rest[i] && spots[j] == rest[j]);
            } else if i < rest.len() {
                assert(spots[i] == rest[i] && spots[j] == here[j - rest.len()]);
            } else {
                assert(spots[i] == here[i - rest.len()] && spots[j] == here[j - rest.len()]);
            }
        }
        assert forall|i: int| #![trigger spots[i]] 0 <= i < spots.len() implies {
            let (q, off) = spots[i];
            &&& 0 <= q < n
            &&& stands_at(probe, contents[q], seen[q], off)
            &&& describes(probe, regions[q], contents[q], off, all[i])
        } by {
            if i < rest.len() {
                assert(spots[i] == rest[i]);
                assert(all[i] == old[i]);
            } else {
                assert(spots[i] == here[i - rest.len()]);
                assert(all[i] == new[i - rest.len()]);
            }
        }
        assert forall|q: int, off: int|
            #![trigger stands_at(probe, contents[q], seen[q], off)]
            0 <= q < n && stands_at(probe, contents[q], seen[q], off) implies spots.contains(
            (q, off),
        ) by {
            if q < n - 1 {
                let i = choose|i: int| 0 <= i < rest.len() && rest[i] == (q, off);
                assert(spots[i] == (q, off));
            } else {
                assert(off < hi);
                let i = choose|i: int| 0 <= i < here.len() && here[i] == (q, off);
                assert(spots[rest.len() + i] == (q, off));
            }
        }
        spots
    }
}

/// A search that nobody stops finds, region by region and there in ascending order, exactly the
/// places at which what it looks for stands in memory that can be read, the first of them up to the
/// limit; each match says where, and what value stands there.
pub proof fn law_search_finds_what_there_is(
    probe: ProbeView,
    regions: Seq<Region>,
    limit: int,
    p: ScanProgress,
    contents: Seq<Seq<u8>>,
    seen: Seq<spec_fn(int) -> bool>,
    n: nat,
)
    requires
        all_fit(regions),
        0 < probe.width() <= CHUNK,
        0 <= limit,
        !p.cancel,
        laid_out(regions, contents, seen),
        n >= regions.len(),
    ensures
        ({
            let found = run(job_start(probe, regions, limit), p, contents, seen, n).0.found;
            exists|spots: Seq<(int, int)>|
                {
                    &&& #[trigger] in_order(spots)
                    &&& found.len() == if spots.len() < limit {
                        spots.len() as int
                    } else {
                        limit
                    }
                    &&& forall|i: int|
                        #![trigger spots[i]]
                        0 <= i < spots.len() ==> {
                            let (k, off) = spots[i];
                            &&& 0 <= k < regions.len()
                            &&& stands_at(probe, contents[k], seen[k], off)
                            &&& i < found.len() ==> describes(
                                probe,
                                regions[k],
                                contents[k],
                                off,
                                found[i],
                            )
                        }
                    &&& forall|k: int, off: int|
                        #![trigger stands_at(probe, contents[k], seen[k], off)]
                        0 <= k < regions.len() && stands_at(probe, contents[k], seen[k], off)
                            ==> spots.contains((k, off))
                }
        }),
{
    law_broken_blocks_lose_nothing(probe, regions, limit, p, contents, seen, n);
    let spots = lemma_spots(probe, regions, contents, seen, regions.len() as int);
    let all = clear_all_hits(probe, regions, contents, seen, regions.len() as int);
    let found = run(job_start(probe, regions, limit), p, contents, seen, n).0.found;
    assert(found == at_most(all, limit));
    assert forall|i: int| #![trigger spots[i]] 0 <= i < spots.len() implies {
        let (k, off) = spots[i];
        &&& 0 <= k < regions.len()
        &&& stands_at(probe, contents[k], seen[k], off)
        &&& i < found.len() ==> describes(probe, regions[k], contents[k], off, found[i])
    } by {
        if i < found.len() {
            assert(found[i] == all[i]);
        }
    }
    assert(in_order(spots));
}

/// A search that looks at no bytes finds nothing and leaves the progress as it is.
pub proof fn law_search_for_nothing_finds_nothing(
    probe: ProbeView,
    regions: Seq<Region>,
    limit: int,
    p: ScanProgress,
    contents: Seq<Seq<u8>>,
    seen: Seq<spec_fn(int) -> bool>,
    n: nat,
)
    requires
        match probe {
            ProbeView::Value { vt, .. } => vt is StringUtf8 || vt is StringUtf16,
            ProbeView::Text(t) => t.len() == 0,
            ProbeView::Pattern(t) => t.len() == 0,
        },
    ensures
        ({
            let (end, q) = run(job_start(probe, regions, limit), p, contents, seen, n);
            &&& end.found.len() == 0
            &&& !end.waiting()
            &&& q == p
        }),
{
}

/// A block whose read failed adds nothing to what is found, and the search goes on behind the page
/// that stopped it.
pub proof fn law_failed_block_adds_nothing(j: JobView, data: Seq<u8>)
    requires
        j.waiting(),
        data.len() <= j.cursor->0.wanted(),
        j.cursor->0.off + data.len() + crate::memory::PAGE <= usize::MAX,
    ensures
        j.supplied(false, data).found == j.found,
        j.supplied(false, data).last == j.last,
        j.supplied(false, data).idx == j.idx,
        j.supplied(false, data).cursor matches Some(c) && c.off == j.cursor->0.off + data.len()
            + crate::memory::PAGE,
{
}

/// A search that is stopped finishes the region it is in, and looks at no other: between two regions
/// it is over at once, with what it has found.
pub proof fn law_search_stops_between_regions(j: JobView, p: ScanProgress)
    requires
        p.cancel,
    ensures
        j.cursor is None ==> {
            let (end, q, req) = j.next(p);
            &&& req is None
            &&& end.found == j.found
            &&& q == p
            &&& !end.waiting()
        },
        j.waiting() ==> {
            let (same, q, req) = j.next(p);
            &&& same == j
            &&& q == p
            &&& req == Some((j.cursor->0.address(), j.cursor->0.wanted() as usize))
        },
{
}

/// Where a search waits for a block, it asks for the next bytes of the region that it is in, from as
/// far from its start as it has come: one mebibyte of them, or what is left.
pub proof fn law_search_asks_for_its_region(j: JobView, p: ScanProgress)
    requires
        j.wf(),
    ensures
        ({
            let (k, q, req) = j.next(p);
            req matches Some((a, n)) ==> {
                let r = k.regions[k.idx];
                let off = k.cursor->0.off;
                &&& k.regions == j.regions
                &&& k.found == j.found
                &&& k.probe == j.probe
                &&& j.idx <= k.idx < k.regions.len()
                &&& k.cursor is Some
                &&& off < r.size
                &&& a == r.base + off
                &&& n == (if r.size - off < 1024 * 1024 {
                    r.size - off
                } else {
                    0x10_0000int
                })
                &&& k.idx > j.idx || j.cursor is None ==> off == 0
            }
        }),
    decreases j.regions.len() - j.idx, j.cursor is Some as int,
{
    match j.cursor {
        Some(c) => {
            assert(j.regions[j.idx].fits());
            if c.pending() {
                crate::memory::law_next_block_is_asked_for(c);
            } else if j.idx < j.regions.len() {
                let next = JobView { cursor: None, idx: j.idx + 1, ..j };
                law_search_asks_for_its_region(
                    next,
                    ScanProgress {
                        done: p.done.wrapping_add(1),
                        matches: j.found.len() as usize,
                        ..p
                    },
                );
            }
        },
        None => {
            if !(j.idx >= j.regions.len() || p.cancel || j.found.len() >= j.limit) {
                let r = j.regions[j.idx];
                assert(r.fits());
                let c = cursor_at_start(r.base, r.size, (j.probe.width() - 1) as usize);
                if c.pending() {
                    crate::memory::law_next_block_is_asked_for(c);
                } else {
                    let next = JobView { idx: j.idx + 1, last: None, ..j };
                    law_search_asks_for_its_region(
                        next,
                        ScanProgress {
                            done: p.done.wrapping_add(1),
                            matches: j.found.len() as usize,
                            ..p
                        },
                    );
                }
            }
        },
    }
}

} // verus!
