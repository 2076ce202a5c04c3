//! Chains of pointers that lead from a module to an address, found by searching backward.

use crate::bytes::{le_nat, read_le};
use crate::inject::{modules_fit, ModuleInfo};
use crate::memory::{all_fit, Region};
use crate::order::{
    below, count_below, find_up_to, last_up_to, precedes, rising, sorted_order, sorts,
};
use crate::scan::ScanProgress;
use crate::sweep::at_most;
use crate::text;
use vstd::prelude::*;

verus! {

/// What a search for pointers looks for.
#[derive(Clone, Copy, PartialEq, Eq, Structural, Debug)]
pub struct PtrScanParams {
    pub target: u64,
    pub max_offset: u64,
    pub max_depth: usize,
    pub alignment: usize,
    pub max_results: usize,
}

/// A chain of pointers from a module to an address.
pub struct PtrPath {
    pub module: String,
    pub base_offset: u64,
    /// The offset after each dereference, in the order from the module to the address.
    pub offsets: Vec<u64>,
}

/// A chain of pointers.
#[verifier::ext_equal]
pub struct PathView {
    pub module: Seq<char>,
    pub base_offset: u64,
    pub offsets: Seq<u64>,
}

impl View for PtrPath {
    type V = PathView;

    open spec fn view(&self) -> PathView {
        PathView {
            module: self.module@,
            base_offset: self.base_offset,
            offsets: self.offsets@,
        }
    }
}

/// Offsets as they are written behind each other.
pub open spec fn offsets_text(offsets: Seq<u64>) -> Seq<char>
    decreases offsets.len(),
{
    if offsets.len() == 0 {
        Seq::empty()
    } else {
        offsets_text(offsets.drop_last()) + seq!['+'] + text::hex_upper(offsets.last() as nat)
    }
}

impl PathView {
    /// The chain as it is written: `["game.exe"+1A2B]+10+8`.
    pub open spec fn text(self) -> Seq<char> {
        seq!['[', '"'] + self.module + seq!['"', '+'] + text::hex_upper(self.base_offset as nat)
            + seq![']'] + offsets_text(self.offsets)
    }
}

impl PtrPath {
    /// The chain as it is written: `["game.exe"+1A2B]+10+8`.
    pub fn format(&self) -> (r: String)
        ensures
            r@ == self@.text(),
    {
        let mut s = String::new();
        s.push('[');
        s.push('"');
        s.append(self.module.as_str());
        s.push('"');
        s.push('+');
        text::push_hex(&mut s, self.base_offset);
        s.push(']');
        let ghost head = s@;
        assert(head =~= seq!['[', '"'] + self@.module + seq!['"', '+'] + text::hex_upper(
            self@.base_offset as nat,
        ) + seq![']']);
        let mut i: usize = 0;
        assert(s@ =~= head + offsets_text(self.offsets@.take(0)));
        while i < self.offsets.len()
            invariant
                i <= self.offsets.len(),
                s@ == head + offsets_text(self.offsets@.take(i as int)),
            decreases self.offsets.len() - i,
        {
            let ghost before = s@;
            s.push('+');
            text::push_hex(&mut s, self.offsets[i]);
            i += 1;
            proof {
                let t = self.offsets@.take(i as int);
                assert(t.drop_last() =~= self.offsets@.take(i - 1));
                assert(s@ =~= head + offsets_text(t));
            }
        }
        assert(self.offsets@.take(i as int) == self.offsets@);
        s
    }

    /// A chain with the same contents.
    pub fn duplicate(&self) -> (r: PtrPath)
        ensures
            r@ == self@,
    {
        PtrPath {
            module: self.module.clone(),
            base_offset: self.base_offset,
            offsets: self.offsets.clone(),
        }
    }
}

/// The views of chains.
pub open spec fn path_views(v: Seq<PtrPath>) -> Seq<PathView> {
    v.map_values(|p: PtrPath| p@)
}

// ---------------------------------------------------------------------------
// Spans of addresses
// ---------------------------------------------------------------------------

/// A span of addresses, from `base` up to `end`.
pub struct Span {
    pub base: u64,
    pub end: u64,
}

/// The first addresses of spans.
pub open spec fn bases(spans: Seq<Span>) -> Seq<u64> {
    spans.map_values(|s: Span| s.base)
}

/// The span that an address is looked for in, the last that does not begin after it, where the
/// address lies in it.
pub open spec fn span_at(spans: Seq<Span>, addr: u64) -> Option<int> {
    match last_up_to(bases(spans), addr) {
        Some(i) => if addr < spans[i].end {
            Some(i)
        } else {
            None
        },
        None => None,
    }
}

/// Spans brought into the order of their first addresses.
pub open spec fn arranged(given: Seq<Span>, spans: Seq<Span>, o: Seq<usize>) -> bool {
    &&& sorts(bases(given), o)
    &&& spans == o.map_values(|k: usize| given[k as int])
}

/// The spans of regions.
pub open spec fn region_spans(regions: Seq<Region>) -> Seq<Span> {
    regions.map_values(|r: Region| Span { base: r.base, end: (r.base + r.size) as u64 })
}

/// The spans of modules.
pub open spec fn module_spans(mods: Seq<ModuleInfo>) -> Seq<Span> {
    mods.map_values(|m: ModuleInfo| Span { base: m.base, end: (m.base + m.size) as u64 })
}

/// No address lies in two spans, and each holds at least one address.
pub open spec fn disjoint(spans: Seq<Span>) -> bool {
    &&& forall|i: int| 0 <= i < spans.len() ==> (#[trigger] spans[i]).base < spans[i].end
    &&& forall|i: int, j: int|
        0 <= i < spans.len() && 0 <= j < spans.len() && i != j ==> (#[trigger] spans[i]).end
            <= (#[trigger] spans[j]).base || spans[j].end <= spans[i].base
}

proof fn lemma_last_up_to_is_last(keys: Seq<u64>, bound: u64)
    ensures
        match last_up_to(keys, bound) {
            Some(i) => 0 <= i < keys.len() && keys[i] <= bound && forall|j: int|
                i < j < keys.len() ==> #[trigger] keys[j] > bound,
            None => forall|j: int| 0 <= j < keys.len() ==> #[trigger] keys[j] > bound,
        },
    decreases keys.len(),
{
    if keys.len() > 0 && keys.last() > bound {
        lemma_last_up_to_is_last(keys.drop_last(), bound);
        let r = last_up_to(keys.drop_last(), bound);
        let low = match r {
            Some(i) => i,
            None => -1,
        };
        assert forall|j: int| low < j < keys.len() implies #[trigger] keys[j] > bound by {
            if j < keys.len() - 1 {
                assert(keys.drop_last()[j] > bound);
            }
        }
    }
}

/// Where no two spans share an address, looking an address up among the ordered spans finds it
/// exactly when it lies in one of the given spans.
pub proof fn law_lookup_is_membership(given: Seq<Span>, spans: Seq<Span>, o: Seq<usize>, addr: u64)
    requires
        arranged(given, spans, o),
        disjoint(given),
        given.len() <= usize::MAX,
    ensures
        span_at(spans, addr) is Some <==> exists|k: int|
            0 <= k < given.len() && (#[trigger] given[k]).base <= addr < given[k].end,
{
    let keys = bases(spans);
    lemma_last_up_to_is_last(keys, addr);
    if let Some(i) = span_at(spans, addr) {
        let k = o[i] as int;
        assert(keys[i] == spans[i].base);
        assert(given[k] == spans[i]);
        assert(given[k].base <= addr < given[k].end);
    }
    if exists|k: int| 0 <= k < given.len() && (#[trigger] given[k]).base <= addr < given[k].end {
        let k = choose|k: int|
            0 <= k < given.len() && (#[trigger] given[k]).base <= addr < given[k].end;
        let kk = k as usize;
        assert(o.contains(kk));
        let j = choose|j: int| 0 <= j < o.len() && o[j] == kk;
        assert(spans[j] == given[k]);
        assert(keys[j] == given[k].base);
        let i = last_up_to(keys, addr)->0;
        assert(i >= j);
        if i != j {
            let h = o[i] as int;
            assert(spans[i] == given[h]);
            assert(precedes(bases(given), o[j], o[i]));
            assert(keys[i] == given[h].base);
            assert(h != k);
        }
    }
}

/// Spans in the order of their first addresses.
pub struct SpanIndex {
    pub starts: Vec<u64>,
    pub ends: Vec<u64>,
}

impl View for SpanIndex {
    type V = Seq<Span>;

    open spec fn view(&self) -> Seq<Span> {
        Seq::new(
            self.starts@.len(),
            |i: int| Span { base: self.starts@[i], end: self.ends@[i] },
        )
    }
}

impl SpanIndex {
    /// The spans stand in the order of their first addresses.
    pub open spec fn wf(self) -> bool {
        &&& self.starts@.len() == self.ends@.len()
        &&& rising(self.starts@)
    }

    fn arrange(starts: Vec<u64>, ends: Vec<u64>, Ghost(given): Ghost<Seq<Span>>) -> (r: (
        SpanIndex,
        Vec<usize>,
    ))
        requires
            starts@.len() == ends@.len() == given.len(),
            forall|i: int|
                0 <= i < given.len() ==> #[trigger] given[i] == (Span {
                    base: starts@[i],
                    end: ends@[i],
                }),
        ensures
            arranged(given, r.0@, r.1@),
            r.0.wf(),
    {
        let o = sorted_order(&starts);
        assert(bases(given) =~= starts@);
        let mut a: Vec<u64> = Vec::new();
        let mut b: Vec<u64> = Vec::new();
        let mut i: usize = 0;
        while i < o.len()
            invariant
                i <= o.len(),
                sorts(starts@, o@),
                starts@.len() == ends@.len(),
                a@.len() == i,
                b@.len() == i,
                forall|k: int| 0 <= k < i ==> #[trigger] a@[k] == starts@[o@[k] as int],
                forall|k: int| 0 <= k < i ==> #[trigger] b@[k] == ends@[o@[k] as int],
            decreases o.len() - i,
        {
            a.push(starts[o[i]]);
            b.push(ends[o[i]]);
            i += 1;
        }
        let r = SpanIndex { starts: a, ends: b };
        proof {
            assert forall|i: int, j: int| 0 <= i <= j < a@.len() implies #[trigger] a@[i]
                <= #[trigger] a@[j] by {
                if i < j {
                    assert(precedes(starts@, o@[i], o@[j]));
                }
            }
            assert forall|k: int| 0 <= k < r@.len() implies r@[k] == given[o@[k] as int] by {
                assert(a@[k] == starts@[o@[k] as int]);
            }
            assert(r@ =~= o@.map_values(|k: usize| given[k as int]));
        }
        (r, o)
    }

    /// The place of the span that an address lies in.
    pub fn find(&self, addr: u64) -> (r: Option<usize>)
        requires
            self.wf(),
        ensures
            span_at(self@, addr) == (match r {
                Some(i) => Some(i as int),
                None => None,
            }),
            r matches Some(i) ==> i < self@.len() && self@[i as int].base <= addr
                < self@[i as int].end,
    {
        assert(bases(self@) =~= self.starts@);
        match find_up_to(&self.starts, addr) {
            Some(i) => if addr < self.ends[i] {
                Some(i)
            } else {
                None
            },
            None => None,
        }
    }
}

/// The memory that a process has, to tell what may be a pointer.
pub struct Committed {
    pub spans: SpanIndex,
}

impl Committed {
    /// The spans of the regions, in their order.
    pub fn from(regions: &[Region]) -> (r: Committed)
        requires
            all_fit(regions@),
        ensures
            r.spans.wf(),
            exists|o: Seq<usize>| arranged(region_spans(regions@), r.spans@, o),
    {
        let mut a: Vec<u64> = Vec::new();
        let mut b: Vec<u64> = Vec::new();
        let mut i: usize = 0;
        while i < regions.len()
            invariant
                i <= regions@.len(),
                all_fit(regions@),
                a@.len() == i,
                b@.len() == i,
                forall|k: int|
                    0 <= k < i ==> #[trigger] region_spans(regions@)[k] == (Span {
                        base: a@[k],
                        end: b@[k],
                    }),
            decreases regions.len() - i,
        {
            let r = regions[i];
            assert(regions@[i as int].fits());
            a.push(r.base);
            b.push(r.base + r.size as u64);
            i += 1;
        }
        let (spans, _o) = SpanIndex::arrange(a, b, Ghost(region_spans(regions@)));
        assert(arranged(region_spans(regions@), spans@, _o@));
        Committed { spans }
    }

    /// Tells whether an address lies in the memory of the process.
    pub fn contains(&self, addr: u64) -> (r: bool)
        requires
            self.spans.wf(),
        ensures
            r == (span_at(self.spans@, addr) is Some),
    {
        self.spans.find(addr).is_some()
    }
}

/// The modules of a process, to tell which addresses are static.
pub struct ModuleRanges {
    pub spans: SpanIndex,
    pub names: Vec<String>,
}

/// Modules in the order of their addresses.
pub struct RangesView {
    pub spans: Seq<Span>,
    pub names: Seq<Seq<char>>,
}

impl RangesView {
    /// The name and the address of the module that an address lies in.
    pub open spec fn module_at(self, addr: u64) -> Option<(Seq<char>, u64)> {
        match span_at(self.spans, addr) {
            Some(i) => Some((self.names[i], self.spans[i].base)),
            None => None,
        }
    }
}

impl View for ModuleRanges {
    type V = RangesView;

    open spec fn view(&self) -> RangesView {
        RangesView {
            spans: self.spans@,
            names: self.names@.map_values(|n: String| n@),
        }
    }
}

impl ModuleRanges {
    /// The modules stand in the order of their addresses, each with its name.
    pub open spec fn wf(self) -> bool {
        &&& self.spans.wf()
        &&& self.names@.len() == self.spans@.len()
    }

    /// The modules in the order of their addresses.
    pub fn from(mods: &[ModuleInfo]) -> (r: ModuleRanges)
        requires
            modules_fit(mods@),
        ensures
            r.wf(),
            exists|o: Seq<usize>| #[trigger]
                arranged(module_spans(mods@), r@.spans, o) && r@.names == o.map_values(
                    |k: usize| mods@[k as int].name@,
                ),
    {
        let mut a: Vec<u64> = Vec::new();
        let mut b: Vec<u64> = Vec::new();
        let mut i: usize = 0;
        while i < mods.len()
            invariant
                i <= mods@.len(),
                modules_fit(mods@),
                a@.len() == i,
                b@.len() == i,
                forall|k: int|
                    0 <= k < i ==> #[trigger] module_spans(mods@)[k] == (Span {
                        base: a@[k],
                        end: b@[k],
                    }),
            decreases mods.len() - i,
        {
            assert(mods@[i as int].fits());
            a.push(mods[i].base);
            b.push(mods[i].base + mods[i].size as u64);
            i += 1;
        }
        let (spans, o) = SpanIndex::arrange(a, b, Ghost(module_spans(mods@)));
        let mut names: Vec<String> = Vec::new();
        let mut k: usize = 0;
        while k < o.len()
            invariant
                k <= o.len(),
                names@.len() == k,
                arranged(module_spans(mods@), spans@, o@),
                forall|x: int|
                    0 <= x < k ==> (#[trigger] names@[x])@ == mods@[o@[x] as int].name@,
            decreases o.len() - k,
        {
            names.push(mods[o[k]].name.clone());
            k += 1;
        }
        let r = ModuleRanges { spans, names };
        assert(r@.names =~= o@.map_values(|k: usize| mods@[k as int].name@));
        assert(arranged(module_spans(mods@), r@.spans, o@));
        r
    }

    /// The name and the address of the module that an address lies in.
    pub fn module_of(&self, addr: u64) -> (r: Option<(&str, u64)>)
        requires
            self.wf(),
        ensures
            match r {
                Some((name, base)) => self@.module_at(addr) == Some((name@, base)) && base <= addr,
                None => self@.module_at(addr) is None,
            },
    {
        match self.spans.find(addr) {
            Some(i) => Some((self.names[i].as_str(), self.spans.starts[i])),
            None => None,
        }
    }
}

// ---------------------------------------------------------------------------
// The map of pointers
// ---------------------------------------------------------------------------

/// The distance between the places at which pointers are looked for.
pub open spec fn stride(alignment: usize) -> int {
    if alignment == 0 {
        1
    } else {
        alignment as int
    }
}

/// The number at a place.
pub open spec fn number_at(data: Seq<u8>, off: int) -> u64 {
    le_nat(data.subrange(off, off + 8)) as u64
}

/// The pointers at the first `n` places of a region, each with its address.
pub open spec fn pointers_in(
    base: u64,
    data: Seq<u8>,
    step: int,
    spans: Seq<Span>,
    n: int,
) -> Seq<(u64, u64)>
    decreases n,
{
    if n <= 0 {
        Seq::empty()
    } else {
        let rest = pointers_in(base, data, step, spans, n - 1);
        let off = (n - 1) * step;
        let v = number_at(data, off);
        if v != 0 && span_at(spans, v) is Some {
            rest.push((v, (base + off) as u64))
        } else {
            rest
        }
    }
}

/// How many places a region of `len` bytes has.
pub open spec fn places(len: int, step: int) -> int {
    if len < 8 {
        0
    } else {
        (len - 8) / step + 1
    }
}

/// The state of collecting pointers.
pub struct MapView {
    pub regions: Seq<Region>,
    pub idx: int,
    pub alignment: usize,
    pub spans: Seq<Span>,
    pub entries: Seq<(u64, u64)>,
}

impl MapView {
    /// The region that is needed next: its address and its length.
    pub open spec fn wanted(self, cancel: bool) -> Option<(u64, usize)> {
        if self.idx < self.regions.len() && !cancel {
            Some((self.regions[self.idx].base, self.regions[self.idx].size))
        } else {
            None
        }
    }

    /// The state after a region was read in full, or could not be.
    pub open spec fn supplied(self, data: Option<Seq<u8>>) -> MapView {
        MapView {
            idx: self.idx + 1,
            entries: match data {
                Some(d) => self.entries + pointers_in(
                    self.regions[self.idx].base,
                    d,
                    stride(self.alignment),
                    self.spans,
                    places(d.len() as int, stride(self.alignment)),
                ),
                None => self.entries,
            },
            ..self
        }
    }
}

/// Collecting the pointers of a process.
pub struct PtrMapJob {
    pub regions: Vec<Region>,
    pub idx: usize,
    pub alignment: usize,
    pub committed: Committed,
    pub values: Vec<u64>,
    pub holders: Vec<u64>,
}

/// Pairs of two sequences.
pub open spec fn pairs(a: Seq<u64>, b: Seq<u64>) -> Seq<(u64, u64)> {
    Seq::new(a.len(), |i: int| (a[i], b[i]))
}

impl View for PtrMapJob {
    type V = MapView;

    open spec fn view(&self) -> MapView {
        MapView {
            regions: self.regions@,
            idx: self.idx as int,
            alignment: self.alignment,
            spans: self.committed.spans@,
            entries: pairs(self.values@, self.holders@),
        }
    }
}

/// The pointers in the order of the addresses they point to; those that point to one address keep
/// the order in which they were found.
pub open spec fn ordered_by_value(
    entries: Seq<(u64, u64)>,
    map: Seq<(u64, u64)>,
    o: Seq<usize>,
) -> bool {
    &&& sorts(entries.map_values(|e: (u64, u64)| e.0), o)
    &&& map == o.map_values(|k: usize| entries[k as int])
}

impl PtrMapJob {
    /// The invariant of collecting pointers.
    pub open spec fn wf(self) -> bool {
        &&& all_fit(self.regions@)
        &&& self.idx <= self.regions@.len()
        &&& self.committed.spans.wf()
        &&& self.values@.len() == self.holders@.len()
    }

    /// The region that is needed next: its address and its length. `None` when all are read or
    /// the search was stopped.
    pub fn next(&self, progress: &ScanProgress) -> (r: Option<(u64, usize)>)
        requires
            self.wf(),
        ensures
            r == self@.wanted(progress.cancel),
    {
        if self.idx < self.regions.len() && !progress.cancel {
            let r = self.regions[self.idx];
            Some((r.base, r.size))
        } else {
            None
        }
    }

    /// Takes the bytes of the region that was asked for, or that it could not be read in full.
    pub fn supply(&mut self, data: Option<&[u8]>, progress: &mut ScanProgress)
        requires
            old(self).wf(),
            old(self)@.idx < old(self)@.regions.len(),
            data matches Some(d) ==> d@.len() == old(self)@.regions[old(self)@.idx].size,
        ensures
            final(self)@ == old(self)@.supplied(
                match data {
                    Some(d) => Some(d@),
                    None => None,
                },
            ),
            final(self).wf(),
            *final(progress) == (ScanProgress {
                done: old(progress).done.wrapping_add(1),
                ..*old(progress)
            }),
    {
        let region = self.regions[self.idx];
        assert(self.regions@[self.idx as int].fits());
        if let Some(d) = data {
            self.collect(region.base, d);
        }
        assert(self.idx < self.regions.len());
        self.idx += 1;
        progress.done = progress.done.wrapping_add(1);
    }

    fn collect(&mut self, base: u64, data: &[u8])
        requires
            old(self).wf(),
            base + data@.len() <= u64::MAX,
        ensures
            final(self)@ == (MapView {
                entries: old(self)@.entries + pointers_in(
                    base,
                    data@,
                    stride(old(self).alignment),
                    old(self)@.spans,
                    places(data@.len() as int, stride(old(self).alignment)),
                ),
                ..old(self)@
            }),
            final(self).wf(),
    {
        let ghost start = self@;
        let step: usize = if self.alignment == 0 {
            1
        } else {
            self.alignment
        };
        if data.len() < 8 {
            assert(self@.entries =~= start.entries + pointers_in(
                base,
                data@,
                step as int,
                start.spans,
                0,
            ));
            return;
        }
        let end: usize = data.len() - 8;
        let mut off: usize = 0;
        let ghost mut n: int = 0;
        let mut more = true;
        assert(self@.entries =~= start.entries + pointers_in(base, data@, step as int, start.spans, 0));
        while more
            invariant
                start == old(self)@,
                self.wf(),
                self@ == (MapView { entries: self@.entries, ..start }),
                step == stride(start.alignment),
                step >= 1,
                end == data@.len() - 8,
                base + data@.len() <= u64::MAX,
                self@.entries == start.entries + pointers_in(
                    base,
                    data@,
                    step as int,
                    start.spans,
                    n,
                ),
                0 <= n,
                off <= end,
                more ==> off == n * step,
                !more ==> n >= 1 && (n - 1) * step <= end && n * step > end,
            decreases end - off + if more {
                1int
            } else {
                0int
            },
        {
            let v = read_le(data, off, 8);
            assert(number_at(data@, off as int) == v);
            let ghost before = self@.entries;
            if v != 0 && self.committed.contains(v) {
                self.values.push(v);
                self.holders.push(base + off as u64);
                assert(self@.entries =~= before.push((v, (base + off) as u64)));
            }
            proof {
                assert((n + 1) * step == n * step + step) by (nonlinear_arith);
                n = n + 1;
                assert((n - 1) * (step as int) == off);
                assert(self@.entries =~= start.entries + pointers_in(
                    base,
                    data@,
                    step as int,
                    start.spans,
                    n,
                ));
            }
            if end - off < step {
                more = false;
            } else {
                off += step;
            }
        }
        proof {
            let q = n - 1;
            assert(n * step == q * step + step) by (nonlinear_arith)
                requires
                    q == n - 1,
            ;
            vstd::arithmetic::div_mod::lemma_fundamental_div_mod_converse(
                end as int,
                step as int,
                q,
                end - q * step,
            );
        }
    }

    /// The search backward through the pointers that were collected.
    pub fn into_search(self, modules: ModuleRanges, params: PtrScanParams) -> (r: PtrSearch)
        requires
            self.wf(),
            modules.wf(),
        ensures
            r.wf(),
            exists|o: Seq<usize>| ordered_by_value(self@.entries, r@.ctx.map, o),
            r@ == search_start(SearchCtx { map: r@.ctx.map, mods: modules@, params }),
    {
        let o = sorted_order(&self.values);
        let mut values: Vec<u64> = Vec::new();
        let mut holders: Vec<u64> = Vec::new();
        let mut i: usize = 0;
        while i < o.len()
            invariant
                i <= o.len(),
                sorts(self.values@, o@),
                self.values@.len() == self.holders@.len(),
                values@.len() == i,
                holders@.len() == i,
                forall|k: int| 0 <= k < i ==> #[trigger] values@[k] == self.values@[o@[k] as int],
                forall|k: int|
                    0 <= k < i ==> #[trigger] holders@[k] == self.holders@[o@[k] as int],
            decreases o.len() - i,
        {
            values.push(self.values[o[i]]);
            holders.push(self.holders[o[i]]);
            i += 1;
        }
        proof {
            assert forall|i: int, j: int| 0 <= i <= j < values@.len() implies #[trigger] values@[i]
                <= #[trigger] values@[j] by {
                if i < j {
                    assert(precedes(self.values@, o@[i], o@[j]));
                }
            }
            let map = pairs(values@, holders@);
            assert forall|k: int| 0 <= k < map.len() implies map[k] == self@.entries[o@[k] as int] by {
                assert(values@[k] == self.values@[o@[k] as int]);
            }
            assert(map =~= o@.map_values(|k: usize| self@.entries[k as int]));
            assert(self@.entries.map_values(|e: (u64, u64)| e.0) =~= self.values@);
            assert(ordered_by_value(self@.entries, map, o@));
        }
        PtrSearch::new(values, holders, modules, params)
    }
}

/// The start of collecting pointers.
pub open spec fn map_start(regions: Seq<Region>, alignment: usize, spans: Seq<Span>) -> MapView {
    MapView { regions, idx: 0, alignment, spans, entries: Seq::empty() }
}

/// A search for pointers to an address, which first collects the pointers of the process.
pub fn pointer_scan(regions: Vec<Region>, params: &PtrScanParams) -> (r: PtrMapJob)
    requires
        all_fit(regions@),
    ensures
        r.wf(),
        r@ == map_start(regions@, params.alignment, r@.spans),
        exists|o: Seq<usize>| arranged(region_spans(regions@), r@.spans, o),
{
    let committed = Committed::from(regions.as_slice());
    let r = PtrMapJob {
        regions,
        idx: 0,
        alignment: params.alignment,
        committed,
        values: Vec::new(),
        holders: Vec::new(),
    };
    assert(r@.entries =~= Seq::<(u64, u64)>::empty());
    r
}

// ---------------------------------------------------------------------------
// The search
// ---------------------------------------------------------------------------

/// What a search backward works on.
pub struct SearchCtx {
    /// Addresses that are pointed to and addresses that hold the pointers, in the order of the
    /// former.
    pub map: Seq<(u64, u64)>,
    pub mods: RangesView,
    pub params: PtrScanParams,
}

/// The chain that offsets, collected from the target backward, make.
pub open spec fn chain_of(module: Seq<char>, base: u64, addr: u64, offsets: Seq<u64>) -> PathView {
    PathView { module, base_offset: (addr - base) as u64, offsets: offsets.reverse() }
}

impl SearchCtx {
    /// A pointer to `val` reaches `target` with an offset that is allowed.
    pub open spec fn reaches(self, val: u64, target: u64) -> bool {
        val <= target && target - val <= self.params.max_offset
    }

    /// The chains that begin in a module and end in `target`, followed by `offsets`, whose last
    /// pointer is one of those from place `i` on. A chain begins as soon as a pointer lies in a
    /// module.
    pub open spec fn paths(self, target: u64, offsets: Seq<u64>, i: int) -> Seq<PathView>
        decreases self.params.max_depth - offsets.len(), self.map.len() - i,
    {
        if i >= self.map.len() {
            Seq::empty()
        } else {
            let (val, addr) = self.map[i];
            let offs = offsets.push((target - val) as u64);
            let here = if !self.reaches(val, target) {
                Seq::empty()
            } else {
                match self.mods.module_at(addr) {
                    Some((name, base)) => seq![chain_of(name, base, addr, offs)],
                    None => if offs.len() < self.params.max_depth {
                        self.paths(addr, offs, 0)
                    } else {
                        Seq::empty()
                    },
                }
            };
            here + self.paths(target, offsets, i + 1)
        }
    }

    /// All chains to the target.
    pub open spec fn all_paths(self) -> Seq<PathView> {
        self.paths(self.params.target, Seq::empty(), 0)
    }

    /// The pointers stand in the order of what they point to.
    pub open spec fn sorted(self) -> bool {
        rising(self.map.map_values(|e: (u64, u64)| e.0))
    }

    /// The first place that a search for pointers to `target` looks at.
    pub open spec fn first_place(self, target: u64, i: int) -> int
        decreases self.map.len() - i,
    {
        if i >= self.map.len() || self.map[i].0 + self.params.max_offset >= target {
            i
        } else {
            self.first_place(target, i + 1)
        }
    }
}

/// A place of the search: the address that is looked for, and the next pointer to look at.
#[derive(Clone, Copy, PartialEq, Eq, Structural, Debug)]
pub struct Frame {
    pub target: u64,
    pub i: usize,
}

/// The state of a search backward.
pub struct SearchView {
    pub ctx: SearchCtx,
    pub frames: Seq<Frame>,
    pub offsets: Seq<u64>,
    pub results: Seq<PathView>,
}

/// The start of a search backward.
pub open spec fn search_start(ctx: SearchCtx) -> SearchView {
    SearchView {
        ctx,
        frames: seq![
            Frame {
                target: ctx.params.target,
                i: ctx.first_place(ctx.params.target, 0) as usize,
            },
        ],
        offsets: Seq::empty(),
        results: Seq::empty(),
    }
}

impl SearchView {
    /// The invariant of a search backward.
    pub open spec fn wf(self) -> bool {
        &&& self.ctx.sorted()
        &&& self.ctx.map.len() <= usize::MAX
        &&& self.frames.len() == 0 ==> self.offsets.len() == 0
        &&& self.frames.len() > 0 ==> self.offsets.len() == self.frames.len() - 1
        &&& self.results.len() <= self.ctx.params.max_results
        &&& forall|k: int|
            0 <= k < self.frames.len() ==> (#[trigger] self.frames[k]).i <= self.ctx.map.len()
    }

    /// The search is over: all is looked at, or as much found as may be.
    pub open spec fn over(self) -> bool {
        self.frames.len() == 0 || self.results.len() >= self.ctx.params.max_results
    }

    /// The state after one pointer more was looked at.
    pub open spec fn stepped(self) -> SearchView {
        if self.over() {
            self
        } else {
            let top = self.frames.last();
            let i = top.i as int;
            if i >= self.ctx.map.len() || self.ctx.map[i].0 > top.target {
                SearchView {
                    frames: self.frames.drop_last(),
                    offsets: if self.offsets.len() > 0 {
                        self.offsets.drop_last()
                    } else {
                        self.offsets
                    },
                    ..self
                }
            } else {
                let (val, addr) = self.ctx.map[i];
                let offs = self.offsets.push((top.target - val) as u64);
                let rest = self.frames.drop_last().push(
                    Frame { target: top.target, i: (i + 1) as usize },
                );
                match self.ctx.mods.module_at(addr) {
                    Some((name, base)) => SearchView {
                        frames: rest,
                        results: self.results.push(chain_of(name, base, addr, offs)),
                        ..self
                    },
                    None => if offs.len() < self.ctx.params.max_depth {
                        SearchView {
                            frames: rest.push(
                                Frame { target: addr, i: self.ctx.first_place(addr, 0) as usize },
                            ),
                            offsets: offs,
                            ..self
                        }
                    } else {
                        SearchView { frames: rest, ..self }
                    },
                }
            }
        }
    }
}

/// The state after `n` steps.
pub open spec fn steps(v: SearchView, n: nat) -> SearchView
    decreases n,
{
    if n == 0 {
        v
    } else {
        steps(v.stepped(), (n - 1) as nat)
    }
}

/// A search backward through the pointers of a process.
pub struct PtrSearch {
    pub values: Vec<u64>,
    pub holders: Vec<u64>,
    pub modules: ModuleRanges,
    pub params: PtrScanParams,
    pub frames: Vec<Frame>,
    pub offsets: Vec<u64>,
    pub results: Vec<PtrPath>,
}

impl View for PtrSearch {
    type V = SearchView;

    open spec fn view(&self) -> SearchView {
        SearchView {
            ctx: SearchCtx {
                map: pairs(self.values@, self.holders@),
                mods: self.modules@,
                params: self.params,
            },
            frames: self.frames@,
            offsets: self.offsets@,
            results: path_views(self.results@),
        }
    }
}

fn reversed(v: &Vec<u64>) -> (r: Vec<u64>)
    ensures
        r@ == v@.reverse(),
{
    let mut out: Vec<u64> = Vec::new();
    let mut i: usize = v.len();
    while i > 0
        invariant
            i <= v@.len(),
            out@ == v@.reverse().take(v@.len() - i),
        decreases i,
    {
        i -= 1;
        out.push(v[i]);
        assert(out@ =~= v@.reverse().take(v@.len() - i));
    }
    assert(v@.reverse().take(v@.len() as int) =~= v@.reverse());
    out
}

impl PtrSearch {
    /// The invariant of a search backward.
    pub open spec fn wf(self) -> bool {
        &&& self.values@.len() == self.holders@.len()
        &&& rising(self.values@)
        &&& self.modules.wf()
        &&& self@.wf()
    }

    fn new(
        values: Vec<u64>,
        holders: Vec<u64>,
        modules: ModuleRanges,
        params: PtrScanParams,
    ) -> (r: PtrSearch)
        requires
            values@.len() == holders@.len(),
            rising(values@),
            modules.wf(),
        ensures
            r.wf(),
            r@ == search_start(
                SearchCtx { map: pairs(values@, holders@), mods: modules@, params },
            ),
    {
        let mut r = PtrSearch {
            values,
            holders,
            modules,
            params,
            frames: Vec::new(),
            offsets: Vec::new(),
            results: Vec::new(),
        };
        let i = r.first(params.target);
        r.frames.push(Frame { target: params.target, i });
        proof {
            assert(r.values.len() <= usize::MAX);
            assert(r@.ctx.map.map_values(|e: (u64, u64)| e.0) =~= r.values@);
            assert(r@.results =~= Seq::<PathView>::empty());
            assert(r@.frames =~= search_start(r@.ctx).frames);
        }
        r
    }

    fn first(&self, target: u64) -> (r: usize)
        requires
            rising(self.values@),
            self.values@.len() == self.holders@.len(),
        ensures
            r == self@.ctx.first_place(target, 0),
            r <= self.values@.len(),
    {
        let lo = if target >= self.params.max_offset {
            target - self.params.max_offset
        } else {
            0
        };
        let r = count_below(&self.values, lo);
        proof {
            lemma_first_place(self@.ctx, target, r as int, 0);
        }
        r
    }

    /// Tells whether the search is over.
    pub fn is_over(&self) -> (r: bool)
        ensures
            r == self@.over(),
    {
        self.frames.len() == 0 || self.results.len() >= self.params.max_results
    }

    fn step(&mut self)
        requires
            old(self).wf(),
        ensures
            final(self)@ == old(self)@.stepped(),
            final(self).wf(),
            final(self).values@ == old(self).values@,
    {
        if self.is_over() {
            return;
        }
        let ghost start = self@;
        let top = self.frames[self.frames.len() - 1];
        assert(top == start.frames.last());
        self.frames.pop();
        if top.i >= self.values.len() || self.values[top.i] > top.target {
            if self.offsets.len() > 0 {
                self.offsets.pop();
            }
            assert(self@.frames =~= start.stepped().frames);
            assert(self@.offsets =~= start.stepped().offsets);
            assert(self@ == start.stepped());
            return;
        }
        let val = self.values[top.i];
        let addr = self.holders[top.i];
        assert(start.ctx.map[top.i as int] == (val, addr));
        let off = top.target - val;
        self.frames.push(Frame { target: top.target, i: top.i + 1 });
        let found = match self.modules.module_of(addr) {
            Some((name, base)) => Some((name.to_owned(), base)),
            None => None,
        };
        match found {
            Some((name, base)) => {
                self.offsets.push(off);
                let offsets = reversed(&self.offsets);
                self.offsets.pop();
                assert(self.offsets@ =~= start.offsets);
                let path = PtrPath { module: name, base_offset: addr - base, offsets };
                let ghost before = self.results@;
                self.results.push(path);
                proof {
                    assert(path_views(self.results@) =~= path_views(before).push(path@));
                    assert(self@.frames =~= start.stepped().frames);
                    assert(self@ == start.stepped());
                }
            },
            None => {
                if self.offsets.len() < self.params.max_depth && self.offsets.len() + 1
                    < self.params.max_depth {
                    self.offsets.push(off);
                    let i = self.first(addr);
                    self.frames.push(Frame { target: addr, i });
                }
                assert(self@.frames =~= start.stepped().frames);
                assert(self@.offsets =~= start.stepped().offsets);
                assert(self@ == start.stepped());
            },
        }
    }
}

proof fn lemma_first_place(ctx: SearchCtx, target: u64, r: int, i: int)
    requires
        0 <= i <= r <= ctx.map.len(),
        forall|k: int|
            0 <= k < r ==> (#[trigger] ctx.map[k]).0 + ctx.params.max_offset < target,
        forall|k: int|
            r <= k < ctx.map.len() ==> (#[trigger] ctx.map[k]).0 + ctx.params.max_offset >= target,
    ensures
        ctx.first_place(target, i) == r,
    decreases r - i,
{
    if i < r {
        assert(ctx.map[i].0 + ctx.params.max_offset < target);
        lemma_first_place(ctx, target, r, i + 1);
    } else if r < ctx.map.len() {
        assert(ctx.map[r].0 + ctx.params.max_offset >= target);
    }
}

/// Looks at up to `fuel` pointers more, unless the search is stopped, and reports how much was
/// found.
pub fn search_rec(search: &mut PtrSearch, fuel: usize, progress: &mut ScanProgress)
    requires
        old(search).wf(),
    ensures
        final(search).wf(),
        final(search)@ == (if old(progress).cancel {
            old(search)@
        } else {
            steps(old(search)@, fuel as nat)
        }),
        *final(progress) == (ScanProgress {
            matches: if final(search)@.results.len() > old(search)@.results.len() {
                final(search)@.results.len() as usize
            } else {
                old(progress).matches
            },
            ..*old(progress)
        }),
{
    if progress.cancel {
        return;
    }
    let had = search.results.len();
    let mut n: usize = fuel;
    while n > 0
        invariant
            search.wf(),
            steps(search@, n as nat) == steps(old(search)@, fuel as nat),
            had == old(search)@.results.len(),
            search@.results.len() >= had,
        decreases n,
    {
        search.step();
        n -= 1;
    }
    if search.results.len() > had {
        progress.matches = search.results.len();
    }
}

// ---------------------------------------------------------------------------
// Following a chain
// ---------------------------------------------------------------------------

/// What following the offsets of a chain from the value `val` leads to; nothing where a pointer
/// cannot be read.
pub open spec fn follow(
    memory: spec_fn(u64) -> Option<u64>,
    val: u64,
    offsets: Seq<u64>,
) -> Option<u64>
    decreases offsets.len(),
{
    if offsets.len() == 0 {
        None
    } else if offsets.len() == 1 {
        Some(val.wrapping_add(offsets[0]))
    } else {
        match memory(val.wrapping_add(offsets[0])) {
            Some(v) => follow(memory, v, offsets.skip(1)),
            None => None,
        }
    }
}

/// The address that a chain leads to, in a process where its module lies at `module_base`.
pub open spec fn resolved(
    memory: spec_fn(u64) -> Option<u64>,
    module_base: u64,
    path: PathView,
) -> Option<u64> {
    if path.offsets.len() == 0 {
        None
    } else {
        match memory(module_base.wrapping_add(path.base_offset)) {
            Some(v) => follow(memory, v, path.offsets),
            None => None,
        }
    }
}

/// What following a chain does next: read a pointer, or end.
#[derive(Clone, Copy, PartialEq, Eq, Structural, Debug)]
pub enum ResolveStep {
    Read(u64),
    Done(Option<u64>),
}

/// The state of following a chain.
pub struct ResolveView {
    /// The offsets that are still to be added.
    pub rest: Seq<u64>,
    pub step: ResolveStep,
}

impl ResolveView {
    /// The state after a pointer was read, or could not be.
    pub open spec fn supplied(self, value: Option<u64>) -> ResolveView {
        match value {
            None => ResolveView { step: ResolveStep::Done(None), ..self },
            Some(v) => {
                let a = v.wrapping_add(self.rest[0]);
                ResolveView {
                    rest: self.rest.skip(1),
                    step: if self.rest.len() == 1 {
                        ResolveStep::Done(Some(a))
                    } else {
                        ResolveStep::Read(a)
                    },
                }
            },
        }
    }

    /// There is an offset to add to every pointer that is read.
    pub open spec fn wf(self) -> bool {
        self.step is Read ==> self.rest.len() > 0
    }
}

/// Following a chain.
pub struct ResolveJob {
    pub offsets: Vec<u64>,
    pub k: usize,
    pub step: ResolveStep,
}

impl View for ResolveJob {
    type V = ResolveView;

    open spec fn view(&self) -> ResolveView {
        ResolveView { rest: self.offsets@.skip(self.k as int), step: self.step }
    }
}

/// The start of following a chain.
pub open spec fn resolve_start(module_base: u64, path: PathView) -> ResolveView {
    ResolveView {
        rest: path.offsets,
        step: if path.offsets.len() == 0 {
            ResolveStep::Done(None)
        } else {
            ResolveStep::Read(module_base.wrapping_add(path.base_offset))
        },
    }
}

/// Follows a chain in a process where its module lies at `module_base`.
pub fn resolve(module_base: u64, path: &PtrPath) -> (r: ResolveJob)
    ensures
        r@ == resolve_start(module_base, path@),
        r@.wf(),
        r.k <= r.offsets@.len(),
{
    let offsets = path.offsets.clone();
    let step = if offsets.len() == 0 {
        ResolveStep::Done(None)
    } else {
        ResolveStep::Read(module_base.wrapping_add(path.base_offset))
    };
    let r = ResolveJob { offsets, k: 0, step };
    assert(r@.rest =~= path@.offsets);
    r
}

impl ResolveJob {
    /// Takes the pointer that was asked for, or that it could not be read.
    pub fn supply(&mut self, value: Option<u64>)
        requires
            old(self)@.wf(),
            old(self).k <= old(self).offsets@.len(),
            old(self)@.step is Read,
        ensures
            final(self)@ == old(self)@.supplied(value),
            final(self)@.wf(),
            final(self).k <= final(self).offsets@.len(),
    {
        match value {
            None => {
                self.step = ResolveStep::Done(None);
            },
            Some(v) => {
                assert(self@.rest[0] == self.offsets@[self.k as int]);
                assert(self.k < self.offsets.len());
                let a = v.wrapping_add(self.offsets[self.k]);
                self.k += 1;
                assert(self@.rest =~= old(self)@.rest.skip(1));
                self.step = if self.k == self.offsets.len() {
                    ResolveStep::Done(Some(a))
                } else {
                    ResolveStep::Read(a)
                };
            },
        }
    }
}

/// What following a chain comes to, given what each address holds.
pub open spec fn resolve_run(v: ResolveView, memory: spec_fn(u64) -> Option<u64>) -> Option<u64>
    decreases v.rest.len(), v.step is Read as int,
{
    match v.step {
        ResolveStep::Done(r) => r,
        ResolveStep::Read(a) => if v.rest.len() == 0 {
            None
        } else {
            resolve_run(v.supplied(memory(a)), memory)
        },
    }
}

proof fn lemma_resolve_run(v: ResolveView, val: u64, memory: spec_fn(u64) -> Option<u64>)
    requires
        v.step is Read,
        v.rest.len() > 0,
        memory(v.step->Read_0) == Some(val),
    ensures
        resolve_run(v, memory) == follow(memory, val, v.rest),
    decreases v.rest.len(),
{
    let w = v.supplied(Some(val));
    if v.rest.len() > 1 {
        let a = val.wrapping_add(v.rest[0]);
        match memory(a) {
            Some(val2) => {
                lemma_resolve_run(w, val2, memory);
            },
            None => {
                assert(resolve_run(w.supplied(memory(a)), memory) is None);
                assert(resolve_run(w, memory) is None);
            },
        }
    }
}

/// Following a chain step by step leads to the address that the chain stands for.
pub proof fn law_resolve_follows_chain(
    module_base: u64,
    path: PathView,
    memory: spec_fn(u64) -> Option<u64>,
)
    ensures
        resolve_run(resolve_start(module_base, path), memory) == resolved(
            memory,
            module_base,
            path,
        ),
{
    let v = resolve_start(module_base, path);
    if path.offsets.len() > 0 {
        match memory(module_base.wrapping_add(path.base_offset)) {
            Some(val) => {
                lemma_resolve_run(v, val, memory);
            },
            None => {
                assert(v.supplied(None).step == ResolveStep::Done(None));
                assert(resolve_run(v.supplied(None), memory) is None);
            },
        }
    }
}

// ---------------------------------------------------------------------------
// Laws of the search
// ---------------------------------------------------------------------------

/// What a search still has to find.
pub open spec fn remaining(ctx: SearchCtx, frames: Seq<Frame>, offsets: Seq<u64>) -> Seq<PathView>
    decreases frames.len(),
{
    if frames.len() == 0 {
        Seq::empty()
    } else {
        ctx.paths(frames.last().target, offsets, frames.last().i as int) + remaining(
            ctx,
            frames.drop_last(),
            offsets.drop_last(),
        )
    }
}

/// Each place of the search lies behind the pointers that are too far away.
pub open spec fn on_track(v: SearchView) -> bool {
    forall|k: int|
        0 <= k < v.frames.len() ==> (#[trigger] v.frames[k]).i >= v.ctx.first_place(
            v.frames[k].target,
            0,
        )
}

proof fn lemma_first_bounds(ctx: SearchCtx, target: u64, i: int)
    requires
        0 <= i <= ctx.map.len(),
    ensures
        i <= ctx.first_place(target, i) <= ctx.map.len(),
        ctx.first_place(target, i) < ctx.map.len() ==> ctx.map[ctx.first_place(target, i)].0
            + ctx.params.max_offset >= target,
    decreases ctx.map.len() - i,
{
    if i < ctx.map.len() && ctx.map[i].0 + ctx.params.max_offset < target {
        lemma_first_bounds(ctx, target, i + 1);
    }
}

proof fn lemma_skip_far(ctx: SearchCtx, target: u64, offsets: Seq<u64>, i: int)
    requires
        0 <= i <= ctx.map.len(),
    ensures
        ctx.paths(target, offsets, i) == ctx.paths(target, offsets, ctx.first_place(target, i)),
    decreases ctx.map.len() - i,
{
    if i < ctx.map.len() && ctx.map[i].0 + ctx.params.max_offset < target {
        lemma_skip_far(ctx, target, offsets, i + 1);
        assert(ctx.paths(target, offsets, i) =~= ctx.paths(target, offsets, i + 1));
    }
}

proof fn lemma_past_target(ctx: SearchCtx, target: u64, offsets: Seq<u64>, i: int)
    requires
        0 <= i,
        ctx.sorted(),
        i < ctx.map.len() ==> ctx.map[i].0 > target,
    ensures
        ctx.paths(target, offsets, i).len() == 0,
    decreases ctx.map.len() - i,
{
    if i < ctx.map.len() {
        let keys = ctx.map.map_values(|e: (u64, u64)| e.0);
        if i + 1 < ctx.map.len() {
            assert(keys[i] <= keys[i + 1]);
        }
        lemma_past_target(ctx, target, offsets, i + 1);
    }
}

/// A step of the search neither loses a chain nor invents one: what is found and what is still to
/// be found stay the same together.
pub proof fn law_step_conserves(v: SearchView)
    requires
        v.wf(),
        on_track(v),
        !v.over(),
    ensures
        v.stepped().wf(),
        on_track(v.stepped()),
        v.stepped().ctx == v.ctx,
        v.stepped().results + remaining(v.ctx, v.stepped().frames, v.stepped().offsets)
            == v.results + remaining(v.ctx, v.frames, v.offsets),
{
    let ctx = v.ctx;
    let top = v.frames.last();
    let i = top.i as int;
    let w = v.stepped();
    let below = remaining(ctx, v.frames.drop_last(), v.offsets.drop_last());
    let all = ctx.paths(top.target, v.offsets, i);
    assert(remaining(ctx, v.frames, v.offsets) == all + below);
    assert(v.frames[v.frames.len() - 1] == top);
    if i >= ctx.map.len() || ctx.map[i].0 > top.target {
        lemma_past_target(ctx, top.target, v.offsets, i);
        assert(all + below =~= below);
        if v.offsets.len() == 0 {
            assert(w.frames.len() == 0);
        }
        assert(remaining(ctx, w.frames, w.offsets) =~= below);
    } else {
        let (val, addr) = ctx.map[i];
        let offs = v.offsets.push((top.target - val) as u64);
        let first = ctx.first_place(top.target, 0);
        lemma_first_bounds(ctx, top.target, 0);
        let keys = ctx.map.map_values(|e: (u64, u64)| e.0);
        assert(keys[first] <= keys[i]);
        assert(ctx.reaches(val, top.target));
        let tail = ctx.paths(top.target, v.offsets, i + 1);
        let rest = v.frames.drop_last().push(Frame { target: top.target, i: (i + 1) as usize });
        assert(rest.drop_last() =~= v.frames.drop_last());
        assert(remaining(ctx, rest, v.offsets) == tail + below);
        match ctx.mods.module_at(addr) {
            Some((name, base)) => {
                let path = chain_of(name, base, addr, offs);
                assert(all == seq![path] + tail);
                assert(w.results + (tail + below) =~= v.results + (seq![path] + tail + below));
            },
            None => {
                if offs.len() < ctx.params.max_depth {
                    lemma_first_bounds(ctx, addr, 0);
                    lemma_skip_far(ctx, addr, offs, 0);
                    assert(w.frames.drop_last() =~= rest);
                    assert(offs.drop_last() =~= v.offsets);
                    assert(all == ctx.paths(addr, offs, 0) + tail);
                    assert(remaining(ctx, w.frames, w.offsets) =~= all + below);
                } else {
                    assert(all =~= tail);
                }
            },
        }
    }
}

proof fn lemma_steps(v: SearchView, n: nat)
    requires
        v.wf(),
        on_track(v),
    ensures
        ({
            let w = steps(v, n);
            &&& w.wf()
            &&& on_track(w)
            &&& w.ctx == v.ctx
            &&& w.results + remaining(v.ctx, w.frames, w.offsets) == v.results + remaining(
                v.ctx,
                v.frames,
                v.offsets,
            )
        }),
    decreases n,
{
    if n > 0 {
        if !v.over() {
            law_step_conserves(v);
        }
        lemma_steps(v.stepped(), (n - 1) as nat);
    }
}

proof fn lemma_start(ctx: SearchCtx)
    requires
        ctx.sorted(),
        ctx.map.len() <= usize::MAX,
    ensures
        search_start(ctx).wf(),
        on_track(search_start(ctx)),
        remaining(ctx, search_start(ctx).frames, search_start(ctx).offsets) == ctx.all_paths(),
{
    let v = search_start(ctx);
    lemma_first_bounds(ctx, ctx.params.target, 0);
    lemma_skip_far(ctx, ctx.params.target, Seq::empty(), 0);
    assert(remaining(ctx, v.frames.drop_last(), v.offsets.drop_last()).len() == 0);
    assert(v.offsets =~= Seq::<u64>::empty());
    assert(remaining(ctx, v.frames, v.offsets) =~= ctx.all_paths());
}

/// A search that is over has found all chains, in their order, up to the number asked for.
pub proof fn law_search_finds_all(ctx: SearchCtx, n: nat)
    requires
        ctx.sorted(),
        ctx.map.len() <= usize::MAX,
        steps(search_start(ctx), n).over(),
    ensures
        steps(search_start(ctx), n).results == at_most(
            ctx.all_paths(),
            ctx.params.max_results as int,
        ),
{
    let v = search_start(ctx);
    let w = steps(v, n);
    lemma_start(ctx);
    lemma_steps(v, n);
    let rest = remaining(ctx, w.frames, w.offsets);
    assert(v.results + ctx.all_paths() =~= ctx.all_paths());
    assert(w.results + rest == ctx.all_paths());
    assert(w.results =~= at_most(w.results + rest, ctx.params.max_results as int));
}

/// How many steps looking for pointers to `target` takes from place `i` on.
pub open spec fn work(ctx: SearchCtx, target: u64, depth: int, i: int) -> nat
    decreases ctx.params.max_depth - depth, ctx.map.len() - i,
{
    if i >= ctx.map.len() || ctx.map[i].0 > target {
        1
    } else {
        let addr = ctx.map[i].1;
        1 + (if ctx.mods.module_at(addr) is None && depth + 1 < ctx.params.max_depth {
            work(ctx, addr, depth + 1, ctx.first_place(addr, 0))
        } else {
            0
        }) + work(ctx, target, depth, i + 1)
    }
}

/// How many steps a search takes until all is looked at.
pub open spec fn work_left(ctx: SearchCtx, frames: Seq<Frame>) -> nat
    decreases frames.len(),
{
    if frames.len() == 0 {
        0
    } else {
        work(ctx, frames.last().target, frames.len() - 1, frames.last().i as int) + work_left(
            ctx,
            frames.drop_last(),
        )
    }
}

/// A search ends: each step leaves less to do.
pub proof fn law_search_ends(v: SearchView, n: nat)
    requires
        v.wf(),
        on_track(v),
        n >= work_left(v.ctx, v.frames),
    ensures
        steps(v, n).over(),
    decreases n,
{
    if v.over() {
        lemma_stays_over(v, n);
    } else {
        let ctx = v.ctx;
        let top = v.frames.last();
        let i = top.i as int;
        let w = v.stepped();
        law_step_conserves(v);
        if !(i >= ctx.map.len() || ctx.map[i].0 > top.target) {
            let (val, addr) = ctx.map[i];
            let rest = v.frames.drop_last().push(
                Frame { target: top.target, i: (i + 1) as usize },
            );
            assert(rest.drop_last() =~= v.frames.drop_last());
            lemma_first_bounds(ctx, addr, 0);
            let depth = v.frames.len() - 1;
            assert(work_left(ctx, rest) == work(ctx, top.target, depth, i + 1) + work_left(
                ctx,
                v.frames.drop_last(),
            ));
            if ctx.mods.module_at(addr) is None && v.offsets.len() + 1 < ctx.params.max_depth {
                assert(w.frames.drop_last() =~= rest);
                assert(work_left(ctx, w.frames) == work(
                    ctx,
                    addr,
                    depth + 1,
                    ctx.first_place(addr, 0),
                ) + work_left(ctx, rest));
            } else {
                assert(w.frames =~= rest);
            }
        }
        assert(work_left(ctx, w.frames) < work_left(ctx, v.frames));
        law_search_ends(w, (n - 1) as nat);
    }
}

proof fn lemma_stays_over(v: SearchView, n: nat)
    requires
        v.over(),
    ensures
        steps(v, n) == v,
    decreases n,
{
    if n > 0 {
        lemma_stays_over(v.stepped(), (n - 1) as nat);
    }
}

/// Each pointer of the map is what memory holds.
pub open spec fn truthful(map: Seq<(u64, u64)>, memory: spec_fn(u64) -> Option<u64>) -> bool {
    forall|i: int| 0 <= i < map.len() ==> memory((#[trigger] map[i]).1) == Some(map[i].0)
}

/// A chain leads to an address, from the module that it names.
pub open spec fn leads_to(
    mods: RangesView,
    memory: spec_fn(u64) -> Option<u64>,
    path: PathView,
    target: u64,
) -> bool {
    exists|m: int|
        0 <= m < mods.spans.len() && path.module == mods.names[m] && resolved(
            memory,
            (#[trigger] mods.spans[m]).base,
            path,
        ) == Some(target)
}

proof fn lemma_paths_lead(
    ctx: SearchCtx,
    memory: spec_fn(u64) -> Option<u64>,
    goal: u64,
    target: u64,
    offsets: Seq<u64>,
    i: int,
)
    requires
        0 <= i,
        truthful(ctx.map, memory),
        forall|v: u64|
            v <= target ==> #[trigger] follow(
                memory,
                v,
                seq![(target - v) as u64] + offsets.reverse(),
            ) == Some(goal),
    ensures
        forall|k: int|
            0 <= k < ctx.paths(target, offsets, i).len() ==> leads_to(
                ctx.mods,
                memory,
                #[trigger] ctx.paths(target, offsets, i)[k],
                goal,
            ),
    decreases ctx.params.max_depth - offsets.len(), ctx.map.len() - i,
{
    if i < ctx.map.len() {
        lemma_paths_lead(ctx, memory, goal, target, offsets, i + 1);
        let (val, addr) = ctx.map[i];
        let off = (target - val) as u64;
        let offs = offsets.push(off);
        let tail = ctx.paths(target, offsets, i + 1);
        if ctx.reaches(val, target) {
            assert(memory(addr) == Some(val));
            assert(offs.reverse() =~= seq![off] + offsets.reverse());
            assert(follow(memory, val, seq![off] + offsets.reverse()) == Some(goal));
            match span_at(ctx.mods.spans, addr) {
                Some(m) => {
                    lemma_last_up_to_is_last(bases(ctx.mods.spans), addr);
                    let base = ctx.mods.spans[m].base;
                    assert(bases(ctx.mods.spans)[m] == base);
                    let path = chain_of(ctx.mods.names[m], base, addr, offs);
                    assert(base.wrapping_add(path.base_offset) == addr);
                    assert(resolved(memory, base, path) == Some(goal));
                    assert(leads_to(ctx.mods, memory, path, goal));
                    assert forall|k: int|
                        0 <= k < ctx.paths(target, offsets, i).len() implies leads_to(
                        ctx.mods,
                        memory,
                        #[trigger] ctx.paths(target, offsets, i)[k],
                        goal,
                    ) by {
                        if k > 0 {
                            assert(ctx.paths(target, offsets, i)[k] == tail[k - 1]);
                        }
                    }
                },
                None => {
                    let here = if offs.len() < ctx.params.max_depth {
                        ctx.paths(addr, offs, 0)
                    } else {
                        Seq::empty()
                    };
                    if offs.len() < ctx.params.max_depth {
                        assert forall|v: u64| v <= addr implies #[trigger] follow(
                            memory,
                            v,
                            seq![(addr - v) as u64] + offs.reverse(),
                        ) == Some(goal) by {
                            let s = seq![(addr - v) as u64] + offs.reverse();
                            assert(v.wrapping_add(s[0]) == addr);
                            assert(s.skip(1) =~= offs.reverse());
                        }
                        lemma_paths_lead(ctx, memory, goal, addr, offs, 0);
                    }
                    assert forall|k: int|
                        0 <= k < ctx.paths(target, offsets, i).len() implies leads_to(
                        ctx.mods,
                        memory,
                        #[trigger] ctx.paths(target, offsets, i)[k],
                        goal,
                    ) by {
                        assert(ctx.paths(target, offsets, i) == here + tail);
                        if k < here.len() {
                            assert((here + tail)[k] == here[k]);
                        } else {
                            assert((here + tail)[k] == tail[k - here.len()]);
                        }
                    }
                },
            }
        } else {
            assert(ctx.paths(target, offsets, i) =~= tail);
        }
    }
}

/// Every chain that is found leads to the target, as long as memory stays as it was when the
/// pointers were collected.
pub proof fn law_found_chains_lead_to_target(
    ctx: SearchCtx,
    memory: spec_fn(u64) -> Option<u64>,
    k: int,
)
    requires
        truthful(ctx.map, memory),
        0 <= k < ctx.all_paths().len(),
    ensures
        leads_to(ctx.mods, memory, ctx.all_paths()[k], ctx.params.target),
{
    let goal = ctx.params.target;
    let none = Seq::<u64>::empty();
    assert forall|v: u64| v <= goal implies #[trigger] follow(
        memory,
        v,
        seq![(goal - v) as u64] + none.reverse(),
    ) == Some(goal) by {
        let s = seq![(goal - v) as u64] + none.reverse();
        assert(s.len() == 1);
        assert(v.wrapping_add(s[0]) == goal);
    }
    lemma_paths_lead(ctx, memory, goal, goal, none, 0);
}

proof fn lemma_paths_bounded(ctx: SearchCtx, target: u64, offsets: Seq<u64>, i: int)
    requires
        0 <= i,
        offsets.len() == 0 || offsets.len() < ctx.params.max_depth,
        forall|x: int| 0 <= x < offsets.len() ==> #[trigger] offsets[x] <= ctx.params.max_offset,
    ensures
        forall|k: int|
            #![trigger ctx.paths(target, offsets, i)[k]]
            0 <= k < ctx.paths(target, offsets, i).len() ==> within(
                ctx.params,
                ctx.paths(target, offsets, i)[k],
            ),
    decreases ctx.params.max_depth - offsets.len(), ctx.map.len() - i,
{
    if i < ctx.map.len() {
        lemma_paths_bounded(ctx, target, offsets, i + 1);
        let (val, addr) = ctx.map[i];
        let offs = offsets.push((target - val) as u64);
        let tail = ctx.paths(target, offsets, i + 1);
        let all = ctx.paths(target, offsets, i);
        if ctx.reaches(val, target) {
            let here = match ctx.mods.module_at(addr) {
                Some((name, base)) => {
                    let path = chain_of(name, base, addr, offs);
                    assert(within(ctx.params, path)) by {
                        assert forall|x: int|
                            0 <= x < path.offsets.len() implies #[trigger] path.offsets[x]
                            <= ctx.params.max_offset by {
                            assert(path.offsets[x] == offs[offs.len() - 1 - x]);
                        }
                    }
                    seq![path]
                },
                None => {
                    if offs.len() < ctx.params.max_depth {
                        lemma_paths_bounded(ctx, addr, offs, 0);
                        ctx.paths(addr, offs, 0)
                    } else {
                        Seq::empty()
                    }
                },
            };
            assert(all == here + tail);
            assert forall|k: int| #![trigger all[k]] 0 <= k < all.len() implies within(
                ctx.params,
                all[k],
            ) by {
                if k < here.len() {
                    assert((here + tail)[k] == here[k]);
                } else {
                    assert((here + tail)[k] == tail[k - here.len()]);
                }
            }
        } else {
            assert(all =~= tail);
        }
    }
}

/// A chain has at least one offset, no more than allowed, and none too large.
pub open spec fn within(params: PtrScanParams, path: PathView) -> bool {
    &&& 1 <= path.offsets.len()
    &&& path.offsets.len() <= params.max_depth || path.offsets.len() == 1
    &&& forall|x: int|
        0 <= x < path.offsets.len() ==> #[trigger] path.offsets[x] <= params.max_offset
}

/// Every chain that is found keeps to the depth and the offsets that were asked for.
pub proof fn law_found_chains_are_within(ctx: SearchCtx, k: int)
    requires
        0 <= k < ctx.all_paths().len(),
    ensures
        within(ctx.params, ctx.all_paths()[k]),
{
    lemma_paths_bounded(ctx, ctx.params.target, Seq::empty(), 0);
}

/// The pointers that are collected from a region are what the region holds.
pub proof fn law_collected_pointers_are_held(
    base: u64,
    data: Seq<u8>,
    step: int,
    spans: Seq<Span>,
    n: int,
)
    requires
        step >= 1,
        base + data.len() <= u64::MAX,
        0 <= n <= places(data.len() as int, step),
    ensures
        forall|k: int|
            0 <= k < pointers_in(base, data, step, spans, n).len() ==> {
                let (v, a) = #[trigger] pointers_in(base, data, step, spans, n)[k];
                &&& base <= a
                &&& a + 8 <= base + data.len()
                &&& v == number_at(data, a - base)
                &&& v != 0
                &&& span_at(spans, v) is Some
            },
    decreases n,
{
    if n > 0 {
        law_collected_pointers_are_held(base, data, step, spans, n - 1);
        let off = (n - 1) * step;
        let q = (data.len() - 8) / step;
        vstd::arithmetic::div_mod::lemma_fundamental_div_mod(data.len() - 8, step);
        assert(0 <= off && off <= step * q) by (nonlinear_arith)
            requires
                off == (n - 1) * step,
                1 <= n <= q + 1,
                step >= 1,
        ;
    }
}


/// The number that stands little-endian in the eight bytes from `off` on.
pub open spec fn word_at(data: Seq<u8>, off: int) -> int {
    data[off] + 0x100 * data[off + 1] + 0x1_0000 * data[off + 2] + 0x100_0000 * data[off + 3]
        + 0x1_0000_0000 * data[off + 4] + 0x100_0000_0000 * data[off + 5] + 0x1_0000_0000_0000
        * data[off + 6] + 0x100_0000_0000_0000 * data[off + 7]
}

/// An address lies in one of the regions.
pub open spec fn lies_in(regions: Seq<Region>, addr: int) -> bool {
    exists|k: int|
        0 <= k < regions.len() && (#[trigger] regions[k]).base <= addr < regions[k].base
            + regions[k].size
}

/// The number at the distance `off` from the start of a region is a pointer: it stands at a multiple
/// of the alignment, is not zero, and is the address of memory that the process has.
pub open spec fn is_pointer(regions: Seq<Region>, alignment: usize, data: Seq<u8>, off: int) -> bool {
    &&& 0 <= off
    &&& off + 8 <= data.len()
    &&& alignment > 0 ==> off % alignment as int == 0
    &&& word_at(data, off) != 0
    &&& lies_in(regions, word_at(data, off))
}

proof fn lemma_word_at(data: Seq<u8>, off: int)
    requires
        0 <= off,
        off + 8 <= data.len(),
    ensures
        le_nat(data.subrange(off, off + 8)) == word_at(data, off),
        0 <= word_at(data, off) <= u64::MAX,
        number_at(data, off) == word_at(data, off),
{
    let s = data.subrange(off, off + 8);
    let t1 = s.skip(1);
    let t2 = t1.skip(1);
    let t3 = t2.skip(1);
    let t4 = t3.skip(1);
    let t5 = t4.skip(1);
    let t6 = t5.skip(1);
    let t7 = t6.skip(1);
    let t8 = t7.skip(1);
    assert(t8.len() == 0);
    assert(le_nat(t8) == 0);
    assert(t7[0] == data[off + 7]);
    assert(le_nat(t7) == t7[0] as nat + 256 * le_nat(t8));
    assert(t6[0] == data[off + 6]);
    assert(le_nat(t6) == t6[0] as nat + 256 * le_nat(t7));
    assert(t5[0] == data[off + 5]);
    assert(le_nat(t5) == t5[0] as nat + 256 * le_nat(t6));
    assert(t4[0] == data[off + 4]);
    assert(le_nat(t4) == t4[0] as nat + 256 * le_nat(t5));
    assert(t3[0] == data[off + 3]);
    assert(le_nat(t3) == t3[0] as nat + 256 * le_nat(t4));
    assert(t2[0] == data[off + 2]);
    assert(le_nat(t2) == t2[0] as nat + 256 * le_nat(t3));
    assert(t1[0] == data[off + 1]);
    assert(le_nat(t1) == t1[0] as nat + 256 * le_nat(t2));
    assert(s[0] == data[off]);
    assert(le_nat(s) == s[0] as nat + 256 * le_nat(t1));
}

proof fn lemma_in_spans(regions: Seq<Region>, spans: Seq<Span>, o: Seq<usize>, addr: u64)
    requires
        all_fit(regions),
        arranged(region_spans(regions), spans, o),
        disjoint(region_spans(regions)),
        regions.len() <= usize::MAX,
    ensures
        span_at(spans, addr) is Some <==> lies_in(regions, addr as int),
{
    let given = region_spans(regions);
    law_lookup_is_membership(given, spans, o, addr);
    if lies_in(regions, addr as int) {
        let k = choose|k: int|
            0 <= k < regions.len() && (#[trigger] regions[k]).base <= addr < regions[k].base
                + regions[k].size;
        assert(regions[k].fits());
        assert(given[k].base <= addr < given[k].end);
    }
    if span_at(spans, addr) is Some {
        let k = choose|k: int|
            0 <= k < given.len() && (#[trigger] given[k]).base <= addr < given[k].end;
        assert(regions[k].fits());
        assert(regions[k].base <= addr < regions[k].base + regions[k].size);
    }
}

proof fn lemma_pointers_in(base: u64, data: Seq<u8>, step: int, spans: Seq<Span>, n: int)
    requires
        step >= 1,
        base + data.len() <= u64::MAX,
        0 <= n <= places(data.len() as int, step),
    ensures
        forall|k: int|
            0 <= k < pointers_in(base, data, step, spans, n).len() ==> {
                let a = (#[trigger] pointers_in(base, data, step, spans, n)[k]).1;
                base <= a && (a - base) % step == 0 && a - base <= (n - 1) * step
            },
        forall|i: int, j: int|
            0 <= i < j < pointers_in(base, data, step, spans, n).len() ==> (
            #[trigger] pointers_in(base, data, step, spans, n)[i]).1 < (
            #[trigger] pointers_in(base, data, step, spans, n)[j]).1,
        forall|q: int|
            #![trigger number_at(data, q * step)]
            0 <= q < n && number_at(data, q * step) != 0 && span_at(
                spans,
                number_at(data, q * step),
            ) is Some ==> pointers_in(base, data, step, spans, n).contains(
                (number_at(data, q * step), (base + q * step) as u64),
            ),
    decreases n,
{
    if n > 0 {
        lemma_pointers_in(base, data, step, spans, n - 1);
        let rest = pointers_in(base, data, step, spans, n - 1);
        let all = pointers_in(base, data, step, spans, n);
        let off = (n - 1) * step;
        vstd::arithmetic::div_mod::lemma_fundamental_div_mod(data.len() - 8, step);
        let q = (data.len() - 8) / step;
        assert(0 <= off && off <= step * q) by (nonlinear_arith)
            requires
                off == (n - 1) * step,
                1 <= n <= q + 1,
                step >= 1,
        ;
        vstd::arithmetic::div_mod::lemma_mod_multiples_basic(n - 1, step);
        assert((n - 2) * step < off) by (nonlinear_arith)
            requires
                off == (n - 1) * step,
                step >= 1,
        ;
        let v = number_at(data, off);
        if v != 0 && span_at(spans, v) is Some {
            assert(all == rest.push((v, (base + off) as u64)));
            assert(all[rest.len() as int] == (v, (base + off) as u64));
        }
        assert forall|x: int|
            #![trigger number_at(data, x * step)]
            0 <= x < n && number_at(data, x * step) != 0 && span_at(
                spans,
                number_at(data, x * step),
            ) is Some implies all.contains((number_at(data, x * step), (base + x * step) as u64)) by {
            if x < n - 1 {
                let e = (number_at(data, x * step), (base + x * step) as u64);
                let k = choose|k: int| 0 <= k < rest.len() && rest[k] == e;
                assert(all[k] == e);
            } else {
                assert(x * step == off);
            }
        }
    }
}

/// Reading a region in full adds every pointer in it to what is collected, with its address, and
/// nothing else: what is added are the pairs of a number that is not zero and lies in the memory of
/// the process, and of an address of that number at a multiple of the alignment. They are added in
/// the order of those addresses.
pub proof fn law_every_pointer_is_collected(v: MapView, o: Seq<usize>, data: Seq<u8>)
    requires
        all_fit(v.regions),
        0 <= v.idx < v.regions.len() <= usize::MAX,
        arranged(region_spans(v.regions), v.spans, o),
        disjoint(region_spans(v.regions)),
        data.len() == v.regions[v.idx].size,
    ensures
        ({
            let base = v.regions[v.idx].base;
            let w = v.supplied(Some(data));
            let more = w.entries.skip(v.entries.len() as int);
            &&& w.entries == v.entries + more
            &&& forall|off: int|
                #![trigger word_at(data, off)]
                is_pointer(v.regions, v.alignment, data, off) ==> more.contains(
                    (word_at(data, off) as u64, (base + off) as u64),
                )
            &&& forall|k: int|
                0 <= k < more.len() ==> {
                    let (val, addr) = #[trigger] more[k];
                    &&& is_pointer(v.regions, v.alignment, data, addr - base)
                    &&& val == word_at(data, addr - base)
                }
            &&& forall|i: int, j: int|
                0 <= i < j < more.len() ==> (#[trigger] more[i]).1 < (#[trigger] more[j]).1
            &&& w.idx == v.idx + 1
            &&& w.regions == v.regions
            &&& w.alignment == v.alignment
            &&& w.spans == v.spans
        }),
{
    let base = v.regions[v.idx].base;
    assert(v.regions[v.idx].fits());
    let step = stride(v.alignment);
    let n = places(data.len() as int, step);
    let more = pointers_in(base, data, step, v.spans, n);
    let w = v.supplied(Some(data));
    if data.len() >= 8 {
        vstd::arithmetic::div_mod::lemma_fundamental_div_mod(data.len() - 8, step);
        vstd::arithmetic::div_mod::lemma_div_pos_is_pos(data.len() - 8, step);
    }
    lemma_pointers_in(base, data, step, v.spans, n);
    law_collected_pointers_are_held(base, data, step, v.spans, n);
    assert(w.entries.skip(v.entries.len() as int) =~= more);
    assert forall|off: int|
        #![trigger word_at(data, off)]
        is_pointer(v.regions, v.alignment, data, off) implies more.contains(
        (word_at(data, off) as u64, (base + off) as u64),
    ) by {
        lemma_word_at(data, off);
        lemma_in_spans(v.regions, v.spans, o, word_at(data, off) as u64);
        let q = off / step;
        vstd::arithmetic::div_mod::lemma_fundamental_div_mod(off, step);
        vstd::arithmetic::div_mod::lemma_mod_self_0(1);
        assert(off % step == 0);
        assert(q * step == off) by (nonlinear_arith)
            requires
                off == step * q + off % step,
                off % step == 0,
        ;
        vstd::arithmetic::div_mod::lemma_div_is_ordered(off, data.len() - 8, step);
        vstd::arithmetic::div_mod::lemma_div_pos_is_pos(off, step);
        assert(number_at(data, q * step) == word_at(data, off));
    }
    assert forall|k: int| 0 <= k < more.len() implies {
        let (val, addr) = #[trigger] more[k];
        &&& is_pointer(v.regions, v.alignment, data, addr - base)
        &&& val == word_at(data, addr - base)
    } by {
        let (val, addr) = more[k];
        lemma_word_at(data, addr - base);
        lemma_in_spans(v.regions, v.spans, o, val);
    }
}

/// A region that could not be read in full is passed over.
pub proof fn law_unread_region_is_passed_over(v: MapView)
    ensures
        v.supplied(None) == (MapView { idx: v.idx + 1, ..v }),
{
}

/// The address that the `j`-th of the pointers `links` has to lead to: the next of them, or the
/// target.
pub open spec fn next_address(links: Seq<(u64, u64)>, target: u64, j: int) -> u64 {
    if j + 1 < links.len() {
        links[j + 1].1
    } else {
        target
    }
}

/// Pointers, each given by the address it points to and the address it stands at, lead from a
/// module to the target: each points to the next, or a distance before it that is allowed; the first
/// stands in a module, the others do not; and they are no more than is allowed.
pub open spec fn is_chain(ctx: SearchCtx, links: Seq<(u64, u64)>) -> bool {
    let target = ctx.params.target;
    &&& links.len() == 1 || 1 <= links.len() <= ctx.params.max_depth
    &&& forall|j: int| 0 <= j < links.len() ==> ctx.map.contains(#[trigger] links[j])
    &&& forall|j: int|
        0 <= j < links.len() ==> (#[trigger] links[j]).0 <= next_address(links, target, j)
            <= links[j].0 + ctx.params.max_offset
    &&& ctx.mods.module_at(links[0].1) is Some
    &&& forall|j: int|
        1 <= j < links.len() ==> ctx.mods.module_at((#[trigger] links[j]).1) is None
}

/// The chain that the pointers `links` make.
pub open spec fn path_through(ctx: SearchCtx, links: Seq<(u64, u64)>) -> PathView {
    let (module, base) = ctx.mods.module_at(links[0].1)->0;
    PathView {
        module,
        base_offset: (links[0].1 - base) as u64,
        offsets: Seq::new(
            links.len(),
            |j: int| (next_address(links, ctx.params.target, j) - links[j].0) as u64,
        ),
    }
}

/// The distances behind the last `n` of the pointers, the last of them first.
spec fn distances(links: Seq<(u64, u64)>, target: u64, n: int) -> Seq<u64> {
    Seq::new(
        n as nat,
        |j: int|
            (next_address(links, target, links.len() - 1 - j) - links[links.len() - 1 - j].0) as u64,
    )
}

proof fn lemma_chain_is_found(ctx: SearchCtx, links: Seq<(u64, u64)>, m: int, i: int, x: int)
    requires
        is_chain(ctx, links),
        1 <= m <= links.len(),
        0 <= i <= x < ctx.map.len(),
        ctx.map[x] == links[m - 1],
    ensures
        ctx.paths(
            next_address(links, ctx.params.target, m - 1),
            distances(links, ctx.params.target, links.len() - m),
            i,
        ).contains(path_through(ctx, links)),
    decreases m, x - i,
{
    let goal = ctx.params.target;
    let target = next_address(links, goal, m - 1);
    let offsets = distances(links, goal, links.len() - m);
    let path = path_through(ctx, links);
    let (val, addr) = ctx.map[i];
    let offs = offsets.push((target - val) as u64);
    let here = if !ctx.reaches(val, target) {
        Seq::empty()
    } else {
        match ctx.mods.module_at(addr) {
            Some((name, base)) => seq![chain_of(name, base, addr, offs)],
            None => if offs.len() < ctx.params.max_depth {
                ctx.paths(addr, offs, 0)
            } else {
                Seq::empty()
            },
        }
    };
    let tail = ctx.paths(target, offsets, i + 1);
    let all = ctx.paths(target, offsets, i);
    assert(all == here + tail);
    if i < x {
        lemma_chain_is_found(ctx, links, m, i + 1, x);
        let k = choose|k: int| 0 <= k < tail.len() && tail[k] == path;
        assert(all[here.len() + k] == path);
    } else {
        assert(links[m - 1] == (val, addr));
        assert(ctx.reaches(val, target));
        assert(offs =~= distances(links, goal, links.len() - m + 1));
        if m == 1 {
            let (name, base) = ctx.mods.module_at(addr)->0;
            assert(offs.reverse() =~= path.offsets);
            assert(here[0] == path);
            assert(all[0] == path);
        } else {
            assert(ctx.map.contains(links[m - 2]));
            let y = choose|y: int| 0 <= y < ctx.map.len() && ctx.map[y] == links[m - 2];
            assert(next_address(links, goal, m - 2) == addr);
            lemma_chain_is_found(ctx, links, m - 1, 0, y);
            let k = choose|k: int| 0 <= k < here.len() && here[k] == path;
            assert(all[k] == path);
        }
    }
}

/// No chain is missed: wherever pointers lead from a module to the target, each a distance before
/// the next that is allowed, the chain that they make is among those to be found.
pub proof fn law_no_chain_is_missed(ctx: SearchCtx, links: Seq<(u64, u64)>)
    requires
        is_chain(ctx, links),
    ensures
        ctx.all_paths().contains(path_through(ctx, links)),
{
    let n = links.len() as int;
    assert(ctx.map.contains(links[n - 1]));
    let x = choose|x: int| 0 <= x < ctx.map.len() && ctx.map[x] == links[n - 1];
    lemma_chain_is_found(ctx, links, n, 0, x);
    assert(distances(links, ctx.params.target, 0) =~= Seq::<u64>::empty());
}

/// Pointers that a search has followed backward from the target, without a module among them.
spec fn is_tail(ctx: SearchCtx, links: Seq<(u64, u64)>) -> bool {
    &&& links.len() == 0 || links.len() < ctx.params.max_depth
    &&& forall|j: int| 0 <= j < links.len() ==> ctx.map.contains(#[trigger] links[j])
    &&& forall|j: int|
        0 <= j < links.len() ==> (#[trigger] links[j]).0 <= next_address(
            links,
            ctx.params.target,
            j,
        ) <= links[j].0 + ctx.params.max_offset
    &&& forall|j: int|
        0 <= j < links.len() ==> ctx.mods.module_at((#[trigger] links[j]).1) is None
}

proof fn lemma_found_are_chains(ctx: SearchCtx, links: Seq<(u64, u64)>, i: int, k: int)
    requires
        is_tail(ctx, links),
        0 <= i,
        ({
            let target = next_address(links, ctx.params.target, -1);
            let offsets = distances(links, ctx.params.target, links.len() as int);
            0 <= k < ctx.paths(target, offsets, i).len()
        }),
    ensures
        ({
            let target = next_address(links, ctx.params.target, -1);
            let offsets = distances(links, ctx.params.target, links.len() as int);
            exists|full: Seq<(u64, u64)>| #[trigger]
                is_chain(ctx, full) && ctx.paths(target, offsets, i)[k] == path_through(ctx, full)
        }),
    decreases ctx.params.max_depth - links.len(), ctx.map.len() - i,
{
    let goal = ctx.params.target;
    let target = next_address(links, goal, -1);
    let offsets = distances(links, goal, links.len() as int);
    let (val, addr) = ctx.map[i];
    let offs = offsets.push((target - val) as u64);
    let here = if !ctx.reaches(val, target) {
        Seq::empty()
    } else {
        match ctx.mods.module_at(addr) {
            Some((name, base)) => seq![chain_of(name, base, addr, offs)],
            None => if offs.len() < ctx.params.max_depth {
                ctx.paths(addr, offs, 0)
            } else {
                Seq::empty()
            },
        }
    };
    let tail = ctx.paths(target, offsets, i + 1);
    let all = ctx.paths(target, offsets, i);
    assert(all == here + tail);
    if k >= here.len() {
        assert(all[k] == tail[k - here.len()]);
        lemma_found_are_chains(ctx, links, i + 1, k - here.len());
    } else {
        assert(all[k] == here[k]);
        let more = seq![(val, addr)] + links;
        assert(more.skip(1) =~= links);
        assert forall|j: int| 0 <= j < more.len() implies next_address(more, goal, j)
            == next_address(links, goal, j - 1) by {}
        assert(ctx.map.contains(ctx.map[i]));
        assert forall|j: int| 0 <= j < more.len() implies ctx.map.contains(#[trigger] more[j])
            && more[j].0 <= next_address(more, goal, j) <= more[j].0 + ctx.params.max_offset by {
            if j > 0 {
                assert(more[j] == links[j - 1]);
            }
        }
        assert(offs =~= distances(more, goal, more.len() as int));
        match ctx.mods.module_at(addr) {
            Some((name, base)) => {
                assert forall|j: int| 1 <= j < more.len() implies ctx.mods.module_at(
                    (#[trigger] more[j]).1,
                ) is None by {
                    assert(more[j] == links[j - 1]);
                }
                assert(is_chain(ctx, more));
                assert(offs.reverse() =~= path_through(ctx, more).offsets);
                assert(all[k] == path_through(ctx, more));
            },
            None => {
                assert forall|j: int| 0 <= j < more.len() implies ctx.mods.module_at(
                    (#[trigger] more[j]).1,
                ) is None by {
                    if j > 0 {
                        assert(more[j] == links[j - 1]);
                    }
                }
                assert(is_tail(ctx, more));
                assert(next_address(more, goal, -1) == addr);
                lemma_found_are_chains(ctx, more, 0, k);
            },
        }
    }
}

/// No chain is invented: each that is found is made by pointers that lead from a module to the
/// target.
pub proof fn law_no_chain_is_invented(ctx: SearchCtx, k: int)
    requires
        0 <= k < ctx.all_paths().len(),
    ensures
        exists|links: Seq<(u64, u64)>| #[trigger]
            is_chain(ctx, links) && ctx.all_paths()[k] == path_through(ctx, links),
{
    let none = Seq::<(u64, u64)>::empty();
    assert(distances(none, ctx.params.target, 0) =~= Seq::<u64>::empty());
    assert(is_tail(ctx, none));
    lemma_found_are_chains(ctx, none, 0, k);
}

/// An address is static exactly where it lies in a module, and the chain then begins with the name
/// and the address of that module.
pub proof fn law_static_addresses_lie_in_modules(
    mods: Seq<ModuleInfo>,
    ranges: RangesView,
    o: Seq<usize>,
    addr: u64,
)
    requires
        modules_fit(mods),
        mods.len() <= usize::MAX,
        disjoint(module_spans(mods)),
        arranged(module_spans(mods), ranges.spans, o),
        ranges.names == o.map_values(|k: usize| mods[k as int].name@),
    ensures
        forall|k: int|
            0 <= k < mods.len() && (#[trigger] mods[k]).base <= addr < mods[k].base + mods[k].size
                ==> ranges.module_at(addr) == Some((mods[k].name@, mods[k].base)),
        (forall|k: int|
            0 <= k < mods.len() ==> !((#[trigger] mods[k]).base <= addr < mods[k].base
                + mods[k].size)) ==> ranges.module_at(addr) is None,
{
    let given = module_spans(mods);
    law_lookup_is_membership(given, ranges.spans, o, addr);
    lemma_last_up_to_is_last(bases(ranges.spans), addr);
    if let Some(i) = span_at(ranges.spans, addr) {
        let h = o[i] as int;
        assert(bases(ranges.spans)[i] == ranges.spans[i].base);
        assert(ranges.spans[i] == given[h]);
        assert(mods[h].fits());
        assert(ranges.names[i] == mods[h].name@);
        assert forall|k: int|
            0 <= k < mods.len() && (#[trigger] mods[k]).base <= addr < mods[k].base
                + mods[k].size implies ranges.module_at(addr) == Some((mods[k].name@, mods[k].base)) by {
            assert(mods[k].fits());
            if k != h {
                assert(given[k].base <= addr < given[k].end);
                assert(given[h].base <= addr < given[h].end);
            }
        }
    } else {
        assert forall|k: int| 0 <= k < mods.len() implies !((#[trigger] mods[k]).base <= addr
            < mods[k].base + mods[k].size) by {
            assert(mods[k].fits());
            if mods[k].base <= addr < mods[k].base + mods[k].size {
                assert(given[k].base <= addr < given[k].end);
            }
        }
    }
}

/// The sum of two addresses, which goes round at the end of the address space.
pub open spec fn around(a: int, b: int) -> int {
    if a + b > u64::MAX {
        a + b - u64::MAX - 1
    } else {
        a + b
    }
}

/// The numbers `vals` are what is read on the way of a chain: the first stands at the distance
/// `base_offset` from the module, and each other one the offset behind where the one before it
/// points to.
pub open spec fn is_way(
    memory: spec_fn(u64) -> Option<u64>,
    module_base: u64,
    path: PathView,
    vals: Seq<u64>,
) -> bool {
    &&& 1 <= vals.len() <= path.offsets.len()
    &&& memory(around(module_base as int, path.base_offset as int) as u64) == Some(vals[0])
    &&& forall|j: int|
        0 <= j && j + 1 < vals.len() ==> memory(
            around((#[trigger] vals[j]) as int, path.offsets[j] as int) as u64,
        ) == Some(vals[j + 1])
}

proof fn lemma_follow_way(
    memory: spec_fn(u64) -> Option<u64>,
    offsets: Seq<u64>,
    vals: Seq<u64>,
    m: int,
)
    requires
        0 <= m < vals.len() <= offsets.len(),
        forall|j: int|
            0 <= j && j + 1 < vals.len() ==> memory(
                around((#[trigger] vals[j]) as int, offsets[j] as int) as u64,
            ) == Some(vals[j + 1]),
        vals.len() == offsets.len() || memory(
            around(vals.last() as int, offsets[vals.len() - 1] as int) as u64,
        ) is None,
    ensures
        follow(memory, vals[m], offsets.skip(m)) == (if vals.len() == offsets.len() {
            Some(around(vals.last() as int, offsets.last() as int) as u64)
        } else {
            None
        }),
    decreases vals.len() - m,
{
    let rest = offsets.skip(m);
    assert(rest[0] == offsets[m]);
    assert(vals[m].wrapping_add(offsets[m]) == around(vals[m] as int, offsets[m] as int));
    if m + 1 < vals.len() {
        lemma_follow_way(memory, offsets, vals, m + 1);
        assert(rest.skip(1) =~= offsets.skip(m + 1));
    }
}

/// Following a chain reads one pointer for each offset and adds the offset to it: what is read last,
/// with the last offset added, is the address. Where one of the pointers cannot be read there is
/// none.
pub proof fn law_resolve_reads_each_pointer(
    module_base: u64,
    path: PathView,
    memory: spec_fn(u64) -> Option<u64>,
    vals: Seq<u64>,
)
    requires
        is_way(memory, module_base, path, vals),
    ensures
        vals.len() == path.offsets.len() ==> resolve_run(resolve_start(module_base, path), memory)
            == Some(around(vals.last() as int, path.offsets.last() as int) as u64),
        vals.len() < path.offsets.len() && memory(
            around(vals.last() as int, path.offsets[vals.len() - 1] as int) as u64,
        ) is None ==> resolve_run(resolve_start(module_base, path), memory) is None,
{
    law_resolve_follows_chain(module_base, path, memory);
    assert(module_base.wrapping_add(path.base_offset) == around(
        module_base as int,
        path.base_offset as int,
    ));
    assert(path.offsets.skip(0) =~= path.offsets);
    if vals.len() == path.offsets.len() || memory(
        around(vals.last() as int, path.offsets[vals.len() - 1] as int) as u64,
    ) is None {
        lemma_follow_way(memory, path.offsets, vals, 0);
    }
}

/// A chain without an offset leads nowhere, and so does one whose first pointer cannot be read.
pub proof fn law_resolve_needs_a_pointer(
    module_base: u64,
    path: PathView,
    memory: spec_fn(u64) -> Option<u64>,
)
    requires
        path.offsets.len() == 0 || memory(
            around(module_base as int, path.base_offset as int) as u64,
        ) is None,
    ensures
        resolve_run(resolve_start(module_base, path), memory) is None,
{
    law_resolve_follows_chain(module_base, path, memory);
    assert(module_base.wrapping_add(path.base_offset) == around(
        module_base as int,
        path.base_offset as int,
    ));
}

proof fn lemma_nearest_last(ctx: SearchCtx, target: u64, offsets: Seq<u64>, i: int)
    requires
        ctx.sorted(),
        0 <= i,
    ensures
        forall|k: int|
            0 <= k < ctx.paths(target, offsets, i).len() ==> {
                let p = #[trigger] ctx.paths(target, offsets, i)[k];
                &&& p.offsets.len() > offsets.len()
                &&& p.offsets.reverse().take(offsets.len() as int) == offsets
                &&& i < ctx.map.len()
                &&& p.offsets.reverse()[offsets.len() as int] <= target - ctx.map[i].0
            },
        forall|j: int, k: int|
            0 <= j < k < ctx.paths(target, offsets, i).len() ==> (#[trigger] ctx.paths(
                target,
                offsets,
                i,
            )[j]).offsets.reverse()[offsets.len() as int] >= (#[trigger] ctx.paths(
                target,
                offsets,
                i,
            )[k]).offsets.reverse()[offsets.len() as int],
    decreases ctx.params.max_depth - offsets.len(), ctx.map.len() - i,
{
    if i < ctx.map.len() {
        lemma_nearest_last(ctx, target, offsets, i + 1);
        let (val, addr) = ctx.map[i];
        let offs = offsets.push((target - val) as u64);
        let tail = ctx.paths(target, offsets, i + 1);
        let all = ctx.paths(target, offsets, i);
        let n = offsets.len() as int;
        let keys = ctx.map.map_values(|e: (u64, u64)| e.0);
        if i + 1 < ctx.map.len() {
            assert(keys[i] <= keys[i + 1]);
        }
        if ctx.reaches(val, target) {
            let here = match ctx.mods.module_at(addr) {
                Some((name, base)) => {
                    let p = chain_of(name, base, addr, offs);
                    assert(p.offsets.reverse() =~= offs);
                    assert(offs.take(n) =~= offsets);
                    seq![p]
                },
                None => if offs.len() < ctx.params.max_depth {
                    lemma_nearest_last(ctx, addr, offs, 0);
                    ctx.paths(addr, offs, 0)
                } else {
                    Seq::empty()
                },
            };
            assert(all == here + tail);
            assert forall|k: int| 0 <= k < here.len() implies {
                let p = #[trigger] here[k];
                &&& p.offsets.len() > n
                &&& p.offsets.reverse().take(n) == offsets
                &&& p.offsets.reverse()[n] == target - val
            } by {
                let b = here[k].offsets.reverse();
                if ctx.mods.module_at(addr) is None {
                    assert(b.take(offs.len() as int) == offs);
                    assert(b.take(n) =~= offs.take(n));
                    assert(offs.take(n) =~= offsets);
                    assert(b[n] == b.take(offs.len() as int)[n]);
                }
            }
            assert forall|k: int| 0 <= k < all.len() implies {
                let p = #[trigger] all[k];
                &&& p.offsets.len() > n
                &&& p.offsets.reverse().take(n) == offsets
                &&& p.offsets.reverse()[n] <= target - val
            } by {
                if k < here.len() {
                    assert(all[k] == here[k]);
                } else {
                    assert(all[k] == tail[k - here.len()]);
                }
            }
            assert forall|j: int, k: int| 0 <= j < k < all.len() implies (
            #[trigger] all[j]).offsets.reverse()[n] >= (#[trigger] all[k]).offsets.reverse()[n] by {
                if j < here.len() {
                    assert(all[j] == here[j]);
                } else {
                    assert(all[j] == tail[j - here.len()]);
                    assert(all[k] == tail[k - here.len()]);
                }
            }
        } else {
            assert(all =~= tail);
        }
    }
}

/// Chains are found in the order in which their last pointers come nearer to the target.
pub proof fn law_chains_come_nearer(ctx: SearchCtx, j: int, k: int)
    requires
        ctx.sorted(),
        0 <= j < k < ctx.all_paths().len(),
    ensures
        ctx.all_paths()[j].offsets.len() > 0,
        ctx.all_paths()[k].offsets.len() > 0,
        ctx.all_paths()[j].offsets.last() >= ctx.all_paths()[k].offsets.last(),
{
    let a = ctx.all_paths()[j].offsets;
    let b = ctx.all_paths()[k].offsets;
    lemma_nearest_last(ctx, ctx.params.target, Seq::empty(), 0);
    assert(a.reverse()[0] == a.last());
    assert(b.reverse()[0] == b.last());
}

// ---------------------------------------------------------------------------
// The whole search
// ---------------------------------------------------------------------------

/// The state after the regions that are asked for were read, each with the bytes that `memory` has at
/// its address, as long as nobody stops it.
pub open spec fn collect_all(v: MapView, memory: spec_fn(u64, usize) -> Option<Seq<u8>>) -> MapView
    decreases v.regions.len() - v.idx,
{
    match v.wanted(false) {
        Some((base, size)) => if v.idx < v.regions.len() {
            collect_all(v.supplied(memory(base, size)), memory)
        } else {
            v
        },
        None => v,
    }
}

/// What memory has at an address is as long as was asked for.
pub open spec fn reads_in_full(memory: spec_fn(u64, usize) -> Option<Seq<u8>>) -> bool {
    forall|a: u64, n: usize| (#[trigger] memory(a, n)) matches Some(d) ==> d.len() == n
}

proof fn lemma_collect_all(
    v: MapView,
    o: Seq<usize>,
    memory: spec_fn(u64, usize) -> Option<Seq<u8>>,
)
    requires
        all_fit(v.regions),
        0 <= v.idx <= v.regions.len() <= usize::MAX,
        arranged(region_spans(v.regions), v.spans, o),
        disjoint(region_spans(v.regions)),
        reads_in_full(memory),
    ensures
        ({
            let w = collect_all(v, memory);
            &&& w.idx == v.regions.len()
            &&& v.entries.len() <= w.entries.len()
            &&& w.entries.take(v.entries.len() as int) == v.entries
            &&& forall|k: int, off: int|
                #![trigger is_pointer_at(v.regions, v.alignment, memory, k, off)]
                v.idx <= k && is_pointer_at(v.regions, v.alignment, memory, k, off)
                    ==> w.entries.contains(pointer_at(v.regions, memory, k, off))
            &&& forall|i: int|
                v.entries.len() <= i < w.entries.len() ==> stands_from(
                    v.regions,
                    v.alignment,
                    memory,
                    v.idx,
                    #[trigger] w.entries[i],
                )
        }),
    decreases v.regions.len() - v.idx,
{
    if v.idx < v.regions.len() {
        let r = v.regions[v.idx];
        let data = memory(r.base, r.size);
        let u = v.supplied(data);
        let w = collect_all(v, memory);
        assert(v.wanted(false) == Some((r.base, r.size)));
        assert(w == collect_all(u, memory));
        lemma_collect_all(u, o, memory);
        let n = v.entries.len() as int;
        if let Some(d) = data {
            assert(d.len() == r.size);
            law_every_pointer_is_collected(v, o, d);
        }
        assert(u.entries.take(n) =~= v.entries);
        assert(w.entries.take(n) =~= w.entries.take(u.entries.len() as int).take(n));
        assert forall|k: int, off: int|
            #![trigger is_pointer_at(v.regions, v.alignment, memory, k, off)]
            v.idx <= k && is_pointer_at(
                v.regions,
                v.alignment,
                memory,
                k,
                off,
            ) implies w.entries.contains(pointer_at(v.regions, memory, k, off)) by {
            if k > v.idx {
                assert(is_pointer_at(u.regions, u.alignment, memory, k, off));
            } else {
                let d = data->0;
                let more = u.entries.skip(n);
                assert(is_pointer(v.regions, v.alignment, d, off));
                let e = (word_at(d, off) as u64, (r.base + off) as u64);
                assert(more.contains(e));
                let x = choose|x: int| 0 <= x < more.len() && more[x] == e;
                assert(u.entries[n + x] == e);
                assert(w.entries.take(u.entries.len() as int)[n + x] == e);
                assert(w.entries[n + x] == e);
            }
        }
        assert forall|i: int| n <= i < w.entries.len() implies stands_from(
            v.regions,
            v.alignment,
            memory,
            v.idx,
            #[trigger] w.entries[i],
        ) by {
            if i < u.entries.len() {
                assert(w.entries.take(u.entries.len() as int)[i] == u.entries[i]);
                let d = data->0;
                let more = u.entries.skip(n);
                assert(more[i - n] == u.entries[i]);
                let off = more[i - n].1 - r.base;
                assert(r.fits());
                assert(is_pointer(v.regions, v.alignment, d, off));
                assert(is_pointer_at(v.regions, v.alignment, memory, v.idx, off));
                assert(w.entries[i] == pointer_at(v.regions, memory, v.idx, off));
            } else {
                assert(stands_from(u.regions, u.alignment, memory, u.idx, w.entries[i]));
                let (k, off) = choose|k: int, off: int|
                    u.idx <= k && #[trigger] is_pointer_at(u.regions, u.alignment, memory, k, off)
                        && w.entries[i] == pointer_at(u.regions, memory, k, off);
                assert(is_pointer_at(v.regions, v.alignment, memory, k, off));
                assert(w.entries[i] == pointer_at(v.regions, memory, k, off));
            }
        }
    } else {
        assert(v.entries.take(v.entries.len() as int) =~= v.entries);
    }
}

/// At the distance `off` in the `k`-th region, which can be read in full, stands a pointer.
pub open spec fn is_pointer_at(
    regions: Seq<Region>,
    alignment: usize,
    memory: spec_fn(u64, usize) -> Option<Seq<u8>>,
    k: int,
    off: int,
) -> bool {
    &&& 0 <= k < regions.len()
    &&& memory(regions[k].base, regions[k].size) matches Some(d) && is_pointer(
        regions,
        alignment,
        d,
        off,
    )
}

/// The pointer at the distance `off` in the `k`-th region: where it points to, and where it stands.
pub open spec fn pointer_at(
    regions: Seq<Region>,
    memory: spec_fn(u64, usize) -> Option<Seq<u8>>,
    k: int,
    off: int,
) -> (u64, u64) {
    (
        word_at(memory(regions[k].base, regions[k].size)->0, off) as u64,
        (regions[k].base + off) as u64,
    )
}

/// A pointer of one of the regions from the `from`-th on.
spec fn stands_from(
    regions: Seq<Region>,
    alignment: usize,
    memory: spec_fn(u64, usize) -> Option<Seq<u8>>,
    from: int,
    e: (u64, u64),
) -> bool {
    exists|k: int, off: int|
        from <= k && #[trigger] is_pointer_at(regions, alignment, memory, k, off) && e == pointer_at(
            regions,
            memory,
            k,
            off,
        )
}

/// When all regions were read, exactly the pointers of the process are collected: those in the regions
/// that can be read in full.
pub proof fn law_pointers_of_the_process_are_collected(
    regions: Seq<Region>,
    alignment: usize,
    spans: Seq<Span>,
    o: Seq<usize>,
    memory: spec_fn(u64, usize) -> Option<Seq<u8>>,
    e: (u64, u64),
)
    requires
        all_fit(regions),
        regions.len() <= usize::MAX,
        arranged(region_spans(regions), spans, o),
        disjoint(region_spans(regions)),
        reads_in_full(memory),
    ensures
        collect_all(map_start(regions, alignment, spans), memory).entries.contains(e) <==> exists|
            k: int,
            off: int,
        |
            #[trigger] is_pointer_at(regions, alignment, memory, k, off) && e == pointer_at(
                regions,
                memory,
                k,
                off,
            ),
        collect_all(map_start(regions, alignment, spans), memory).wanted(false) is None,
{
    let v = map_start(regions, alignment, spans);
    let w = collect_all(v, memory);
    lemma_collect_all(v, o, memory);
    if w.entries.contains(e) {
        let i = choose|i: int| 0 <= i < w.entries.len() && w.entries[i] == e;
        assert(stands_from(regions, alignment, memory, 0, w.entries[i]));
    }
    if exists|k: int, off: int|
        #[trigger] is_pointer_at(regions, alignment, memory, k, off) && e == pointer_at(
            regions,
            memory,
            k,
            off,
        ) {
        let (k, off) = choose|k: int, off: int|
            #[trigger] is_pointer_at(regions, alignment, memory, k, off) && e == pointer_at(
                regions,
                memory,
                k,
                off,
            );
        assert(is_pointer_at(v.regions, v.alignment, memory, k, off));
    }
    lemma_collected_to_end(v, memory);
}

proof fn lemma_collected_to_end(v: MapView, memory: spec_fn(u64, usize) -> Option<Seq<u8>>)
    ensures
        collect_all(v, memory).wanted(false) is None,
    decreases v.regions.len() - v.idx,
{
    if let Some((base, size)) = v.wanted(false) {
        if v.idx < v.regions.len() {
            lemma_collected_to_end(v.supplied(memory(base, size)), memory);
        }
    }
}

/// A search that was stopped asks for nothing.
pub proof fn law_stopped_collecting_asks_for_nothing(v: MapView)
    ensures
        v.wanted(true) is None,
{
}

/// The map that is searched has the collected pointers, in the order of what they point to.
pub proof fn law_map_has_the_collected_pointers(
    ctx: SearchCtx,
    entries: Seq<(u64, u64)>,
    o: Seq<usize>,
    e: (u64, u64),
)
    requires
        ordered_by_value(entries, ctx.map, o),
        entries.len() <= usize::MAX,
    ensures
        ctx.sorted(),
        ctx.map.len() == entries.len(),
        ctx.map.contains(e) <==> entries.contains(e),
{
    let keys = entries.map_values(|e: (u64, u64)| e.0);
    crate::order::law_order_is_stable(keys, o);
    let vals = ctx.map.map_values(|e: (u64, u64)| e.0);
    assert forall|i: int, j: int| 0 <= i <= j < vals.len() implies #[trigger] vals[i]
        <= #[trigger] vals[j] by {
        assert(vals[i] == keys[o[i] as int]);
        assert(vals[j] == keys[o[j] as int]);
    }
    if ctx.map.contains(e) {
        let i = choose|i: int| 0 <= i < ctx.map.len() && ctx.map[i] == e;
        assert(entries[o[i] as int] == e);
    }
    if entries.contains(e) {
        let k = choose|k: int| 0 <= k < entries.len() && entries[k] == e;
        assert(o.contains(crate::order::keys_place(k)));
        let i = choose|i: int| 0 <= i < o.len() && o[i] == k as usize;
        assert(ctx.map[i] == e);
    }
}

/// A search for pointers that runs to its end, and finds no more than it may, finds every chain of
/// pointers in the memory of the process that leads from a module to the target: each pointer at a
/// multiple of the alignment, no more than the largest offset before the next, and only the first in a
/// module.
pub proof fn law_pointer_scan_finds_every_chain(
    regions: Seq<Region>,
    spans: Seq<Span>,
    so: Seq<usize>,
    memory: spec_fn(u64, usize) -> Option<Seq<u8>>,
    ctx: SearchCtx,
    mo: Seq<usize>,
    n: nat,
    spots: Seq<(int, int)>,
)
    requires
        all_fit(regions),
        regions.len() <= usize::MAX,
        arranged(region_spans(regions), spans, so),
        disjoint(region_spans(regions)),
        reads_in_full(memory),
        ({
            let w = collect_all(map_start(regions, ctx.params.alignment, spans), memory);
            ordered_by_value(w.entries, ctx.map, mo) && w.entries.len() <= usize::MAX
        }),
        steps(search_start(ctx), n).over(),
        steps(search_start(ctx), n).results.len() < ctx.params.max_results,
        ({
            let links = spots.map_values(
                |s: (int, int)| pointer_at(regions, memory, s.0, s.1),
            );
            let p = ctx.params;
            &&& links.len() == 1 || 1 <= links.len() <= p.max_depth
            &&& forall|j: int|
                0 <= j < spots.len() ==> is_pointer_at(
                    regions,
                    p.alignment,
                    memory,
                    (#[trigger] spots[j]).0,
                    spots[j].1,
                )
            &&& forall|j: int|
                0 <= j < links.len() ==> (#[trigger] links[j]).0 <= next_address(links, p.target, j)
                    <= links[j].0 + p.max_offset
            &&& ctx.mods.module_at(links[0].1) is Some
            &&& forall|j: int|
                1 <= j < links.len() ==> ctx.mods.module_at((#[trigger] links[j]).1) is None
        }),
    ensures
        steps(search_start(ctx), n).results.contains(
            path_through(
                ctx,
                spots.map_values(|s: (int, int)| pointer_at(regions, memory, s.0, s.1)),
            ),
        ),
{
    let links = spots.map_values(|s: (int, int)| pointer_at(regions, memory, s.0, s.1));
    let start = map_start(regions, ctx.params.alignment, spans);
    let w = collect_all(start, memory);
    assert forall|j: int| 0 <= j < links.len() implies ctx.map.contains(#[trigger] links[j]) by {
        let (k, off) = spots[j];
        assert(is_pointer_at(regions, ctx.params.alignment, memory, k, off));
        law_pointers_of_the_process_are_collected(
            regions,
            ctx.params.alignment,
            spans,
            so,
            memory,
            links[j],
        );
        law_map_has_the_collected_pointers(ctx, w.entries, mo, links[j]);
    }
    law_map_has_the_collected_pointers(ctx, w.entries, mo, links[0]);
    assert(is_chain(ctx, links));
    law_no_chain_is_missed(ctx, links);
    law_search_finds_all(ctx, n);
    let all = ctx.all_paths();
    assert(all.len() <= ctx.params.max_results as int);
}

proof fn lemma_plain(n: nat)
    ensures
        forall|i: int|
            0 <= i < text::hex_upper(n).len() ==> {
                let c = #[trigger] text::hex_upper(n)[i];
                c != '+' && c != ']'
            },
        text::hex_upper(n).len() > 0,
    decreases n,
{
    let s = text::hex_upper(n);
    if n >= 16 {
        lemma_plain(n / 16);
        lemma_plain_digit((n % 16) as int);
        let t = text::hex_upper(n / 16);
        assert(s == t.push(text::digit_char((n % 16) as int, true)));
        assert forall|i: int| 0 <= i < s.len() implies {
            let c = #[trigger] s[i];
            c != '+' && c != ']'
        } by {
            if i < t.len() {
                assert(s[i] == t[i]);
            }
        }
    } else {
        lemma_plain_digit(n as int);
    }
}

proof fn lemma_plain_digit(d: int)
    requires
        0 <= d < 16,
    ensures
        text::digit_char(d, true) != '+',
        text::digit_char(d, true) != ']',
{
}

/// Where two texts are equal up to their first mark, what stands before it and behind it is equal.
proof fn lemma_first_mark(a: Seq<char>, x: Seq<char>, b: Seq<char>, y: Seq<char>, mark: char)
    requires
        a + seq![mark] + x == b + seq![mark] + y,
        forall|i: int| 0 <= i < a.len() ==> #[trigger] a[i] != mark,
        forall|i: int| 0 <= i < b.len() ==> #[trigger] b[i] != mark,
    ensures
        a == b,
        x == y,
{
    let s = a + seq![mark] + x;
    let t = b + seq![mark] + y;
    assert(s[a.len() as int] == mark);
    assert(t[b.len() as int] == mark);
    if a.len() < b.len() {
        assert(t[a.len() as int] == b[a.len() as int]);
    }
    if b.len() < a.len() {
        assert(s[b.len() as int] == a[b.len() as int]);
    }
    assert(a.len() == b.len());
    assert(a =~= s.take(a.len() as int));
    assert(b =~= t.take(b.len() as int));
    assert(x =~= s.skip(a.len() as int + 1));
    assert(y =~= t.skip(b.len() as int + 1));
}

/// Where two texts are equal behind their last mark, what stands before it and behind it is equal.
proof fn lemma_last_mark(x: Seq<char>, a: Seq<char>, y: Seq<char>, b: Seq<char>, mark: char)
    requires
        x + seq![mark] + a == y + seq![mark] + b,
        forall|i: int| 0 <= i < a.len() ==> #[trigger] a[i] != mark,
        forall|i: int| 0 <= i < b.len() ==> #[trigger] b[i] != mark,
    ensures
        a == b,
        x == y,
{
    let s = x + seq![mark] + a;
    let t = y + seq![mark] + b;
    let n = x.len() as int;
    let m = y.len() as int;
    assert(s == t);
    assert(s.len() == n + 1 + a.len());
    assert(t.len() == m + 1 + b.len());
    assert(s[n] == mark);
    assert(t[m] == mark);
    if n < m {
        assert(s[m] == a[m - n - 1]);
    }
    if m < n {
        assert(t[n] == b[n - m - 1]);
    }
    assert(n == m);
    assert(x =~= s.take(n));
    assert(y =~= t.take(m));
    assert(a =~= s.skip(n + 1));
    assert(b =~= t.skip(m + 1));
}

proof fn lemma_offsets_differ(a: Seq<u64>, b: Seq<u64>)
    requires
        offsets_text(a) == offsets_text(b),
    ensures
        a == b,
    decreases a.len(),
{
    if a.len() > 0 {
        assert(offsets_text(a)[offsets_text(a.drop_last()).len() as int] == '+');
        assert(b.len() > 0);
    }
    if b.len() > 0 {
        assert(offsets_text(b)[offsets_text(b.drop_last()).len() as int] == '+');
        assert(a.len() > 0);
        let x = text::hex_upper(a.last() as nat);
        let y = text::hex_upper(b.last() as nat);
        lemma_plain(a.last() as nat);
        lemma_plain(b.last() as nat);
        lemma_last_mark(offsets_text(a.drop_last()), x, offsets_text(b.drop_last()), y, '+');
        text::law_numerals_differ(a.last() as nat, b.last() as nat, 16, true);
        lemma_offsets_differ(a.drop_last(), b.drop_last());
        assert(a =~= a.drop_last().push(a.last()));
        assert(b =~= b.drop_last().push(b.last()));
    } else {
        assert(a =~= b);
    }
}

/// Chains from one module that differ are written differently; and a chain is written as its module
/// and the distance there, and then one offset after the other.
pub proof fn law_chains_are_written_differently(p: PathView, q: PathView)
    requires
        p.module == q.module,
        p.text() == q.text(),
    ensures
        p == q,
{
    let head = seq!['[', '"'] + p.module + seq!['"', '+'];
    let a = text::hex_upper(p.base_offset as nat);
    let b = text::hex_upper(q.base_offset as nat);
    let x = offsets_text(p.offsets);
    let y = offsets_text(q.offsets);
    let s = a + seq![']'] + x;
    let t = b + seq![']'] + y;
    assert(p.text() =~= head + s);
    assert(q.text() =~= head + t);
    assert(s =~= p.text().skip(head.len() as int));
    assert(t =~= q.text().skip(head.len() as int));
    lemma_plain(p.base_offset as nat);
    lemma_plain(q.base_offset as nat);
    lemma_first_mark(a, x, b, y, ']');
    text::law_numerals_differ(p.base_offset as nat, q.base_offset as nat, 16, true);
    lemma_offsets_differ(p.offsets, q.offsets);
}

/// One more offset is written behind the chain, in hexadecimal after a `+`.
pub proof fn law_offset_is_written_behind(p: PathView, off: u64)
    ensures
        (PathView { offsets: p.offsets.push(off), ..p }).text() == p.text() + seq!['+']
            + text::hex_upper(off as nat),
        (PathView { offsets: Seq::empty(), ..p }).text() == seq!['[', '"'] + p.module + seq!['"', '+']
            + text::hex_upper(p.base_offset as nat) + seq![']'],
{
    let more = PathView { offsets: p.offsets.push(off), ..p };
    assert(more.offsets.drop_last() =~= p.offsets);
    assert(more.text() =~= p.text() + seq!['+'] + text::hex_upper(off as nat));
    let none = PathView { offsets: Seq::empty(), ..p };
    assert(none.text() =~= seq!['[', '"'] + p.module + seq!['"', '+'] + text::hex_upper(
        p.base_offset as nat,
    ) + seq![']']);
}

} // verus!
