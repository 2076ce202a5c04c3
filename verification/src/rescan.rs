//! A search among what an earlier one found, which asks its caller for one value after another.

use crate::bytes::same_bytes;
use crate::ieee;
use crate::scan::{
    all_fit, compare, compared, known_in, known_test, read_known, Known, Match, ScanCmp,
    ScanProgress,
};
use crate::value::ValueType;
use vstd::prelude::*;

verus! {

/// What an address has to hold to stay among the results.
pub enum Recheck {
    Value { vt: ValueType, c: ScanCmp },
    Text(Vec<u8>),
}

/// What a recheck asks for.
pub enum RecheckView {
    Value { vt: ValueType, c: ScanCmp },
    Text(Seq<u8>),
}

impl View for Recheck {
    type V = RecheckView;

    open spec fn view(&self) -> RecheckView {
        match self {
            Recheck::Value { vt, c } => RecheckView::Value { vt: *vt, c: *c },
            Recheck::Text(t) => RecheckView::Text(t@),
        }
    }
}

impl RecheckView {
    /// How many bytes are read.
    pub open spec fn width(self) -> nat {
        match self {
            RecheckView::Value { vt, .. } => vt.width(),
            RecheckView::Text(t) => t.len(),
        }
    }

    /// What becomes of a match when `data` is read at its address, or nothing could be read. A
    /// value that stays is remembered as it is now.
    pub open spec fn verdict(self, m: Match, data: Option<Seq<u8>>) -> Option<Match> {
        match data {
            None => None,
            Some(d) => match self {
                RecheckView::Value { vt, c } => if compared(vt, c, d, m.last) == Some(true) {
                    Some(Match { last: known_in(vt, d)->0, ..m })
                } else {
                    None
                },
                RecheckView::Text(t) => if d == t {
                    Some(m)
                } else {
                    None
                },
            },
        }
    }
}

impl Recheck {
    fn width(&self) -> (r: usize)
        ensures
            r == self@.width(),
    {
        match self {
            Recheck::Value { vt, .. } => vt.size(),
            Recheck::Text(t) => t.len(),
        }
    }

    /// What becomes of a match, given the bytes that its address holds.
    pub fn judge(&self, m: Match, data: Option<&[u8]>) -> (r: Option<Match>)
        requires
            m.last.fits(),
        ensures
            r == self@.verdict(
                m,
                match data {
                    Some(d) => Some(d@),
                    None => None,
                },
            ),
            r matches Some(k) ==> k.last.fits(),
    {
        match data {
            None => None,
            Some(d) => match self {
                Recheck::Value { vt, c } => match compare(*vt, c, d, m.last) {
                    Some(true) => match read_known(*vt, d) {
                        Some(k) => Some(Match { address: m.address, last: k }),
                        None => None,
                    },
                    _ => None,
                },
                Recheck::Text(t) => if same_bytes(d, t.as_slice()) {
                    Some(m)
                } else {
                    None
                },
            },
        }
    }
}

/// How often a search reports how far it is.
pub const REPORT_EVERY: usize = 4096;

/// The state of a search among results.
pub struct RescanView {
    pub test: RecheckView,
    /// What is not looked at yet.
    pub rest: Seq<Match>,
    pub kept: Seq<Match>,
    pub processed: int,
    pub over: bool,
}

impl RescanView {
    /// The invariant of a search.
    pub open spec fn wf(self) -> bool {
        &&& all_fit(self.rest)
        &&& all_fit(self.kept)
        &&& 0 <= self.processed
        &&& self.kept.len() <= self.processed || self.over
        &&& self.processed + self.rest.len() <= usize::MAX
    }

    /// The search waits for a value.
    pub open spec fn waiting(self, p: ScanProgress) -> bool {
        !self.over && self.rest.len() > 0 && !p.cancel
    }

    /// The state in which the search next waits for a value or is over, with the progress and the
    /// place that it waits for. A search that is asked to stop keeps the rest as it is.
    pub open spec fn next(self, p: ScanProgress) -> (RescanView, ScanProgress, Option<
        (u64, usize),
    >) {
        if self.over {
            (self, p, None)
        } else if self.rest.len() == 0 || p.cancel {
            let kept = self.kept + self.rest;
            (
                RescanView { kept, rest: Seq::empty(), over: true, ..self },
                ScanProgress { done: self.processed as usize, matches: kept.len() as usize, ..p },
                None,
            )
        } else {
            (self, p, Some((self.rest[0].address, self.test.width() as usize)))
        }
    }

    /// The state after the value came back, and the progress.
    pub open spec fn supplied(self, data: Option<Seq<u8>>, p: ScanProgress) -> (
        RescanView,
        ScanProgress,
    ) {
        let n = self.processed + 1;
        (
            RescanView {
                rest: self.rest.skip(1),
                kept: match self.test.verdict(self.rest[0], data) {
                    Some(m) => self.kept.push(m),
                    None => self.kept,
                },
                processed: n,
                ..self
            },
            if n % REPORT_EVERY as int == 0 {
                ScanProgress { done: n as usize, ..p }
            } else {
                p
            },
        )
    }
}

/// A search among results.
pub struct RescanJob {
    pub test: Recheck,
    pub matches: Vec<Match>,
    pub idx: usize,
    pub kept: Vec<Match>,
    pub processed: usize,
    pub over: bool,
}

impl View for RescanJob {
    type V = RescanView;

    open spec fn view(&self) -> RescanView {
        RescanView {
            test: self.test@,
            rest: self.matches@.skip(self.idx as int),
            kept: self.kept@,
            processed: self.processed as int,
            over: self.over,
        }
    }
}

impl RescanJob {
    /// The invariant of a search.
    pub open spec fn wf(self) -> bool {
        &&& self.idx <= self.matches@.len()
        &&& self@.wf()
    }

    /// The place that the search reads next: its address and its length. `None` when the search is
    /// over.
    pub fn next(&mut self, progress: &mut ScanProgress) -> (r: Option<(u64, usize)>)
        requires
            old(self).wf(),
        ensures
            (final(self)@, *final(progress), r) == old(self)@.next(*old(progress)),
            final(self).wf(),
            r is Some == final(self)@.waiting(*final(progress)),
    {
        if self.over {
            return None;
        }
        if self.idx >= self.matches.len() || progress.cancel {
            let ghost start = self@;
            while self.idx < self.matches.len()
                invariant
                    self.idx <= self.matches@.len(),
                    self.kept@ + self.matches@.skip(self.idx as int) == start.kept + start.rest,
                    start == old(self)@,
                    self@ == (RescanView { kept: self@.kept, rest: self@.rest, ..start }),
                    self.processed == start.processed,
                    all_fit(self.kept@),
                    all_fit(self.matches@.skip(self.idx as int)),
                decreases self.matches.len() - self.idx,
            {
                let m = self.matches[self.idx];
                proof {
                    let s = self.matches@.skip(self.idx as int);
                    assert(s[0] == m);
                    assert(s =~= seq![m] + self.matches@.skip(self.idx + 1));
                    assert(self.kept@ + s =~= self.kept@.push(m) + self.matches@.skip(
                        self.idx + 1,
                    ));
                    assert forall|i: int|
                        0 <= i < self.matches@.skip(self.idx + 1).len() implies (
                    #[trigger] self.matches@.skip(self.idx + 1)[i]).last.fits() by {
                        assert(s[i + 1].last.fits());
                    }
                }
                self.kept.push(m);
                self.idx += 1;
            }
            assert(self@.rest =~= Seq::<Match>::empty());
            assert(self.kept@ =~= start.kept + start.rest);
            self.over = true;
            progress.done = self.processed;
            progress.matches = self.kept.len();
            return None;
        }
        assert(self@.rest[0] == self.matches@[self.idx as int]);
        Some((self.matches[self.idx].address, self.test.width()))
    }

    /// Takes the bytes that were asked for, or that they could not be read in full.
    pub fn supply(&mut self, data: Option<&[u8]>, progress: &mut ScanProgress)
        requires
            old(self).wf(),
            old(self)@.waiting(*old(progress)),
        ensures
            (final(self)@, *final(progress)) == old(self)@.supplied(
                match data {
                    Some(d) => Some(d@),
                    None => None,
                },
                *old(progress),
            ),
            final(self).wf(),
    {
        let m = self.matches[self.idx];
        proof {
            assert(self@.rest[0] == m);
            assert(self@.rest.skip(1) =~= self.matches@.skip(self.idx + 1));
            assert forall|i: int| 0 <= i < self@.rest.skip(1).len() implies (
            #[trigger] self@.rest.skip(1)[i]).last.fits() by {
                assert(self@.rest[i + 1].last.fits());
            }
        }
        self.processed += 1;
        if self.processed % REPORT_EVERY == 0 {
            progress.done = self.processed;
        }
        if let Some(k) = self.test.judge(m, data) {
            self.kept.push(k);
        }
        assert(self.idx < self.matches.len());
        self.idx += 1;
    }
}

/// The start of a search among `matches`. One for an empty text changes nothing.
pub open spec fn rescan_start(test: RecheckView, matches: Seq<Match>) -> RescanView {
    if test matches RecheckView::Text(t) && t.len() == 0 {
        RescanView { test, rest: Seq::empty(), kept: matches, processed: 0, over: true }
    } else {
        RescanView { test, rest: matches, kept: Seq::empty(), processed: 0, over: false }
    }
}

/// A search among results for values that a comparison accepts.
pub fn next_scan_job(matches: Vec<Match>, value_type: ValueType, c: ScanCmp) -> (r: RescanJob)
    requires
        all_fit(matches@),
    ensures
        r@ == rescan_start(RecheckView::Value { vt: value_type, c }, matches@),
        r.wf(),
{
    assert(matches.len() <= usize::MAX);
    let r = RescanJob {
        test: Recheck::Value { vt: value_type, c },
        matches,
        idx: 0,
        kept: Vec::new(),
        processed: 0,
        over: false,
    };
    assert(r@.rest =~= matches@);
    r
}

/// A search among results for addresses that still hold a text.
pub fn next_scan_string_job(matches: Vec<Match>, pattern: Vec<u8>) -> (r: RescanJob)
    requires
        all_fit(matches@),
    ensures
        r@ == rescan_start(RecheckView::Text(pattern@), matches@),
        r.wf(),
{
    assert(matches.len() <= usize::MAX);
    if pattern.len() == 0 {
        let r = RescanJob {
            test: Recheck::Text(pattern),
            matches: Vec::new(),
            idx: 0,
            kept: matches,
            processed: 0,
            over: true,
        };
        assert(r@.rest =~= Seq::<Match>::empty());
        r
    } else {
        let r = RescanJob {
            test: Recheck::Text(pattern),
            matches,
            idx: 0,
            kept: Vec::new(),
            processed: 0,
            over: false,
        };
        assert(r@.rest =~= matches@);
        r
    }
}

// ---------------------------------------------------------------------------
// Laws
// ---------------------------------------------------------------------------

/// The matches that stay, given what each address holds.
pub open spec fn rechecked(
    test: RecheckView,
    matches: Seq<Match>,
    memory: spec_fn(u64) -> Option<Seq<u8>>,
) -> Seq<Match>
    decreases matches.len(),
{
    if matches.len() == 0 {
        Seq::empty()
    } else {
        let tail = rechecked(test, matches.skip(1), memory);
        match test.verdict(matches[0], memory(matches[0].address)) {
            Some(m) => seq![m] + tail,
            None => tail,
        }
    }
}

/// What a search keeps and the progress in the end, given what each address holds.
pub open spec fn run(
    j: RescanView,
    p: ScanProgress,
    memory: spec_fn(u64) -> Option<Seq<u8>>,
) -> (Seq<Match>, ScanProgress)
    decreases j.rest.len(),
{
    let (j1, p1, req) = j.next(p);
    if req is Some {
        let (j2, p2) = j1.supplied(memory(j1.rest[0].address), p1);
        run(j2, p2, memory)
    } else {
        (j1.kept, p1)
    }
}

proof fn lemma_run(j: RescanView, p: ScanProgress, memory: spec_fn(u64) -> Option<Seq<u8>>)
    requires
        !j.over,
        !p.cancel,
    ensures
        run(j, p, memory).0 == j.kept + rechecked(j.test, j.rest, memory),
        run(j, p, memory).1 == (ScanProgress {
            done: (j.processed + j.rest.len()) as usize,
            matches: run(j, p, memory).0.len() as usize,
            ..p
        }),
    decreases j.rest.len(),
{
    if j.rest.len() > 0 {
        let (j2, p2) = j.supplied(memory(j.rest[0].address), p);
        lemma_run(j2, p2, memory);
        assert(run(j, p, memory).0 =~= j.kept + rechecked(j.test, j.rest, memory));
    } else {
        assert(run(j, p, memory).0 =~= j.kept + rechecked(j.test, j.rest, memory));
    }
}

/// A search that nobody stops keeps, in their order, the matches whose addresses hold what is
/// asked for. In the end the progress has counted all matches, and holds how many were kept.
pub proof fn law_rescan_filters(
    test: RecheckView,
    matches: Seq<Match>,
    p: ScanProgress,
    memory: spec_fn(u64) -> Option<Seq<u8>>,
)
    requires
        !p.cancel,
        test.width() > 0 || test is Value,
    ensures
        run(rescan_start(test, matches), p, memory).0 == rechecked(test, matches, memory),
        run(rescan_start(test, matches), p, memory).1 == (ScanProgress {
            done: matches.len() as usize,
            matches: rechecked(test, matches, memory).len() as usize,
            ..p
        }),
{
    lemma_run(rescan_start(test, matches), p, memory);
    assert(run(rescan_start(test, matches), p, memory).0 =~= rechecked(test, matches, memory));
}

/// A search that is stopped before it begins leaves the matches as they are, and counts none of
/// them as done.
pub proof fn law_cancelled_rescan_keeps_all(
    test: RecheckView,
    matches: Seq<Match>,
    p: ScanProgress,
    memory: spec_fn(u64) -> Option<Seq<u8>>,
)
    requires
        p.cancel,
    ensures
        run(rescan_start(test, matches), p, memory).0 == matches,
        test.width() > 0 || test is Value ==> run(rescan_start(test, matches), p, memory).1 == (
        ScanProgress { done: 0, matches: matches.len() as usize, ..p }),
{
    assert(Seq::<Match>::empty() + matches =~= matches);
}

/// Each match remembers what its address holds, and that is a number.
pub open spec fn up_to_date(
    vt: ValueType,
    matches: Seq<Match>,
    memory: spec_fn(u64) -> Option<Seq<u8>>,
) -> bool {
    forall|i: int|
        0 <= i < matches.len() ==> {
            let m = #[trigger] matches[i];
            &&& memory(m.address) matches Some(d) && known_in(vt, d) == Some(m.last)
            &&& m.last matches Known::Float(b) ==> !ieee::is_nan(b)
        }
}

/// Over memory that did not change, "unchanged" keeps every match as it is and "changed" drops
/// every one.
pub proof fn law_unchanged_memory(
    vt: ValueType,
    c: ScanCmp,
    matches: Seq<Match>,
    memory: spec_fn(u64) -> Option<Seq<u8>>,
)
    requires
        up_to_date(vt, matches, memory),
    ensures
        c.kind is Unchanged ==> rechecked(RecheckView::Value { vt, c }, matches, memory) == matches,
        c.kind is Changed ==> rechecked(RecheckView::Value { vt, c }, matches, memory).len() == 0,
    decreases matches.len(),
{
    if matches.len() > 0 {
        let test = RecheckView::Value { vt, c };
        let m = matches[0];
        let d = memory(m.address)->0;
        assert(known_in(vt, d) == Some(m.last));
        assert(compared(vt, c, d, m.last) == Some(known_test(c, m.last, m.last)));
        assert forall|i: int| 0 <= i < matches.skip(1).len() implies {
            let m = #[trigger] matches.skip(1)[i];
            &&& memory(m.address) matches Some(d) && known_in(vt, d) == Some(m.last)
            &&& m.last matches Known::Float(b) ==> !ieee::is_nan(b)
        } by {
            assert(matches.skip(1)[i] == matches[i + 1]);
        }
        law_unchanged_memory(vt, c, matches.skip(1), memory);
        if c.kind is Unchanged {
            assert(test.verdict(m, Some(d)) == Some(m));
            assert(seq![m] + matches.skip(1) =~= matches);
        }
    } else {
        assert(rechecked(RecheckView::Value { vt, c }, matches, memory) =~= matches);
    }
}

/// The places of `sub` in `all` that an increasing choice `at` gives.
pub open spec fn rises(at: Seq<int>, n: int) -> bool {
    &&& forall|i: int| 0 <= i < at.len() ==> 0 <= #[trigger] at[i] < n
    &&& forall|i: int, j: int| 0 <= i < j < at.len() ==> #[trigger] at[i] < #[trigger] at[j]
}

proof fn lemma_kept(
    test: RecheckView,
    matches: Seq<Match>,
    memory: spec_fn(u64) -> Option<Seq<u8>>,
) -> (at: Seq<int>)
    ensures
        rises(at, matches.len() as int),
        at.len() == rechecked(test, matches, memory).len(),
        forall|i: int|
            0 <= i < at.len() ==> {
                let m = matches[#[trigger] at[i]];
                test.verdict(m, memory(m.address)) == Some(rechecked(test, matches, memory)[i])
            },
        forall|k: int|
            0 <= k < matches.len() && test.verdict(
                #[trigger] matches[k],
                memory(matches[k].address),
            ) is Some ==> at.contains(k),
    decreases matches.len(),
{
    let all = rechecked(test, matches, memory);
    if matches.len() == 0 {
        Seq::empty()
    } else {
        let rest = matches.skip(1);
        let tail = rechecked(test, rest, memory);
        let later = lemma_kept(test, rest, memory);
        let moved = later.map_values(|i: int| i + 1);
        let first = test.verdict(matches[0], memory(matches[0].address));
        let at = if first is Some {
            seq![0int] + moved
        } else {
            moved
        };
        let d: int = if first is Some {
            1
        } else {
            0
        };
        assert forall|i: int| 0 <= i < at.len() implies 0 <= #[trigger] at[i] < matches.len() by {
            if i >= d {
                assert(at[i] == later[i - d] + 1);
            }
        }
        assert forall|i: int, j: int| 0 <= i < j < at.len() implies #[trigger] at[i]
            < #[trigger] at[j] by {
            assert(at[j] == later[j - d] + 1);
            if i >= d {
                assert(at[i] == later[i - d] + 1);
            }
        }
        assert forall|i: int| 0 <= i < at.len() implies {
            let m = matches[#[trigger] at[i]];
            test.verdict(m, memory(m.address)) == Some(all[i])
        } by {
            if i >= d {
                assert(at[i] == later[i - d] + 1);
                assert(rest[later[i - d]] == matches[at[i]]);
                assert(all[i] == tail[i - d]);
            }
        }
        assert forall|k: int|
            0 <= k < matches.len() && test.verdict(
                #[trigger] matches[k],
                memory(matches[k].address),
            ) is Some implies at.contains(k) by {
            if k == 0 {
                assert(at[0] == 0);
            } else {
                assert(rest[k - 1] == matches[k]);
                let i = choose|i: int| 0 <= i < later.len() && later[i] == k - 1;
                assert(at[i + d] == k);
            }
        }
        at
    }
}

/// A next search for a value keeps, in their order, exactly the matches whose addresses can be read
/// and hold what the comparison accepts; and whatever the comparison, each match that it keeps
/// remembers the value that its address held in that search.
pub proof fn law_kept_matches_are_current(
    vt: ValueType,
    c: ScanCmp,
    matches: Seq<Match>,
    p: ScanProgress,
    memory: spec_fn(u64) -> Option<Seq<u8>>,
)
    requires
        !p.cancel,
    ensures
        ({
            let kept = run(rescan_start(RecheckView::Value { vt, c }, matches), p, memory).0;
            exists|at: Seq<int>|
                {
                    &&& #[trigger] rises(at, matches.len() as int)
                    &&& at.len() == kept.len()
                    &&& forall|i: int|
                        #![trigger kept[i]]
                        0 <= i < kept.len() ==> {
                            let m = matches[at[i]];
                            &&& kept[i].address == m.address
                            &&& memory(m.address) matches Some(d) && known_in(vt, d) == Some(
                                kept[i].last,
                            ) && compared(vt, c, d, m.last) == Some(true)
                        }
                    &&& forall|k: int|
                        0 <= k < matches.len() && (memory((#[trigger] matches[k]).address) matches Some(
                            d,
                        ) && compared(vt, c, d, matches[k].last) == Some(true)) ==> at.contains(k)
                }
        }),
{
    let test = RecheckView::Value { vt, c };
    law_rescan_filters(test, matches, p, memory);
    let kept = rechecked(test, matches, memory);
    let at = lemma_kept(test, matches, memory);
    assert forall|i: int| #![trigger kept[i]] 0 <= i < kept.len() implies {
        let m = matches[at[i]];
        &&& kept[i].address == m.address
        &&& memory(m.address) matches Some(d) && known_in(vt, d) == Some(kept[i].last) && compared(
            vt,
            c,
            d,
            m.last,
        ) == Some(true)
    } by {
        let m = matches[at[i]];
        assert(test.verdict(m, memory(m.address)) == Some(kept[i]));
    }
    assert forall|k: int|
        0 <= k < matches.len() && (memory((#[trigger] matches[k]).address) matches Some(d)
            && compared(vt, c, d, matches[k].last) == Some(true)) implies at.contains(k) by {
        assert(test.verdict(matches[k], memory(matches[k].address)) is Some);
    }
}

/// A next search for a text keeps, in their order and as they are, exactly the matches whose
/// addresses hold these bytes. One for an empty text keeps all.
pub proof fn law_kept_texts_are_held(
    t: Seq<u8>,
    matches: Seq<Match>,
    p: ScanProgress,
    memory: spec_fn(u64) -> Option<Seq<u8>>,
)
    requires
        !p.cancel,
    ensures
        ({
            let kept = run(rescan_start(RecheckView::Text(t), matches), p, memory).0;
            &&& t.len() == 0 ==> kept == matches
            &&& t.len() > 0 ==> exists|at: Seq<int>|
                {
                    &&& #[trigger] rises(at, matches.len() as int)
                    &&& at.len() == kept.len()
                    &&& forall|i: int|
                        #![trigger kept[i]]
                        0 <= i < kept.len() ==> kept[i] == matches[at[i]] && memory(kept[i].address)
                            == Some(t)
                    &&& forall|k: int|
                        0 <= k < matches.len() && memory((#[trigger] matches[k]).address) == Some(t)
                            ==> at.contains(k)
                }
        }),
{
    let test = RecheckView::Text(t);
    if t.len() > 0 {
        law_rescan_filters(test, matches, p, memory);
        let kept = rechecked(test, matches, memory);
        let at = lemma_kept(test, matches, memory);
        assert forall|i: int| #![trigger kept[i]] 0 <= i < kept.len() implies kept[i]
            == matches[at[i]] && memory(kept[i].address) == Some(t) by {
            let m = matches[at[i]];
            assert(test.verdict(m, memory(m.address)) == Some(kept[i]));
        }
        assert forall|k: int|
            0 <= k < matches.len() && memory((#[trigger] matches[k]).address) == Some(
                t,
            ) implies at.contains(k) by {
            assert(test.verdict(matches[k], memory(matches[k].address)) is Some);
        }
    }
}

/// What one search has kept, a search for what is unchanged keeps over the same memory, unless it is
/// not a number; and a search for what has changed drops.
pub proof fn law_searching_again_keeps_all(
    vt: ValueType,
    c: ScanCmp,
    again: ScanCmp,
    matches: Seq<Match>,
    p: ScanProgress,
    memory: spec_fn(u64) -> Option<Seq<u8>>,
)
    requires
        !p.cancel,
        forall|i: int|
            0 <= i < matches.len() ==> (memory((#[trigger] matches[i]).address) matches Some(d)
                && known_in(vt, d) matches Some(Known::Float(b)) ==> !ieee::is_nan(b)),
    ensures
        ({
            let kept = run(rescan_start(RecheckView::Value { vt, c }, matches), p, memory).0;
            let twice = run(rescan_start(RecheckView::Value { vt, c: again }, kept), p, memory).0;
            &&& again.kind is Unchanged ==> twice == kept
            &&& again.kind is Changed ==> twice.len() == 0
        }),
{
    let test = RecheckView::Value { vt, c };
    law_rescan_filters(test, matches, p, memory);
    let kept = rechecked(test, matches, memory);
    law_rescan_filters(RecheckView::Value { vt, c: again }, kept, p, memory);
    let at = lemma_kept(test, matches, memory);
    assert forall|i: int| 0 <= i < kept.len() implies {
        let m = #[trigger] kept[i];
        &&& memory(m.address) matches Some(d) && known_in(vt, d) == Some(m.last)
        &&& m.last matches Known::Float(b) ==> !ieee::is_nan(b)
    } by {
        let m = matches[at[i]];
        assert(test.verdict(m, memory(m.address)) == Some(kept[i]));
    }
    law_unchanged_memory(vt, again, kept, memory);
}

/// A search that is stopped on its way keeps what it has kept so far, and all that it has not looked
/// at as it is.
pub proof fn law_stopping_keeps_the_rest(
    j: RescanView,
    p: ScanProgress,
    memory: spec_fn(u64) -> Option<Seq<u8>>,
)
    requires
        p.cancel,
        !j.over,
    ensures
        run(j, p, memory).0 == j.kept + j.rest,
        run(j, p, memory).1.done == j.processed as usize,
{
}

/// A search among results reports how far it is after each 4096 matches, and not in between.
pub proof fn law_progress_is_reported(j: RescanView, data: Option<Seq<u8>>, p: ScanProgress)
    requires
        0 <= j.processed < usize::MAX,
    ensures
        ({
            let (k, q) = j.supplied(data, p);
            &&& k.processed == j.processed + 1
            &&& (j.processed + 1) % 4096 == 0 ==> q == (ScanProgress {
                done: (j.processed + 1) as usize,
                ..p
            })
            &&& (j.processed + 1) % 4096 != 0 ==> q == p
        }),
{
}

/// A search among results asks for the value of the first match that it has not looked at: as many
/// bytes at its address as the kind has, or as the text has.
pub proof fn law_next_match_is_asked_for(j: RescanView, p: ScanProgress)
    requires
        !j.over,
        j.rest.len() > 0,
        !p.cancel,
        j.test matches RecheckView::Text(t) ==> t.len() <= usize::MAX,
    ensures
        j.next(p).0 == j,
        j.next(p).1 == p,
        j.next(p).2 matches Some((a, n)) && a == j.rest[0].address && (match j.test {
            RecheckView::Value { vt, .. } => n == vt.width(),
            RecheckView::Text(t) => n == t.len(),
        }),
{
}

} // verus!
