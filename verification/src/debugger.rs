//! Finding the instructions that write to an address or access it, with a hardware breakpoint.

use crate::order::{descending_order, sorts_down};
use std::collections::HashMap;
use vstd::prelude::*;

verus! {

broadcast use vstd::std_specs::hash::group_hash_axioms;

/// What makes the breakpoint fire.
#[derive(Clone, Copy, PartialEq, Eq, Structural, Debug)]
pub enum BreakKind {
    /// A write.
    Write,
    /// A read or a write.
    Access,
}

impl BreakKind {
    /// The two condition bits of the kind.
    pub open spec fn bits(self) -> u64 {
        match self {
            BreakKind::Write => 1,
            BreakKind::Access => 3,
        }
    }

    /// The two condition bits of the kind.
    pub fn rw(&self) -> (r: u64)
        ensures
            r == self.bits(),
    {
        match self {
            BreakKind::Write => 1,
            BreakKind::Access => 3,
        }
    }
}

/// The two length bits of a breakpoint on `size` bytes.
pub open spec fn size_bits(size: usize) -> u64 {
    if size == 1 {
        0
    } else if size == 2 {
        1
    } else if size == 8 {
        2
    } else {
        3
    }
}

/// The two length bits of a breakpoint on `size` bytes.
pub fn len_code(size: usize) -> (r: u64)
    ensures
        r == size_bits(size),
{
    match size {
        1 => 0,
        2 => 1,
        8 => 2,
        _ => 3,
    }
}

/// The control register with the first breakpoint switched on.
pub open spec fn control_with(dr7: u64, rw: u64, len: u64) -> u64 {
    (dr7 & !0x000f_0003u64) | (1u64 | (rw << 16) | (len << 18))
}

/// Switching the first breakpoint on sets its enable bit, its condition and its length, and leaves
/// all other bits of the control register as they are.
pub proof fn law_control_bits(dr7: u64, rw: u64, len: u64)
    requires
        rw < 4,
        len < 4,
    ensures
        control_with(dr7, rw, len) & 3 == 1,
        (control_with(dr7, rw, len) >> 16) & 3 == rw,
        (control_with(dr7, rw, len) >> 18) & 3 == len,
        control_with(dr7, rw, len) & !0x000f_0003u64 == dr7 & !0x000f_0003u64,
{
    let r = (dr7 & !0x000f_0003u64) | (1u64 | (rw << 16) | (len << 18));
    assert(r & 3 == 1 && (r >> 16) & 3 == rw && (r >> 18) & 3 == len && r & !0x000f_0003u64 == dr7
        & !0x000f_0003u64) by (bit_vector)
        requires
            rw < 4,
            len < 4,
            r == (dr7 & !0x000f_0003u64) | (1u64 | (rw << 16) | (len << 18)),
    ;
}

/// The registers of a thread that a breakpoint needs.
#[derive(Clone, Copy, PartialEq, Eq, Structural, Debug)]
pub struct DebugRegs {
    pub dr0: u64,
    pub dr6: u64,
    pub dr7: u64,
    pub rip: u64,
}

/// The registers with the first breakpoint on `addr`.
pub open spec fn armed(regs: DebugRegs, addr: u64, kind: BreakKind, size: usize) -> DebugRegs {
    DebugRegs {
        dr0: addr,
        dr6: 0,
        dr7: control_with(regs.dr7, kind.bits(), size_bits(size)),
        rip: regs.rip,
    }
}

/// The registers with the first breakpoint on `addr`.
pub fn arm_thread(regs: DebugRegs, addr: u64, kind: BreakKind, size: usize) -> (r: DebugRegs)
    ensures
        r == armed(regs, addr, kind, size),
{
    let rw = kind.rw();
    let len = len_code(size);
    DebugRegs {
        dr0: addr,
        dr6: 0,
        dr7: (regs.dr7 & !0x000f_0003u64) | (1u64 | (rw << 16) | (len << 18)),
        rip: regs.rip,
    }
}

/// The instruction pointer where the first breakpoint fired, and the registers with the status
/// cleared.
pub open spec fn consumed(regs: DebugRegs) -> (Option<u64>, DebugRegs) {
    (
        if regs.dr6 & 1 != 0 {
            Some(regs.rip)
        } else {
            None
        },
        DebugRegs { dr6: 0, ..regs },
    )
}

/// The instruction pointer where the first breakpoint fired, and the registers with the status
/// cleared.
pub fn consume_hit(regs: DebugRegs) -> (r: (Option<u64>, DebugRegs))
    ensures
        r == consumed(regs),
{
    let hit = if regs.dr6 & 1 != 0 {
        Some(regs.rip)
    } else {
        None
    };
    (hit, DebugRegs { dr0: regs.dr0, dr6: 0, dr7: regs.dr7, rip: regs.rip })
}

// ---------------------------------------------------------------------------
// What was seen
// ---------------------------------------------------------------------------

/// An instruction that touched the address, and how often.
#[derive(Clone, Copy, PartialEq, Eq, Structural, Debug)]
pub struct WriteHit {
    pub rip: u64,
    pub count: u64,
}

/// The instructions with one touch more.
pub open spec fn recorded(hits: Seq<WriteHit>, rip: u64) -> Seq<WriteHit>
    decreases hits.len(),
{
    if hits.len() == 0 {
        seq![WriteHit { rip, count: 1 }]
    } else if hits[0].rip == rip {
        seq![WriteHit { rip, count: hits[0].count.wrapping_add(1) }] + hits.skip(1)
    } else {
        seq![hits[0]] + recorded(hits.skip(1), rip)
    }
}

/// How often an instruction was seen.
pub open spec fn count_of(hits: Seq<WriteHit>, rip: u64) -> u64
    decreases hits.len(),
{
    if hits.len() == 0 {
        0
    } else if hits[0].rip == rip {
        hits[0].count
    } else {
        count_of(hits.skip(1), rip)
    }
}

/// A touch is counted for its instruction and for no other.
pub proof fn law_hit_is_counted(hits: Seq<WriteHit>, rip: u64, other: u64)
    requires
        other != rip,
    ensures
        count_of(recorded(hits, rip), rip) == count_of(hits, rip).wrapping_add(1),
        count_of(recorded(hits, rip), other) == count_of(hits, other),
    decreases hits.len(),
{
    let r = recorded(hits, rip);
    if hits.len() == 0 {
        assert(r.skip(1).len() == 0);
        assert(count_of(r.skip(1), other) == 0);
    } else if hits[0].rip == rip {
        assert(r.skip(1) =~= hits.skip(1));
    } else {
        law_hit_is_counted(hits.skip(1), rip, other);
        assert(r.skip(1) =~= recorded(hits.skip(1), rip));
    }
}

/// No instruction stands twice.
pub open spec fn each_once(hits: Seq<WriteHit>) -> bool {
    forall|i: int, j: int|
        0 <= i < j < hits.len() ==> (#[trigger] hits[i]).rip != (#[trigger] hits[j]).rip
}

/// The instructions in the order of how often they were seen, the most frequent first.
pub open spec fn ranked(hits: Seq<WriteHit>, r: Seq<WriteHit>, o: Seq<usize>) -> bool {
    &&& sorts_down(hits.map_values(|h: WriteHit| h.count), o)
    &&& r == o.map_values(|k: usize| hits[k as int])
}

/// The touches that were seen, and what is said of the watch.
pub struct WatchHandle {
    pub seen: Vec<WriteHit>,
    pub stop: bool,
    pub message: String,
}

/// A watch that is about to begin.
pub fn start() -> (r: WatchHandle)
    ensures
        r.seen@ == Seq::<WriteHit>::empty(),
        !r.stop,
        r.message@ == "anexando como debugger…"@,
{
    WatchHandle { seen: Vec::new(), stop: false, message: "anexando como debugger…".to_owned() }
}

proof fn lemma_recorded_at(hits: Seq<WriteHit>, rip: u64, n: int)
    requires
        0 <= n <= hits.len(),
        forall|i: int| 0 <= i < n ==> (#[trigger] hits[i]).rip != rip,
        n < hits.len() ==> hits[n].rip == rip,
    ensures
        recorded(hits, rip) == (if n < hits.len() {
            hits.update(n, WriteHit { rip, count: hits[n].count.wrapping_add(1) })
        } else {
            hits.push(WriteHit { rip, count: 1 })
        }),
    decreases n,
{
    if n > 0 {
        assert forall|i: int| 0 <= i < n - 1 implies (#[trigger] hits.skip(1)[i]).rip != rip by {
            assert(hits[i + 1].rip != rip);
        }
        lemma_recorded_at(hits.skip(1), rip, n - 1);
        assert(hits[0].rip != rip);
    }
    assert(recorded(hits, rip) =~= (if n < hits.len() {
        hits.update(n, WriteHit { rip, count: hits[n].count.wrapping_add(1) })
    } else {
        hits.push(WriteHit { rip, count: 1 })
    }));
}

impl WatchHandle {
    /// The instructions, those that touched the address most often first; of two that did so
    /// equally often, the one that was seen first.
    pub fn hits(&self) -> (r: Vec<WriteHit>)
        ensures
            exists|o: Seq<usize>| ranked(self.seen@, r@, o),
    {
        let mut counts: Vec<u64> = Vec::new();
        let mut i: usize = 0;
        while i < self.seen.len()
            invariant
                i <= self.seen@.len(),
                counts@ == self.seen@.take(i as int).map_values(|h: WriteHit| h.count),
            decreases self.seen.len() - i,
        {
            counts.push(self.seen[i].count);
            i += 1;
            assert(counts@ =~= self.seen@.take(i as int).map_values(|h: WriteHit| h.count));
        }
        assert(self.seen@.take(i as int) == self.seen@);
        let o = descending_order(&counts);
        let mut out: Vec<WriteHit> = Vec::new();
        let mut k: usize = 0;
        while k < o.len()
            invariant
                k <= o@.len(),
                counts@ == self.seen@.map_values(|h: WriteHit| h.count),
                sorts_down(counts@, o@),
                out@ == o@.take(k as int).map_values(|k: usize| self.seen@[k as int]),
            decreases o.len() - k,
        {
            out.push(self.seen[o[k]]);
            k += 1;
            assert(out@ =~= o@.take(k as int).map_values(|k: usize| self.seen@[k as int]));
        }
        assert(o@.take(k as int) == o@);
        assert(ranked(self.seen@, out@, o@));
        out
    }

    /// What is said of the watch.
    pub fn status(&self) -> (r: String)
        ensures
            r@ == self.message@,
    {
        self.message.clone()
    }

    /// Notes what to say of the watch.
    pub fn set_status(&mut self, s: &str)
        ensures
            final(self).message@ == s@,
            final(self).seen == old(self).seen,
            final(self).stop == old(self).stop,
    {
        self.message = s.to_owned();
    }

    /// Counts a touch.
    pub fn record_hit(&mut self, rip: u64)
        ensures
            final(self).seen@ == recorded(old(self).seen@, rip),
            each_once(old(self).seen@) ==> each_once(final(self).seen@),
            final(self).stop == old(self).stop,
            final(self).message == old(self).message,
    {
        let mut i: usize = 0;
        while i < self.seen.len()
            invariant
                *self == *old(self),
                i <= self.seen@.len(),
                forall|k: int| 0 <= k < i ==> (#[trigger] self.seen@[k]).rip != rip,
            decreases self.seen.len() - i,
        {
            if self.seen[i].rip == rip {
                proof {
                    lemma_recorded_at(self.seen@, rip, i as int);
                }
                let count = self.seen[i].count.wrapping_add(1);
                self.seen.set(i, WriteHit { rip, count });
                return;
            }
            i += 1;
        }
        proof {
            lemma_recorded_at(self.seen@, rip, i as int);
        }
        self.seen.push(WriteHit { rip, count: 1 });
    }

    /// Asks the watch to end.
    pub fn request_stop(&mut self)
        ensures
            final(self).stop,
            final(self).seen == old(self).seen,
            final(self).message == old(self).message,
    {
        self.stop = true;
    }

    /// Notes whether the process could be watched. Where it could not, the watch is over.
    pub fn attached(&mut self, ok: bool) -> (go_on: bool)
        ensures
            go_on == ok,
            final(self).message@ == (if ok {
                "monitorando…"@
            } else {
                "falha ao anexar como debugger (rode como Admin; outro debugger anexado?)."@
            }),
            final(self).seen == old(self).seen,
            final(self).stop == old(self).stop,
    {
        if ok {
            self.message = "monitorando…".to_owned();
        } else {
            self.message =
            "falha ao anexar como debugger (rode como Admin; outro debugger anexado?).".to_owned();
        }
        ok
    }

    /// Notes that the watch is over.
    pub fn ended(&mut self)
        ensures
            final(self).message@ == "parado."@,
            final(self).seen == old(self).seen,
            final(self).stop == old(self).stop,
    {
        self.message = "parado.".to_owned();
    }
}

// ---------------------------------------------------------------------------
// Events of the watched process
// ---------------------------------------------------------------------------

/// The code of a breakpoint that fired, or of a single step.
pub const SINGLE_STEP: u32 = 0x8000_0004;

/// The code of a breakpoint instruction.
pub const BREAKPOINT: u32 = 0x8000_0003;

/// What happened in the watched process. Threads are told apart by number; the handle is the
/// system's.
#[derive(Clone, Copy, PartialEq, Eq, Structural, Debug)]
pub enum DebugEvent {
    ProcessCreated { thread: u32, handle: u64 },
    ThreadCreated { thread: u32, handle: u64 },
    ThreadExited { thread: u32 },
    Exception { thread: u32, code: u32 },
    ProcessExited,
    Other,
}

/// What to do about an event.
#[derive(Clone, Copy, PartialEq, Eq, Structural, Debug)]
pub struct EventPlan {
    /// Set the breakpoint in this thread.
    pub arm: Option<u64>,
    /// See whether the breakpoint fired in this thread.
    pub check: Option<u64>,
    /// The event is dealt with; if not, the process gets it.
    pub handled: bool,
    /// The watch is over.
    pub done: bool,
}

/// What to do about an event, given the threads.
pub open spec fn plan_for(threads: Map<u32, u64>, e: DebugEvent) -> EventPlan {
    let nothing = EventPlan { arm: None, check: None, handled: true, done: false };
    match e {
        DebugEvent::ProcessCreated { handle, .. } => EventPlan { arm: Some(handle), ..nothing },
        DebugEvent::ThreadCreated { handle, .. } => EventPlan { arm: Some(handle), ..nothing },
        DebugEvent::Exception { thread, code } => if code == SINGLE_STEP {
            EventPlan {
                check: if threads.contains_key(thread) {
                    Some(threads[thread])
                } else {
                    None
                },
                ..nothing
            }
        } else {
            EventPlan { handled: code == BREAKPOINT, ..nothing }
        },
        DebugEvent::ProcessExited => EventPlan { done: true, ..nothing },
        _ => nothing,
    }
}

/// The threads after an event.
pub open spec fn threads_after(threads: Map<u32, u64>, e: DebugEvent) -> Map<u32, u64> {
    match e {
        DebugEvent::ProcessCreated { thread, handle } => threads.insert(thread, handle),
        DebugEvent::ThreadCreated { thread, handle } => threads.insert(thread, handle),
        DebugEvent::ThreadExited { thread } => threads.remove(thread),
        _ => threads,
    }
}

/// The threads of the watched process.
pub struct DebugLoop {
    threads: HashMap<u32, u64>,
}

impl View for DebugLoop {
    type V = Map<u32, u64>;

    closed spec fn view(&self) -> Map<u32, u64> {
        self.threads@
    }
}

/// The state of a watch before the first event.
pub fn debug_loop() -> (r: DebugLoop)
    ensures
        r@ == Map::<u32, u64>::empty(),
{
    DebugLoop { threads: HashMap::new() }
}

impl DebugLoop {
    /// Says what to do about an event, and keeps the list of threads.
    pub fn on_event(&mut self, e: DebugEvent) -> (r: EventPlan)
        ensures
            r == plan_for(old(self)@, e),
            final(self)@ == threads_after(old(self)@, e),
    {
        let nothing = EventPlan { arm: None, check: None, handled: true, done: false };
        match e {
            DebugEvent::ProcessCreated { thread, handle } => {
                self.threads.insert(thread, handle);
                EventPlan { arm: Some(handle), ..nothing }
            },
            DebugEvent::ThreadCreated { thread, handle } => {
                self.threads.insert(thread, handle);
                EventPlan { arm: Some(handle), ..nothing }
            },
            DebugEvent::ThreadExited { thread } => {
                self.threads.remove(&thread);
                nothing
            },
            DebugEvent::Exception { thread, code } => if code == SINGLE_STEP {
                match self.threads.get(&thread) {
                    Some(h) => EventPlan { check: Some(*h), ..nothing },
                    None => nothing,
                }
            } else {
                EventPlan { handled: code == BREAKPOINT, ..nothing }
            },
            DebugEvent::ProcessExited => EventPlan { done: true, ..nothing },
            DebugEvent::Other => nothing,
        }
    }
}

// ---------------------------------------------------------------------------
// Laws of watching
// ---------------------------------------------------------------------------

/// A breakpoint that is set is switched on, fires on writes alone or on every access, and covers one,
/// two, four or eight bytes as asked; whatever else the control register held stays.
pub proof fn law_breakpoint_is_armed(dr7: u64, kind: BreakKind, size: usize)
    ensures
        ({
            let c = control_with(dr7, kind.bits(), size_bits(size));
            &&& c & 3 == 1
            &&& kind is Write ==> (c >> 16) & 3 == 1
            &&& kind is Access ==> (c >> 16) & 3 == 3
            &&& size == 1 ==> (c >> 18) & 3 == 0
            &&& size == 2 ==> (c >> 18) & 3 == 1
            &&& size == 4 ==> (c >> 18) & 3 == 3
            &&& size == 8 ==> (c >> 18) & 3 == 2
            &&& size != 1 && size != 2 && size != 8 ==> (c >> 18) & 3 == 3
            &&& c & !0x000f_0003u64 == dr7 & !0x000f_0003u64
        }),
{
    law_control_bits(dr7, kind.bits(), size_bits(size));
}

/// A touch by an instruction that was seen before adds one to its count in its place; one by a new
/// instruction puts it at the end with a count of one. All others stay as they are.
pub proof fn law_touch_is_recorded(hits: Seq<WriteHit>, rip: u64, k: int)
    requires
        each_once(hits),
    ensures
        0 <= k < hits.len() && hits[k].rip == rip && hits[k].count < u64::MAX ==> recorded(hits, rip)
            == hits.update(k, WriteHit { rip, count: (hits[k].count + 1) as u64 }),
        (forall|i: int| 0 <= i < hits.len() ==> (#[trigger] hits[i]).rip != rip) ==> recorded(
            hits,
            rip,
        ) == hits.push(WriteHit { rip, count: 1 }),
    decreases hits.len(),
{
    if hits.len() > 0 {
        let rest = hits.skip(1);
        assert forall|i: int, j: int| 0 <= i < j < rest.len() implies (#[trigger] rest[i]).rip != (
        #[trigger] rest[j]).rip by {
            assert(rest[i] == hits[i + 1] && rest[j] == hits[j + 1]);
        }
        law_touch_is_recorded(rest, rip, k - 1);
        if 0 <= k < hits.len() && hits[k].rip == rip && hits[k].count < u64::MAX {
            let h = WriteHit { rip, count: (hits[k].count + 1) as u64 };
            if k == 0 {
                assert(recorded(hits, rip) =~= hits.update(0, h));
            } else {
                assert(hits[0].rip != hits[k].rip);
                assert(rest[k - 1] == hits[k]);
                assert(recorded(hits, rip) =~= hits.update(k, h));
            }
        }
        if forall|i: int| 0 <= i < hits.len() ==> (#[trigger] hits[i]).rip != rip {
            assert(hits[0].rip != rip);
            assert forall|i: int| 0 <= i < rest.len() implies (#[trigger] rest[i]).rip != rip by {
                assert(rest[i] == hits[i + 1]);
            }
            assert(recorded(hits, rip) =~= hits.push(WriteHit { rip, count: 1 }));
        }
    } else {
        assert(recorded(hits, rip) =~= hits.push(WriteHit { rip, count: 1 }));
    }
}

/// The instructions are shown with the most frequent first, each of those that were seen once.
pub proof fn law_most_frequent_first(hits: Seq<WriteHit>, r: Seq<WriteHit>, o: Seq<usize>)
    requires
        ranked(hits, r, o),
        hits.len() <= usize::MAX,
    ensures
        r.len() == hits.len(),
        forall|i: int, j: int|
            0 <= i < j < r.len() ==> (#[trigger] r[i]).count >= (#[trigger] r[j]).count,
        forall|k: int| 0 <= k < hits.len() ==> r.contains(#[trigger] hits[k]),
        forall|i: int| 0 <= i < r.len() ==> hits.contains(#[trigger] r[i]),
{
    let keys = hits.map_values(|h: WriteHit| h.count);
    crate::order::law_descending_order_is_stable(keys, o);
    assert forall|k: int| 0 <= k < hits.len() implies r.contains(#[trigger] hits[k]) by {
        assert(o.contains(crate::order::keys_place(k)));
        let i = choose|i: int| 0 <= i < o.len() && o[i] == k as usize;
        assert(r[i] == hits[k]);
    }
    assert forall|i: int| 0 <= i < r.len() implies hits.contains(#[trigger] r[i]) by {
        assert(r[i] == hits[o[i] as int]);
    }
    assert forall|i: int, j: int| 0 <= i < j < r.len() implies (#[trigger] r[i]).count >= (
    #[trigger] r[j]).count by {
        assert(keys[o[i] as int] == r[i].count);
        assert(keys[o[j] as int] == r[j].count);
    }
}

/// The breakpoint is set in each thread when it begins, and from then until it ends a single step in
/// that thread, whatever happened to others, is looked into by its handle.
pub proof fn law_every_thread_is_watched(
    threads: Map<u32, u64>,
    thread: u32,
    handle: u64,
    later: Seq<DebugEvent>,
)
    requires
        forall|i: int|
            0 <= i < later.len() ==> match #[trigger] later[i] {
                DebugEvent::ProcessCreated { thread: t, .. } => t != thread,
                DebugEvent::ThreadCreated { thread: t, .. } => t != thread,
                DebugEvent::ThreadExited { thread: t } => t != thread,
                _ => true,
            },
    ensures
        plan_for(threads, DebugEvent::ProcessCreated { thread, handle }).arm == Some(handle),
        plan_for(threads, DebugEvent::ThreadCreated { thread, handle }).arm == Some(handle),
        plan_for(
            after_all(threads_after(threads, DebugEvent::ThreadCreated { thread, handle }), later),
            DebugEvent::Exception { thread, code: 0x8000_0004 },
        ).check == Some(handle),
        plan_for(
            after_all(threads_after(threads, DebugEvent::ProcessCreated { thread, handle }), later),
            DebugEvent::Exception { thread, code: 0x8000_0004 },
        ).check == Some(handle),
        plan_for(
            after_all(threads_after(threads, DebugEvent::ThreadExited { thread }), later),
            DebugEvent::Exception { thread, code: 0x8000_0004 },
        ).check is None,
{
    lemma_thread_stays(threads.insert(thread, handle), thread, later);
    lemma_thread_stays(threads.remove(thread), thread, later);
}

/// The threads when events follow.
pub open spec fn after_all(threads: Map<u32, u64>, events: Seq<DebugEvent>) -> Map<u32, u64>
    decreases events.len(),
{
    if events.len() == 0 {
        threads
    } else {
        threads_after(after_all(threads, events.drop_last()), events.last())
    }
}

proof fn lemma_thread_stays(threads: Map<u32, u64>, thread: u32, later: Seq<DebugEvent>)
    requires
        forall|i: int|
            0 <= i < later.len() ==> match #[trigger] later[i] {
                DebugEvent::ProcessCreated { thread: t, .. } => t != thread,
                DebugEvent::ThreadCreated { thread: t, .. } => t != thread,
                DebugEvent::ThreadExited { thread: t } => t != thread,
                _ => true,
            },
    ensures
        after_all(threads, later).contains_key(thread) == threads.contains_key(thread),
        threads.contains_key(thread) ==> after_all(threads, later)[thread] == threads[thread],
    decreases later.len(),
{
    if later.len() > 0 {
        let r = later.drop_last();
        assert forall|i: int| 0 <= i < r.len() implies match #[trigger] r[i] {
            DebugEvent::ProcessCreated { thread: t, .. } => t != thread,
            DebugEvent::ThreadCreated { thread: t, .. } => t != thread,
            DebugEvent::ThreadExited { thread: t } => t != thread,
            _ => true,
        } by {
            assert(r[i] == later[i]);
        }
        lemma_thread_stays(threads, thread, r);
        assert(later[later.len() - 1] == later.last());
    }
}

/// Steps and breakpoint instructions are dealt with, every other exception is left to the process;
/// the watch is over when the process ends and not before.
pub proof fn law_exceptions_are_left_to_the_process(threads: Map<u32, u64>, e: DebugEvent)
    ensures
        ({
            let plan = plan_for(threads, e);
            &&& plan.done <==> e is ProcessExited
            &&& plan.handled <==> !(e matches DebugEvent::Exception { code, .. } && code
                != 0x8000_0003 && code != 0x8000_0004)
            &&& plan.check is Some ==> (e matches DebugEvent::Exception { code, .. } && code
                == 0x8000_0004)
            &&& plan.arm is Some ==> e is ProcessCreated || e is ThreadCreated
        }),
{
}

/// A thread that is armed has the breakpoint on the address and no status; it goes on where it was.
/// Where the breakpoint fired, its instruction pointer is taken once: with the status cleared, and
/// everything else as it was, nothing is found until it fires again.
pub proof fn law_hit_is_taken_once(regs: DebugRegs, addr: u64, kind: BreakKind, size: usize)
    ensures
        armed(regs, addr, kind, size).dr0 == addr,
        armed(regs, addr, kind, size).rip == regs.rip,
        consumed(armed(regs, addr, kind, size)).0 is None,
        regs.dr6 & 1 == 1 ==> consumed(regs).0 == Some(regs.rip),
        regs.dr6 & 1 == 0 ==> consumed(regs).0 is None,
        consumed(consumed(regs).1).0 is None,
        consumed(regs).1.dr0 == regs.dr0,
        consumed(regs).1.dr7 == regs.dr7,
        consumed(regs).1.rip == regs.rip,
        consumed(regs).1.dr6 == 0,
{
    assert(0u64 & 1 == 0) by (bit_vector);
}

} // verus!
