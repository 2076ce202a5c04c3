//! Modules, code bytes and the steps of changing another process's code.

use crate::text;
use crate::utf16;
use vstd::prelude::*;

verus! {

/// A module that a process has loaded.
pub struct ModuleInfo {
    pub name: String,
    pub base: u64,
    pub size: u32,
    pub path: String,
}

impl ModuleInfo {
    /// The module lies within the address space.
    pub open spec fn fits(self) -> bool {
        self.base + self.size <= u64::MAX
    }
}

/// Every module lies within the address space.
pub open spec fn modules_fit(mods: Seq<ModuleInfo>) -> bool {
    forall|i: int| 0 <= i < mods.len() ==> (#[trigger] mods[i]).fits()
}

/// The part of a sequence before its first zero.
pub open spec fn before_zero(s: Seq<u16>) -> Seq<u16>
    decreases s.len(),
{
    if s.len() == 0 || s[0] == 0 {
        Seq::empty()
    } else {
        seq![s[0]] + before_zero(s.skip(1))
    }
}

proof fn lemma_before_zero(s: Seq<u16>, n: int)
    requires
        0 <= n <= s.len(),
        forall|i: int| 0 <= i < n ==> #[trigger] s[i] != 0,
        n == s.len() || s[n] == 0,
    ensures
        before_zero(s) == s.take(n),
    decreases n,
{
    if n > 0 {
        assert(s[0] != 0);
        assert forall|i: int| 0 <= i < n - 1 implies #[trigger] s.skip(1)[i] != 0 by {
            assert(s[i + 1] != 0);
        }
        lemma_before_zero(s.skip(1), n - 1);
        assert(s.take(n) =~= seq![s[0]] + s.skip(1).take(n - 1));
    } else {
        assert(before_zero(s) =~= s.take(0));
    }
}

/// The text of a UTF-16 buffer that ends at its first zero.
pub fn wide_to_string(buf: &[u16]) -> (r: String)
    ensures
        r@ == utf16::units_text(before_zero(buf@)),
{
    let mut n: usize = 0;
    while n < buf.len() && buf[n] != 0
        invariant
            n <= buf@.len(),
            forall|i: int| 0 <= i < n ==> #[trigger] buf@[i] != 0,
        decreases buf.len() - n,
    {
        n += 1;
    }
    proof {
        lemma_before_zero(buf@, n as int);
        assert(buf@.take(n as int) == buf@.subrange(0, n as int));
    }
    utf16::decode(&buf[0..n])
}

/// The characters of a text that are not white space.
pub open spec fn without_space(s: Seq<char>) -> Seq<char> {
    s.filter(|c: char| !text::is_space(c))
}

/// The bytes that pairs of hexadecimal digits stand for.
pub open spec fn hex_pairs(s: Seq<char>) -> Option<Seq<u8>>
    decreases s.len(),
{
    if s.len() == 0 {
        Some(Seq::empty())
    } else if s.len() == 1 {
        None
    } else {
        match (text::integer(s.take(2), 16, 0, 255), hex_pairs(s.skip(2))) {
            (Some(v), Some(rest)) => Some(seq![v as u8] + rest),
            _ => None,
        }
    }
}

/// The bytes that a text in hexadecimal stands for, with white space anywhere.
pub open spec fn hex_bytes(s: Seq<char>) -> Option<Seq<u8>> {
    if without_space(s).len() == 0 {
        None
    } else {
        hex_pairs(without_space(s))
    }
}

proof fn lemma_hex_pairs_odd(s: Seq<char>)
    requires
        s.len() % 2 == 1,
    ensures
        hex_pairs(s) is None,
    decreases s.len(),
{
    if s.len() > 1 {
        lemma_hex_pairs_odd(s.skip(2));
    }
}

/// Reads bytes in hexadecimal, such as `90 90 EB FE` or `9090EBFE`. `None` where there is none,
/// where a digit is missing, and where a pair is no byte.
pub fn parse_hex_bytes(typed: &str) -> (r: Option<Vec<u8>>)
    ensures
        match r {
            Some(v) => hex_bytes(typed@) == Some(v@),
            None => hex_bytes(typed@) is None,
        },
{
    let all = text::chars_of(typed);
    let mut cs: Vec<char> = Vec::new();
    let mut i: usize = 0;
    while i < all.len()
        invariant
            i <= all.len(),
            all@ == typed@,
            cs@ == without_space(typed@.take(i as int)),
        decreases all.len() - i,
    {
        let c = all[i];
        proof {
            let t = typed@.take(i + 1);
            assert(t.drop_last() =~= typed@.take(i as int));
            reveal(Seq::filter);
        }
        if !text::is_whitespace(c) {
            cs.push(c);
        }
        i += 1;
    }
    assert(typed@.take(i as int) == typed@);
    if cs.len() == 0 {
        return None;
    }
    if cs.len() % 2 != 0 {
        proof {
            lemma_hex_pairs_odd(cs@);
        }
        return None;
    }
    let mut out: Vec<u8> = Vec::new();
    let mut k: usize = 0;
    assert(cs@.skip(0) == cs@);
    while k < cs.len()
        invariant
            cs@ == without_space(typed@),
            0 < cs.len(),
            k <= cs.len(),
            k % 2 == 0,
            cs.len() % 2 == 0,
            match (hex_pairs(cs@), hex_pairs(cs@.skip(k as int))) {
                (Some(a), Some(b)) => a == out@ + b,
                (None, None) => true,
                _ => false,
            },
        decreases cs.len() - k,
    {
        let pair = &cs.as_slice()[k..k + 2];
        proof {
            assert(pair@ =~= cs@.skip(k as int).take(2));
            assert(cs@.skip(k as int).skip(2) =~= cs@.skip(k + 2));
        }
        match text::parse_integer(pair, 16, 0, 255) {
            Some(v) => {
                let ghost before = out@;
                out.push(v as u8);
                proof {
                    if let Some(rest) = hex_pairs(cs@.skip(k + 2)) {
                        assert(before + (seq![v as u8] + rest) =~= out@ + rest);
                    }
                }
            },
            None => {
                return None;
            },
        }
        k += 2;
    }
    assert(cs@.skip(k as int).len() == 0);
    assert(out@ + Seq::<u8>::empty() =~= out@);
    Some(out)
}

/// The instruction that does nothing.
pub const NOP: u8 = 0x90;

/// The bytes of `len` instructions that do nothing.
pub fn nop(len: usize) -> (r: Vec<u8>)
    ensures
        r@ == Seq::new(len as nat, |i: int| NOP),
{
    let mut v: Vec<u8> = Vec::new();
    v.resize(len, NOP);
    assert(v@ =~= Seq::new(len as nat, |i: int| NOP));
    v
}

/// A path in UTF-16 with a zero at its end, as bytes.
pub open spec fn wide_path(path: Seq<char>) -> Seq<u8> {
    utf16::unit_bytes(utf16::text_units(path).push(0))
}

/// The bytes of a path in UTF-16 with a zero at its end.
pub fn wide_path_bytes(path: &str) -> (r: Vec<u8>)
    ensures
        r@ == wide_path(path@),
{
    let cs = text::chars_of(path);
    let mut units = utf16::encode(cs.as_slice());
    units.push(0);
    utf16::to_bytes(&units)
}

// ---------------------------------------------------------------------------
// Writing code
// ---------------------------------------------------------------------------

/// What writing code does next. The page is made writable, written and given its protection back;
/// where it cannot be made writable the bytes are written all the same.
#[derive(Clone, Copy, PartialEq, Eq, Structural, Debug)]
pub enum WriteStep {
    Unprotect,
    Write { restore: Option<u32> },
    Restore { protect: u32, written: bool },
    Done { written: bool },
}

/// How a step of writing code ended.
#[derive(Clone, Copy, PartialEq, Eq, Structural, Debug)]
pub enum WriteEvent {
    /// The page can be written; its protection was this.
    Unprotected(u32),
    /// The page's protection could not be changed.
    Refused,
    /// All bytes were written, or not.
    Written(bool),
    /// The protection was given back, or that was tried.
    Restored,
}

/// The first step of writing code.
pub fn write_code() -> (r: WriteStep)
    ensures
        r == WriteStep::Unprotect,
{
    WriteStep::Unprotect
}

impl WriteStep {
    /// The step after an event. Events that do not belong to the step change nothing.
    pub open spec fn then_do(self, e: WriteEvent) -> WriteStep {
        match (self, e) {
            (WriteStep::Unprotect, WriteEvent::Unprotected(p)) => WriteStep::Write {
                restore: Some(p),
            },
            (WriteStep::Unprotect, WriteEvent::Refused) => WriteStep::Write { restore: None },
            (WriteStep::Write { restore: Some(p) }, WriteEvent::Written(ok)) => WriteStep::Restore {
                protect: p,
                written: ok,
            },
            (WriteStep::Write { restore: None }, WriteEvent::Written(ok)) => WriteStep::Done {
                written: ok,
            },
            (WriteStep::Restore { written, .. }, WriteEvent::Restored) => WriteStep::Done {
                written,
            },
            _ => self,
        }
    }

    /// The step after an event.
    pub fn after(&self, e: WriteEvent) -> (r: WriteStep)
        ensures
            r == self.then_do(e),
    {
        match *self {
            WriteStep::Unprotect => match e {
                WriteEvent::Unprotected(p) => WriteStep::Write { restore: Some(p) },
                WriteEvent::Refused => WriteStep::Write { restore: None },
                _ => *self,
            },
            WriteStep::Write { restore } => match e {
                WriteEvent::Written(ok) => match restore {
                    Some(p) => WriteStep::Restore { protect: p, written: ok },
                    None => WriteStep::Done { written: ok },
                },
                _ => *self,
            },
            WriteStep::Restore { written, .. } => match e {
                WriteEvent::Restored => WriteStep::Done { written },
                _ => *self,
            },
            WriteStep::Done { .. } => *self,
        }
    }
}

/// Writing code tells whether the bytes were written, and a protection that was changed is given
/// back.
pub proof fn law_write_code(protect: u32, written: bool)
    ensures
        ({
            let s = WriteStep::Unprotect.then_do(WriteEvent::Unprotected(protect)).then_do(
                WriteEvent::Written(written),
            );
            &&& s == WriteStep::Restore { protect, written }
            &&& s.then_do(WriteEvent::Restored) == WriteStep::Done { written }
        }),
        WriteStep::Unprotect.then_do(WriteEvent::Refused).then_do(WriteEvent::Written(written))
            == (WriteStep::Done { written }),
{
}

// ---------------------------------------------------------------------------
// Loading a library into another process
// ---------------------------------------------------------------------------

/// What loading a library does next.
#[derive(Clone, Copy, PartialEq, Eq, Structural, Debug)]
pub enum LoadStep {
    /// Reserve memory for the path.
    Reserve,
    /// Write the path there.
    WritePath,
    /// Find the module that holds the loading routine.
    FindModule,
    /// Find the routine in it.
    FindRoutine,
    /// Start a thread in the routine.
    Start,
    /// Wait for the thread and take its exit code.
    Wait,
    /// Release the memory, then end.
    Release { exit: Option<u32> },
    Failed,
    Loaded { code: u32 },
}

/// How a step of loading a library ended.
#[derive(Clone, Copy, PartialEq, Eq, Structural, Debug)]
pub enum LoadEvent {
    /// The step succeeded, or not.
    Outcome(bool),
    /// The thread ended with this code.
    Exited(u32),
    /// The memory was released, or that was tried.
    Released,
}

/// The first step of loading a library, and the bytes of its path.
pub fn inject_dll(path: &str) -> (r: (LoadStep, Vec<u8>))
    ensures
        r.0 == LoadStep::Reserve,
        r.1@ == wide_path(path@),
{
    (LoadStep::Reserve, wide_path_bytes(path))
}

impl LoadStep {
    /// The step after an event. Events that do not belong to the step change nothing.
    pub open spec fn then_do(self, e: LoadEvent) -> LoadStep {
        match (self, e) {
            (LoadStep::Reserve, LoadEvent::Outcome(ok)) => if ok {
                LoadStep::WritePath
            } else {
                LoadStep::Failed
            },
            (LoadStep::WritePath, LoadEvent::Outcome(ok)) => if ok {
                LoadStep::FindModule
            } else {
                LoadStep::Release { exit: None }
            },
            (LoadStep::FindModule, LoadEvent::Outcome(ok)) => if ok {
                LoadStep::FindRoutine
            } else {
                LoadStep::Failed
            },
            (LoadStep::FindRoutine, LoadEvent::Outcome(ok)) => if ok {
                LoadStep::Start
            } else {
                LoadStep::Release { exit: None }
            },
            (LoadStep::Start, LoadEvent::Outcome(ok)) => if ok {
                LoadStep::Wait
            } else {
                LoadStep::Failed
            },
            (LoadStep::Wait, LoadEvent::Exited(code)) => LoadStep::Release { exit: Some(code) },
            (LoadStep::Release { exit }, LoadEvent::Released) => match exit {
                Some(code) => LoadStep::Loaded { code },
                None => LoadStep::Failed,
            },
            _ => self,
        }
    }

    /// The step after an event.
    pub fn after(&self, e: LoadEvent) -> (r: LoadStep)
        ensures
            r == self.then_do(e),
    {
        match e {
            LoadEvent::Outcome(ok) => match *self {
                LoadStep::Reserve => if ok {
                    LoadStep::WritePath
                } else {
                    LoadStep::Failed
                },
                LoadStep::WritePath => if ok {
                    LoadStep::FindModule
                } else {
                    LoadStep::Release { exit: None }
                },
                LoadStep::FindModule => if ok {
                    LoadStep::FindRoutine
                } else {
                    LoadStep::Failed
                },
                LoadStep::FindRoutine => if ok {
                    LoadStep::Start
                } else {
                    LoadStep::Release { exit: None }
                },
                LoadStep::Start => if ok {
                    LoadStep::Wait
                } else {
                    LoadStep::Failed
                },
                _ => *self,
            },
            LoadEvent::Exited(code) => match *self {
                LoadStep::Wait => LoadStep::Release { exit: Some(code) },
                _ => *self,
            },
            LoadEvent::Released => match *self {
                LoadStep::Release { exit: Some(code) } => LoadStep::Loaded { code },
                LoadStep::Release { exit: None } => LoadStep::Failed,
                _ => *self,
            },
        }
    }
}

// ---------------------------------------------------------------------------
// Laws of typed bytes and names
// ---------------------------------------------------------------------------

/// Bytes in hexadecimal digits, with the white space `gap` before each.
pub open spec fn spaced_bytes(b: Seq<u8>, gap: Seq<char>, upper: bool) -> Seq<char>
    decreases b.len(),
{
    if b.len() == 0 {
        Seq::empty()
    } else {
        gap + text::byte_text(b[0], upper) + spaced_bytes(b.skip(1), gap, upper)
    }
}

proof fn lemma_without_space(a: Seq<char>, b: Seq<char>)
    ensures
        without_space(a + b) == without_space(a) + without_space(b),
{
    Seq::filter_distributes_over_add(a, b, |c: char| !text::is_space(c));
}

proof fn lemma_blank_goes(s: Seq<char>)
    requires
        text::blank(s),
    ensures
        without_space(s).len() == 0,
    decreases s.len(),
{
    reveal(Seq::filter);
    if s.len() > 0 {
        lemma_blank_goes(s.drop_last());
    }
}

proof fn lemma_digits_stay(s: Seq<char>)
    requires
        forall|i: int| 0 <= i < s.len() ==> !text::is_space(#[trigger] s[i]),
    ensures
        without_space(s) == s,
    decreases s.len(),
{
    reveal(Seq::filter);
    if s.len() > 0 {
        lemma_digits_stay(s.drop_last());
        assert(s.drop_last().push(s.last()) =~= s);
    }
}

proof fn lemma_gap_goes(gap: Seq<char>, d: Seq<char>, t: Seq<char>)
    requires
        text::blank(gap),
        d.len() == 2,
        !text::is_space(d[0]),
        !text::is_space(d[1]),
    ensures
        without_space(gap + d + t) == d + without_space(t),
{
    lemma_without_space(gap + d, t);
    lemma_without_space(gap, d);
    lemma_blank_goes(gap);
    lemma_digits_stay(d);
    assert(without_space(gap + d) =~= d);
}

proof fn lemma_pair(d: Seq<char>, t: Seq<char>, b: u8, rest: Seq<u8>)
    requires
        d.len() == 2,
        text::integer(d, 16, 0, 255) == Some(b as int),
        hex_pairs(t) == Some(rest),
    ensures
        hex_pairs(d + t) == Some(seq![b] + rest),
{
    let w = d + t;
    assert(w.take(2) =~= d);
    assert(w.skip(2) =~= t);
}

proof fn lemma_spaced(b: Seq<u8>, gap: Seq<char>, upper: bool)
    requires
        text::blank(gap),
    ensures
        hex_pairs(without_space(spaced_bytes(b, gap, upper))) == Some(b),
        without_space(spaced_bytes(b, gap, upper)).len() == 2 * b.len(),
    decreases b.len(),
{
    let s = spaced_bytes(b, gap, upper);
    if b.len() == 0 {
        lemma_digits_stay(s);
        assert(hex_pairs(Seq::<char>::empty())->0 =~= b);
    } else {
        let rest = b.skip(1);
        lemma_spaced(rest, gap, upper);
        let t = spaced_bytes(rest, gap, upper);
        let d = text::byte_text(b[0], upper);
        text::law_byte_text_is_read(b[0], upper);
        lemma_gap_goes(gap, d, t);
        lemma_pair(d, without_space(t), b[0], rest);
        assert(seq![b[0]] + rest =~= b);
    }
}

/// Bytes typed in hexadecimal are read as these bytes, in either letter case and with whatever white
/// space before each and at the end. Where there is no digit, or half a byte is missing, there are
/// none.
pub proof fn law_typed_bytes_are_read(
    b: Seq<u8>,
    gap: Seq<char>,
    end: Seq<char>,
    half: char,
    upper: bool,
)
    requires
        text::blank(gap),
        text::blank(end),
        !text::is_space(half),
    ensures
        b.len() > 0 ==> hex_bytes(spaced_bytes(b, gap, upper) + end) == Some(b),
        hex_bytes(end) is None,
        hex_bytes(spaced_bytes(b, gap, upper) + seq![half] + end) is None,
{
    let s = spaced_bytes(b, gap, upper);
    lemma_spaced(b, gap, upper);
    lemma_without_space(s, end);
    lemma_blank_goes(end);
    assert(without_space(s + end) =~= without_space(s));
    lemma_without_space(s + seq![half], end);
    lemma_without_space(s, seq![half]);
    lemma_digits_stay(seq![half]);
    let w = without_space(s + seq![half] + end);
    assert(w =~= without_space(s) + seq![half]);
    assert(w.len() == 2 * b.len() + 1);
    lemma_hex_pairs_odd(w);
}

/// A text in a buffer ends at the first zero, or with the buffer.
pub proof fn law_text_ends_at_zero(s: Seq<u16>, rest: Seq<u16>)
    requires
        forall|i: int| 0 <= i < s.len() ==> #[trigger] s[i] != 0,
    ensures
        before_zero(s + seq![0u16] + rest) == s,
        before_zero(s) == s,
    decreases s.len(),
{
    let t = s + seq![0u16] + rest;
    if s.len() > 0 {
        let u = s.skip(1);
        assert forall|i: int| 0 <= i < u.len() implies #[trigger] u[i] != 0 by {
            assert(u[i] == s[i + 1]);
        }
        law_text_ends_at_zero(u, rest);
        assert(s[0] != 0);
        assert(t[0] == s[0]);
        assert(t.skip(1) =~= u + seq![0u16] + rest);
        assert(seq![s[0]] + u =~= s);
    }
}

proof fn lemma_units_of(c: char)
    requires
        c != '\0',
    ensures
        utf16::char_units(c).len() <= 2,
        forall|i: int|
            0 <= i < utf16::char_units(c).len() ==> #[trigger] utf16::char_units(c)[i] != 0,
{
    utf16::law_characters_in_units(c);
    assert(c as u32 != 0);
}

proof fn lemma_no_zero(s: Seq<char>)
    requires
        forall|i: int| 0 <= i < s.len() ==> #[trigger] s[i] != '\0',
    ensures
        forall|i: int|
            0 <= i < utf16::text_units(s).len() ==> #[trigger] utf16::text_units(s)[i] != 0,
    decreases s.len(),
{
    if s.len() > 0 {
        let t = s.skip(1);
        assert forall|i: int| 0 <= i < t.len() implies #[trigger] t[i] != '\0' by {
            assert(t[i] == s[i + 1]);
        }
        lemma_no_zero(t);
        let head = utf16::char_units(s[0]);
        assert(s[0] != '\0');
        lemma_units_of(s[0]);
        let all = utf16::text_units(s);
        let rest = utf16::text_units(t);
        assert forall|i: int| 0 <= i < all.len() implies #[trigger] all[i] != 0 by {
            if i < head.len() {
                assert(all[i] == head[i]);
                assert(i == 0 || i == 1);
            } else {
                assert(all[i] == rest[i - head.len()]);
            }
        }
    }
}

/// The path that is written for the loading routine is the path that a reader of UTF-16 up to the
/// first zero gets back, and two zero bytes end it.
pub proof fn law_written_path_is_read(path: Seq<char>)
    requires
        forall|i: int| 0 <= i < path.len() ==> #[trigger] path[i] != '\0',
    ensures
        utf16::units_text(before_zero(utf16::units_in(wide_path(path)))) == path,
        wide_path(path).len() >= 2,
        wide_path(path).last() == 0,
        wide_path(path)[wide_path(path).len() - 2] == 0,
{
    let us = utf16::text_units(path);
    utf16::law_units_round_trip(us.push(0));
    lemma_no_zero(path);
    law_text_ends_at_zero(us, Seq::empty());
    assert(us.push(0) =~= us + seq![0u16] + Seq::<u16>::empty());
    utf16::law_text_round_trip(path);
    utf16::law_units_stand_in_order(path, path, us.push(0), us.len() as int);
}

/// Loading a library goes through all its steps and tells the exit code of the thread; where a step
/// fails it does not load. The memory for the path is released where the path could not be written,
/// where the routine was not found, and when the thread has ended.
pub proof fn law_library_is_loaded(code: u32)
    ensures
        ({
            let ok = LoadEvent::Outcome(true);
            let no = LoadEvent::Outcome(false);
            let s1 = LoadStep::Reserve.then_do(ok);
            let s2 = s1.then_do(ok);
            let s3 = s2.then_do(ok);
            let s4 = s3.then_do(ok);
            let s5 = s4.then_do(ok);
            let s6 = s5.then_do(LoadEvent::Exited(code));
            let freed = LoadEvent::Released;
            &&& (s1, s2, s3, s4) == (
                LoadStep::WritePath,
                LoadStep::FindModule,
                LoadStep::FindRoutine,
                LoadStep::Start,
            )
            &&& s5 == LoadStep::Wait
            &&& s6 is Release
            &&& s6.then_do(freed) == LoadStep::Loaded { code }
            &&& LoadStep::Reserve.then_do(no) is Failed
            &&& s1.then_do(no) is Release && s1.then_do(no).then_do(freed) is Failed
            &&& s2.then_do(no) is Failed
            &&& s3.then_do(no) is Release && s3.then_do(no).then_do(freed) is Failed
            &&& s4.then_do(no) is Failed
        }),
{
}

/// Whatever happens, only a thread that has ended makes a library count as loaded, and what has failed
/// or loaded stays so.
pub proof fn law_loading_ends_once(s: LoadStep, e: LoadEvent)
    ensures
        s is Failed ==> s.then_do(e) is Failed,
        s is Loaded ==> s.then_do(e) == s,
        s.then_do(e) matches LoadStep::Loaded { code } ==> s == s.then_do(e) || s == (
        LoadStep::Release { exit: Some(code) }),
        s.then_do(e) matches LoadStep::Release { exit: Some(code) } ==> s == s.then_do(e) || (s
            is Wait && e == LoadEvent::Exited(code)),
{
}

/// Whatever happens, writing code is over only after the bytes were written or could not be, and a
/// protection that was changed is the one that is given back.
pub proof fn law_writing_ends_once(s: WriteStep, e: WriteEvent)
    ensures
        s is Done ==> s.then_do(e) == s,
        s.then_do(e) matches WriteStep::Restore { protect, written } ==> s == s.then_do(e) || (s == (
        WriteStep::Write { restore: Some(protect) }) && e == WriteEvent::Written(written)),
        s.then_do(e) matches WriteStep::Done { written } ==> s == s.then_do(e) || (s == (
        WriteStep::Write { restore: None }) && e == WriteEvent::Written(written)) || (e
            is Restored && (s matches WriteStep::Restore { written: w, .. } && w == written)),
        s.then_do(e) matches WriteStep::Write { restore: Some(p) } ==> s == s.then_do(e) || (s
            is Unprotect && e == WriteEvent::Unprotected(p)),
{
}

pub(crate) proof fn lemma_spaced_push(b: Seq<u8>, gap: Seq<char>, last: u8, upper: bool)
    ensures
        spaced_bytes(b.push(last), gap, upper) == spaced_bytes(b, gap, upper) + gap
            + text::byte_text(last, upper),
    decreases b.len(),
{
    let all = b.push(last);
    if b.len() == 0 {
        assert(all.skip(1) =~= Seq::<u8>::empty());
        assert(all[0] == last);
        assert(spaced_bytes(Seq::<u8>::empty(), gap, upper) =~= Seq::<char>::empty());
        assert(b =~= Seq::<u8>::empty());
        assert(spaced_bytes(all, gap, upper) =~= spaced_bytes(b, gap, upper) + gap
            + text::byte_text(last, upper));
    } else {
        lemma_spaced_push(b.skip(1), gap, last, upper);
        assert(all.skip(1) =~= b.skip(1).push(last));
        assert(spaced_bytes(all, gap, upper) =~= spaced_bytes(b, gap, upper) + gap
            + text::byte_text(last, upper));
    }
}

/// White space before the digits changes nothing.
pub(crate) proof fn lemma_leading_space(s: Seq<char>)
    ensures
        hex_bytes(seq![' '] + s) == hex_bytes(s),
{
    assert(text::is_space(' '));
    lemma_without_space(seq![' '], s);
    lemma_blank_goes(seq![' ']);
    assert(without_space(seq![' '] + s) =~= without_space(s));
}

} // verus!
