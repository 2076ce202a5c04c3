//! What a search looks for, and how a value is compared.

use crate::bytes::le_bytes;
use crate::ieee;
use crate::value::{law_integer_is_read, law_typed_float_is_read, written, ValueType};
use vstd::arithmetic::power2::pow2;
use vstd::prelude::*;

verus! {

/// How a value is compared in a search.
#[derive(Clone, Copy, PartialEq, Eq, Structural, Debug)]
pub enum ScanKind {
    Exact,
    BiggerThan,
    SmallerThan,
    /// A value within two bounds, both of them included.
    Between,
    /// Comparisons with the previous search.
    Changed,
    Unchanged,
    Increased,
    Decreased,
}

impl ScanKind {
    /// The comparison is with a value that was typed.
    pub open spec fn by_value(self) -> bool {
        self is Exact || self is BiggerThan || self is SmallerThan || self is Between
    }

    /// Tells whether the comparison needs at least one value.
    pub fn needs_value(&self) -> (r: bool)
        ensures
            r == self.by_value(),
    {
        matches!(
            self,
            ScanKind::Exact | ScanKind::BiggerThan | ScanKind::SmallerThan | ScanKind::Between
        )
    }

    /// Tells whether the comparison needs two values.
    pub fn needs_two(&self) -> (r: bool)
        ensures
            r == (self is Between),
    {
        matches!(self, ScanKind::Between)
    }

    /// The name of the comparison.
    pub open spec fn name(self) -> Seq<char> {
        match self {
            ScanKind::Exact => "Valor exato"@,
            ScanKind::BiggerThan => "Maior que"@,
            ScanKind::SmallerThan => "Menor que"@,
            ScanKind::Between => "Entre (intervalo)"@,
            ScanKind::Changed => "Mudou"@,
            ScanKind::Unchanged => "Nao mudou"@,
            ScanKind::Increased => "Aumentou"@,
            ScanKind::Decreased => "Diminuiu"@,
        }
    }
}

/// The name of a comparison.
pub fn scan_kind_label(k: ScanKind) -> (r: &'static str)
    ensures
        r@ == k.name(),
{
    match k {
        ScanKind::Exact => "Valor exato",
        ScanKind::BiggerThan => "Maior que",
        ScanKind::SmallerThan => "Menor que",
        ScanKind::Between => "Entre (intervalo)",
        ScanKind::Changed => "Mudou",
        ScanKind::Unchanged => "Nao mudou",
        ScanKind::Increased => "Aumentou",
        ScanKind::Decreased => "Diminuiu",
    }
}

/// The targets of a comparison: precise for integers, and as 64-bit patterns for floating-point
/// numbers.
#[derive(Clone, Copy, PartialEq, Eq, Structural, Debug)]
pub struct ScanCmp {
    pub kind: ScanKind,
    pub t1_i: i128,
    pub t2_i: i128,
    pub t1_f: u64,
    pub t2_f: u64,
}

impl ScanCmp {
    /// A comparison with the previous search, without targets.
    pub fn relative(kind: ScanKind) -> (r: ScanCmp)
        ensures
            r == (ScanCmp { kind, t1_i: 0, t2_i: 0, t1_f: 0, t2_f: 0 }),
    {
        ScanCmp { kind, t1_i: 0, t2_i: 0, t1_f: 0, t2_f: 0 }
    }
}

/// A value as it was last seen: an integer, or a floating-point number by its 64-bit pattern.
#[derive(Clone, Copy, PartialEq, Eq, Structural, Debug)]
pub enum Known {
    Int(i128),
    Float(u64),
}

impl Known {
    /// An integer within the range of the 64-bit kinds.
    pub open spec fn fits(self) -> bool {
        self matches Known::Int(v) ==> -0x1_0000_0000_0000_0000 <= v <= 0x1_0000_0000_0000_0000
    }

    /// The value as a floating-point pattern; an integer gives the nearest one.
    pub open spec fn pattern(self) -> u64 {
        match self {
            Known::Int(v) => ieee::int_pattern(v as int) as u64,
            Known::Float(b) => b,
        }
    }

    /// The value as an integer; a floating-point number gives its integer part.
    pub open spec fn whole(self) -> int {
        match self {
            Known::Int(v) => v as int,
            Known::Float(b) => ieee::integer_part(b),
        }
    }

    /// The value as a floating-point pattern.
    pub fn as_pattern(&self) -> (r: u64)
        requires
            self.fits(),
        ensures
            r == self.pattern(),
    {
        match *self {
            Known::Int(v) => ieee::from_integer(v),
            Known::Float(b) => b,
        }
    }

    /// The value as an integer.
    pub fn as_whole(&self) -> (r: i128)
        ensures
            r == self.whole(),
    {
        match *self {
            Known::Int(v) => v,
            Known::Float(b) => ieee::truncate(b),
        }
    }
}

/// What is known before any search: nothing that a number could equal.
pub open spec fn unknown() -> Known {
    Known::Float(ieee::NAN)
}

/// What a search remembers of a text: nothing.
pub open spec fn no_number() -> Known {
    Known::Float(0)
}

/// An address that a search found, with the value last seen there.
#[derive(Clone, Copy, PartialEq, Eq, Structural, Debug)]
pub struct Match {
    pub address: u64,
    pub last: Known,
}

/// Every remembered value fits.
pub open spec fn all_fit(matches: Seq<Match>) -> bool {
    forall|i: int| 0 <= i < matches.len() ==> (#[trigger] matches[i]).last.fits()
}

/// The value that `bytes` begin with.
pub open spec fn known_in(vt: ValueType, bytes: Seq<u8>) -> Option<Known> {
    if vt.float_kind() {
        match vt.float_in(bytes) {
            Some(p) => Some(Known::Float(p as u64)),
            None => None,
        }
    } else {
        match vt.int_in(bytes) {
            Some(v) => Some(Known::Int(v as i128)),
            None => None,
        }
    }
}

/// Reads the value that `bytes` begin with.
pub fn read_known(vt: ValueType, bytes: &[u8]) -> (r: Option<Known>)
    ensures
        r == known_in(vt, bytes@),
        r matches Some(k) ==> k.fits() && (k is Float <==> vt.float_kind()),
{
    if vt.is_float() {
        match vt.read_f64(bytes) {
            Some(p) => Some(Known::Float(p)),
            None => None,
        }
    } else {
        match vt.read_i128(bytes) {
            Some(v) => {
                proof {
                    crate::bytes::lemma_span_values();
                }
                Some(Known::Int(v))
            },
            None => None,
        }
    }
}

/// A comparison of floating-point numbers, given by their patterns.
pub open spec fn float_test(c: ScanCmp, v: u64, prev: u64) -> bool {
    match c.kind {
        ScanKind::Exact => ieee::eq(v, c.t1_f),
        ScanKind::BiggerThan => ieee::lt(c.t1_f, v),
        ScanKind::SmallerThan => ieee::lt(v, c.t1_f),
        ScanKind::Between => (ieee::lt(c.t1_f, v) || ieee::eq(c.t1_f, v)) && (ieee::lt(v, c.t2_f)
            || ieee::eq(v, c.t2_f)),
        ScanKind::Changed => !ieee::eq(v, prev),
        ScanKind::Unchanged => ieee::eq(v, prev),
        ScanKind::Increased => ieee::lt(prev, v),
        ScanKind::Decreased => ieee::lt(v, prev),
    }
}

/// A comparison of integers.
pub open spec fn int_test(c: ScanCmp, v: int, prev: int) -> bool {
    match c.kind {
        ScanKind::Exact => v == c.t1_i,
        ScanKind::BiggerThan => v > c.t1_i,
        ScanKind::SmallerThan => v < c.t1_i,
        ScanKind::Between => c.t1_i <= v <= c.t2_i,
        ScanKind::Changed => v != prev,
        ScanKind::Unchanged => v == prev,
        ScanKind::Increased => v > prev,
        ScanKind::Decreased => v < prev,
    }
}

/// A comparison of the value `v` with the one seen before, `prev`.
pub open spec fn known_test(c: ScanCmp, v: Known, prev: Known) -> bool {
    match v {
        Known::Float(b) => float_test(c, b, prev.pattern()),
        Known::Int(i) => int_test(c, i as int, prev.whole()),
    }
}

fn test_known(c: &ScanCmp, v: Known, prev: Known) -> (r: bool)
    requires
        prev.fits(),
    ensures
        r == known_test(*c, v, prev),
{
    match v {
        Known::Float(b) => match c.kind {
            ScanKind::Exact => ieee::equal(b, c.t1_f),
            ScanKind::BiggerThan => ieee::less(c.t1_f, b),
            ScanKind::SmallerThan => ieee::less(b, c.t1_f),
            ScanKind::Between => (ieee::less(c.t1_f, b) || ieee::equal(c.t1_f, b)) && (ieee::less(
                b,
                c.t2_f,
            ) || ieee::equal(b, c.t2_f)),
            ScanKind::Changed => !ieee::equal(b, prev.as_pattern()),
            ScanKind::Unchanged => ieee::equal(b, prev.as_pattern()),
            ScanKind::Increased => ieee::less(prev.as_pattern(), b),
            ScanKind::Decreased => ieee::less(b, prev.as_pattern()),
        },
        Known::Int(i) => match c.kind {
            ScanKind::Exact => i == c.t1_i,
            ScanKind::BiggerThan => i > c.t1_i,
            ScanKind::SmallerThan => i < c.t1_i,
            ScanKind::Between => c.t1_i <= i && i <= c.t2_i,
            ScanKind::Changed => i != prev.as_whole(),
            ScanKind::Unchanged => i == prev.as_whole(),
            ScanKind::Increased => i > prev.as_whole(),
            ScanKind::Decreased => i < prev.as_whole(),
        },
    }
}

/// What comparing the value that `bytes` begin with gives; nothing where there is no such value.
pub open spec fn compared(vt: ValueType, c: ScanCmp, bytes: Seq<u8>, prev: Known) -> Option<bool> {
    match known_in(vt, bytes) {
        Some(v) => Some(known_test(c, v, prev)),
        None => None,
    }
}

/// Compares the value that `cur` begins with. Integers are compared precisely. `prev` is the value
/// seen before, which only the relative comparisons look at.
pub fn compare(vt: ValueType, c: &ScanCmp, cur: &[u8], prev: Known) -> (r: Option<bool>)
    requires
        prev.fits(),
    ensures
        r == compared(vt, *c, cur@, prev),
{
    match read_known(vt, cur) {
        Some(v) => Some(test_known(c, v, prev)),
        None => None,
    }
}

/// What comparing two readings gives: the old one is needed by the relative comparisons alone.
pub open spec fn compared_pair(
    vt: ValueType,
    c: ScanCmp,
    oldb: Seq<u8>,
    newb: Seq<u8>,
) -> Option<bool> {
    match known_in(vt, newb) {
        None => None,
        Some(n) => if c.kind.by_value() {
            Some(known_test(c, n, no_number()))
        } else {
            match known_in(vt, oldb) {
                None => None,
                Some(o) => Some(known_test(c, n, o)),
            }
        },
    }
}

/// Compares the value that `newb` begins with, with the targets or with the value that `oldb`
/// begins with.
pub fn compare_pair(vt: ValueType, c: &ScanCmp, oldb: &[u8], newb: &[u8]) -> (r: Option<bool>)
    ensures
        r == compared_pair(vt, *c, oldb@, newb@),
{
    match read_known(vt, newb) {
        None => None,
        Some(n) => if c.kind.needs_value() {
            Some(test_known(c, n, Known::Float(0)))
        } else {
            match read_known(vt, oldb) {
                None => None,
                Some(o) => Some(test_known(c, n, o)),
            }
        },
    }
}

/// A comparison by value does not look at the value seen before.
pub proof fn law_by_value_ignores_previous(c: ScanCmp, v: Known, p: Known, q: Known)
    requires
        c.kind.by_value(),
    ensures
        known_test(c, v, p) == known_test(c, v, q),
{
}

/// Of two readings of one kind, exactly one of "changed" and "unchanged" holds; and of integers
/// exactly one of "increased", "decreased" and "unchanged".
pub proof fn law_relative_kinds_partition(vt: ValueType, oldb: Seq<u8>, newb: Seq<u8>, c: ScanCmp)
    requires
        known_in(vt, oldb) is Some,
        known_in(vt, newb) is Some,
    ensures
        ({
            let t = |k: ScanKind| compared_pair(vt, ScanCmp { kind: k, ..c }, oldb, newb)->0;
            &&& t(ScanKind::Changed) == !t(ScanKind::Unchanged)
            &&& vt.int_kind() ==> {
                &&& t(ScanKind::Increased) || t(ScanKind::Decreased) || t(ScanKind::Unchanged)
                &&& !(t(ScanKind::Increased) && t(ScanKind::Decreased))
                &&& !(t(ScanKind::Increased) && t(ScanKind::Unchanged))
                &&& !(t(ScanKind::Decreased) && t(ScanKind::Unchanged))
            }
        }),
{
}

/// The progress of a search, which the search and its watcher share.
#[derive(Clone, Copy, PartialEq, Eq, Structural, Debug)]
pub struct ScanProgress {
    pub done: usize,
    pub total: usize,
    pub matches: usize,
    pub cancel: bool,
}

impl ScanProgress {
    /// A search of `total` steps, at least one, that has not begun.
    pub fn new(total: usize) -> (r: ScanProgress)
        ensures
            r == (ScanProgress {
                done: 0,
                total: if total == 0 {
                    1
                } else {
                    total
                },
                matches: 0,
                cancel: false,
            }),
    {
        ScanProgress {
            done: 0,
            total: if total == 0 {
                1
            } else {
                total
            },
            matches: 0,
            cancel: false,
        }
    }

    /// How much is done, as a numerator and a denominator.
    pub open spec fn part_done(self) -> (usize, usize) {
        let whole: usize = if self.total == 0 {
            1
        } else {
            self.total
        };
        (
            if self.done > whole {
                whole
            } else {
                self.done
            },
            whole,
        )
    }

    /// How much is done, as a fraction of at most one: its numerator and its denominator.
    pub fn fraction(&self) -> (r: (usize, usize))
        ensures
            r == self.part_done(),
    {
        let total: usize = if self.total == 0 {
            1
        } else {
            self.total
        };
        (
            if self.done > total {
                total
            } else {
                self.done
            },
            total,
        )
    }

    /// How many matches there are so far.
    pub fn matches_count(&self) -> (r: usize)
        ensures
            r == self.matches,
    {
        self.matches
    }

    /// Asks the search to stop.
    pub fn request_cancel(&mut self)
        ensures
            *final(self) == (ScanProgress { cancel: true, ..*old(self) }),
    {
        self.cancel = true;
    }
}

/// The results of the searches so far.
pub struct Scanner {
    pub value_type: ValueType,
    pub fast_scan: bool,
    pub matches: Vec<Match>,
    pub has_scanned: bool,
}

impl Scanner {
    /// A scanner without results, which looks at aligned addresses.
    pub fn new(value_type: ValueType) -> (r: Scanner)
        ensures
            r.value_type == value_type,
            r.fast_scan,
            r.matches@ == Seq::<Match>::empty(),
            !r.has_scanned,
    {
        Scanner { value_type, fast_scan: true, matches: Vec::new(), has_scanned: false }
    }

    /// Forgets the results.
    pub fn reset(&mut self)
        ensures
            final(self).value_type == old(self).value_type,
            final(self).fast_scan == old(self).fast_scan,
            final(self).matches@ == Seq::<Match>::empty(),
            !final(self).has_scanned,
    {
        self.matches.clear();
        self.has_scanned = false;
    }
}

// ---------------------------------------------------------------------------
// What the comparisons mean
// ---------------------------------------------------------------------------

/// Integers are compared by what their bytes denote: "bigger" accepts exactly the integers greater
/// than the target, "smaller" the lesser ones, "exact" the equal one, and "between" those from the
/// first target to the second. The relative comparisons look at the integer seen before in the same
/// way.
pub proof fn law_integers_compare_by_number(
    vt: ValueType,
    c: ScanCmp,
    v: int,
    rest: Seq<u8>,
    before: i128,
)
    requires
        vt.int_kind(),
        vt.lowest() <= v <= vt.highest(),
    ensures
        ({
            let r = compared(vt, c, written(vt, v) + rest, Known::Int(before));
            &&& known_in(vt, written(vt, v) + rest) == Some(Known::Int(v as i128))
            &&& r is Some
            &&& c.kind is Exact ==> (r->0 <==> v == c.t1_i)
            &&& c.kind is BiggerThan ==> (r->0 <==> c.t1_i < v)
            &&& c.kind is SmallerThan ==> (r->0 <==> v < c.t1_i)
            &&& c.kind is Between ==> (r->0 <==> c.t1_i <= v && v <= c.t2_i)
            &&& c.kind is Changed ==> (r->0 <==> v != before)
            &&& c.kind is Unchanged ==> (r->0 <==> v == before)
            &&& c.kind is Increased ==> (r->0 <==> before < v)
            &&& c.kind is Decreased ==> (r->0 <==> v < before)
        }),
{
    crate::bytes::lemma_span_values();
    law_integer_is_read(vt, v, rest, Seq::empty());
}

/// Of "bigger", "smaller" and "exact" with one target exactly one accepts an integer; and what is
/// bigger than an integer that "bigger" accepts, it accepts too, and likewise for "smaller".
pub proof fn law_targets_divide_the_integers(
    vt: ValueType,
    c: ScanCmp,
    v: int,
    w: int,
    prev: Known,
)
    requires
        vt.int_kind(),
        vt.lowest() <= v <= vt.highest(),
        vt.lowest() <= w <= vt.highest(),
    ensures
        ({
            let t = |k: ScanKind, x: int|
                compared(vt, ScanCmp { kind: k, ..c }, written(vt, x), prev)->0;
            &&& t(ScanKind::BiggerThan, v) || t(ScanKind::SmallerThan, v) || t(ScanKind::Exact, v)
            &&& !(t(ScanKind::BiggerThan, v) && t(ScanKind::SmallerThan, v))
            &&& !(t(ScanKind::BiggerThan, v) && t(ScanKind::Exact, v))
            &&& !(t(ScanKind::SmallerThan, v) && t(ScanKind::Exact, v))
            &&& v <= w && t(ScanKind::BiggerThan, v) ==> t(ScanKind::BiggerThan, w)
            &&& w <= v && t(ScanKind::SmallerThan, v) ==> t(ScanKind::SmallerThan, w)
        }),
{
    crate::bytes::lemma_span_values();
    law_integer_is_read(vt, v, Seq::empty(), Seq::empty());
    law_integer_is_read(vt, w, Seq::empty(), Seq::empty());
    assert(written(vt, v) + Seq::<u8>::empty() =~= written(vt, v));
    assert(written(vt, w) + Seq::<u8>::empty() =~= written(vt, w));
}

/// What comparing a floating-point number gives, where it, the targets and the number seen before
/// stand for the numbers `v`, `t1`, `t2` and `before`.
pub open spec fn agrees(c: ScanCmp, r: Option<bool>, v: int, t1: int, t2: int, before: int) -> bool {
    &&& r is Some
    &&& c.kind is Exact ==> (r->0 <==> v == t1)
    &&& c.kind is BiggerThan ==> (r->0 <==> t1 < v)
    &&& c.kind is SmallerThan ==> (r->0 <==> v < t1)
    &&& c.kind is Between ==> (r->0 <==> t1 <= v && v <= t2)
    &&& c.kind is Changed ==> (r->0 <==> v != before)
    &&& c.kind is Unchanged ==> (r->0 <==> v == before)
    &&& c.kind is Increased ==> (r->0 <==> before < v)
    &&& c.kind is Decreased ==> (r->0 <==> v < before)
}

/// Floating-point numbers are compared by the real numbers that they stand for, between the two
/// infinities.
pub proof fn law_floats_compare_by_number(
    c: ScanCmp,
    v: u64,
    single: u32,
    rest: Seq<u8>,
    before: u64,
)
    requires
        !ieee::is_nan(v),
        (single as int / 0x80_0000) % 256 != 255,
        !ieee::is_nan(before),
        !ieee::is_nan(c.t1_f),
        !ieee::is_nan(c.t2_f),
    ensures
        agrees(
            c,
            compared(ValueType::F64, c, le_bytes(v as nat, 8) + rest, Known::Float(before)),
            ieee::extended(v),
            ieee::extended(c.t1_f),
            ieee::extended(c.t2_f),
            ieee::extended(before),
        ),
        agrees(
            c,
            compared(ValueType::F32, c, le_bytes(single as nat, 4) + rest, Known::Float(before)),
            ieee::single_units(single) * pow2(925),
            ieee::extended(c.t1_f),
            ieee::extended(c.t2_f),
            ieee::extended(before),
        ),
{
    law_typed_float_is_read(Seq::empty(), v, single, rest);
    ieee::lemma_widened_fits(single);
    let w = ieee::widened(single) as u64;
    ieee::law_widening_is_exact(single, w);
    ieee::law_order_is_extended(v, c.t1_f);
    ieee::law_order_is_extended(c.t1_f, v);
    ieee::law_order_is_extended(v, c.t2_f);
    ieee::law_order_is_extended(v, before);
    ieee::law_order_is_extended(before, v);
    ieee::law_order_is_extended(w, c.t1_f);
    ieee::law_order_is_extended(c.t1_f, w);
    ieee::law_order_is_extended(w, c.t2_f);
    ieee::law_order_is_extended(w, before);
    ieee::law_order_is_extended(before, w);
}

/// What is not a number is neither equal to, bigger than, smaller than nor between anything, and
/// counts as changed; so does a number that is compared with what is not one.
pub proof fn law_not_a_number_is_never_found(c: ScanCmp, v: u64, rest: Seq<u8>, before: u64)
    ensures
        ({
            let r = compared(ValueType::F64, c, le_bytes(v as nat, 8) + rest, Known::Float(before));
            &&& ieee::is_nan(v) ==> r == Some(c.kind is Changed)
            &&& ieee::is_nan(before) && !c.kind.by_value() ==> r == Some(c.kind is Changed)
            &&& ieee::is_nan(c.t1_f) && c.kind.by_value() ==> r == Some(false)
        }),
{
    law_typed_float_is_read(Seq::empty(), v, 0, rest);
}

/// Two readings are compared as one reading is with the other remembered; a comparison by value
/// does not look at the older one.
pub proof fn law_pairs_compare_like_values(
    vt: ValueType,
    c: ScanCmp,
    oldb: Seq<u8>,
    newb: Seq<u8>,
    prev: Known,
)
    ensures
        c.kind is Changed || c.kind is Unchanged || c.kind is Increased || c.kind is Decreased ==> {
            &&& known_in(vt, oldb) matches Some(o) ==> compared_pair(vt, c, oldb, newb) == compared(
                vt,
                c,
                newb,
                o,
            )
            &&& known_in(vt, oldb) is None ==> compared_pair(vt, c, oldb, newb) is None
        },
        c.kind is Exact || c.kind is BiggerThan || c.kind is SmallerThan || c.kind is Between
            ==> compared_pair(vt, c, oldb, newb) == compared(vt, c, newb, prev),
{
}

/// Where nothing was seen before, the relative comparisons take an integer as compared with zero,
/// and find of floating-point numbers that each has changed.
pub proof fn law_nothing_known_counts_as_zero(vt: ValueType, c: ScanCmp, v: int, rest: Seq<u8>, bits: u64)
    requires
        vt.int_kind(),
        vt.lowest() <= v <= vt.highest(),
        !c.kind.by_value(),
    ensures
        compared(vt, c, written(vt, v) + rest, unknown()) == Some(
            match c.kind {
                ScanKind::Changed => v != 0,
                ScanKind::Unchanged => v == 0,
                ScanKind::Increased => v > 0,
                _ => v < 0,
            },
        ),
        compared(ValueType::F64, c, le_bytes(bits as nat, 8) + rest, unknown()) == Some(
            c.kind is Changed,
        ),
{
    law_integers_compare_by_number(vt, c, v, rest, 0);
    law_not_a_number_is_never_found(c, bits, rest, ieee::NAN);
}

/// Each comparison has its own name, by which it is told from the others.
pub proof fn law_comparisons_have_their_names(k: ScanKind)
    ensures
        k is Exact <==> k.name() == "Valor exato"@,
        k is BiggerThan <==> k.name() == "Maior que"@,
        k is SmallerThan <==> k.name() == "Menor que"@,
        k is Between <==> k.name() == "Entre (intervalo)"@,
        k is Changed <==> k.name() == "Mudou"@,
        k is Unchanged <==> k.name() == "Nao mudou"@,
        k is Increased <==> k.name() == "Aumentou"@,
        k is Decreased <==> k.name() == "Diminuiu"@,
{
    reveal_strlit("Valor exato");
    assert("Valor exato"@[0] == 'V');
    assert("Valor exato"@[1] == 'a');
    reveal_strlit("Maior que");
    assert("Maior que"@[0] == 'M');
    assert("Maior que"@[1] == 'a');
    reveal_strlit("Menor que");
    assert("Menor que"@[0] == 'M');
    assert("Menor que"@[1] == 'e');
    reveal_strlit("Entre (intervalo)");
    assert("Entre (intervalo)"@[0] == 'E');
    assert("Entre (intervalo)"@[1] == 'n');
    reveal_strlit("Mudou");
    assert("Mudou"@[0] == 'M');
    assert("Mudou"@[1] == 'u');
    reveal_strlit("Nao mudou");
    assert("Nao mudou"@[0] == 'N');
    assert("Nao mudou"@[1] == 'a');
    reveal_strlit("Aumentou");
    assert("Aumentou"@[0] == 'A');
    assert("Aumentou"@[1] == 'u');
    reveal_strlit("Diminuiu");
    assert("Diminuiu"@[0] == 'D');
    assert("Diminuiu"@[1] == 'i');
}

/// How much is done is a fraction from nought to one, which never falls as more is done: nought at the
/// start, and one once all steps are done.
pub proof fn law_part_done_rises(p: ScanProgress, more: usize)
    requires
        p.done <= more,
    ensures
        ({
            let (n, d) = p.part_done();
            let (m, e) = (ScanProgress { done: more, ..p }).part_done();
            &&& 0 <= n <= d
            &&& d == e
            &&& n <= m
            &&& p.total > 0 ==> d == p.total
            &&& p.total == 0 ==> d == 1
            &&& p.done == 0 ==> n == 0
            &&& p.done <= d ==> n == p.done
            &&& p.done >= p.total && p.done > 0 ==> n == d
        }),
{
}

} // verus!
