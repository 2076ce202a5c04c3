//! The kinds of value that can be searched, shown and written.

use crate::bytes::{le_bytes, le_int, le_nat, read_le, span, wrapped};
use crate::{ieee, text, utf16};
use vstd::prelude::*;
use vstd::string::*;

verus! {

/// The kind of a value in memory.
#[derive(Clone, Copy, PartialEq, Eq, Structural, Debug)]
pub enum ValueType {
    I8,
    I16,
    I32,
    I64,
    U8,
    U16,
    U32,
    U64,
    F32,
    F64,
    StringUtf8,
    StringUtf16,
}

/// How a value is shown: as a finished text, or as a floating-point number that is still to be
/// written out, given by its 64-bit pattern.
pub enum Shown {
    Text(String),
    Float(u64),
}

impl ValueType {
    /// Tells whether the kind is a text.
    pub open spec fn text_kind(self) -> bool {
        self is StringUtf8 || self is StringUtf16
    }

    /// Tells whether the kind is a floating-point number.
    pub open spec fn float_kind(self) -> bool {
        self is F32 || self is F64
    }

    /// Tells whether the kind is an integer.
    pub open spec fn int_kind(self) -> bool {
        !self.text_kind() && !self.float_kind()
    }

    /// Tells whether the kind is an integer with a sign.
    pub open spec fn signed_kind(self) -> bool {
        self is I8 || self is I16 || self is I32 || self is I64
    }

    /// How many bytes a value takes; 0 for a text, whose length varies.
    pub open spec fn width(self) -> nat {
        match self {
            ValueType::I8 | ValueType::U8 => 1,
            ValueType::I16 | ValueType::U16 => 2,
            ValueType::I32 | ValueType::U32 | ValueType::F32 => 4,
            ValueType::I64 | ValueType::U64 | ValueType::F64 => 8,
            ValueType::StringUtf8 | ValueType::StringUtf16 => 0,
        }
    }

    /// The smallest integer of the kind.
    pub open spec fn lowest(self) -> int {
        if self.signed_kind() {
            -(span(self.width()) as int / 2)
        } else {
            0
        }
    }

    /// The largest integer of the kind.
    pub open spec fn highest(self) -> int {
        if self.signed_kind() {
            span(self.width()) as int / 2 - 1
        } else {
            span(self.width()) as int - 1
        }
    }

    /// The integer that `bytes` begin with.
    pub open spec fn int_in(self, bytes: Seq<u8>) -> Option<int> {
        if !self.int_kind() || bytes.len() < self.width() {
            None
        } else if self.signed_kind() {
            Some(le_int(bytes.take(self.width() as int)))
        } else {
            Some(le_nat(bytes.take(self.width() as int)) as int)
        }
    }

    /// The 64-bit floating-point pattern of the number that `bytes` begin with; an integer gives
    /// the pattern nearest to it.
    pub open spec fn float_in(self, bytes: Seq<u8>) -> Option<int> {
        if self.text_kind() || bytes.len() < self.width() {
            None
        } else if self is F32 {
            Some(ieee::widened(le_nat(bytes.take(4)) as u32))
        } else if self is F64 {
            Some(le_nat(bytes.take(8)) as int)
        } else {
            Some(ieee::int_pattern(self.int_in(bytes)->0))
        }
    }

    /// The bytes of the value that a text denotes. A text kind takes the characters as they
    /// stand; an integer is written in decimal with white space around it ignored; a
    /// floating-point number is given by `pattern`, the bits that the text denotes in the kind.
    pub open spec fn bytes_of(self, s: Seq<char>, pattern: Option<u64>) -> Option<Seq<u8>> {
        if self is StringUtf8 {
            Some(vstd::utf8::encode_utf8(s))
        } else if self is StringUtf16 {
            Some(utf16::unit_bytes(utf16::text_units(s)))
        } else if self.float_kind() {
            match pattern {
                Some(p) => Some(le_bytes(p as nat, self.width())),
                None => None,
            }
        } else {
            match text::integer(text::trimmed(s), 10, self.lowest(), self.highest()) {
                Some(v) => Some(le_bytes(wrapped(v, self.width()), self.width())),
                None => None,
            }
        }
    }

    /// The text in `bytes`.
    pub open spec fn text_in(self, bytes: Seq<u8>) -> Seq<char> {
        if self is StringUtf16 {
            utf16::units_text(utf16::units_in(bytes))
        } else {
            text::utf8_lossy(bytes)
        }
    }

    /// The name of the kind.
    pub open spec fn name(self) -> Seq<char> {
        match self {
            ValueType::I8 => "Byte (i8)"@,
            ValueType::I16 => "2 Bytes (i16)"@,
            ValueType::I32 => "4 Bytes (i32)"@,
            ValueType::I64 => "8 Bytes (i64)"@,
            ValueType::U8 => "Byte (u8)"@,
            ValueType::U16 => "2 Bytes (u16)"@,
            ValueType::U32 => "4 Bytes (u32)"@,
            ValueType::U64 => "8 Bytes (u64)"@,
            ValueType::F32 => "Float (f32)"@,
            ValueType::F64 => "Double (f64)"@,
            ValueType::StringUtf8 => "String (UTF-8/ASCII)"@,
            ValueType::StringUtf16 => "String (UTF-16/Unicode)"@,
        }
    }

    /// All kinds, in the order in which they are offered.
    pub fn all() -> (r: Vec<ValueType>)
        ensures
            r@ == seq![
                ValueType::I8,
                ValueType::I16,
                ValueType::I32,
                ValueType::I64,
                ValueType::U8,
                ValueType::U16,
                ValueType::U32,
                ValueType::U64,
                ValueType::F32,
                ValueType::F64,
                ValueType::StringUtf8,
                ValueType::StringUtf16,
            ],
    {
        vec![
            ValueType::I8,
            ValueType::I16,
            ValueType::I32,
            ValueType::I64,
            ValueType::U8,
            ValueType::U16,
            ValueType::U32,
            ValueType::U64,
            ValueType::F32,
            ValueType::F64,
            ValueType::StringUtf8,
            ValueType::StringUtf16,
        ]
    }

    /// Tells whether the kind is a text.
    pub fn is_string(&self) -> (r: bool)
        ensures
            r == self.text_kind(),
    {
        matches!(self, ValueType::StringUtf8 | ValueType::StringUtf16)
    }

    /// Tells whether the kind is a floating-point number.
    pub fn is_float(&self) -> (r: bool)
        ensures
            r == self.float_kind(),
    {
        matches!(self, ValueType::F32 | ValueType::F64)
    }

    fn is_signed(&self) -> (r: bool)
        ensures
            r == self.signed_kind(),
    {
        matches!(self, ValueType::I8 | ValueType::I16 | ValueType::I32 | ValueType::I64)
    }

    /// How many bytes a value takes; 0 for a text.
    pub fn size(&self) -> (r: usize)
        ensures
            r == self.width(),
            r <= 8,
            r == 0 <==> self.text_kind(),
    {
        match self {
            ValueType::I8 | ValueType::U8 => 1,
            ValueType::I16 | ValueType::U16 => 2,
            ValueType::I32 | ValueType::U32 | ValueType::F32 => 4,
            ValueType::I64 | ValueType::U64 | ValueType::F64 => 8,
            ValueType::StringUtf8 | ValueType::StringUtf16 => 0,
        }
    }

    /// The name of the kind.
    pub fn label(&self) -> (r: &'static str)
        ensures
            r@ == self.name(),
    {
        match self {
            ValueType::I8 => "Byte (i8)",
            ValueType::I16 => "2 Bytes (i16)",
            ValueType::I32 => "4 Bytes (i32)",
            ValueType::I64 => "8 Bytes (i64)",
            ValueType::U8 => "Byte (u8)",
            ValueType::U16 => "2 Bytes (u16)",
            ValueType::U32 => "4 Bytes (u32)",
            ValueType::U64 => "8 Bytes (u64)",
            ValueType::F32 => "Float (f32)",
            ValueType::F64 => "Double (f64)",
            ValueType::StringUtf8 => "String (UTF-8/ASCII)",
            ValueType::StringUtf16 => "String (UTF-16/Unicode)",
        }
    }

    /// Reads the integer that `bytes` begin with. `None` for the other kinds, and where there are
    /// too few bytes.
    pub fn read_i128(&self, bytes: &[u8]) -> (r: Option<i128>)
        ensures
            match r {
                Some(v) => self.int_in(bytes@) == Some(v as int) && self.lowest() <= v
                    <= self.highest(),
                None => self.int_in(bytes@) is None,
            },
    {
        if self.is_float() || self.is_string() || bytes.len() < self.size() {
            return None;
        }
        let n = self.size();
        let u = read_le(bytes, 0, n);
        proof {
            crate::bytes::lemma_span_values();
            crate::bytes::lemma_le_nat_half(bytes@.take(n as int));
            assert(bytes@.take(n as int) == bytes@.subrange(0, n as int));
        }
        if self.is_signed() && bytes[n - 1] >= 128 {
            let m: i128 = match n {
                1 => 0x100,
                2 => 0x1_0000,
                4 => 0x1_0000_0000,
                _ => 0x1_0000_0000_0000_0000,
            };
            Some(u as i128 - m)
        } else {
            Some(u as i128)
        }
    }

    /// Reads the number that `bytes` begin with as a 64-bit floating-point pattern. `None` for a
    /// text, and where there are too few bytes.
    pub fn read_f64(&self, bytes: &[u8]) -> (r: Option<u64>)
        ensures
            match r {
                Some(v) => self.float_in(bytes@) == Some(v as int),
                None => self.float_in(bytes@) is None,
            },
    {
        if self.is_string() || bytes.len() < self.size() {
            return None;
        }
        proof {
            crate::bytes::lemma_span_values();
        }
        match self {
            ValueType::F32 => {
                let b = read_le(bytes, 0, 4);
                assert(bytes@.take(4) == bytes@.subrange(0, 4));
                Some(ieee::widen(b as u32))
            },
            ValueType::F64 => {
                assert(bytes@.take(8) == bytes@.subrange(0, 8));
                Some(read_le(bytes, 0, 8))
            },
            _ => match self.read_i128(bytes) {
                Some(v) => Some(ieee::from_integer(v)),
                None => None,
            },
        }
    }

    fn bounds(&self) -> (r: (i128, i128))
        requires
            self.int_kind(),
        ensures
            r.0 == self.lowest(),
            r.1 == self.highest(),
    {
        proof {
            crate::bytes::lemma_span_values();
        }
        match self {
            ValueType::I8 => (-0x80, 0x7f),
            ValueType::I16 => (-0x8000, 0x7fff),
            ValueType::I32 => (-0x8000_0000, 0x7fff_ffff),
            ValueType::I64 => (-0x8000_0000_0000_0000, 0x7fff_ffff_ffff_ffff),
            ValueType::U8 => (0, 0xff),
            ValueType::U16 => (0, 0xffff),
            ValueType::U32 => (0, 0xffff_ffff),
            _ => (0, 0xffff_ffff_ffff_ffff),
        }
    }

    /// The bytes of the value that `typed` denotes. `pattern` is the bit pattern that the text
    /// denotes as a floating-point number of this kind; the other kinds do not look at it.
    pub fn parse_to_bytes(&self, typed: &str, pattern: Option<u64>) -> (r: Option<Vec<u8>>)
        ensures
            match r {
                Some(v) => self.bytes_of(typed@, pattern) == Some(v@),
                None => self.bytes_of(typed@, pattern) is None,
            },
    {
        match self {
            ValueType::StringUtf8 => Some(typed.as_bytes_vec()),
            ValueType::StringUtf16 => {
                let cs = text::chars_of(typed);
                let us = utf16::encode(cs.as_slice());
                Some(utf16::to_bytes(&us))
            },
            ValueType::F32 | ValueType::F64 => match pattern {
                Some(p) => {
                    let mut out: Vec<u8> = Vec::new();
                    crate::bytes::push_le(&mut out, p, self.size());
                    assert(out@ == le_bytes(p as nat, self.width()));
                    Some(out)
                },
                None => None,
            },
            _ => {
                let t = text::trim(typed);
                let (lo, hi) = self.bounds();
                proof {
                    crate::bytes::lemma_span_values();
                }
                match text::parse_integer(t.as_slice(), 10, lo, hi) {
                    Some(v) => {
                        let n = self.size();
                        let m: i128 = match n {
                            1 => 0x100,
                            2 => 0x1_0000,
                            4 => 0x1_0000_0000,
                            _ => 0x1_0000_0000_0000_0000,
                        };
                        let u: u64 = if v < 0 {
                            (v + m) as u64
                        } else {
                            v as u64
                        };
                        let mut out: Vec<u8> = Vec::new();
                        crate::bytes::push_le(&mut out, u, n);
                        assert(out@ == le_bytes(wrapped(v as int, self.width()), self.width()));
                        Some(out)
                    },
                    None => None,
                }
            },
        }
    }

    /// Decodes bytes as text, UTF-16 for that kind and UTF-8 for every other.
    pub fn decode_string(&self, bytes: &[u8]) -> (r: String)
        ensures
            r@ == self.text_in(bytes@),
            !(self is StringUtf16) && vstd::utf8::valid_utf8(bytes@) ==> r@
                == vstd::utf8::decode_utf8(bytes@),
    {
        match self {
            ValueType::StringUtf16 => {
                let us = utf16::from_bytes(bytes);
                utf16::decode(us.as_slice())
            },
            _ => text::decode_utf8_lossy(bytes),
        }
    }

    /// What is shown of a value.
    pub open spec fn shows(self, bytes: Seq<u8>, r: Shown) -> bool {
        if self.text_kind() {
            r matches Shown::Text(s) && s@ == self.text_in(bytes)
        } else {
            match self.float_in(bytes) {
                None => r matches Shown::Text(s) && s@ == "?"@,
                Some(p) => if self.float_kind() {
                    r matches Shown::Float(b) && b as int == p
                } else {
                    r matches Shown::Text(s) && s@ == text::signed_decimal(
                        ieee::through_float(self.int_in(bytes)->0),
                    )
                },
            }
        }
    }

    /// Shows the value in `bytes`: a text as it reads, an integer in decimal after passing through
    /// a floating-point number, `?` where there are too few bytes.
    pub fn format(&self, bytes: &[u8]) -> (r: Shown)
        ensures
            self.shows(bytes@, r),
    {
        if self.is_string() {
            return Shown::Text(self.decode_string(bytes));
        }
        if self.is_float() {
            return match self.read_f64(bytes) {
                Some(b) => Shown::Float(b),
                None => Shown::Text("?".to_owned()),
            };
        }
        match self.read_i128(bytes) {
            Some(v) => {
                proof {
                    crate::bytes::lemma_span_values();
                }
                let mut s = String::new();
                text::push_signed(&mut s, ieee::show_through_float(v));
                assert(s@ == text::signed_decimal(ieee::through_float(v as int)));
                Shown::Text(s)
            },
            None => Shown::Text("?".to_owned()),
        }
    }
}

/// An integer typed by hand is the integer that is then read from memory.
pub proof fn law_integer_text_round_trip(vt: ValueType, s: Seq<char>, pattern: Option<u64>)
    requires
        vt.int_kind(),
        vt.bytes_of(s, pattern) is Some,
    ensures
        vt.bytes_of(s, pattern)->0.len() == vt.width(),
        vt.int_in(vt.bytes_of(s, pattern)->0) == text::integer(
            text::trimmed(s),
            10,
            vt.lowest(),
            vt.highest(),
        ),
{
    crate::bytes::lemma_span_values();
    let v = text::integer(text::trimmed(s), 10, vt.lowest(), vt.highest())->0;
    let n = vt.width();
    let b = vt.bytes_of(s, pattern)->0;
    crate::bytes::law_le_round_trip(wrapped(v, n), n);
    assert(b.take(n as int) == b);
    if vt.signed_kind() {
        crate::bytes::law_signed_round_trip(v, n);
    }
}

/// A text typed by hand is the text that is then read from memory.
pub proof fn law_string_round_trip(s: Seq<char>, pattern: Option<u64>)
    ensures
        ValueType::StringUtf16.text_in(ValueType::StringUtf16.bytes_of(s, pattern)->0) == s,
        vstd::utf8::valid_utf8(ValueType::StringUtf8.bytes_of(s, pattern)->0),
        vstd::utf8::decode_utf8(ValueType::StringUtf8.bytes_of(s, pattern)->0) == s,
{
    utf16::law_units_round_trip(utf16::text_units(s));
    utf16::law_text_round_trip(s);
    vstd::utf8::encode_utf8_valid_utf8(s);
    vstd::utf8::encode_utf8_decode_utf8(s);
}

/// Each kind takes the bytes that its name says. The integers of a kind with a sign surround zero,
/// the others begin with it, and of either there are as many as its bytes can hold.
pub proof fn law_kinds_have_their_range(vt: ValueType)
    ensures
        vt is I8 || vt is U8 ==> vt.width() == 1,
        vt is I16 || vt is U16 ==> vt.width() == 2,
        vt is I32 || vt is U32 || vt is F32 ==> vt.width() == 4,
        vt is I64 || vt is U64 || vt is F64 ==> vt.width() == 8,
        vt is StringUtf8 || vt is StringUtf16 ==> vt.width() == 0,
        vt is I8 ==> (vt.lowest(), vt.highest()) == (-128int, 127int),
        vt is U8 ==> (vt.lowest(), vt.highest()) == (0int, 255int),
        vt is I16 ==> (vt.lowest(), vt.highest()) == (-0x8000int, 0x7fffint),
        vt is U16 ==> (vt.lowest(), vt.highest()) == (0int, 0xffffint),
        vt is I32 ==> (vt.lowest(), vt.highest()) == (i32::MIN as int, i32::MAX as int),
        vt is U32 ==> (vt.lowest(), vt.highest()) == (0int, u32::MAX as int),
        vt is I64 ==> (vt.lowest(), vt.highest()) == (i64::MIN as int, i64::MAX as int),
        vt is U64 ==> (vt.lowest(), vt.highest()) == (0int, u64::MAX as int),
{
    crate::bytes::lemma_span_values();
}

/// The bytes of the integer `v` in a kind.
pub open spec fn written(vt: ValueType, v: int) -> Seq<u8> {
    le_bytes(wrapped(v, vt.width()), vt.width())
}

/// An integer of a kind is read back from its bytes, whatever stands behind them; from fewer bytes
/// nothing is read.
pub proof fn law_integer_is_read(vt: ValueType, v: int, rest: Seq<u8>, few: Seq<u8>)
    requires
        vt.int_kind(),
        vt.lowest() <= v <= vt.highest(),
        few.len() < vt.width(),
    ensures
        written(vt, v).len() == vt.width(),
        vt.int_in(written(vt, v) + rest) == Some(v),
        vt.int_in(few) is None,
{
    crate::bytes::lemma_span_values();
    let n = vt.width();
    let b = written(vt, v);
    crate::bytes::law_le_round_trip(wrapped(v, n), n);
    assert((b + rest).take(n as int) =~= b);
    if vt.signed_kind() {
        crate::bytes::law_signed_round_trip(v, n);
    }
}

/// What is read of any bytes is an integer of the kind, and these bytes are its bytes.
pub proof fn law_read_integer_is_written(vt: ValueType, d: Seq<u8>)
    requires
        vt.int_kind(),
        d.len() >= vt.width(),
    ensures
        vt.int_in(d) matches Some(v) && vt.lowest() <= v <= vt.highest() && written(vt, v) == d.take(
            vt.width() as int,
        ),
{
    crate::bytes::lemma_span_values();
    let s = d.take(vt.width() as int);
    crate::bytes::lemma_le_nat_bound(s);
    crate::bytes::lemma_le_nat_half(s);
    crate::bytes::law_le_read_write(s);
}

/// An integer typed in decimal, with white space around it, gives its bytes where the kind has that
/// integer, and nothing where it has not.
pub proof fn law_typed_integer_is_written(
    vt: ValueType,
    v: int,
    a: Seq<char>,
    b: Seq<char>,
    pattern: Option<u64>,
)
    requires
        vt.int_kind(),
        text::blank(a),
        text::blank(b),
    ensures
        vt.bytes_of(a + text::signed_decimal(v) + b, pattern) == (if vt.lowest() <= v
            <= vt.highest() {
            Some(written(vt, v))
        } else {
            None
        }),
{
    crate::bytes::lemma_span_values();
    let s = text::signed_decimal(v);
    if v < 0 {
        text::law_numeral_round_trip((-v) as nat, 10, false);
        assert(s.last() == text::decimal((-v) as nat).last());
        assert(s[0] == '-');
    } else {
        text::law_numeral_round_trip(v as nat, 10, false);
    }
    text::law_trimming_takes_white_space(a, s, b);
    text::law_integer_round_trip(v, vt.lowest(), vt.highest());
}

/// An integer is shown in decimal, up to two to the power 53 on either side of zero; a number of
/// which bytes are missing is shown as `?`.
pub proof fn law_integer_is_shown(vt: ValueType, v: int, rest: Seq<u8>, r: Shown)
    requires
        vt.int_kind(),
        vt.lowest() <= v <= vt.highest(),
        -0x20_0000_0000_0000 <= v <= 0x20_0000_0000_0000,
        vt.shows(written(vt, v) + rest, r),
    ensures
        r matches Shown::Text(s) && s@ == text::signed_decimal(v),
{
    law_integer_is_read(vt, v, rest, Seq::empty());
    if v < 0 {
        ieee::law_nearest_is_close((-v) as nat);
    } else {
        ieee::law_nearest_is_close(v as nat);
    }
}

/// The bits of a floating-point number that was typed are what is read from its bytes: as they are
/// for 64 bits, and the same number for 32 bits.
pub proof fn law_typed_float_is_read(s: Seq<char>, p: u64, single: u32, rest: Seq<u8>)
    ensures
        ValueType::F64.bytes_of(s, Some(p)) matches Some(d) && d.len() == 8
            && ValueType::F64.float_in(d + rest) == Some(p as int),
        ValueType::F32.bytes_of(s, Some(single as u64)) matches Some(d) && d.len() == 4
            && ValueType::F32.float_in(d + rest) == Some(ieee::widened(single)),
        ValueType::F64.bytes_of(s, None) is None,
        ValueType::F32.bytes_of(s, None) is None,
{
    crate::bytes::lemma_span_values();
    crate::bytes::law_le_round_trip(p as nat, 8);
    crate::bytes::law_le_round_trip(single as nat, 4);
    assert((le_bytes(p as nat, 8) + rest).take(8) =~= le_bytes(p as nat, 8));
    assert((le_bytes(single as nat, 4) + rest).take(4) =~= le_bytes(single as nat, 4));
}

/// An integer read as a floating-point number is the number nearest to it, the integer itself up to
/// two to the power 53 on either side of zero.
pub proof fn law_integer_as_float(vt: ValueType, v: int, rest: Seq<u8>)
    requires
        vt.int_kind(),
        vt.lowest() <= v <= vt.highest(),
    ensures
        vt.float_in(written(vt, v) + rest) matches Some(p) && 0 <= p <= u64::MAX && ieee::is_finite(
            p as u64,
        ) && ieee::value_units(p as u64) == ieee::nearest_int(v)
            * vstd::arithmetic::power2::pow2(1074),
{
    crate::bytes::lemma_span_values();
    law_integer_is_read(vt, v, rest, Seq::empty());
    ieee::lemma_int_pattern_fits(v);
    ieee::law_integer_pattern(v, ieee::int_pattern(v) as u64);
}

/// Each kind of value has its own name, by which it is told from the others.
pub proof fn law_kinds_have_their_names(k: ValueType)
    ensures
        k is I8 <==> k.name() == "Byte (i8)"@,
        k is I16 <==> k.name() == "2 Bytes (i16)"@,
        k is I32 <==> k.name() == "4 Bytes (i32)"@,
        k is I64 <==> k.name() == "8 Bytes (i64)"@,
        k is U8 <==> k.name() == "Byte (u8)"@,
        k is U16 <==> k.name() == "2 Bytes (u16)"@,
        k is U32 <==> k.name() == "4 Bytes (u32)"@,
        k is U64 <==> k.name() == "8 Bytes (u64)"@,
        k is F32 <==> k.name() == "Float (f32)"@,
        k is F64 <==> k.name() == "Double (f64)"@,
        k is StringUtf8 <==> k.name() == "String (UTF-8/ASCII)"@,
        k is StringUtf16 <==> k.name() == "String (UTF-16/Unicode)"@,
{
    reveal_strlit("Byte (i8)");
    assert("Byte (i8)"@[0] == 'B');
    assert("Byte (i8)"@[6] == 'i');
    reveal_strlit("2 Bytes (i16)");
    assert("2 Bytes (i16)"@[0] == '2');
    assert("2 Bytes (i16)"@[6] == 's');
    assert("2 Bytes (i16)"@[9] == 'i');
    reveal_strlit("4 Bytes (i32)");
    assert("4 Bytes (i32)"@[0] == '4');
    assert("4 Bytes (i32)"@[6] == 's');
    assert("4 Bytes (i32)"@[9] == 'i');
    reveal_strlit("8 Bytes (i64)");
    assert("8 Bytes (i64)"@[0] == '8');
    assert("8 Bytes (i64)"@[6] == 's');
    assert("8 Bytes (i64)"@[9] == 'i');
    reveal_strlit("Byte (u8)");
    assert("Byte (u8)"@[0] == 'B');
    assert("Byte (u8)"@[6] == 'u');
    reveal_strlit("2 Bytes (u16)");
    assert("2 Bytes (u16)"@[0] == '2');
    assert("2 Bytes (u16)"@[6] == 's');
    assert("2 Bytes (u16)"@[9] == 'u');
    reveal_strlit("4 Bytes (u32)");
    assert("4 Bytes (u32)"@[0] == '4');
    assert("4 Bytes (u32)"@[6] == 's');
    assert("4 Bytes (u32)"@[9] == 'u');
    reveal_strlit("8 Bytes (u64)");
    assert("8 Bytes (u64)"@[0] == '8');
    assert("8 Bytes (u64)"@[6] == 's');
    assert("8 Bytes (u64)"@[9] == 'u');
    reveal_strlit("Float (f32)");
    assert("Float (f32)"@[0] == 'F');
    assert("Float (f32)"@[6] == '(');
    assert("Float (f32)"@[9] == '2');
    reveal_strlit("Double (f64)");
    assert("Double (f64)"@[0] == 'D');
    assert("Double (f64)"@[6] == ' ');
    assert("Double (f64)"@[9] == '6');
    reveal_strlit("String (UTF-8/ASCII)");
    assert("String (UTF-8/ASCII)"@[0] == 'S');
    assert("String (UTF-8/ASCII)"@[6] == ' ');
    assert("String (UTF-8/ASCII)"@[9] == 'T');
    assert("String (UTF-8/ASCII)"@[12] == '8');
    reveal_strlit("String (UTF-16/Unicode)");
    assert("String (UTF-16/Unicode)"@[0] == 'S');
    assert("String (UTF-16/Unicode)"@[6] == ' ');
    assert("String (UTF-16/Unicode)"@[9] == 'T');
    assert("String (UTF-16/Unicode)"@[12] == '1');
}

/// A text of 16-bit units is shown as it was written; a floating-point number by its bits; and where
/// there are too few bytes for a number, a question mark is shown.
pub proof fn law_other_values_are_shown(
    vt: ValueType,
    bytes: Seq<u8>,
    r: Shown,
    s: Seq<char>,
    p: u64,
)
    requires
        vt.shows(bytes, r),
    ensures
        vt is StringUtf16 && bytes == utf16::unit_bytes(utf16::text_units(s)) ==> (
        r matches Shown::Text(t) && t@ == s),
        vt is StringUtf8 ==> (r matches Shown::Text(t) && t@ == text::utf8_lossy(bytes)),
        vt is F64 && bytes == le_bytes(p as nat, 8) ==> r == Shown::Float(p),
        !(vt is StringUtf8) && !(vt is StringUtf16) && bytes.len() < vt.width() ==> (
        r matches Shown::Text(t) && t@ == seq!['?']),
{
    reveal_strlit("?");
    assert("?"@ =~= seq!['?']);
    utf16::law_units_round_trip(utf16::text_units(s));
    utf16::law_text_round_trip(s);
    let none = Seq::<u8>::empty();
    law_typed_float_is_read(s, p, 0, none);
    assert(le_bytes(p as nat, 8) + none =~= le_bytes(p as nat, 8));
}

} // verus!
