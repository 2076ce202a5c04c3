//! UTF-16 text.

use crate::bytes::{le_bytes, le_nat, read_le};
use vstd::prelude::*;

verus! {

/// The code points that are characters.
pub open spec fn is_scalar(u: int) -> bool {
    0 <= u < 0xd800 || 0xe000 <= u < 0x11_0000
}

/// `char::from_u32`: the character with that code point, where there is one.
pub assume_specification[ char::from_u32 ](u: u32) -> (r: Option<char>)
    ensures
        r == (if is_scalar(u as int) {
            Some(u as char)
        } else {
            None
        }),
;

/// The UTF-16 code units of one character.
pub open spec fn char_units(c: char) -> Seq<u16> {
    let u = c as u32 as int;
    if u < 0x1_0000 {
        seq![u as u16]
    } else {
        seq![
            (0xd800 + (u - 0x1_0000) / 0x400) as u16,
            (0xdc00 + (u - 0x1_0000) % 0x400) as u16,
        ]
    }
}

/// The UTF-16 code units of a text.
pub open spec fn text_units(s: Seq<char>) -> Seq<u16>
    decreases s.len(),
{
    if s.len() == 0 {
        Seq::empty()
    } else {
        char_units(s[0]) + text_units(s.skip(1))
    }
}

/// The code units as bytes, the low byte first.
pub open spec fn unit_bytes(us: Seq<u16>) -> Seq<u8>
    decreases us.len(),
{
    if us.len() == 0 {
        Seq::empty()
    } else {
        le_bytes(us[0] as nat, 2) + unit_bytes(us.skip(1))
    }
}

/// The code units in a byte sequence; an odd last byte is left out.
pub open spec fn units_in(b: Seq<u8>) -> Seq<u16>
    decreases b.len(),
{
    if b.len() < 2 {
        Seq::empty()
    } else {
        seq![le_nat(b.take(2)) as u16] + units_in(b.skip(2))
    }
}

/// The text that code units stand for. A surrogate without its partner gives U+FFFD.
pub open spec fn units_text(us: Seq<u16>) -> Seq<char>
    decreases us.len(),
{
    if us.len() == 0 {
        Seq::empty()
    } else {
        let u = us[0] as int;
        if u < 0xd800 || u >= 0xe000 {
            seq![u as u32 as char] + units_text(us.skip(1))
        } else if u < 0xdc00 && us.len() >= 2 && 0xdc00 <= us[1] < 0xe000 {
            seq![(0x1_0000 + (u - 0xd800) * 0x400 + (us[1] - 0xdc00)) as u32 as char] + units_text(
                us.skip(2),
            )
        } else {
            seq!['\u{fffd}'] + units_text(us.skip(1))
        }
    }
}

/// Code units written as bytes and read back are the same.
pub proof fn law_units_round_trip(us: Seq<u16>)
    ensures
        units_in(unit_bytes(us)) == us,
    decreases us.len(),
{
    if us.len() > 0 {
        law_units_round_trip(us.skip(1));
        crate::bytes::lemma_span_values();
        crate::bytes::law_le_round_trip(us[0] as nat, 2);
        let b = unit_bytes(us);
        assert(b.take(2) == le_bytes(us[0] as nat, 2));
        assert(b.skip(2) == unit_bytes(us.skip(1)));
        assert(seq![us[0]] + us.skip(1) == us);
    }
}

/// A text encoded in UTF-16 and decoded is the text.
pub proof fn law_text_round_trip(s: Seq<char>)
    ensures
        units_text(text_units(s)) == s,
    decreases s.len(),
{
    if s.len() > 0 {
        law_text_round_trip(s.skip(1));
        let us = text_units(s);
        let c = s[0];
        let rest = text_units(s.skip(1));
        vstd::utf8::char_is_scalar(c);
        vstd::utf8::char_u32_cast(c, c as u32);
        if (c as u32) < 0x1_0000 {
            assert(us.skip(1) == rest);
        } else {
            assert(us.skip(2) == rest);
            let u = c as u32 as int;
            assert(0x1_0000 + (us[0] as int - 0xd800) * 0x400 + (us[1] as int - 0xdc00) == u);
        }
        assert(seq![c] + s.skip(1) == s);
    }
}

proof fn lemma_units_push(s: Seq<char>, c: char)
    ensures
        text_units(s.push(c)) == text_units(s) + char_units(c),
    decreases s.len(),
{
    if s.len() == 0 {
        assert(s.push(c).skip(1) == s);
        assert(s.push(c).skip(1).len() == 0);
    } else {
        lemma_units_push(s.skip(1), c);
        assert(s.push(c).skip(1) == s.skip(1).push(c));
    }
}

/// The UTF-16 code units of a text.
pub fn encode(s: &[char]) -> (r: Vec<u16>)
    ensures
        r@ == text_units(s@),
{
    let mut out: Vec<u16> = Vec::new();
    let mut i: usize = 0;
    assert(s@.take(0).len() == 0);
    while i < s.len()
        invariant
            i <= s.len(),
            out@ == text_units(s@.take(i as int)),
        decreases s.len() - i,
    {
        let u = s[i] as u32;
        proof {
            vstd::utf8::char_is_scalar(s@[i as int]);
            lemma_units_push(s@.take(i as int), s@[i as int]);
            assert(s@.take(i + 1) == s@.take(i as int).push(s@[i as int]));
        }
        if u < 0x1_0000 {
            out.push(u as u16);
        } else {
            let v: u32 = u - 0x1_0000;
            out.push((0xd800 + v / 0x400) as u16);
            out.push((0xdc00 + v % 0x400) as u16);
        }
        i += 1;
        assert(out@ =~= text_units(s@.take(i as int)));
    }
    assert(s@.take(s.len() as int) == s@);
    out
}

proof fn lemma_bytes_push(us: Seq<u16>, u: u16)
    ensures
        unit_bytes(us.push(u)) == unit_bytes(us) + le_bytes(u as nat, 2),
    decreases us.len(),
{
    if us.len() == 0 {
        assert(us.push(u).skip(1).len() == 0);
        assert(unit_bytes(us.push(u).skip(1)).len() == 0);
        assert(unit_bytes(us).len() == 0);
        assert(us.push(u)[0] == u);
        assert(unit_bytes(us.push(u)) =~= unit_bytes(us) + le_bytes(u as nat, 2));
    } else {
        lemma_bytes_push(us.skip(1), u);
        assert(us.push(u).skip(1) == us.skip(1).push(u));
        assert(unit_bytes(us.push(u)) =~= unit_bytes(us) + le_bytes(u as nat, 2));
    }
}

/// The code units as bytes, the low byte first.
pub fn to_bytes(us: &Vec<u16>) -> (r: Vec<u8>)
    ensures
        r@ == unit_bytes(us@),
{
    let mut out: Vec<u8> = Vec::new();
    let mut i: usize = 0;
    assert(us@.take(0).len() == 0);
    while i < us.len()
        invariant
            i <= us.len(),
            out@ == unit_bytes(us@.take(i as int)),
        decreases us.len() - i,
    {
        proof {
            lemma_bytes_push(us@.take(i as int), us@[i as int]);
            assert(us@.take(i + 1) == us@.take(i as int).push(us@[i as int]));
        }
        crate::bytes::push_le(&mut out, us[i] as u64, 2);
        i += 1;
    }
    assert(us@.take(us.len() as int) == us@);
    out
}

/// The code units in a byte sequence.
pub fn from_bytes(b: &[u8]) -> (r: Vec<u16>)
    ensures
        r@ == units_in(b@),
{
    let mut out: Vec<u16> = Vec::new();
    let mut i: usize = 0;
    assert(b@.skip(0) == b@);
    while b.len() - i >= 2
        invariant
            i <= b.len(),
            out@ + units_in(b@.skip(i as int)) == units_in(b@),
        decreases b.len() - i,
    {
        let ghost rest = b@.skip(i as int);
        let u = read_le(b, i, 2);
        proof {
            crate::bytes::lemma_span_values();
            assert(rest.take(2) == b@.subrange(i as int, i + 2));
            assert(rest.skip(2) == b@.skip(i + 2));
            assert(units_in(rest) == seq![u as u16] + units_in(b@.skip(i + 2)));
        }
        let ghost before = out@;
        out.push(u as u16);
        i += 2;
        assert(out@ + units_in(b@.skip(i as int)) =~= before + units_in(rest));
    }
    assert(units_in(b@.skip(i as int)).len() == 0);
    assert(out@ =~= units_in(b@));
    out
}

/// The text that code units stand for.
pub fn decode(us: &[u16]) -> (r: String)
    ensures
        r@ == units_text(us@),
{
    let mut out = String::new();
    let mut i: usize = 0;
    assert(us@.skip(0) == us@);
    while i < us.len()
        invariant
            i <= us.len(),
            out@ + units_text(us@.skip(i as int)) == units_text(us@),
        decreases us.len() - i,
    {
        let ghost rest = us@.skip(i as int);
        let ghost before = out@;
        let u = us[i] as u32;
        assert(rest.skip(1) == us@.skip(i + 1));
        if u >= 0xd800 && u < 0xdc00 && us.len() - i >= 2 && us[i + 1] >= 0xdc00 && us[i + 1]
            < 0xe000 {
            assert(rest.skip(2) == us@.skip(i + 2));
            let c: u32 = 0x1_0000 + (u - 0xd800) * 0x400 + (us[i + 1] as u32 - 0xdc00);
            match char::from_u32(c) {
                Some(ch) => {
                    out.push(ch);
                },
                None => {
                    assert(false);
                },
            }
            i += 2;
        } else {
            match char::from_u32(u) {
                Some(ch) => {
                    out.push(ch);
                },
                None => {
                    out.push('\u{fffd}');
                },
            }
            i += 1;
        }
        assert(out@ + units_text(us@.skip(i as int)) =~= before + units_text(rest));
    }
    assert(out@ =~= units_text(us@));
    out
}

/// A character below U+10000 is one code unit with its number. Another is a high and a low surrogate
/// that give its number together.
pub proof fn law_characters_in_units(c: char)
    ensures
        ({
            let us = char_units(c);
            let u = c as u32 as int;
            &&& u < 0x1_0000 ==> us.len() == 1 && us[0] == u
            &&& u >= 0x1_0000 ==> {
                &&& us.len() == 2
                &&& 0xd800 <= us[0] < 0xdc00
                &&& 0xdc00 <= us[1] < 0xe000
                &&& u == 0x1_0000 + 0x400 * (us[0] - 0xd800) + (us[1] - 0xdc00)
            }
        }),
{
}

/// The units of two texts behind each other stand behind each other, and so do their bytes, the low
/// one of each unit first.
pub proof fn law_units_stand_in_order(a: Seq<char>, b: Seq<char>, us: Seq<u16>, k: int)
    ensures
        text_units(a + b) == text_units(a) + text_units(b),
        unit_bytes(us).len() == 2 * us.len(),
        0 <= k < us.len() ==> unit_bytes(us)[2 * k] == us[k] % 256 && unit_bytes(us)[2 * k + 1]
            == us[k] / 256,
    decreases a.len(), us.len(),
{
    if a.len() > 0 {
        law_units_stand_in_order(a.skip(1), b, us, k);
        assert((a + b).skip(1) =~= a.skip(1) + b);
        assert(text_units(a + b) =~= text_units(a) + text_units(b));
    } else {
        assert(a + b =~= b);
        assert(text_units(a) + text_units(b) =~= text_units(b));
        if us.len() > 0 {
            law_units_stand_in_order(a, b, us.skip(1), k - 1);
            reveal_with_fuel(le_bytes, 3);
            let head = le_bytes(us[0] as nat, 2);
            assert(head.len() == 2);
            assert(head[0] == us[0] % 256);
            assert(head[1] == us[0] / 256);
        }
    }
}

/// A surrogate without its partner becomes the replacement character, and what follows is read all
/// the same.
pub proof fn law_lone_surrogate_is_replaced(u: u16, rest: Seq<u16>)
    requires
        0xd800 <= u < 0xe000,
        u >= 0xdc00 || rest.len() == 0 || !(0xdc00 <= rest[0] < 0xe000),
    ensures
        units_text(seq![u] + rest) == seq!['\u{fffd}'] + units_text(rest),
{
    let us = seq![u] + rest;
    assert(us.skip(1) =~= rest);
    if rest.len() > 0 {
        assert(us[1] == rest[0]);
    }
}

} // verus!
