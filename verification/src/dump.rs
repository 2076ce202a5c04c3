//! Bytes, sizes, times and packets as text.

use crate::capture::{PacketRecord, PacketView, TCP, UDP};
use crate::ieee;
use crate::text;
use vstd::arithmetic::div_mod::{
    lemma_div_basics, lemma_div_is_ordered_by_denominator, lemma_fundamental_div_mod_converse,
};
use vstd::arithmetic::power2::{
    lemma2_to64, lemma_pow2_pos, lemma_pow2_strictly_increases, lemma_pow2_unfold, pow2,
};
use vstd::prelude::*;

verus! {

// ---------------------------------------------------------------------------
// Dumps
// ---------------------------------------------------------------------------

/// The character that stands for a byte: itself where it can be printed.
pub open spec fn shown(b: u8) -> char {
    if 0x20 <= b <= 0x7e {
        b as char
    } else {
        '.'
    }
}

fn show(b: u8) -> (r: char)
    ensures
        r == shown(b),
{
    if b >= 0x20 && b <= 0x7e {
        b as char
    } else {
        '.'
    }
}

/// The first `n` of sixteen columns of bytes in hexadecimal; missing bytes are blank, and a wider
/// gap follows the eighth.
pub open spec fn hex_columns(chunk: Seq<u8>, n: int, upper: bool) -> Seq<char>
    decreases n,
{
    if n <= 0 {
        Seq::empty()
    } else {
        hex_columns(chunk, n - 1, upper) + hex_column(chunk, n - 1, upper)
    }
}

/// The column of byte `j`: the byte or room for one, and more room after the eighth.
pub open spec fn hex_column(chunk: Seq<u8>, j: int, upper: bool) -> Seq<char> {
    (if j < chunk.len() {
        text::fixed_numeral(chunk[j] as nat, 16, 2, upper) + seq![' ']
    } else {
        seq![' ', ' ', ' ']
    }) + (if j == 7 {
        seq![' ']
    } else {
        Seq::empty()
    })
}

/// The characters that stand for bytes.
pub open spec fn ascii_columns(chunk: Seq<u8>) -> Seq<char> {
    chunk.map_values(|b: u8| shown(b))
}

/// A line of a dump: where the bytes stand, the bytes in hexadecimal, and as characters.
pub open spec fn dump_line(place: Seq<char>, chunk: Seq<u8>, upper: bool) -> Seq<char> {
    place + seq![' ', ' '] + hex_columns(chunk, 16, upper) + seq![' ', '|'] + ascii_columns(chunk)
        + seq!['|', '\n']
}

/// The bytes of line `i`.
pub open spec fn line_bytes(data: Seq<u8>, i: int) -> Seq<u8> {
    data.subrange(
        i * 16,
        if i * 16 + 16 < data.len() {
            i * 16 + 16
        } else {
            data.len() as int
        },
    )
}

/// How many lines a dump has.
pub open spec fn line_count(len: int) -> int {
    (len + 15) / 16
}

/// A distance in at least eight digits.
pub open spec fn offset_text(n: nat) -> Seq<char> {
    if n < 0x1_0000_0000 {
        text::fixed_numeral(n, 16, 8, false)
    } else {
        text::numeral(n, 16, false)
    }
}

/// The first `n` lines of a dump that counts from the first byte.
pub open spec fn dump_lines(data: Seq<u8>, n: int) -> Seq<char>
    decreases n,
{
    if n <= 0 {
        Seq::empty()
    } else {
        dump_lines(data, n - 1) + dump_line(
            offset_text(((n - 1) * 16) as nat),
            line_bytes(data, n - 1),
            false,
        )
    }
}

/// The first `n` lines of a dump that gives addresses.
pub open spec fn dump_lines_at(base: u64, data: Seq<u8>, n: int) -> Seq<char>
    decreases n,
{
    if n <= 0 {
        Seq::empty()
    } else {
        dump_lines_at(base, data, n - 1) + dump_line(
            text::fixed_numeral(base.wrapping_add(((n - 1) * 16) as u64) as nat, 16, 16, true),
            line_bytes(data, n - 1),
            true,
        )
    }
}

fn push_column(out: &mut String, chunk: &[u8], j: usize, upper: bool)
    ensures
        final(out)@ == old(out)@ + hex_column(chunk@, j as int, upper),
{
    if j < chunk.len() {
        text::push_fixed(out, chunk[j] as u64, 16, 2, upper);
        out.push(' ');
    } else {
        out.push(' ');
        out.push(' ');
        out.push(' ');
    }
    if j == 7 {
        out.push(' ');
    }
    assert(out@ =~= old(out)@ + hex_column(chunk@, j as int, upper));
}

fn push_line(out: &mut String, chunk: &[u8], upper: bool)
    requires
        chunk@.len() <= 16,
    ensures
        final(out)@ == old(out)@ + seq![' ', ' '] + hex_columns(chunk@, 16, upper) + seq![
            ' ',
            '|',
        ] + ascii_columns(chunk@) + seq!['|', '\n'],
{
    let ghost start = out@;
    out.push(' ');
    out.push(' ');
    let mut j: usize = 0;
    assert(out@ =~= start + seq![' ', ' '] + hex_columns(chunk@, 0, upper));
    while j < 16
        invariant
            j <= 16,
            chunk@.len() <= 16,
            out@ == start + seq![' ', ' '] + hex_columns(chunk@, j as int, upper),
        decreases 16 - j,
    {
        push_column(out, chunk, j, upper);
        j += 1;
        assert(out@ =~= start + seq![' ', ' '] + hex_columns(chunk@, j as int, upper));
    }
    let ghost wide = out@;
    out.push(' ');
    out.push('|');
    let mut k: usize = 0;
    assert(out@ =~= wide + seq![' ', '|'] + ascii_columns(chunk@.take(0)));
    while k < chunk.len()
        invariant
            k <= chunk@.len(),
            out@ == wide + seq![' ', '|'] + ascii_columns(chunk@.take(k as int)),
        decreases chunk.len() - k,
    {
        out.push(show(chunk[k]));
        k += 1;
        assert(out@ =~= wide + seq![' ', '|'] + ascii_columns(chunk@.take(k as int)));
    }
    assert(chunk@.take(k as int) == chunk@);
    let ghost most = out@;
    out.push('|');
    out.push('\n');
    assert(out@ =~= most + seq!['|', '\n']);
}

/// A dump of bytes: sixteen in a line, with the distance from the first.
pub fn hex_dump(data: &[u8]) -> (r: String)
    ensures
        r@ == dump_lines(data@, line_count(data@.len() as int)),
{
    let mut out = String::new();
    let mut off: usize = 0;
    let ghost mut n: int = 0;
    while off < data.len()
        invariant
            0 <= n,
            off == n * 16 || (off == data@.len() && n == line_count(data@.len() as int)),
            off <= data@.len(),
            n * 16 < data@.len() + 16,
            out@ == dump_lines(data@, n),
        decreases data.len() - off,
    {
        let end: usize = if data.len() - off > 16 {
            off + 16
        } else {
            data.len()
        };
        let chunk = &data[off..end];
        assert(chunk@ =~= line_bytes(data@, n));
        let ghost before = out@;
        if (off as u64) < 0x1_0000_0000 {
            text::push_fixed(&mut out, off as u64, 16, 8, false);
        } else {
            text::push_numeral(&mut out, off as u64, 16, false);
        }
        push_line(&mut out, chunk, false);
        proof {
            n = n + 1;
            assert(out@ =~= before + dump_line(
                offset_text(((n - 1) * 16) as nat),
                line_bytes(data@, n - 1),
                false,
            ));
        }
        off = end;
    }
    out
}

/// A dump of bytes that stand at the address `base`.
pub fn hex_dump_at(base: u64, data: &[u8]) -> (r: String)
    ensures
        r@ == dump_lines_at(base, data@, line_count(data@.len() as int)),
{
    let mut out = String::new();
    let mut off: usize = 0;
    let ghost mut n: int = 0;
    while off < data.len()
        invariant
            0 <= n,
            off == n * 16 || (off == data@.len() && n == line_count(data@.len() as int)),
            off <= data@.len(),
            n * 16 < data@.len() + 16,
            out@ == dump_lines_at(base, data@, n),
        decreases data.len() - off,
    {
        let end: usize = if data.len() - off > 16 {
            off + 16
        } else {
            data.len()
        };
        let chunk = &data[off..end];
        assert(chunk@ =~= line_bytes(data@, n));
        let ghost before = out@;
        text::push_fixed(&mut out, base.wrapping_add(off as u64), 16, 16, true);
        push_line(&mut out, chunk, true);
        proof {
            n = n + 1;
            assert(out@ =~= before + dump_line(
                text::fixed_numeral(
                    base.wrapping_add(((n - 1) * 16) as u64) as nat,
                    16,
                    16,
                    true,
                ),
                line_bytes(data@, n - 1),
                true,
            ));
        }
        off = end;
    }
    out
}

/// What a byte becomes in readable text: line breaks and tabs stay, carriage returns go, and what
/// cannot be printed becomes a dot.
pub open spec fn readable_byte(b: u8) -> Seq<char> {
    if b == 0x0a {
        seq!['\n']
    } else if b == 0x09 {
        seq!['\t']
    } else if b == 0x0d {
        Seq::empty()
    } else {
        seq![shown(b)]
    }
}

/// What bytes become in readable text.
pub open spec fn readable(data: Seq<u8>) -> Seq<char>
    decreases data.len(),
{
    if data.len() == 0 {
        Seq::empty()
    } else {
        readable(data.drop_last()) + readable_byte(data.last())
    }
}

/// Bytes as readable text.
pub fn readable_text(data: &[u8]) -> (r: String)
    ensures
        r@ == readable(data@),
{
    let mut s = String::new();
    let mut i: usize = 0;
    assert(data@.take(0).len() == 0);
    while i < data.len()
        invariant
            i <= data@.len(),
            s@ == readable(data@.take(i as int)),
        decreases data.len() - i,
    {
        let b = data[i];
        let ghost before = s@;
        if b == 0x0a {
            s.push('\n');
        } else if b == 0x09 {
            s.push('\t');
        } else if b != 0x0d {
            s.push(show(b));
        }
        i += 1;
        proof {
            assert(data@.take(i as int).drop_last() =~= data@.take(i - 1));
            assert(s@ =~= before + readable_byte(b));
        }
    }
    assert(data@.take(i as int) == data@);
    s
}

// ---------------------------------------------------------------------------
// Sizes and times
// ---------------------------------------------------------------------------

/// `n / d`, to the nearest integer, the even one where two are equally near.
pub open spec fn rounded(n: nat, d: nat) -> nat {
    let q = n / d;
    let r = n % d;
    if 2 * r > d || (2 * r == d && q % 2 == 1) {
        q + 1
    } else {
        q
    }
}

/// The unit in which a number of bytes is given, as a divisor.
pub open spec fn unit_of(n: nat) -> nat {
    if n < 0x400 {
        1
    } else if n < 0x10_0000 {
        0x400
    } else if n < 0x4000_0000 {
        0x10_0000
    } else {
        0x4000_0000
    }
}

/// The name of the unit.
pub open spec fn unit_name(n: nat) -> Seq<char> {
    if n < 0x10_0000 {
        " KB"@
    } else if n < 0x4000_0000 {
        " MB"@
    } else {
        " GB"@
    }
}

/// A number of bytes as it is written: whole bytes, or with one digit in a larger unit.
pub open spec fn size_text(n: nat) -> Seq<char> {
    if n < 0x400 {
        text::decimal(n) + " B"@
    } else {
        let t = rounded(10 * ieee::nearest(n), unit_of(n));
        text::decimal(t / 10) + seq!['.'] + text::decimal(t % 10) + unit_name(n)
    }
}

/// A number of bytes as it is written, in B, KB, MB or GB.
pub fn human_bytes(n: u64) -> (r: String)
    ensures
        r@ == size_text(n as nat),
{
    let mut s = String::new();
    if n < 0x400 {
        text::push_decimal(&mut s, n);
        s.append(" B");
        assert(s@ =~= size_text(n as nat));
        return s;
    }
    let d: u128 = if n < 0x10_0000 {
        0x400
    } else if n < 0x4000_0000 {
        0x10_0000
    } else {
        0x4000_0000
    };
    let v: u128 = 10 * ieee::round_integer(n as u128);
    let q: u128 = v / d;
    let rest: u128 = v % d;
    assert(q <= v / 0x400) by (nonlinear_arith)
        requires
            q == v / d,
            d >= 0x400,
    ;
    let t: u128 = if 2 * rest > d || (2 * rest == d && q % 2 == 1) {
        q + 1
    } else {
        q
    };
    text::push_decimal(&mut s, (t / 10) as u64);
    s.push('.');
    text::push_decimal(&mut s, (t % 10) as u64);
    if n < 0x10_0000 {
        s.append(" KB");
    } else if n < 0x4000_0000 {
        s.append(" MB");
    } else {
        s.append(" GB");
    }
    assert(s@ =~= size_text(n as nat));
    s
}

/// The quotient of `m` and `1000 * d` as a 64-bit floating-point number, in thousandths: the nearest
/// number with 53 binary digits, and of that the nearest thousandth, an even last digit where two
/// are equally near.
pub open spec fn thousandths(m: nat, d: nat) -> nat
    decreases 0x7d00_0000_0000_0000 - m,
{
    if m == 0 {
        0
    } else if m < 0x3e80_0000_0000_0000 {
        thousandths(2 * m, 2 * d)
    } else {
        rounded(1000 * rounded(m, 1000), d)
    }
}

/// Milliseconds divided by 1000 as a floating-point number, in thousandths. From two to the power
/// 53 seconds on, only every second or fourth integer is such a number.
pub open spec fn shown_millis(ms: nat) -> nat {
    let n = ieee::nearest(ms);
    if n < 0x7d00_0000_0000_0000 {
        thousandths(n, 1)
    } else if n < 0xfa00_0000_0000_0000 {
        2000 * rounded(n, 2000)
    } else {
        4000 * rounded(n, 4000)
    }
}

/// Milliseconds as seconds with three digits.
pub open spec fn seconds_text(ms: nat) -> Seq<char> {
    let t = shown_millis(ms);
    text::decimal(t / 1000) + seq!['.'] + text::fixed_numeral(t % 1000, 10, 3, false)
}

fn round_quotient(n: u128, d: u128) -> (r: u128)
    requires
        d > 0,
        n <= 0x1_0000_0000_0000_0000,
        d <= 0x1_0000_0000_0000_0000,
    ensures
        r == rounded(n as nat, d as nat),
        r <= n / d + 1,
{
    let q: u128 = n / d;
    let rest: u128 = n % d;
    proof {
        lemma_div_is_ordered_by_denominator(n as int, 1, d as int);
        lemma_div_basics(n as int);
    }
    if 2 * rest > d || (2 * rest == d && q % 2 == 1) {
        q + 1
    } else {
        q
    }
}

fn count_millis(ms: u64) -> (r: u128)
    ensures
        r == shown_millis(ms as nat),
        r <= 0x2_0000_0000_0000_0000,
{
    let n: u128 = ieee::round_integer(ms as u128);
    if n >= 0xfa00_0000_0000_0000 {
        return 4000 * round_quotient(n, 4000);
    }
    if n >= 0x7d00_0000_0000_0000 {
        return 2000 * round_quotient(n, 2000);
    }
    if n == 0 {
        return 0;
    }
    let mut m: u128 = n;
    let mut d: u128 = 1;
    while m < 0x3e80_0000_0000_0000
        invariant
            0 < m < 0x7d00_0000_0000_0000,
            1 <= d <= m,
            thousandths(m as nat, d as nat) == thousandths(n as nat, 1),
        decreases 0x7d00_0000_0000_0000 - m,
    {
        m = 2 * m;
        d = 2 * d;
    }
    let q = round_quotient(m, 1000);
    let r = round_quotient(1000 * q, d);
    proof {
        lemma_div_is_ordered_by_denominator(1000 * q as int, 1, d as int);
        lemma_div_basics(1000 * q as int);
    }
    r
}

/// Appends milliseconds as seconds with three digits.
pub fn push_seconds(s: &mut String, ms: u64)
    ensures
        final(s)@ == old(s)@ + seconds_text(ms as nat),
{
    let t = count_millis(ms);
    text::push_decimal(s, (t / 1000) as u64);
    s.push('.');
    text::push_fixed(s, (t % 1000) as u64, 10, 3, false);
    assert(s@ =~= old(s)@ + seconds_text(ms as nat));
}

proof fn lemma_thousandths(ms: nat, d: nat, k: nat)
    requires
        0 < ms < 0x1f_4000_0000_0000,
        d == pow2(k),
    ensures
        thousandths(ms * d, d) == ms,
    decreases 0x7d00_0000_0000_0000 - ms * d,
{
    let m = ms * d;
    lemma_pow2_pos(k);
    assert(m >= d && m >= ms) by (nonlinear_arith)
        requires
            m == ms * d,
            d > 0,
            ms > 0,
    ;
    if m < 0x3e80_0000_0000_0000 {
        lemma_pow2_unfold(k + 1);
        assert(ms * (2 * d) == 2 * m) by (nonlinear_arith)
            requires
                m == ms * d,
        ;
        lemma_thousandths(ms, 2 * d, k + 1);
    } else {
        lemma2_to64();
        if k < 9 {
            lemma_pow2_strictly_increases(k, 9);
        }
        if k > 10 {
            lemma_pow2_strictly_increases(10, k);
        }
        if k <= 9 {
            assert(m < 0x3e80_0000_0000_0000) by (nonlinear_arith)
                requires
                    m == ms * d,
                    ms < 0x1f_4000_0000_0000,
                    d <= 512,
            ;
        }
        let v = 1000 * rounded(m, 1000) as int;
        assert(-500 <= v - m <= 500);
        if v >= m {
            assert(v == ms * d + (v - m));
            lemma_fundamental_div_mod_converse(v, d as int, ms as int, v - m);
        } else {
            assert(v == (ms - 1) * d + (d + v - m)) by (nonlinear_arith)
                requires
                    m == ms * d,
            ;
            lemma_fundamental_div_mod_converse(v, d as int, ms - 1, d + v - m);
        }
    }
}

/// Times below 1000 times two to the power 43 are shown to the millisecond.
pub proof fn law_seconds_are_exact(ms: nat)
    requires
        ms < 0x1f_4000_0000_0000,
    ensures
        shown_millis(ms) == ms,
{
    ieee::law_nearest_is_close(ms);
    if ms > 0 {
        lemma2_to64();
        lemma_thousandths(ms, 1, 0);
    }
}

// ---------------------------------------------------------------------------
// Packets
// ---------------------------------------------------------------------------

/// Where the payload of a packet begins, behind the headers.
pub open spec fn payload_start(proto: u8, data: Seq<u8>) -> Option<int> {
    let ihl = (data[0] % 16) * 4;
    if data.len() < 20 || data.len() < ihl {
        None
    } else if proto == TCP {
        let start = ihl + (data[ihl + 12] / 16) * 4;
        if data.len() < ihl + 20 || data.len() < start {
            None
        } else {
            Some(start)
        }
    } else if proto == UDP {
        if data.len() < ihl + 8 {
            None
        } else {
            Some(ihl + 8)
        }
    } else {
        Some(ihl)
    }
}

/// The payload of a packet; empty where the headers are not whole.
pub open spec fn payload_of(proto: u8, data: Seq<u8>) -> Seq<u8> {
    match payload_start(proto, data) {
        Some(i) => data.skip(i),
        None => Seq::empty(),
    }
}

/// The payload of a packet, behind the headers of IP and of TCP or UDP.
pub fn capture_l4_payload(rec: &PacketRecord) -> (r: &[u8])
    ensures
        r@ == payload_of(rec.proto, rec.data@),
{
    let d = rec.data.as_slice();
    let none = &d[0..0];
    if d.len() < 20 {
        assert(none@ =~= payload_of(rec.proto, rec.data@));
        return none;
    }
    let ihl: usize = (d[0] % 16) as usize * 4;
    assert(none@ =~= Seq::<u8>::empty());
    if d.len() < ihl {
        return none;
    }
    let start: usize = match rec.proto {
        6 => {
            if d.len() < ihl + 20 {
                return none;
            }
            ihl + (d[ihl + 12] / 16) as usize * 4
        },
        17 => ihl + 8,
        _ => ihl,
    };
    if d.len() < start {
        return none;
    }
    let r = &d[start..d.len()];
    assert(r@ =~= d@.skip(start as int));
    r
}

/// The words that a message in plain HTTP begins with.
pub open spec fn http_openings() -> Seq<Seq<char>> {
    seq![
        "GET "@,
        "POST "@,
        "PUT "@,
        "HEAD "@,
        "DELETE"@,
        "PATCH "@,
        "OPTIONS"@,
        "TRACE "@,
        "HTTP/"@,
    ]
}

/// Bytes begin with a word of ASCII characters.
pub open spec fn opens_with(data: Seq<u8>, word: Seq<char>) -> bool {
    &&& data.len() >= word.len()
    &&& forall|i: int| 0 <= i < word.len() ==> data[i] as char == #[trigger] word[i]
}

fn begins(data: &[u8], word: &str) -> (r: bool)
    ensures
        r == opens_with(data@, word@),
{
    let w = text::chars_of(word);
    if data.len() < w.len() {
        return false;
    }
    let mut i: usize = 0;
    while i < w.len()
        invariant
            i <= w@.len() <= data@.len(),
            w@ == word@,
            forall|k: int| 0 <= k < i ==> data@[k] as char == #[trigger] w@[k],
        decreases w.len() - i,
    {
        if data[i] as char != w[i] {
            return false;
        }
        i += 1;
    }
    true
}

/// Bytes look like a message in plain HTTP.
pub open spec fn looks_like_http(data: Seq<u8>) -> bool {
    exists|k: int| 0 <= k < http_openings().len() && opens_with(data, #[trigger] http_openings()[k])
}

/// How long the first line is: up to a line end, or 120 bytes where there is none.
pub open spec fn first_line_len(data: Seq<u8>) -> int {
    if exists|i: int| 0 <= i < data.len() && is_line_end(#[trigger] data[i]) {
        first_end(data, 0)
    } else if data.len() < 120 {
        data.len() as int
    } else {
        120
    }
}

/// The byte ends a line.
pub open spec fn is_line_end(b: u8) -> bool {
    b == 0x0d || b == 0x0a
}

/// The place of the first line end from `i` on.
pub open spec fn first_end(data: Seq<u8>, i: int) -> int
    decreases data.len() - i,
{
    if i >= data.len() || is_line_end(data[i]) {
        i
    } else {
        first_end(data, i + 1)
    }
}

proof fn lemma_first_end(data: Seq<u8>, i: int, n: int)
    requires
        0 <= i <= n <= data.len(),
        forall|k: int| i <= k < n ==> !is_line_end(#[trigger] data[k]),
        n < data.len() ==> is_line_end(data[n]),
    ensures
        first_end(data, i) == n,
    decreases n - i,
{
    if i < n {
        assert(!is_line_end(data[i]));
        lemma_first_end(data, i + 1, n);
    }
}

/// The line that a decoded text holds: without white space around it, and not empty.
pub fn line_of(decoded: &str) -> (r: Option<String>)
    ensures
        match r {
            Some(s) => text::trimmed(decoded@).len() > 0 && s@ == text::trimmed(decoded@),
            None => text::trimmed(decoded@).len() == 0,
        },
{
    let t = text::trim(decoded);
    if t.len() == 0 {
        None
    } else {
        Some(text::string_of(&t))
    }
}

/// The first line of a message in plain HTTP. `None` where the bytes do not look like one.
pub open spec fn http_line(data: Seq<u8>) -> Option<Seq<char>> {
    let line = text::trimmed(text::utf8_lossy(data.take(first_line_len(data))));
    if looks_like_http(data) && line.len() > 0 {
        Some(line)
    } else {
        None
    }
}

fn is_http(payload: &[u8]) -> (r: bool)
    ensures
        r == looks_like_http(payload@),
{
    let ghost o = http_openings();
    let a = begins(payload, "GET ");
    let b = begins(payload, "POST ");
    let c = begins(payload, "PUT ");
    let d = begins(payload, "HEAD ");
    let e = begins(payload, "DELETE");
    let f = begins(payload, "PATCH ");
    let g = begins(payload, "OPTIONS");
    let h = begins(payload, "TRACE ");
    let i = begins(payload, "HTTP/");
    proof {
        assert(a == opens_with(payload@, o[0]));
        assert(b == opens_with(payload@, o[1]));
        assert(c == opens_with(payload@, o[2]));
        assert(d == opens_with(payload@, o[3]));
        assert(e == opens_with(payload@, o[4]));
        assert(f == opens_with(payload@, o[5]));
        assert(g == opens_with(payload@, o[6]));
        assert(h == opens_with(payload@, o[7]));
        assert(i == opens_with(payload@, o[8]));
    }
    a || b || c || d || e || f || g || h || i
}

/// The first line of a message in plain HTTP.
pub fn http_first_line(payload: &[u8]) -> (r: Option<String>)
    ensures
        match r {
            Some(s) => http_line(payload@) == Some(s@),
            None => http_line(payload@) is None,
        },
{
    if !is_http(payload) {
        return None;
    }
    let mut n: usize = 0;
    while n < payload.len() && payload[n] != 0x0d && payload[n] != 0x0a
        invariant
            n <= payload@.len(),
            forall|k: int| 0 <= k < n ==> !is_line_end(#[trigger] payload@[k]),
        decreases payload.len() - n,
    {
        n += 1;
    }
    let end: usize = if n < payload.len() {
        assert(is_line_end(payload@[n as int]));
        n
    } else if payload.len() < 120 {
        payload.len()
    } else {
        120
    };
    proof {
        lemma_first_end(payload@, 0, n as int);
        assert(end == first_line_len(payload@));
        assert(payload@.take(end as int) == payload@.subrange(0, end as int));
    }
    let decoded = text::decode_utf8_lossy(&payload[0..end]);
    line_of(decoded.as_str())
}

/// A packet that is kept as evidence.
pub struct PinnedPacket {
    pub label: String,
    pub rec: PacketRecord,
}

/// An address and a port as they are written.
pub open spec fn endpoint(ip: crate::capture::Ipv4Addr, port: u16) -> Seq<char> {
    ip.text() + seq![':'] + text::decimal(port as nat)
}

fn push_endpoint(s: &mut String, ip: crate::capture::Ipv4Addr, port: u16)
    ensures
        final(s)@ == old(s)@ + endpoint(ip, port),
{
    ip.push_to(s);
    s.push(':');
    text::push_decimal(s, port as u64);
    assert(s@ =~= old(s)@ + endpoint(ip, port));
}

/// The arrow that says which way a packet goes.
pub open spec fn arrow(outbound: bool) -> char {
    if outbound {
        '▲'
    } else {
        '▼'
    }
}

/// What is said of a packet that is kept as evidence.
pub open spec fn pin_label(p: PacketView) -> Seq<char> {
    seq![arrow(p.outbound), ' '] + crate::capture::protocol(p.proto) + seq![' '] + endpoint(
        p.src,
        p.src_port,
    ) + seq!['→'] + endpoint(p.dst, p.dst_port) + " · "@ + seconds_text(p.ts_ms as nat) + "s · "@
        + text::decimal(p.total_len as nat) + seq!['B']
}

/// Keeps a packet as evidence.
pub fn pinned_from(p: &PacketRecord) -> (r: PinnedPacket)
    ensures
        r.label@ == pin_label(p@),
        r.rec@ == p@,
{
    let mut s = String::new();
    s.push(
        if p.outbound {
            '▲'
        } else {
            '▼'
        },
    );
    s.push(' ');
    s.append(p.proto_name());
    s.push(' ');
    push_endpoint(&mut s, p.src, p.src_port);
    s.push('→');
    push_endpoint(&mut s, p.dst, p.dst_port);
    s.append(" · ");
    push_seconds(&mut s, p.ts_ms);
    s.append("s · ");
    text::push_decimal(&mut s, p.total_len as u64);
    s.push('B');
    assert(s@ =~= pin_label(p@));
    PinnedPacket { label: s, rec: p.duplicate() }
}

/// A text moved to the right end of a field.
pub open spec fn right_aligned(s: Seq<char>, width: nat) -> Seq<char> {
    if s.len() >= width {
        s
    } else {
        Seq::new((width - s.len()) as nat, |i: int| ' ') + s
    }
}

/// The line of a packet in a list.
pub open spec fn packet_text(p: PacketView) -> Seq<char> {
    seq![arrow(p.outbound), ' '] + right_aligned(seconds_text(p.ts_ms as nat), 7) + "s  "@
        + crate::capture::protocol(p.proto) + "  "@ + text::decimal(p.total_len as nat) + " B"@
}

/// The line of a packet in a list.
pub fn packet_line(p: &PacketRecord) -> (r: String)
    ensures
        r@ == packet_text(p@),
{
    let mut t = String::new();
    push_seconds(&mut t, p.ts_ms);
    let cs = text::chars_of(t.as_str());
    let mut s = String::new();
    s.push(
        if p.outbound {
            '▲'
        } else {
            '▼'
        },
    );
    s.push(' ');
    let ghost head = s@;
    let mut n: usize = cs.len();
    while n < 7
        invariant
            cs@.len() <= n,
            n <= 7 || n == cs@.len(),
            s@ == head + Seq::new((n - cs@.len()) as nat, |i: int| ' '),
        decreases 7 - n,
    {
        s.push(' ');
        n += 1;
        assert(s@ =~= head + Seq::new((n - cs@.len()) as nat, |i: int| ' '));
    }
    s.append(t.as_str());
    assert(s@ =~= head + right_aligned(t@, 7));
    s.append("s  ");
    s.append(p.proto_name());
    s.append("  ");
    text::push_decimal(&mut s, p.total_len as u64);
    s.append(" B");
    assert(s@ =~= packet_text(p@));
    s
}

/// The line that says where a packet comes from and goes to.
pub open spec fn route_text(p: PacketView) -> Seq<char> {
    (if p.outbound {
        "OUT "@
    } else {
        "IN  "@
    }) + crate::capture::protocol(p.proto) + "  "@ + endpoint(p.src, p.src_port) + (if p.outbound {
        " → "@
    } else {
        " ← "@
    }) + endpoint(p.dst, p.dst_port)
}

/// The line that says where a packet comes from and goes to.
pub fn packet_route(p: &PacketRecord) -> (r: String)
    ensures
        r@ == route_text(p@),
{
    let mut s = String::new();
    s.append(
        if p.outbound {
            "OUT "
        } else {
            "IN  "
        },
    );
    s.append(p.proto_name());
    s.append("  ");
    push_endpoint(&mut s, p.src, p.src_port);
    s.append(
        if p.outbound {
            " → "
        } else {
            " ← "
        },
    );
    push_endpoint(&mut s, p.dst, p.dst_port);
    assert(s@ =~= route_text(p@));
    s
}

/// The line that gives the length and the time of a packet.
pub open spec fn timing_text(p: PacketView) -> Seq<char> {
    "len "@ + text::decimal(p.total_len as nat) + " B · t="@ + seconds_text(p.ts_ms as nat) + "s"@
}

/// The line that gives the length and the time of a packet.
pub fn packet_timing(p: &PacketRecord) -> (r: String)
    ensures
        r@ == timing_text(p@),
{
    let mut s = "len ".to_owned();
    text::push_decimal(&mut s, p.total_len as u64);
    s.append(" B · t=");
    push_seconds(&mut s, p.ts_ms);
    s.append("s");
    s
}

/// What is hinted at beside a packet.
pub enum PacketHint {
    /// The first line of plain HTTP.
    Http(String),
    /// The packet is probably encrypted.
    Tls,
    Nothing,
}

/// A packet is probably encrypted: it is TCP from or to port 443.
pub open spec fn may_be_tls(p: PacketView) -> bool {
    p.proto == TCP && (p.src_port == 443 || p.dst_port == 443)
}

/// Says what to hint at beside a packet: a line of HTTP where there is one, or that TCP on port 443
/// is probably encrypted.
pub fn packet_hint(p: &PacketRecord) -> (r: PacketHint)
    ensures
        match r {
            PacketHint::Http(s) => http_line(payload_of(p.proto, p.data@)) == Some(s@),
            PacketHint::Tls => http_line(payload_of(p.proto, p.data@)) is None && may_be_tls(p@),
            PacketHint::Nothing => http_line(payload_of(p.proto, p.data@)) is None && !may_be_tls(
                p@,
            ),
        },
{
    match http_first_line(capture_l4_payload(p)) {
        Some(s) => PacketHint::Http(s),
        None => if p.proto == TCP && (p.src_port == 443 || p.dst_port == 443) {
            PacketHint::Tls
        } else {
            PacketHint::Nothing
        },
    }
}

// ---------------------------------------------------------------------------
// Laws of packets
// ---------------------------------------------------------------------------

/// A packet of an IP header of `w` words, a TCP header of `t` words that says so, and a payload has
/// that payload.
pub proof fn law_tcp_payload_is_found(ip: Seq<u8>, tcp: Seq<u8>, payload: Seq<u8>, w: int, t: int)
    requires
        5 <= w <= 15,
        5 <= t <= 15,
        ip.len() == 4 * w,
        ip[0] % 16 == w,
        tcp.len() == 4 * t,
        tcp[12] / 16 == t,
    ensures
        payload_of(6, ip + tcp + payload) == payload,
{
    let d = ip + tcp + payload;
    assert(d[0] == ip[0]);
    assert(d[4 * w + 12] == tcp[12]);
    assert(d.skip(4 * w + 4 * t) =~= payload);
}

/// A packet of an IP header of `w` words, a UDP header of eight bytes and a payload has that payload.
/// Of another protocol all that follows the IP header is the payload.
pub proof fn law_other_payload_is_found(ip: Seq<u8>, udp: Seq<u8>, payload: Seq<u8>, w: int, proto: u8)
    requires
        5 <= w <= 15,
        ip.len() == 4 * w,
        ip[0] % 16 == w,
        udp.len() == 8,
        proto != 6,
        proto != 17,
    ensures
        payload_of(17, ip + udp + payload) == payload,
        payload_of(proto, ip + payload) == payload,
{
    let d = ip + udp + payload;
    assert(d[0] == ip[0]);
    assert(d.skip(4 * w + 8) =~= payload);
    let e = ip + payload;
    assert(e[0] == ip[0]);
    assert(e.skip(4 * w) =~= payload);
}

/// A packet that breaks off within its headers has no payload.
pub proof fn law_broken_headers_have_no_payload(d: Seq<u8>, w: int, t: int)
    requires
        d.len() > 0,
        d[0] % 16 == w,
    ensures
        d.len() < 20 || d.len() < 4 * w ==> payload_of(6, d).len() == 0 && payload_of(17, d).len()
            == 0,
        d.len() < 4 * w + 20 ==> payload_of(6, d).len() == 0,
        d.len() >= 4 * w + 20 && d[4 * w + 12] / 16 == t && d.len() < 4 * w + 4 * t ==> payload_of(
            6,
            d,
        ).len() == 0,
        d.len() < 4 * w + 8 ==> payload_of(17, d).len() == 0,
{
}

/// Whatever its headers say, the payload of a packet is the end of it.
pub proof fn law_payload_is_the_end(proto: u8, d: Seq<u8>)
    ensures
        payload_of(proto, d).len() > 0 ==> payload_of(proto, d).len() <= d.len()
            && payload_of(proto, d) == d.skip(d.len() - payload_of(proto, d).len()),
{
}

/// Bytes that begin with a word of HTTP and hold a line end are recognised, and their first line is
/// what stands before it, without white space around it.
pub proof fn law_http_line_is_found(line: Seq<u8>, end: u8, rest: Seq<u8>, k: int)
    requires
        0 <= k < 9,
        opens_with(line, http_openings()[k]),
        end == 0x0d || end == 0x0a,
        forall|i: int| 0 <= i < line.len() ==> #[trigger] line[i] != 0x0d && line[i] != 0x0a,
        text::trimmed(text::utf8_lossy(line)).len() > 0,
    ensures
        http_line(line + seq![end] + rest) == Some(text::trimmed(text::utf8_lossy(line))),
{
    let d = line + seq![end] + rest;
    let word = http_openings()[k];
    assert forall|i: int| 0 <= i < word.len() implies d[i] as char == #[trigger] word[i] by {
        assert(d[i] == line[i]);
    }
    assert(opens_with(d, http_openings()[k]));
    assert(looks_like_http(d));
    let n = line.len() as int;
    assert(is_line_end(d[n]));
    lemma_first_end_at(d, 0, n);
    assert(d.take(n) =~= line);
}

proof fn lemma_first_end_at(d: Seq<u8>, i: int, n: int)
    requires
        0 <= i <= n < d.len(),
        is_line_end(d[n]),
        forall|x: int| i <= x < n ==> !is_line_end(#[trigger] d[x]),
    ensures
        first_end(d, i) == n,
    decreases n - i,
{
    if i < n {
        lemma_first_end_at(d, i + 1, n);
    }
}

/// Where there is no line end, the first line is all of the bytes, or 120 of them.
pub proof fn law_http_line_without_end(d: Seq<u8>, k: int)
    requires
        0 <= k < 9,
        opens_with(d, http_openings()[k]),
        forall|i: int| 0 <= i < d.len() ==> #[trigger] d[i] != 0x0d && d[i] != 0x0a,
    ensures
        ({
            let line = if d.len() <= 120 {
                d
            } else {
                d.take(120)
            };
            let shown = text::trimmed(text::utf8_lossy(line));
            http_line(d) == (if shown.len() > 0 {
                Some(shown)
            } else {
                None
            })
        }),
{
    assert(looks_like_http(d));
    assert(d.take(d.len() as int) =~= d);
}

/// Bytes that begin with none of the words of HTTP are not taken for HTTP.
pub proof fn law_other_bytes_are_no_http(d: Seq<u8>)
    requires
        !opens_with(d, "GET "@),
        !opens_with(d, "POST "@),
        !opens_with(d, "PUT "@),
        !opens_with(d, "HEAD "@),
        !opens_with(d, "DELETE"@),
        !opens_with(d, "PATCH "@),
        !opens_with(d, "OPTIONS"@),
        !opens_with(d, "TRACE "@),
        !opens_with(d, "HTTP/"@),
    ensures
        http_line(d) is None,
{
    assert forall|k: int| 0 <= k < http_openings().len() implies !opens_with(
        d,
        #[trigger] http_openings()[k],
    ) by {
        assert(k == 0 || k == 1 || k == 2 || k == 3 || k == 4 || k == 5 || k == 6 || k == 7 || k
            == 8);
    }
}

/// Behind an IP header of as many words as its first byte says, and a TCP header of as many as its
/// own says, stands the payload, wherever the packet is long enough.
pub proof fn law_payload_stands_behind_headers(d: Seq<u8>, w: int, t: int, proto: u8)
    requires
        d.len() >= 20,
        d[0] % 16 == w,
    ensures
        d.len() >= 4 * w + 20 && d[4 * w + 12] / 16 == t && d.len() >= 4 * w + 4 * t ==> payload_of(
            6,
            d,
        ) == d.skip(4 * w + 4 * t),
        d.len() >= 4 * w + 8 ==> payload_of(17, d) == d.skip(4 * w + 8),
        d.len() >= 4 * w && proto != 6 && proto != 17 ==> payload_of(proto, d) == d.skip(4 * w),
{
}

// ---------------------------------------------------------------------------
// Laws of dumps, sizes and times
// ---------------------------------------------------------------------------

/// A dump has one line for each sixteen bytes that were begun, and together the lines hold every byte
/// once: byte `k` stands in line `k / 16`.
pub proof fn law_lines_hold_all_bytes(data: Seq<u8>, k: int)
    requires
        0 <= k < data.len(),
    ensures
        0 <= k / 16 < line_count(data.len() as int),
        line_bytes(data, k / 16).len() <= 16,
        k % 16 < line_bytes(data, k / 16).len(),
        line_bytes(data, k / 16)[k % 16] == data[k],
        (line_count(data.len() as int) - 1) * 16 < data.len() <= line_count(data.len() as int) * 16,
{
}

/// A dump of one part behind another, where the first part ends a line, is the dump of all: the lines
/// of the first part do not depend on what follows.
pub proof fn law_whole_lines_stand_alone(a: Seq<u8>, b: Seq<u8>, n: int)
    requires
        0 <= n,
        a.len() == 16 * n,
    ensures
        dump_lines(a + b, n) == dump_lines(a, n),
    decreases n,
{
    lemma_same_lines(a, a + b, n);
}

proof fn lemma_same_lines(a: Seq<u8>, d: Seq<u8>, n: int)
    requires
        0 <= n,
        16 * n <= a.len() <= d.len(),
        forall|i: int| 0 <= i < a.len() ==> #[trigger] a[i] == d[i],
    ensures
        dump_lines(d, n) == dump_lines(a, n),
    decreases n,
{
    if n > 0 {
        lemma_same_lines(a, d, n - 1);
        assert(line_bytes(a, n - 1) =~= line_bytes(d, n - 1));
    }
}

/// Where column `j` of a line begins: three characters for each byte before it, and one more behind
/// the eighth.
pub open spec fn column_start(j: int) -> int {
    if j < 8 {
        3 * j
    } else {
        3 * j + 1
    }
}

proof fn lemma_columns(chunk: Seq<u8>, n: int, j: int, upper: bool)
    requires
        0 <= n <= 16,
        chunk.len() <= 16,
    ensures
        hex_columns(chunk, n, upper).len() == column_start(n),
        0 <= j < n && j < chunk.len() ==> hex_columns(chunk, n, upper).subrange(
            column_start(j),
            column_start(j) + 2,
        ) == text::byte_text(chunk[j], upper),
        0 <= j < n && j >= chunk.len() ==> hex_columns(chunk, n, upper).subrange(
            column_start(j),
            column_start(j) + 3,
        ) == seq![' ', ' ', ' '],
    decreases n,
{
    if n > 0 {
        let rest = hex_columns(chunk, n - 1, upper);
        let col = hex_column(chunk, n - 1, upper);
        let all = hex_columns(chunk, n, upper);
        lemma_columns(chunk, n - 1, j, upper);
        if n - 1 < chunk.len() {
            text::law_byte_text_is_read(chunk[n - 1], upper);
        }
        let s = column_start(j);
        assert(all == rest + col);
        if 0 <= j < n - 1 {
            if j < chunk.len() {
                assert(all.subrange(s, s + 2) =~= rest.subrange(s, s + 2));
            } else {
                assert(all.subrange(s, s + 3) =~= rest.subrange(s, s + 3));
            }
        } else if j == n - 1 {
            if j < chunk.len() {
                assert(all.subrange(s, s + 2) =~= text::byte_text(chunk[j], upper));
            } else {
                assert(all.subrange(s, s + 3) =~= seq![' ', ' ', ' ']);
            }
        }
    }
}

/// In a line of a dump, each byte stands in its column in two hexadecimal digits, room is left for
/// those that are missing, and behind them the bytes stand as characters between bars: itself where
/// it can be printed, or else a dot.
pub proof fn law_line_shows_its_bytes(place: Seq<char>, chunk: Seq<u8>, upper: bool, j: int)
    requires
        chunk.len() <= 16,
        0 <= j < 16,
    ensures
        ({
            let line = dump_line(place, chunk, upper);
            let h = place.len() as int + 2;
            let t = h + 49 + 2;
            &&& line.len() == t + chunk.len() + 2
            &&& line.take(place.len() as int) == place
            &&& j < chunk.len() ==> {
                let s = h + column_start(j);
                &&& text::integer(line.subrange(s, s + 2), 16, 0, 255) == Some(chunk[j] as int)
                &&& line[t + j] == (if 0x20 <= chunk[j] <= 0x7e {
                    chunk[j] as char
                } else {
                    '.'
                })
            }
            &&& j >= chunk.len() ==> {
                let s = h + column_start(j);
                line.subrange(s, s + 3) == seq![' ', ' ', ' ']
            }
            &&& line[t - 1] == '|'
            &&& line[t + chunk.len()] == '|'
            &&& line.last() == '\n'
        }),
{
    let line = dump_line(place, chunk, upper);
    let cols = hex_columns(chunk, 16, upper);
    lemma_columns(chunk, 16, j, upper);
    let h = place.len() as int + 2;
    let s = column_start(j);
    assert(line.take(place.len() as int) =~= place);
    if j < chunk.len() {
        text::law_byte_text_is_read(chunk[j], upper);
        assert(line.subrange(h + s, h + s + 2) =~= cols.subrange(s, s + 2));
    } else {
        assert(line.subrange(h + s, h + s + 3) =~= cols.subrange(s, s + 3));
    }
}

/// Readable text keeps what can be printed, line breaks and tabs, drops carriage returns, and has a
/// dot for everything else, in the order of the bytes.
pub proof fn law_readable_text_goes_byte_by_byte(a: Seq<u8>, b: u8, c: Seq<u8>)
    ensures
        readable(a + c) == readable(a) + readable(c),
        readable(seq![b]) == (if b == 0x0d {
            Seq::<char>::empty()
        } else if b == 0x0a || b == 0x09 || 0x20 <= b <= 0x7e {
            seq![b as char]
        } else {
            seq!['.']
        }),
    decreases c.len(),
{
    if c.len() > 0 {
        law_readable_text_goes_byte_by_byte(a, b, c.drop_last());
        assert((a + c).drop_last() =~= a + c.drop_last());
        assert(readable(a + c) =~= readable(a) + readable(c));
    } else {
        assert(a + c =~= a);
        assert(readable(a) + readable(c) =~= readable(a));
    }
    let one = seq![b];
    assert(one.drop_last() =~= Seq::<u8>::empty());
    assert(readable(Seq::<u8>::empty()) =~= Seq::<char>::empty());
    assert(readable(one) =~= readable_byte(b));
}

/// A quotient is rounded to an integer that is no more than one half away.
pub proof fn law_rounding_is_close(n: nat, d: nat)
    requires
        d > 0,
    ensures
        2 * rounded(n, d) * d <= 2 * n + d,
        2 * n <= 2 * rounded(n, d) * d + d,
        2 * rounded(n, d) * d == 2 * n + d || 2 * n == 2 * rounded(n, d) * d + d ==> rounded(n, d) % 2
            == 0,
{
    let q = n / d;
    let r = n % d;
    vstd::arithmetic::div_mod::lemma_fundamental_div_mod(n as int, d as int);
    assert(2 * q * d == 2 * (d * q)) by (nonlinear_arith);
    assert(2 * (q + 1) * d == 2 * (d * q) + 2 * d) by (nonlinear_arith);
}

/// A size is given in the largest of the units of which it has at least one, each 1024 times the one
/// before; below 1024 in whole bytes, and else with one digit behind the point, no more than one
/// twentieth of the unit from the size, as far as that is a floating-point number.
pub proof fn law_size_is_given_in_its_unit(n: nat)
    ensures
        n < 1024 ==> size_text(n) == text::decimal(n) + " B"@,
        n >= 1024 ==> {
            let t = rounded(10 * ieee::nearest(n), unit_of(n));
            &&& size_text(n) == text::decimal(t / 10) + seq!['.'] + text::decimal(t % 10)
                + unit_name(n)
            &&& 20 * ieee::nearest(n) <= 2 * t * unit_of(n) + unit_of(n)
            &&& 2 * t * unit_of(n) <= 20 * ieee::nearest(n) + unit_of(n)
            &&& unit_of(n) <= n
            &&& unit_name(n) == " KB"@ ==> n < 1024 * 1024
            &&& unit_of(n) == 1024 ==> unit_name(n) == " KB"@ && n < 1024 * 1024
            &&& unit_of(n) == 1024 * 1024 ==> unit_name(n) == " MB"@ && n < 1024 * 1024 * 1024
            &&& unit_of(n) == 1024 * 1024 * 1024 ==> unit_name(n) == " GB"@
            &&& unit_of(n) == 1024 || unit_of(n) == 1024 * 1024 || unit_of(n) == 1024 * 1024 * 1024
        },
{
    if n >= 1024 {
        law_rounding_is_close(10 * ieee::nearest(n), unit_of(n));
        if n < 1024 * 1024 {
            assert(unit_name(n) == " KB"@);
        } else {
            reveal_strlit(" KB");
            reveal_strlit(" MB");
            reveal_strlit(" GB");
            assert(" KB"@[1] == 'K' && " MB"@[1] == 'M' && " GB"@[1] == 'G');
        }
    }
}

/// A time is written as its seconds, a point and three digits for its milliseconds.
pub proof fn law_time_is_written_in_seconds(ms: nat)
    requires
        ms < 0x1f_4000_0000_0000,
    ensures
        ({
            let s = seconds_text(ms);
            let n = s.len() - 4;
            &&& n > 0
            &&& text::number(s.take(n), 10) == Some(ms as int / 1000)
            &&& s[n] == '.'
            &&& text::number(s.skip(n + 1), 10) == Some(ms as int % 1000)
        }),
{
    law_seconds_are_exact(ms);
    let s = seconds_text(ms);
    let a = text::decimal(ms / 1000);
    let b = text::fixed_numeral(ms % 1000, 10, 3, false);
    text::law_numeral_round_trip(ms / 1000, 10, false);
    vstd::arithmetic::power::lemma_pow_adds(10, 1, 1);
    vstd::arithmetic::power::lemma_pow_adds(10, 2, 1);
    vstd::arithmetic::power::lemma_pow1(10);
    text::law_fixed_numeral_round_trip(ms % 1000, 10, 3, false);
    let n = a.len() as int;
    assert(s.len() == n + 4);
    assert(s.take(n) =~= a);
    assert(s.skip(n + 1) =~= b);
}

proof fn lemma_hex_number(n: nat, width: nat, upper: bool)
    requires
        n < vstd::arithmetic::power::pow(16, width),
        width > 0,
    ensures
        text::fixed_numeral(n, 16, width, upper).len() == width,
        text::number(text::fixed_numeral(n, 16, width, upper), 16) == Some(n as int),
{
    text::law_fixed_numeral_round_trip(n, 16, width, upper);
}

/// The `n`-th line of a dump with addresses begins with the address of its first byte in sixteen
/// digits; that of one without, with the distance in at least eight.
pub proof fn law_lines_give_their_place(base: u64, data: Seq<u8>, n: int)
    requires
        0 < n,
        16 * n <= u64::MAX,
    ensures
        ({
            let before = dump_lines_at(base, data, n - 1).len() as int;
            let place = dump_lines_at(base, data, n).subrange(before, before + 16);
            let at = base + 16 * (n - 1);
            text::number(place, 16) == Some(
                if at > u64::MAX {
                    at - u64::MAX - 1
                } else {
                    at
                },
            )
        }),
        ({
            let before = dump_lines(data, n - 1).len() as int;
            let rest = dump_lines(data, n).skip(before);
            exists|k: int|
                8 <= k <= rest.len() && text::number(#[trigger] rest.take(k), 16) == Some(16 * (n - 1))
        }),
{
    let a = base.wrapping_add(((n - 1) * 16) as u64);
    lemma_powers();
    lemma_hex_number(a as nat, 16, true);
    let p = text::fixed_numeral(a as nat, 16, 16, true);
    let all = dump_lines_at(base, data, n);
    let before = dump_lines_at(base, data, n - 1).len() as int;
    assert(all.subrange(before, before + 16) =~= p);
    let off = ((n - 1) * 16) as nat;
    let q = offset_text(off);
    let start = dump_lines(data, n - 1).len() as int;
    let rest = dump_lines(data, n).skip(start);
    if off < 0x1_0000_0000 {
        lemma_hex_number(off, 8, false);
    } else {
        text::law_numeral_round_trip(off, 16, false);
        lemma_long(off);
    }
    assert(rest.take(q.len() as int) =~= q);
}

proof fn lemma_powers()
    ensures
        vstd::arithmetic::power::pow(16, 8) == 0x1_0000_0000,
        vstd::arithmetic::power::pow(16, 16) == 0x1_0000_0000_0000_0000,
{
    vstd::arithmetic::power::lemma_pow1(16);
    vstd::arithmetic::power::lemma_pow_adds(16, 1, 1);
    assert(vstd::arithmetic::power::pow(16, 2) == 0x100);
    vstd::arithmetic::power::lemma_pow_adds(16, 2, 2);
    assert(vstd::arithmetic::power::pow(16, 4) == 0x100 * 0x100);
    vstd::arithmetic::power::lemma_pow_adds(16, 4, 4);
    assert(vstd::arithmetic::power::pow(16, 8) == 0x1_0000 * 0x1_0000);
    vstd::arithmetic::power::lemma_pow_adds(16, 8, 8);
    assert(vstd::arithmetic::power::pow(16, 16) == 0x1_0000_0000 * 0x1_0000_0000);
}

proof fn lemma_long(n: nat)
    requires
        n >= 0x1_0000_0000,
    ensures
        text::numeral(n, 16, false).len() >= 8,
{
    reveal_with_fuel(text::numeral, 9);
}

/// The line of a packet and what is said of it as evidence begin with an arrow up where it goes out,
/// and down where it comes in.
pub proof fn law_arrows_show_the_way(p: PacketView)
    ensures
        p.outbound ==> pin_label(p)[0] == '▲' && packet_text(p)[0] == '▲',
        !p.outbound ==> pin_label(p)[0] == '▼' && packet_text(p)[0] == '▼',
{
}

/// TCP from or to port 443 is taken for encrypted, and nothing else is.
pub proof fn law_port_443_is_taken_for_tls(p: PacketView, q: PacketView)
    requires
        p.proto == 6,
        p.dst_port == 443 || p.src_port == 443,
        q.proto != 6 || (q.dst_port != 443 && q.src_port != 443),
    ensures
        may_be_tls(p),
        !may_be_tls(q),
{
}

/// Bytes that begin with one of the nine words are taken for HTTP, whatever follows.
pub proof fn law_words_of_http_are_known(d: Seq<u8>)
    ensures
        opens_with(d, "GET "@) ==> looks_like_http(d),
        opens_with(d, "POST "@) ==> looks_like_http(d),
        opens_with(d, "PUT "@) ==> looks_like_http(d),
        opens_with(d, "HEAD "@) ==> looks_like_http(d),
        opens_with(d, "DELETE"@) ==> looks_like_http(d),
        opens_with(d, "PATCH "@) ==> looks_like_http(d),
        opens_with(d, "OPTIONS"@) ==> looks_like_http(d),
        opens_with(d, "TRACE "@) ==> looks_like_http(d),
        opens_with(d, "HTTP/"@) ==> looks_like_http(d),
{
    let w = http_openings();
    assert(w[0] == "GET "@);
    assert(w[1] == "POST "@);
    assert(w[2] == "PUT "@);
    assert(w[3] == "HEAD "@);
    assert(w[4] == "DELETE"@);
    assert(w[5] == "PATCH "@);
    assert(w[6] == "OPTIONS"@);
    assert(w[7] == "TRACE "@);
    assert(w[8] == "HTTP/"@);
}

/// Bytes begin with a word exactly where they are its characters, one byte each, and more.
pub proof fn law_word_at_the_beginning(word: Seq<char>, head: Seq<u8>, rest: Seq<u8>)
    requires
        head.len() == word.len(),
    ensures
        opens_with(head + rest, word) <==> forall|i: int|
            0 <= i < word.len() ==> head[i] as char == #[trigger] word[i],
{
    let d = head + rest;
    if opens_with(d, word) {
        assert forall|i: int| 0 <= i < word.len() implies head[i] as char == #[trigger] word[i] by {
            assert(d[i] as char == word[i]);
        }
    }
    if forall|i: int| 0 <= i < word.len() ==> head[i] as char == #[trigger] word[i] {
        assert forall|i: int| 0 <= i < word.len() implies d[i] as char == #[trigger] word[i] by {
            assert(head[i] as char == word[i]);
        }
    }
}

/// The line of a packet names its protocol and where it comes from before where it goes to, with the
/// way it took in words before and as an arrow between.
pub proof fn law_route_names_both_ends(p: PacketView)
    ensures
        p.outbound ==> route_text(p) == seq!['O', 'U', 'T', ' '] + crate::capture::protocol(p.proto)
            + seq![' ', ' '] + endpoint(p.src, p.src_port) + seq![' ', '→', ' '] + endpoint(
            p.dst,
            p.dst_port,
        ),
        !p.outbound ==> route_text(p) == seq!['I', 'N', ' ', ' '] + crate::capture::protocol(p.proto)
            + seq![' ', ' '] + endpoint(p.src, p.src_port) + seq![' ', '←', ' '] + endpoint(
            p.dst,
            p.dst_port,
        ),
{
    reveal_strlit("OUT ");
    reveal_strlit("IN  ");
    reveal_strlit("  ");
    reveal_strlit(" → ");
    reveal_strlit(" ← ");
    assert("OUT "@ =~= seq!['O', 'U', 'T', ' ']);
    assert("IN  "@ =~= seq!['I', 'N', ' ', ' ']);
    assert("  "@ =~= seq![' ', ' ']);
    assert(" → "@ =~= seq![' ', '→', ' ']);
    assert(" ← "@ =~= seq![' ', '←', ' ']);
}

/// An end of a conversation is written so that its address and its port can be read again.
pub proof fn law_endpoint_is_read_again(ip: crate::capture::Ipv4Addr, port: u16)
    ensures
        ({
            let s = endpoint(ip, port);
            let n = ip.text().len() as int;
            &&& n < s.len()
            &&& s[n] == ':'
            &&& crate::capture::address_in(s.take(n)) == Some(ip)
            &&& text::integer(s.skip(n + 1), 10, 0, 65535) == Some(port as int)
        }),
{
    let s = endpoint(ip, port);
    let n = ip.text().len() as int;
    let none = Seq::<char>::empty();
    crate::capture::law_typed_ipv4_is_read(ip, none, none);
    assert(none + ip.text() + none =~= ip.text());
    assert(s.take(n) =~= ip.text());
    assert(s.skip(n + 1) =~= text::decimal(port as nat));
    text::law_integer_round_trip(port as int, 0, 65535);
}

/// What a pinned packet is called names its protocol, where it comes from before where it goes to, and
/// its time and size.
pub proof fn law_pin_names_the_packet(p: PacketView)
    ensures
        ({
            let s = pin_label(p);
            let proto = crate::capture::protocol(p.proto);
            let a = endpoint(p.src, p.src_port);
            let b = endpoint(p.dst, p.dst_port);
            let t = seconds_text(p.ts_ms as nat);
            let n = text::decimal(p.total_len as nat);
            s.skip(2) == proto + seq![' '] + a + seq!['→'] + b + seq![' ', '·', ' '] + t + seq![
                's',
                ' ',
                '·',
                ' ',
            ] + n + seq!['B']
        }),
{
    reveal_strlit(" · ");
    reveal_strlit("s · ");
    assert(" · "@ =~= seq![' ', '·', ' ']);
    assert("s · "@ =~= seq!['s', ' ', '·', ' ']);
    let proto = crate::capture::protocol(p.proto);
    let a = endpoint(p.src, p.src_port);
    let b = endpoint(p.dst, p.dst_port);
    let t = seconds_text(p.ts_ms as nat);
    let n = text::decimal(p.total_len as nat);
    assert(pin_label(p).skip(2) =~= proto + seq![' '] + a + seq!['→'] + b + seq![' ', '·', ' '] + t
        + seq!['s', ' ', '·', ' '] + n + seq!['B']);
}

/// The line of a packet gives its time, moved to the right end of seven columns, behind the arrow; then
/// its protocol and its size.
pub proof fn law_packet_line_is_in_columns(p: PacketView, blanks: Seq<char>)
    requires
        forall|i: int| 0 <= i < blanks.len() ==> #[trigger] blanks[i] == ' ',
        blanks.len() + seconds_text(p.ts_ms as nat).len() == 7 || (blanks.len() == 0
            && seconds_text(p.ts_ms as nat).len() > 7),
    ensures
        packet_text(p).skip(1) == seq![' '] + blanks + seconds_text(p.ts_ms as nat) + seq![
            's',
            ' ',
            ' ',
        ] + crate::capture::protocol(p.proto) + seq![' ', ' '] + text::decimal(p.total_len as nat)
            + seq![' ', 'B'],
{
    reveal_strlit("s  ");
    reveal_strlit("  ");
    reveal_strlit(" B");
    assert("s  "@ =~= seq!['s', ' ', ' ']);
    assert("  "@ =~= seq![' ', ' ']);
    assert(" B"@ =~= seq![' ', 'B']);
    let t = seconds_text(p.ts_ms as nat);
    assert(right_aligned(t, 7) =~= blanks + t);
    let proto = crate::capture::protocol(p.proto);
    let n = text::decimal(p.total_len as nat);
    assert(packet_text(p).skip(1) =~= seq![' '] + blanks + t + seq!['s', ' ', ' '] + proto + seq![
        ' ',
        ' ',
    ] + n + seq![' ', 'B']);
}

} // verus!
