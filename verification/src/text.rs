//! Characters, numbers in text, and text search.
//!
//! Strings are seen through their view, a sequence of `char`.

use vstd::prelude::*;
use vstd::string::*;

verus! {

/// `String::push` appends one character to the end of the string.
pub assume_specification[ String::push ](s: &mut String, c: char)
    ensures
        final(s)@ == old(s)@.push(c),
;

/// The lower-case form of a text under the Unicode case tables of `std`.
pub uninterp spec fn lowercase(s: Seq<char>) -> Seq<char>;

/// `str::to_lowercase` is a function of the characters alone; its tables are not stated here.
pub assume_specification[ str::to_lowercase ](s: &str) -> (r: String)
    ensures
        r@ == lowercase(s@),
;

/// What `String::from_utf8_lossy` makes of a byte sequence.
pub uninterp spec fn utf8_lossy(bytes: Seq<u8>) -> Seq<char>;

/// `String::from_utf8_lossy`: valid UTF-8 is decoded as it stands. How many replacement
/// characters stand for an invalid sequence is left to the name `utf8_lossy`.
#[verifier::external_body]
pub(crate) fn decode_utf8_lossy(bytes: &[u8]) -> (r: String)
    ensures
        r@ == utf8_lossy(bytes@),
        vstd::utf8::valid_utf8(bytes@) ==> r@ == vstd::utf8::decode_utf8(bytes@),
{
    String::from_utf8_lossy(bytes).into_owned()
}

// ---------------------------------------------------------------------------
// Characters
// ---------------------------------------------------------------------------

/// The characters with the Unicode property `White_Space`.
pub open spec fn is_space(c: char) -> bool {
    let u = c as u32;
    ||| 0x09 <= u <= 0x0d
    ||| u == 0x20
    ||| u == 0x85
    ||| u == 0xa0
    ||| u == 0x1680
    ||| 0x2000 <= u <= 0x200a
    ||| u == 0x2028
    ||| u == 0x2029
    ||| u == 0x202f
    ||| u == 0x205f
    ||| u == 0x3000
}

/// Tells whether `c` is white space.
pub fn is_whitespace(c: char) -> (r: bool)
    ensures
        r == is_space(c),
{
    let u = c as u32;
    (u >= 0x09 && u <= 0x0d) || u == 0x20 || u == 0x85 || u == 0xa0 || u == 0x1680 || (u >= 0x2000
        && u <= 0x200a) || u == 0x2028 || u == 0x2029 || u == 0x202f || u == 0x205f || u == 0x3000
}

/// The characters of `s`, in order.
pub fn chars_of(s: &str) -> (r: Vec<char>)
    ensures
        r@ == s@,
{
    let mut out: Vec<char> = Vec::new();
    for c in it: s.chars()
        invariant
            out@ == s@.take(it.index() as int),
            it.seq() == s@,
    {
        out.push(c);
    }
    out
}

/// The string made of the characters of `v`.
pub fn string_of(v: &Vec<char>) -> (r: String)
    ensures
        r@ == v@,
{
    let mut out = String::new();
    let mut i: usize = 0;
    while i < v.len()
        invariant
            i <= v.len(),
            out@ == v@.take(i as int),
        decreases v.len() - i,
    {
        out.push(v[i]);
        i += 1;
        assert(v@.take(i as int) == v@.take(i - 1).push(v@[i - 1]));
    }
    assert(v@.take(v.len() as int) == v@);
    out
}

/// Tells whether two character sequences are equal.
pub fn same_chars(a: &[char], b: &[char]) -> (r: bool)
    ensures
        r == (a@ == b@),
{
    if a.len() != b.len() {
        return false;
    }
    let mut i: usize = 0;
    while i < a.len()
        invariant
            i <= a.len(),
            a.len() == b.len(),
            forall|k: int| 0 <= k < i ==> a@[k] == b@[k],
        decreases a.len() - i,
    {
        if a[i] != b[i] {
            return false;
        }
        i += 1;
    }
    assert(a@ =~= b@);
    true
}

// ---------------------------------------------------------------------------
// White space
// ---------------------------------------------------------------------------

/// `s` without the white space it begins with.
pub open spec fn trim_start(s: Seq<char>) -> Seq<char>
    decreases s.len(),
{
    if s.len() > 0 && is_space(s[0]) {
        trim_start(s.skip(1))
    } else {
        s
    }
}

/// `s` without the white space it ends with.
pub open spec fn trim_end(s: Seq<char>) -> Seq<char>
    decreases s.len(),
{
    if s.len() > 0 && is_space(s.last()) {
        trim_end(s.drop_last())
    } else {
        s
    }
}

/// `s` without the white space at either end.
pub open spec fn trimmed(s: Seq<char>) -> Seq<char> {
    trim_end(trim_start(s))
}

/// The characters of `s` without the white space at either end.
pub fn trim_chars(s: &[char]) -> (r: Vec<char>)
    ensures
        r@ == trimmed(s@),
{
    let mut a: usize = 0;
    assert(s@.skip(0) == s@);
    while a < s.len() && is_whitespace(s[a])
        invariant
            a <= s.len(),
            trim_start(s@) == trim_start(s@.skip(a as int)),
        decreases s.len() - a,
    {
        assert(s@.skip(a as int).skip(1) == s@.skip(a + 1));
        a += 1;
    }
    let ghost t = s@.skip(a as int);
    assert(trim_start(s@) == t);
    let mut b: usize = s.len();
    assert(s@.subrange(a as int, b as int) == t);
    while a < b && is_whitespace(s[b - 1])
        invariant
            a <= b <= s.len(),
            trim_end(t) == trim_end(s@.subrange(a as int, b as int)),
        decreases b,
    {
        assert(s@.subrange(a as int, b as int).drop_last() == s@.subrange(a as int, b - 1));
        b -= 1;
    }
    let mut out: Vec<char> = Vec::new();
    let mut i: usize = a;
    while i < b
        invariant
            a <= i <= b <= s.len(),
            out@ == s@.subrange(a as int, i as int),
        decreases b - i,
    {
        out.push(s[i]);
        i += 1;
    }
    out
}

/// The characters of `s` without the white space at either end.
pub fn trim(s: &str) -> (r: Vec<char>)
    ensures
        r@ == trimmed(s@),
{
    let v = chars_of(s);
    trim_chars(v.as_slice())
}

/// How many characters of `s` come before its first white space.
pub open spec fn word_len(s: Seq<char>) -> int
    decreases s.len(),
{
    if s.len() > 0 && !is_space(s[0]) {
        1 + word_len(s.skip(1))
    } else {
        0
    }
}

proof fn lemma_word_len(s: Seq<char>)
    ensures
        0 <= word_len(s) <= s.len(),
        forall|k: int| 0 <= k < word_len(s) ==> !is_space(#[trigger] s[k]),
        word_len(s) < s.len() ==> is_space(s[word_len(s)]),
    decreases s.len(),
{
    if s.len() > 0 && !is_space(s[0]) {
        lemma_word_len(s.skip(1));
        assert forall|k: int| 0 <= k < word_len(s) implies !is_space(#[trigger] s[k]) by {
            if k > 0 {
                assert(s.skip(1)[k - 1] == s[k]);
            }
        }
    }
}

proof fn lemma_word_len_is(s: Seq<char>, n: int)
    requires
        0 <= n <= s.len(),
        forall|k: int| 0 <= k < n ==> !is_space(#[trigger] s[k]),
        n < s.len() ==> is_space(s[n]),
    ensures
        word_len(s) == n,
{
    lemma_word_len(s);
}

proof fn lemma_trim_start_len(s: Seq<char>)
    ensures
        trim_start(s).len() <= s.len(),
        trim_start(s).len() > 0 ==> !is_space(trim_start(s)[0]),
    decreases s.len(),
{
    if s.len() > 0 && is_space(s[0]) {
        lemma_trim_start_len(s.skip(1));
    }
}

/// The maximal runs of `s` without white space, in order.
pub open spec fn words(s: Seq<char>) -> Seq<Seq<char>>
    decreases s.len(),
    via words_decreases
{
    let t = trim_start(s);
    if t.len() == 0 {
        Seq::empty()
    } else {
        seq![t.take(word_len(t))] + words(t.skip(word_len(t)))
    }
}

#[via_fn]
proof fn words_decreases(s: Seq<char>) {
    let t = trim_start(s);
    lemma_trim_start_len(s);
    lemma_word_len(t);
    if t.len() > 0 {
        assert(word_len(t) >= 1) by {
            if word_len(t) == 0 {
                assert(is_space(t[0]));
            }
        }
    }
}

/// Splits a text at its white space.
pub fn split_words(s: &[char]) -> (r: Vec<Vec<char>>)
    ensures
        r@.len() == words(s@).len(),
        forall|k: int| 0 <= k < r@.len() ==> (#[trigger] r@[k])@ == words(s@)[k],
{
    let mut out: Vec<Vec<char>> = Vec::new();
    let mut a: usize = 0;
    assert(s@.skip(0) == s@);
    loop
        invariant
            a <= s.len(),
            out@.len() + words(s@.skip(a as int)).len() == words(s@).len(),
            forall|k: int| 0 <= k < out@.len() ==> (#[trigger] out@[k])@ == words(s@)[k],
            forall|k: int|
                0 <= k < words(s@.skip(a as int)).len() ==> words(s@)[out@.len() + k]
                    == #[trigger] words(s@.skip(a as int))[k],
        ensures
            out@.len() == words(s@).len(),
            forall|k: int| 0 <= k < out@.len() ==> (#[trigger] out@[k])@ == words(s@)[k],
        decreases s.len() - a,
    {
        let ghost a0 = a;
        while a < s.len() && is_whitespace(s[a])
            invariant
                a0 <= a <= s.len(),
                trim_start(s@.skip(a0 as int)) == trim_start(s@.skip(a as int)),
            decreases s.len() - a,
        {
            assert(s@.skip(a as int).skip(1) == s@.skip(a + 1));
            a += 1;
        }
        let ghost t = s@.skip(a as int);
        assert(trim_start(s@.skip(a0 as int)) == t);
        if a == s.len() {
            break;
        }
        let start = a;
        let mut word: Vec<char> = Vec::new();
        while a < s.len() && !is_whitespace(s[a])
            invariant
                start <= a <= s.len(),
                word@ == s@.subrange(start as int, a as int),
                forall|k: int| start <= k < a ==> !is_space(#[trigger] s@[k]),
            decreases s.len() - a,
        {
            word.push(s[a]);
            a += 1;
        }
        proof {
            let n = a - start;
            assert forall|k: int| 0 <= k < n implies !is_space(#[trigger] t[k]) by {
                assert(t[k] == s@[start + k]);
            }
            lemma_word_len_is(t, n);
            assert(t.take(n) == word@);
            assert(t.skip(n) == s@.skip(a as int));
            assert(words(s@.skip(a0 as int)) == seq![word@] + words(s@.skip(a as int)));
            assert(words(s@)[out@.len() as int] == words(s@.skip(a0 as int))[0]);
            assert forall|k: int| 0 <= k < words(s@.skip(a as int)).len() implies words(s@)[out@.len()
                + 1 + k] == #[trigger] words(s@.skip(a as int))[k] by {
                assert(words(s@.skip(a0 as int))[k + 1] == words(s@.skip(a as int))[k]);
            }
        }
        out.push(word);
    }
    out
}

// ---------------------------------------------------------------------------
// Numbers in text
// ---------------------------------------------------------------------------

/// The value of `c` as a digit in base `radix`.
pub open spec fn digit_of(c: char, radix: int) -> Option<int> {
    let u = c as int;
    let d = if '0' <= c <= '9' {
        u - '0' as int
    } else if 'a' <= c <= 'z' {
        u - 'a' as int + 10
    } else if 'A' <= c <= 'Z' {
        u - 'A' as int + 10
    } else {
        radix
    };
    if d < radix {
        Some(d)
    } else {
        None
    }
}

/// The number that the digits `s` denote in base `radix`; the empty text denotes 0.
pub open spec fn number(s: Seq<char>, radix: int) -> Option<int>
    decreases s.len(),
{
    if s.len() == 0 {
        Some(0)
    } else {
        match (number(s.drop_last(), radix), digit_of(s.last(), radix)) {
            (Some(v), Some(d)) => Some(v * radix + d),
            _ => None,
        }
    }
}

/// The integer that `s` denotes in base `radix`, if it lies between `lo` and `hi`: digits, at
/// least one, after an optional `+`, or after a `-` where negative numbers are allowed.
pub open spec fn integer(s: Seq<char>, radix: int, lo: int, hi: int) -> Option<int> {
    if s.len() == 0 {
        None
    } else {
        let negative = s[0] == '-' && lo < 0;
        let body = if s[0] == '+' || negative {
            s.skip(1)
        } else {
            s
        };
        if body.len() == 0 {
            None
        } else {
            match number(body, radix) {
                Some(v) => {
                    let x = if negative {
                        -v
                    } else {
                        v
                    };
                    if lo <= x <= hi {
                        Some(x)
                    } else {
                        None
                    }
                },
                None => None,
            }
        }
    }
}

proof fn lemma_number_prefix(s: Seq<char>, radix: int, n: int)
    requires
        0 <= n <= s.len(),
        radix >= 2,
        number(s, radix) is Some,
    ensures
        number(s.take(n), radix) is Some,
        0 <= number(s.take(n), radix)->0 <= number(s, radix)->0,
    decreases s.len(),
{
    if n == s.len() {
        assert(s.take(n) == s);
        if n > 0 {
            lemma_number_prefix(s.drop_last(), radix, n - 1);
            assert(number(s.drop_last(), radix)->0 * radix >= 0) by (nonlinear_arith)
                requires
                    number(s.drop_last(), radix)->0 >= 0,
                    radix >= 2,
            ;
        }
    } else {
        lemma_number_prefix(s.drop_last(), radix, n);
        assert(s.drop_last().take(n) == s.take(n));
        let v = number(s.drop_last(), radix)->0;
        assert(v * radix >= v) by (nonlinear_arith)
            requires
                v >= 0,
                radix >= 2,
        ;
    }
}

fn digit_value(c: char, radix: u32) -> (r: Option<u32>)
    requires
        2 <= radix <= 36,
    ensures
        match r {
            Some(d) => digit_of(c, radix as int) == Some(d as int),
            None => digit_of(c, radix as int) is None,
        },
{
    let u = c as u32;
    let d: u32 = if '0' <= c && c <= '9' {
        u - '0' as u32
    } else if 'a' <= c && c <= 'z' {
        u - 'a' as u32 + 10
    } else if 'A' <= c && c <= 'Z' {
        u - 'A' as u32 + 10
    } else {
        radix
    };
    if d < radix {
        Some(d)
    } else {
        None
    }
}

/// Reads an integer between `lo` and `hi` written in base `radix`.
pub fn parse_integer(s: &[char], radix: u32, lo: i128, hi: i128) -> (r: Option<i128>)
    requires
        2 <= radix <= 36,
        -0x1_0000_0000_0000_0000 <= lo <= 0,
        0 <= hi <= 0x1_0000_0000_0000_0000,
    ensures
        match r {
            Some(v) => integer(s@, radix as int, lo as int, hi as int) == Some(v as int),
            None => integer(s@, radix as int, lo as int, hi as int) is None,
        },
{
    if s.len() == 0 {
        return None;
    }
    let negative = s[0] == '-' && lo < 0;
    let start: usize = if s[0] == '+' || negative {
        1
    } else {
        0
    };
    if start == s.len() {
        return None;
    }
    let ghost body = s@.skip(start as int);
    assert(start == 0 ==> body == s@);
    let mut acc: i128 = 0;
    let mut i: usize = start;
    assert(body.take(0).len() == 0);
    while i < s.len()
        invariant
            start <= i <= s.len(),
            2 <= radix <= 36,
            body == s@.skip(start as int),
            start == 0 ==> body == s@,
            0 <= acc <= 0x1_0000_0000_0000_0000,
            number(body.take(i - start), radix as int) == Some(acc as int),
            -0x1_0000_0000_0000_0000 <= lo <= 0,
            0 <= hi <= 0x1_0000_0000_0000_0000,
            body.len() > 0,
            s@.len() > 0,
            negative == (s@[0] == '-' && lo < 0),
            start == (if s@[0] == '+' || negative { 1int } else { 0 }),
        decreases s.len() - i,
    {
        let ghost j = i - start;
        assert(body.take(j + 1).drop_last() == body.take(j));
        assert(body.take(j + 1).last() == s@[i as int]);
        match digit_value(s[i], radix) {
            Some(d) => {
                assert(0 <= acc * radix <= 0x1_0000_0000_0000_0000 * 36) by (nonlinear_arith)
                    requires
                        0 <= acc <= 0x1_0000_0000_0000_0000,
                        2 <= radix <= 36,
                ;
                let next: i128 = acc * radix as i128 + d as i128;
                assert(number(body.take(j + 1), radix as int) == Some(next as int));
                if next > 0x1_0000_0000_0000_0000 {
                    proof {
                        if number(body, radix as int) is Some {
                            lemma_number_prefix(body, radix as int, j + 1);
                        }
                    }
                    return None;
                }
                acc = next;
            },
            None => {
                proof {
                    if number(body, radix as int) is Some {
                        lemma_number_prefix(body, radix as int, j + 1);
                    }
                }
                return None;
            },
        }
        i += 1;
    }
    assert(body.take(body.len() as int) == body);
    let x: i128 = if negative {
        -acc
    } else {
        acc
    };
    if lo <= x && x <= hi {
        Some(x)
    } else {
        None
    }
}

/// The digit of value `d`.
pub open spec fn digit_char(d: int, upper: bool) -> char {
    if d < 10 {
        (d + '0' as int) as char
    } else if upper {
        (d - 10 + 'A' as int) as char
    } else {
        (d - 10 + 'a' as int) as char
    }
}

fn char_of_digit(d: u8, upper: bool) -> (r: char)
    requires
        d < 36,
    ensures
        r == digit_char(d as int, upper),
{
    if d < 10 {
        (d + '0' as u8) as char
    } else if upper {
        (d - 10 + 'A' as u8) as char
    } else {
        (d - 10 + 'a' as u8) as char
    }
}

/// `n` written in base `radix` without leading zeros.
pub open spec fn numeral(n: nat, radix: nat, upper: bool) -> Seq<char>
    decreases n,
{
    if n < radix || radix < 2 {
        seq![digit_char(n as int, upper)]
    } else {
        proof {
            assert(n / radix < n) by (nonlinear_arith)
                requires
                    n >= radix,
                    radix >= 2,
            ;
        }
        numeral(n / radix, radix, upper).push(digit_char((n % radix) as int, upper))
    }
}

/// `n` in decimal.
pub open spec fn decimal(n: nat) -> Seq<char> {
    numeral(n, 10, false)
}

/// The integer `n` in decimal, with a `-` when it is negative.
pub open spec fn signed_decimal(n: int) -> Seq<char> {
    if n < 0 {
        seq!['-'] + decimal((-n) as nat)
    } else {
        decimal(n as nat)
    }
}

/// `n` in upper-case hexadecimal.
pub open spec fn hex_upper(n: nat) -> Seq<char> {
    numeral(n, 16, true)
}

/// The last `width` digits of `n` in base `radix`, zeros included.
pub open spec fn fixed_numeral(n: nat, radix: nat, width: nat, upper: bool) -> Seq<char>
    decreases width,
{
    if width == 0 {
        Seq::empty()
    } else {
        fixed_numeral(n / radix, radix, (width - 1) as nat, upper).push(
            digit_char((n % radix) as int, upper),
        )
    }
}

/// Appends `n` in base `radix`.
pub fn push_numeral(s: &mut String, n: u64, radix: u64, upper: bool)
    requires
        2 <= radix <= 36,
    ensures
        final(s)@ == old(s)@ + numeral(n as nat, radix as nat, upper),
    decreases n,
{
    if n >= radix {
        assert(n / radix < n) by (nonlinear_arith)
            requires
                n >= radix,
                radix >= 2,
        ;
        push_numeral(s, n / radix, radix, upper);
    }
    assert(n % radix < radix) by (nonlinear_arith)
        requires
            radix >= 2,
    ;
    let d: u8 = (n % radix) as u8;
    s.push(char_of_digit(d, upper));
    assert(n >= radix ==> s@ == (old(s)@ + numeral((n / radix) as nat, radix as nat, upper)).push(
        digit_char(d as int, upper),
    ));
    assert(n < radix ==> n % radix == n) by (nonlinear_arith)
        requires
            radix >= 2,
    ;
    assert(s@ =~= old(s)@ + numeral(n as nat, radix as nat, upper));
}

/// Appends `n` in decimal.
pub fn push_decimal(s: &mut String, n: u64)
    ensures
        final(s)@ == old(s)@ + decimal(n as nat),
{
    push_numeral(s, n, 10, false);
}

/// Appends `n` in upper-case hexadecimal.
pub fn push_hex(s: &mut String, n: u64)
    ensures
        final(s)@ == old(s)@ + hex_upper(n as nat),
{
    push_numeral(s, n, 16, true);
}

/// Appends the last `width` digits of `n` in base `radix`.
pub fn push_fixed(s: &mut String, n: u64, radix: u64, width: usize, upper: bool)
    requires
        2 <= radix <= 36,
    ensures
        final(s)@ == old(s)@ + fixed_numeral(n as nat, radix as nat, width as nat, upper),
    decreases width,
{
    if width > 0 {
        push_fixed(s, n / radix, radix, width - 1, upper);
        assert(n % radix < radix) by (nonlinear_arith)
            requires
                radix >= 2,
        ;
        let d: u8 = (n % radix) as u8;
        s.push(char_of_digit(d, upper));
    }
}

/// Appends `n` in decimal, with a `-` when it is negative.
pub fn push_signed(s: &mut String, n: i64)
    ensures
        final(s)@ == old(s)@ + signed_decimal(n as int),
{
    if n < 0 {
        s.push('-');
        let m: u64 = (-(n as i128)) as u64;
        push_decimal(s, m);
    } else {
        push_decimal(s, n as u64);
    }
}

/// The decimal numeral of `n`.
pub fn decimal_string(n: u64) -> (r: String)
    ensures
        r@ == decimal(n as nat),
{
    let mut s = String::new();
    push_decimal(&mut s, n);
    s
}

/// The upper-case hexadecimal numeral of `n`.
pub fn hex_string(n: u64) -> (r: String)
    ensures
        r@ == hex_upper(n as nat),
{
    let mut s = String::new();
    push_hex(&mut s, n);
    s
}

/// The upper-case hexadecimal numeral of `n` in sixteen digits.
pub fn address_string(n: u64) -> (r: String)
    ensures
        r@ == fixed_numeral(n as nat, 16, 16, true),
{
    let mut s = String::new();
    push_fixed(&mut s, n, 16, 16, true);
    s
}

// ---------------------------------------------------------------------------
// Addresses typed by hand
// ---------------------------------------------------------------------------

/// `s` without the copies of the two characters `a`, `b` it begins with.
pub open spec fn strip_pairs(s: Seq<char>, a: char, b: char) -> Seq<char>
    decreases s.len(),
{
    if s.len() >= 2 && s[0] == a && s[1] == b {
        strip_pairs(s.skip(2), a, b)
    } else {
        s
    }
}

/// The address that a text denotes: hexadecimal digits, white space around them and `0x` or `0X`
/// before them ignored.
pub open spec fn address_text(s: Seq<char>) -> Option<int> {
    integer(
        strip_pairs(strip_pairs(trimmed(s), '0', 'x'), '0', 'X'),
        16,
        0,
        0xffff_ffff_ffff_ffff,
    )
}

fn skip_pairs(s: &[char], from: usize, a: char, b: char) -> (r: usize)
    requires
        from <= s.len(),
    ensures
        from <= r <= s.len(),
        s@.skip(r as int) == strip_pairs(s@.skip(from as int), a, b),
{
    let mut i: usize = from;
    while s.len() - i >= 2 && s[i] == a && s[i + 1] == b
        invariant
            from <= i <= s.len(),
            strip_pairs(s@.skip(from as int), a, b) == strip_pairs(s@.skip(i as int), a, b),
        decreases s.len() - i,
    {
        assert(s@.skip(i as int).skip(2) == s@.skip(i + 2));
        i += 2;
    }
    i
}

/// Reads an address typed in hexadecimal.
pub fn parse_addr(text: &str) -> (r: Option<u64>)
    ensures
        match r {
            Some(a) => address_text(text@) == Some(a as int),
            None => address_text(text@) is None,
        },
{
    let t = trim(text);
    let i = skip_pairs(t.as_slice(), 0, '0', 'x');
    assert(t@.skip(0) == t@);
    let j = skip_pairs(t.as_slice(), i, '0', 'X');
    match parse_integer(&t[j..t.len()], 16, 0, 0xffff_ffff_ffff_ffff) {
        Some(v) => Some(v as u64),
        None => None,
    }
}

// ---------------------------------------------------------------------------
// Search
// ---------------------------------------------------------------------------

/// Tells whether `needle` stands somewhere in `hay`.
pub open spec fn holds(hay: Seq<char>, needle: Seq<char>) -> bool {
    exists|i: int|
        0 <= i <= hay.len() - needle.len() && #[trigger] hay.subrange(i, i + needle.len())
            == needle
}

/// Tells whether `needle` stands somewhere in `hay`.
pub fn contains_chars(hay: &[char], needle: &[char]) -> (r: bool)
    ensures
        r == holds(hay@, needle@),
{
    if needle.len() > hay.len() {
        return false;
    }
    let n = needle.len();
    let end = hay.len() - n;
    let mut i: usize = 0;
    loop
        invariant
            i <= end,
            n == needle.len(),
            end + n == hay.len(),
            forall|k: int| 0 <= k < i ==> #[trigger] hay@.subrange(k, k + n) != needle@,
        ensures
            forall|k: int| 0 <= k <= end ==> #[trigger] hay@.subrange(k, k + n) != needle@,
        decreases end - i,
    {
        if same_chars(&hay[i..i + n], needle) {
            return true;
        }
        if i == end {
            break;
        }
        i += 1;
    }
    false
}

/// Tells whether `text` passes a filter: an empty filter lets everything through, another one the
/// texts whose lower-case form holds the filter's lower-case form.
pub open spec fn passes_filter(text: Seq<char>, filter: Seq<char>) -> bool {
    lowercase(filter).len() == 0 || holds(lowercase(text), lowercase(filter))
}

/// Tells whether `text` passes `filter`, letter case aside.
pub fn filter_accepts(text: &str, filter: &str) -> (r: bool)
    ensures
        r == passes_filter(text@, filter@),
{
    let f = filter.to_lowercase();
    let fv = chars_of(f.as_str());
    if fv.len() == 0 {
        return true;
    }
    let t = text.to_lowercase();
    let tv = chars_of(t.as_str());
    contains_chars(tv.as_slice(), fv.as_slice())
}

// ---------------------------------------------------------------------------
// Laws
// ---------------------------------------------------------------------------

proof fn lemma_digit(d: int, radix: int, upper: bool)
    requires
        0 <= d < radix <= 36,
    ensures
        digit_of(digit_char(d, upper), radix) == Some(d),
        !is_space(digit_char(d, upper)),
        digit_char(d, upper) != '+',
        digit_char(d, upper) != '-',
{
}

/// A number that is written out and read in the same base is the number, and nothing in it is white
/// space or a sign.
pub proof fn law_numeral_round_trip(n: nat, radix: nat, upper: bool)
    requires
        2 <= radix <= 36,
    ensures
        number(numeral(n, radix, upper), radix as int) == Some(n as int),
        numeral(n, radix, upper).len() > 0,
        forall|i: int|
            0 <= i < numeral(n, radix, upper).len() ==> {
                let c = #[trigger] numeral(n, radix, upper)[i];
                !is_space(c) && c != '+' && c != '-'
            },
    decreases n,
{
    let s = numeral(n, radix, upper);
    if n < radix {
        lemma_digit(n as int, radix as int, upper);
        assert(s.drop_last() =~= Seq::<char>::empty());
        assert(number(s.drop_last(), radix as int) == Some(0int));
        assert(s.last() == digit_char(n as int, upper));
        assert(0 * radix + n as int == n) by (nonlinear_arith);
    } else {
        assert(n / radix < n) by (nonlinear_arith)
            requires
                n >= radix,
                radix >= 2,
        ;
        law_numeral_round_trip(n / radix, radix, upper);
        lemma_digit((n % radix) as int, radix as int, upper);
        let t = numeral(n / radix, radix, upper);
        let c = digit_char((n % radix) as int, upper);
        assert(s == t.push(c));
        assert(s.drop_last() =~= t);
        assert(s.last() == c);
        vstd::arithmetic::div_mod::lemma_fundamental_div_mod(n as int, radix as int);
        assert((n / radix) * radix + n % radix == n) by (nonlinear_arith)
            requires
                n == radix * (n / radix) + n % radix,
        ;
    }
}

/// The numerals of two numbers differ.
pub proof fn law_numerals_differ(a: nat, b: nat, radix: nat, upper: bool)
    requires
        2 <= radix <= 36,
        numeral(a, radix, upper) == numeral(b, radix, upper),
    ensures
        a == b,
{
    law_numeral_round_trip(a, radix, upper);
    law_numeral_round_trip(b, radix, upper);
}

/// A number that fits into `width` digits, written in as many, is read as the number.
pub proof fn law_fixed_numeral_round_trip(n: nat, radix: nat, width: nat, upper: bool)
    requires
        2 <= radix <= 36,
        n < vstd::arithmetic::power::pow(radix as int, width),
    ensures
        fixed_numeral(n, radix, width, upper).len() == width,
        number(fixed_numeral(n, radix, width, upper), radix as int) == Some(n as int),
    decreases width,
{
    broadcast use vstd::arithmetic::power::lemma_pow0;

    let s = fixed_numeral(n, radix, width, upper);
    if width > 0 {
        let w = (width - 1) as nat;
        vstd::arithmetic::power::lemma_pow_adds(radix as int, 1, w);
        vstd::arithmetic::power::lemma_pow1(radix as int);
        vstd::arithmetic::div_mod::lemma_fundamental_div_mod(n as int, radix as int);
        let p = vstd::arithmetic::power::pow(radix as int, w);
        assert(n / radix < p) by (nonlinear_arith)
            requires
                n < radix * p,
                n == radix * (n / radix) + n % radix,
                n % radix >= 0,
                radix > 0,
        ;
        law_fixed_numeral_round_trip(n / radix, radix, w, upper);
        lemma_digit((n % radix) as int, radix as int, upper);
        let t = fixed_numeral(n / radix, radix, w, upper);
        assert(s.drop_last() =~= t);
        assert(s.last() == digit_char((n % radix) as int, upper));
        assert((n / radix) * radix + n % radix == n) by (nonlinear_arith)
            requires
                n == radix * (n / radix) + n % radix,
        ;
    }
}

/// An integer in decimal is read as the integer where it lies within the bounds, also behind a `+`
/// where it is not negative, and is refused where it does not.
pub proof fn law_integer_round_trip(v: int, lo: int, hi: int)
    requires
        lo <= 0 <= hi,
    ensures
        integer(signed_decimal(v), 10, lo, hi) == (if lo <= v <= hi {
            Some(v)
        } else {
            None
        }),
        v >= 0 ==> integer(seq!['+'] + signed_decimal(v), 10, lo, hi) == (if v <= hi {
            Some(v)
        } else {
            None
        }),
{
    let s = signed_decimal(v);
    if v < 0 {
        let d = decimal((-v) as nat);
        law_numeral_round_trip((-v) as nat, 10, false);
        assert(s.skip(1) =~= d);
        if lo >= 0 {
            lemma_sign_is_no_digit(d);
        }
    } else {
        law_numeral_round_trip(v as nat, 10, false);
        let t = seq!['+'] + s;
        assert(t.skip(1) =~= s);
        assert(s[0] != '+' && s[0] != '-');
    }
}

proof fn lemma_sign_is_no_digit(d: Seq<char>)
    ensures
        number(seq!['-'] + d, 10) is None,
    decreases d.len(),
{
    let s = seq!['-'] + d;
    if d.len() == 0 {
        assert(s.last() == '-');
    } else {
        lemma_sign_is_no_digit(d.drop_last());
        assert(s.drop_last() =~= seq!['-'] + d.drop_last());
    }
}

/// Every character is white space.
pub open spec fn blank(s: Seq<char>) -> bool {
    forall|i: int| 0 <= i < s.len() ==> is_space(#[trigger] s[i])
}

proof fn lemma_trim_start(a: Seq<char>, s: Seq<char>)
    requires
        blank(a),
        s.len() == 0 || !is_space(s[0]),
    ensures
        trim_start(a + s) == s,
    decreases a.len(),
{
    let t = a + s;
    if a.len() > 0 {
        assert(t[0] == a[0]);
        assert(t.skip(1) =~= a.skip(1) + s);
        lemma_trim_start(a.skip(1), s);
    } else {
        assert(t =~= s);
    }
}

proof fn lemma_trim_end(s: Seq<char>, b: Seq<char>)
    requires
        blank(b),
        s.len() == 0 || !is_space(s.last()),
    ensures
        trim_end(s + b) == s,
    decreases b.len(),
{
    let t = s + b;
    if b.len() > 0 {
        assert(t.last() == b.last());
        assert(t.drop_last() =~= s + b.drop_last());
        lemma_trim_end(s, b.drop_last());
    } else {
        assert(t =~= s);
    }
}

/// White space around a text is taken away, and nothing else.
pub proof fn law_trimming_takes_white_space(a: Seq<char>, s: Seq<char>, b: Seq<char>)
    requires
        blank(a),
        blank(b),
        s.len() == 0 || (!is_space(s[0]) && !is_space(s.last())),
    ensures
        trimmed(a + s + b) == s,
{
    if s.len() > 0 {
        assert(a + s + b =~= a + (s + b));
        lemma_trim_start(a, s + b);
        lemma_trim_end(s, b);
    } else {
        let t = a + s + b;
        assert(t + Seq::<char>::empty() =~= t);
        lemma_trim_start(t, Seq::empty());
        assert(trim_end(Seq::<char>::empty()) =~= Seq::<char>::empty());
    }
}

/// What is left when white space is taken away begins and ends with something else, or is empty;
/// and white space is all that was around it.
pub proof fn law_trimmed_is_inside(s: Seq<char>)
    ensures
        trimmed(s).len() == 0 || (!is_space(trimmed(s)[0]) && !is_space(trimmed(s).last())),
        exists|a: Seq<char>, b: Seq<char>| blank(a) && blank(b) && s == #[trigger] ((a + trimmed(s)) + b),
{
    let t = trim_start(s);
    let a = lemma_before(s);
    let b = lemma_behind(t);
    assert(s =~= (a + trimmed(s)) + b);
    if trimmed(s).len() > 0 {
        assert(t[0] == trimmed(s)[0]);
    }
}

proof fn lemma_before(s: Seq<char>) -> (a: Seq<char>)
    ensures
        blank(a),
        s == a + trim_start(s),
        trim_start(s).len() == 0 || !is_space(trim_start(s)[0]),
    decreases s.len(),
{
    if s.len() > 0 && is_space(s[0]) {
        let r = lemma_before(s.skip(1));
        let a = seq![s[0]] + r;
        assert(s =~= seq![s[0]] + s.skip(1));
        assert(s =~= a + trim_start(s));
        a
    } else {
        assert(s =~= Seq::<char>::empty() + s);
        Seq::empty()
    }
}

proof fn lemma_behind(s: Seq<char>) -> (b: Seq<char>)
    ensures
        blank(b),
        s == trim_end(s) + b,
        trim_end(s).len() == 0 || !is_space(trim_end(s).last()),
    decreases s.len(),
{
    if s.len() > 0 && is_space(s.last()) {
        let r = lemma_behind(s.drop_last());
        let b = r.push(s.last());
        assert(s =~= s.drop_last().push(s.last()));
        assert(s =~= trim_end(s) + b);
        b
    } else {
        assert(s =~= s + Seq::<char>::empty());
        Seq::empty()
    }
}

/// A word: not empty, and without white space.
pub open spec fn is_word(w: Seq<char>) -> bool {
    w.len() > 0 && forall|i: int| 0 <= i < w.len() ==> !is_space(#[trigger] w[i])
}

/// Words with white space between them, and as much as there is around them, are split into these
/// words.
pub proof fn law_words_are_split(gap: Seq<char>, w: Seq<char>, rest: Seq<char>)
    requires
        blank(gap),
        is_word(w),
        rest.len() == 0 || is_space(rest[0]),
    ensures
        words(gap + w + rest) == seq![w] + words(rest),
{
    let s = gap + w + rest;
    assert(s =~= gap + (w + rest));
    lemma_trim_start(gap, w + rest);
    let t = w + rest;
    lemma_word_len_is(t, w.len() as int);
    assert(t.take(w.len() as int) =~= w);
    assert(t.skip(w.len() as int) =~= rest);
}

/// White space alone holds no word.
pub proof fn law_blank_has_no_words(s: Seq<char>)
    requires
        blank(s),
    ensures
        words(s).len() == 0,
{
    assert(s + Seq::<char>::empty() =~= s);
    lemma_trim_start(s, Seq::empty());
}

proof fn lemma_hex_digits(n: nat, upper: bool)
    ensures
        forall|i: int|
            0 <= i < numeral(n, 16, upper).len() ==> {
                let c = #[trigger] numeral(n, 16, upper)[i];
                c != 'x' && c != 'X'
            },
    decreases n,
{
    let s = numeral(n, 16, upper);
    if n >= 16 {
        lemma_hex_digits(n / 16, upper);
        lemma_hex_digit((n % 16) as int, upper);
        let t = numeral(n / 16, 16, upper);
        assert(s == t.push(digit_char((n % 16) as int, upper)));
        assert forall|i: int| 0 <= i < s.len() implies {
            let c = #[trigger] s[i];
            c != 'x' && c != 'X'
        } by {
            if i < t.len() {
                assert(s[i] == t[i]);
            }
        }
    } else {
        lemma_hex_digit(n as int, upper);
    }
}

proof fn lemma_hex_digit(d: int, upper: bool)
    requires
        0 <= d < 16,
    ensures
        digit_char(d, upper) != 'x',
        digit_char(d, upper) != 'X',
{
}

/// An address typed in hexadecimal is the address, in either letter case, with or without `0x` or
/// `0X` before it, and whatever white space is around it.
pub proof fn law_typed_address_is_read(n: u64, upper: bool, a: Seq<char>, b: Seq<char>)
    requires
        blank(a),
        blank(b),
    ensures
        address_text(a + numeral(n as nat, 16, upper) + b) == Some(n as int),
        address_text(a + (seq!['0', 'x'] + numeral(n as nat, 16, upper)) + b) == Some(n as int),
        address_text(a + (seq!['0', 'X'] + numeral(n as nat, 16, upper)) + b) == Some(n as int),
{
    let s = numeral(n as nat, 16, upper);
    law_numeral_round_trip(n as nat, 16, upper);
    lemma_hex_digits(n as nat, upper);
    law_trimming_takes_white_space(a, s, b);
    let x = seq!['0', 'x'] + s;
    let y = seq!['0', 'X'] + s;
    assert(x.last() == s.last());
    assert(y.last() == s.last());
    law_trimming_takes_white_space(a, x, b);
    law_trimming_takes_white_space(a, y, b);
    assert(s[0] != '+' && s[0] != '-');
    if s.len() >= 2 {
        assert(s[1] != 'x' && s[1] != 'X');
    }
    assert(strip_pairs(s, '0', 'x') == s);
    assert(strip_pairs(s, '0', 'X') == s);
    assert(x.skip(2) =~= s);
    assert(y.skip(2) =~= s);
    assert(y[1] == 'X');
    assert(strip_pairs(x, '0', 'x') == s);
    assert(strip_pairs(y, '0', 'x') == y);
    assert(strip_pairs(y, '0', 'X') == s);
}

/// A text passes a filter that is a part of it, and every text passes an empty one.
pub proof fn law_parts_pass(a: Seq<char>, f: Seq<char>, b: Seq<char>, text: Seq<char>, filter: Seq<char>)
    requires
        lowercase(filter) == f,
        lowercase(text) == a + f + b,
    ensures
        passes_filter(text, filter),
{
    let hay = a + f + b;
    let i = a.len() as int;
    assert(hay.subrange(i, i + f.len()) =~= f);
}

/// Where the filter stands nowhere in a text, letter case aside, the text does not pass.
pub proof fn law_others_do_not_pass(text: Seq<char>, filter: Seq<char>)
    requires
        lowercase(filter).len() > 0,
        forall|a: Seq<char>, b: Seq<char>|
            lowercase(text) != #[trigger] (a + lowercase(filter) + b),
    ensures
        !passes_filter(text, filter),
{
    let hay = lowercase(text);
    let f = lowercase(filter);
    if holds(hay, f) {
        let i = choose|i: int|
            0 <= i <= hay.len() - f.len() && #[trigger] hay.subrange(i, i + f.len()) == f;
        let a = hay.take(i);
        let b = hay.skip(i + f.len());
        assert(hay =~= a + f + b);
        assert(hay == (a + lowercase(filter) + b));
    }
}

/// A byte in two hexadecimal digits.
pub open spec fn byte_text(b: u8, upper: bool) -> Seq<char> {
    fixed_numeral(b as nat, 16, 2, upper)
}

/// A byte in two hexadecimal digits, of either letter case, is read as that byte, and neither is white
/// space.
pub proof fn law_byte_text_is_read(b: u8, upper: bool)
    ensures
        byte_text(b, upper).len() == 2,
        integer(byte_text(b, upper), 16, 0, 255) == Some(b as int),
        !is_space(byte_text(b, upper)[0]),
        !is_space(byte_text(b, upper)[1]),
        byte_text(b, upper)[0] != '?',
{
    reveal_with_fuel(fixed_numeral, 3);
    vstd::arithmetic::power::lemma_pow_adds(16, 1, 1);
    vstd::arithmetic::power::lemma_pow1(16);
    law_fixed_numeral_round_trip(b as nat, 16, 2, upper);
    let s = byte_text(b, upper);
    let hi = (b as nat / 16) % 16;
    assert(s[0] == digit_char(hi as int, upper));
    assert(s[1] == digit_char((b as nat % 16) as int, upper));
    lemma_digit(hi as int, 16, upper);
    lemma_digit((b as nat % 16) as int, 16, upper);
    assert(digit_char(hi as int, upper) != '?');
}

/// Addresses are written with capital digits.
pub proof fn law_addresses_have_capital_digits(n: nat)
    ensures
        forall|i: int|
            0 <= i < hex_upper(n).len() ==> ('0' <= #[trigger] hex_upper(n)[i] <= '9') || ('A'
                <= hex_upper(n)[i] <= 'F'),
    decreases n,
{
    let s = hex_upper(n);
    if n >= 16 {
        law_addresses_have_capital_digits(n / 16);
        let t = hex_upper(n / 16);
        let d = (n % 16) as int;
        lemma_capital_digit(d);
        assert(s == t.push(digit_char(d, true)));
        assert forall|i: int| 0 <= i < s.len() implies ('0' <= #[trigger] s[i] <= '9') || ('A'
            <= s[i] <= 'F') by {
            if i < t.len() {
                assert(s[i] == t[i]);
            }
        }
    } else {
        lemma_capital_digit(n as int);
        assert(s == seq![digit_char(n as int, true)]);
    }
}

proof fn lemma_capital_digit(d: int)
    requires
        0 <= d < 16,
    ensures
        '0' <= digit_char(d, true) <= '9' || 'A' <= digit_char(d, true) <= 'F',
{
}

} // verus!
