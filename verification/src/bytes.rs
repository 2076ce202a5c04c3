//! Integers stored in byte sequences.

use vstd::prelude::*;

verus! {

/// The number whose little-endian digits in base 256 are `s`.
pub open spec fn le_nat(s: Seq<u8>) -> nat
    decreases s.len(),
{
    if s.len() == 0 {
        0
    } else {
        s[0] as nat + 256 * le_nat(s.skip(1))
    }
}

/// The last `n` digits of `v` in base 256, the lowest first.
pub open spec fn le_bytes(v: nat, n: nat) -> Seq<u8>
    decreases n,
{
    if n == 0 {
        Seq::empty()
    } else {
        seq![(v % 256) as u8] + le_bytes(v / 256, (n - 1) as nat)
    }
}

/// How many numbers fit in `n` bytes.
pub open spec fn span(n: nat) -> nat
    decreases n,
{
    if n == 0 {
        1
    } else {
        256 * span((n - 1) as nat)
    }
}

/// The value of `s` read as a little-endian integer in two's complement.
pub open spec fn le_int(s: Seq<u8>) -> int {
    if s.len() > 0 && s.last() >= 128 {
        le_nat(s) - span(s.len())
    } else {
        le_nat(s) as int
    }
}

/// `v` read as an unsigned number of `n` bytes in two's complement.
pub open spec fn wrapped(v: int, n: nat) -> nat {
    if v < 0 {
        (v + span(n)) as nat
    } else {
        v as nat
    }
}

pub(crate) proof fn lemma_span_values()
    ensures
        span(0) == 1,
        span(1) == 0x100,
        span(2) == 0x1_0000,
        span(3) == 0x100_0000,
        span(4) == 0x1_0000_0000,
        span(5) == 0x100_0000_0000,
        span(6) == 0x1_0000_0000_0000,
        span(7) == 0x100_0000_0000_0000,
        span(8) == 0x1_0000_0000_0000_0000,
{
    reveal_with_fuel(span, 9);
}

pub(crate) proof fn lemma_le_nat_bound(s: Seq<u8>)
    ensures
        le_nat(s) < span(s.len()),
    decreases s.len(),
{
    if s.len() > 0 {
        lemma_le_nat_bound(s.skip(1));
    }
}

/// Of a nonempty sequence, the top byte says on which side of the middle the number lies.
pub(crate) proof fn lemma_le_nat_half(s: Seq<u8>)
    requires
        s.len() > 0,
    ensures
        s.last() >= 128 <==> 2 * le_nat(s) >= span(s.len()),
    decreases s.len(),
{
    if s.len() == 1 {
        assert(s.skip(1).len() == 0);
        reveal_with_fuel(span, 2);
        reveal_with_fuel(le_nat, 2);
    } else {
        lemma_le_nat_half(s.skip(1));
        lemma_le_nat_bound(s.skip(1));
        assert(s.skip(1).last() == s.last());
    }
}

/// Writing a number in `n` bytes and reading it back gives the number, where it fits.
pub proof fn law_le_round_trip(v: nat, n: nat)
    requires
        v < span(n),
    ensures
        le_bytes(v, n).len() == n,
        le_nat(le_bytes(v, n)) == v,
    decreases n,
{
    if n > 0 {
        law_le_round_trip(v / 256, (n - 1) as nat);
        assert(le_bytes(v, n).skip(1) == le_bytes(v / 256, (n - 1) as nat));
    }
}

/// Reading bytes and writing the number in as many bytes gives the bytes.
pub proof fn law_le_read_write(s: Seq<u8>)
    ensures
        le_bytes(le_nat(s), s.len()) == s,
    decreases s.len(),
{
    if s.len() > 0 {
        law_le_read_write(s.skip(1));
        assert(le_nat(s) % 256 == s[0] as nat);
        assert(le_nat(s) / 256 == le_nat(s.skip(1)));
        assert(seq![s[0]] + s.skip(1) == s);
    }
}

/// A signed number written in `n` bytes in two's complement and read back is the number.
pub proof fn law_signed_round_trip(v: int, n: nat)
    requires
        n > 0,
        -(span(n) as int) <= 2 * v < span(n),
    ensures
        le_int(le_bytes(wrapped(v, n), n)) == v,
{
    law_le_round_trip(wrapped(v, n), n);
    lemma_le_nat_half(le_bytes(wrapped(v, n), n));
}

/// The number in the `n` bytes of `data` from `off` on.
pub fn read_le(data: &[u8], off: usize, n: usize) -> (r: u64)
    requires
        n <= 8,
        off + n <= data.len(),
    ensures
        r as nat == le_nat(data@.subrange(off as int, off + n)),
        (r as nat) < span(n as nat),
{
    let mut acc: u64 = 0;
    let mut i: usize = n;
    proof {
        lemma_span_values();
        assert(data@.subrange(off + n, off + n).len() == 0);
    }
    while i > 0
        invariant
            i <= n <= 8,
            off + n <= data.len(),
            acc as nat == le_nat(data@.subrange(off + i, off + n)),
        decreases i,
    {
        let ghost tail = data@.subrange(off + i, off + n);
        let ghost all = data@.subrange(off + i - 1, off + n);
        proof {
            lemma_le_nat_bound(tail);
            lemma_le_nat_bound(all);
            lemma_span_values();
            assert(all.skip(1) == tail);
            assert(n - i + 1 == 1 || n - i + 1 == 2 || n - i + 1 == 3 || n - i + 1 == 4 || n - i + 1
                == 5 || n - i + 1 == 6 || n - i + 1 == 7 || n - i + 1 == 8);
        }
        i -= 1;
        acc = acc * 256 + data[off + i] as u64;
    }
    proof {
        lemma_le_nat_bound(data@.subrange(off as int, off + n));
    }
    acc
}

/// Appends the last `n` digits of `v` in base 256, the lowest first.
pub fn push_le(out: &mut Vec<u8>, v: u64, n: usize)
    ensures
        final(out)@ == old(out)@ + le_bytes(v as nat, n as nat),
    decreases n,
{
    if n > 0 {
        let b: u8 = (v % 256) as u8;
        out.push(b);
        push_le(out, v / 256, n - 1);
        assert(out@ =~= old(out)@ + le_bytes(v as nat, n as nat));
    } else {
        assert(out@ =~= old(out)@ + le_bytes(v as nat, n as nat));
    }
}

/// The bytes of `data` from `a` up to `b`.
pub fn copy_range(data: &[u8], a: usize, b: usize) -> (r: Vec<u8>)
    requires
        a <= b <= data.len(),
    ensures
        r@ == data@.subrange(a as int, b as int),
{
    let mut out: Vec<u8> = Vec::new();
    let mut i: usize = a;
    while i < b
        invariant
            a <= i <= b <= data.len(),
            out@ == data@.subrange(a as int, i as int),
        decreases b - i,
    {
        out.push(data[i]);
        i += 1;
    }
    out
}

/// Tells whether two byte sequences are equal.
pub fn same_bytes(a: &[u8], b: &[u8]) -> (r: bool)
    ensures
        r == (a@ == b@),
{
    if a.len() != b.len() {
        return false;
    }
    let mut i: usize = 0;
    while i < a.len()
        invariant
            i <= a.len(),
            a.len() == b.len(),
            forall|k: int| 0 <= k < i ==> a@[k] == b@[k],
        decreases a.len() - i,
    {
        if a[i] != b[i] {
            return false;
        }
        i += 1;
    }
    assert(a@ =~= b@);
    true
}

/// The lowest byte stands first: the bytes behind others count by the power of 256 that these leave.
pub proof fn law_lowest_byte_first(a: Seq<u8>, b: Seq<u8>)
    ensures
        le_nat(a + b) == le_nat(a) + vstd::arithmetic::power::pow(256, a.len()) * le_nat(b),
        a.len() == 1 ==> le_nat(a) == a[0],
        span(a.len()) == vstd::arithmetic::power::pow(256, a.len()),
    decreases a.len(),
{
    broadcast use vstd::arithmetic::power::lemma_pow0;

    if a.len() == 0 {
        assert(a + b =~= b);
        assert(1 * le_nat(b) == le_nat(b));
    } else {
        let t = a.skip(1);
        law_lowest_byte_first(t, b);
        assert((a + b).skip(1) =~= t + b);
        vstd::arithmetic::power::lemma_pow1(256);
        vstd::arithmetic::power::lemma_pow_adds(256, 1, t.len());
        let p = vstd::arithmetic::power::pow(256, t.len());
        let y = le_nat(b) as int;
        assert(256 * (p * y) == (256 * p) * y) by (nonlinear_arith);
        if a.len() == 1 {
            assert(le_nat(t) == 0);
        }
    }
}

/// A signed number differs from the unsigned one in the same bytes by how many numbers fit there, or
/// not at all, and lies nearest to zero.
pub proof fn law_signed_numbers_surround_zero(s: Seq<u8>)
    requires
        s.len() > 0,
    ensures
        le_int(s) == le_nat(s) || le_int(s) == le_nat(s) - span(s.len()),
        -(span(s.len()) as int) <= 2 * le_int(s) < span(s.len()),
{
    lemma_le_nat_bound(s);
    lemma_le_nat_half(s);
}

} // verus!
