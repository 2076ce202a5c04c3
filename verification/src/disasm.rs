//! Machine code of x86-64, taken apart into instructions.

use crate::bytes::copy_range;
use crate::text;
use iced_x86::{Decoder, DecoderOptions, Formatter, Instruction, IntelFormatter};
use vstd::prelude::*;

verus! {

/// The length of the instruction that `code` begins with, where `code` stands at the address `ip`.
pub uninterp spec fn insn_len(code: Seq<u8>, ip: u64) -> usize;

/// The instruction that `code` begins with, written in Intel syntax.
pub uninterp spec fn insn_text(code: Seq<u8>, ip: u64) -> Seq<char>;

/// `iced_x86::Decoder::decode_out` on 64-bit code without options, and the length of the
/// instruction it gives. The decoder looks at no more than the first 15 bytes and at the address.
/// From at least one byte it takes at least one, also where no instruction begins there, and no
/// more than 15 nor more than there are.
#[verifier::external_body]
fn decode_len(code: &[u8], ip: u64) -> (r: usize)
    requires
        code@.len() > 0,
    ensures
        r == insn_len(code@, ip),
        1 <= r <= 15,
        r <= code@.len(),
{
    let mut decoder = Decoder::with_ip(64, code, ip, DecoderOptions::NONE);
    let mut instr = Instruction::default();
    decoder.decode_out(&mut instr);
    instr.len()
}

/// `iced_x86::IntelFormatter::format`, with the formatter's own settings, of the instruction that
/// the decoder gives. What the text says is not stated: it takes the whole instruction set.
#[verifier::external_body]
fn decode_text(code: &[u8], ip: u64) -> (r: String)
    requires
        code@.len() > 0,
    ensures
        r@ == insn_text(code@, ip),
{
    let mut decoder = Decoder::with_ip(64, code, ip, DecoderOptions::NONE);
    let mut instr = Instruction::default();
    decoder.decode_out(&mut instr);
    let mut s = String::new();
    IntelFormatter::new().format(&instr, &mut s);
    s
}

/// An instruction.
pub struct Insn {
    pub address: u64,
    pub len: usize,
    pub bytes: Vec<u8>,
    pub text: String,
}

/// An instruction.
#[verifier::ext_equal]
pub struct InsnView {
    pub address: u64,
    pub bytes: Seq<u8>,
    pub text: Seq<char>,
}

impl View for Insn {
    type V = InsnView;

    open spec fn view(&self) -> InsnView {
        InsnView { address: self.address, bytes: self.bytes@, text: self.text@ }
    }
}

impl Insn {
    /// The length is that of the bytes.
    pub open spec fn wf(self) -> bool {
        self.len == self.bytes@.len()
    }

    /// An instruction with the same contents.
    pub fn duplicate(&self) -> (r: Insn)
        ensures
            r@ == self@,
            r.len == self.len,
    {
        Insn {
            address: self.address,
            len: self.len,
            bytes: self.bytes.clone(),
            text: self.text.clone(),
        }
    }
}

/// The instruction that begins at the place `at` of `code`, which stands at `rip`, `size` bytes
/// long, with its text.
pub open spec fn insn_view(code: Seq<u8>, rip: u64, at: int, size: int, words: Seq<char>) -> InsnView {
    InsnView {
        address: rip.wrapping_add(at as u64),
        bytes: code.subrange(at, at + size),
        text: words,
    }
}

/// `list` are the first instructions of `code` from the place `at` on, each beginning where the one
/// before ends, and the last ends at `end`.
pub open spec fn decoded(code: Seq<u8>, rip: u64, list: Seq<InsnView>, at: int, end: int) -> bool
    decreases list.len(),
{
    if list.len() == 0 {
        at == end
    } else {
        let ip = rip.wrapping_add(at as u64);
        let rest = code.skip(at);
        let n = insn_len(rest, ip) as int;
        &&& at < code.len()
        &&& 1 <= n <= 15
        &&& at + n <= code.len()
        &&& list[0] == insn_view(code, rip, at, n, insn_text(rest, ip))
        &&& decoded(code, rip, list.skip(1), at + n, end)
    }
}

/// The views of instructions.
pub open spec fn insn_views(v: Seq<Insn>) -> Seq<InsnView> {
    v.map_values(|i: Insn| i@)
}

/// Every length is that of the bytes.
pub open spec fn all_wf(v: Seq<Insn>) -> bool {
    forall|i: int| 0 <= i < v.len() ==> (#[trigger] v[i]).wf()
}

proof fn lemma_decoded_push(
    code: Seq<u8>,
    rip: u64,
    list: Seq<InsnView>,
    at: int,
    end: int,
    next: InsnView,
    n: int,
)
    requires
        decoded(code, rip, list, at, end),
        end < code.len(),
        n == insn_len(code.skip(end), rip.wrapping_add(end as u64)),
        1 <= n <= 15,
        end + n <= code.len(),
        next == insn_view(
            code,
            rip,
            end,
            n,
            insn_text(code.skip(end), rip.wrapping_add(end as u64)),
        ),
    ensures
        decoded(code, rip, list.push(next), at, end + n),
    decreases list.len(),
{
    if list.len() == 0 {
        assert(list.push(next).skip(1).len() == 0);
        assert(decoded(code, rip, list.push(next).skip(1), end + n, end + n));
    } else {
        let m = insn_len(code.skip(at), rip.wrapping_add(at as u64)) as int;
        lemma_decoded_push(code, rip, list.skip(1), at + m, end, next, n);
        assert(list.push(next).skip(1) =~= list.skip(1).push(next));
        assert(list.push(next)[0] == list[0]);
    }
}

/// Takes apart up to `max` instructions of `code`, whose first byte stands at `rip`. It ends
/// earlier only where `code` ends.
pub fn disassemble(code: &[u8], rip: u64, max: usize) -> (r: Vec<Insn>)
    ensures
        r@.len() <= max,
        all_wf(r@),
        exists|end: int|
            #![trigger decoded(code@, rip, insn_views(r@), 0, end)]
            decoded(code@, rip, insn_views(r@), 0, end) && (end == code@.len() || r@.len() == max),
{
    let mut out: Vec<Insn> = Vec::new();
    let mut at: usize = 0;
    assert(insn_views(out@).len() == 0);
    while at < code.len() && out.len() < max
        invariant
            at <= code@.len(),
            out@.len() <= max,
            all_wf(out@),
            decoded(code@, rip, insn_views(out@), 0, at as int),
        decreases code.len() - at,
    {
        let ip = rip.wrapping_add(at as u64);
        let rest = &code[at..code.len()];
        assert(rest@ =~= code@.skip(at as int));
        let n = decode_len(rest, ip);
        let words = decode_text(rest, ip);
        let bytes = copy_range(code, at, at + n);
        let insn = Insn { address: ip, len: n, bytes, text: words };
        let ghost before = insn_views(out@);
        proof {
            lemma_decoded_push(code@, rip, before, 0, at as int, insn@, n as int);
        }
        out.push(insn);
        assert(insn_views(out@) =~= before.push(insn@));
        at += n;
    }
    out
}

proof fn lemma_tile(code: Seq<u8>, rip: u64, list: Seq<InsnView>, at: int, end: int)
    requires
        decoded(code, rip, list, at, end),
        0 <= at <= code.len(),
    ensures
        at <= end <= code.len(),
        joined(list) == code.subrange(at, end),
        forall|i: int| 0 <= i < list.len() ==> 1 <= (#[trigger] list[i]).bytes.len() <= 15,
        list.len() > 0 ==> list[0].address == rip.wrapping_add(at as u64),
    decreases list.len(),
{
    if list.len() > 0 {
        let n = insn_len(code.skip(at), rip.wrapping_add(at as u64)) as int;
        lemma_tile(code, rip, list.skip(1), at + n, end);
        assert(joined(list) =~= code.subrange(at, end));
        assert forall|i: int| 0 <= i < list.len() implies 1 <= (#[trigger] list[i]).bytes.len()
            <= 15 by {
            if i > 0 {
                assert(list.skip(1)[i - 1] == list[i]);
            }
        }
    } else {
        assert(joined(list) =~= code.subrange(at, end));
    }
}

/// The bytes of instructions behind each other.
pub open spec fn joined(list: Seq<InsnView>) -> Seq<u8>
    decreases list.len(),
{
    if list.len() == 0 {
        Seq::empty()
    } else {
        list[0].bytes + joined(list.skip(1))
    }
}

/// The instructions cover the code without gaps: their bytes behind each other are the code as far
/// as it was taken apart, and each has one to fifteen bytes.
pub proof fn law_instructions_tile_the_code(
    code: Seq<u8>,
    rip: u64,
    list: Seq<InsnView>,
    end: int,
)
    requires
        decoded(code, rip, list, 0, end),
    ensures
        0 <= end <= code.len(),
        joined(list) == code.take(end),
        forall|i: int| 0 <= i < list.len() ==> 1 <= (#[trigger] list[i]).bytes.len() <= 15,
        list.len() > 0 ==> list[0].address == rip,
{
    lemma_tile(code, rip, list, 0, end);
    assert(code.take(end) =~= code.subrange(0, end));
}

/// The instruction ends at an address.
pub open spec fn ends_at(i: InsnView, end_rip: u64) -> bool {
    i.address.wrapping_add(i.bytes.len() as u64) == end_rip
}

/// The instruction that is chosen: the first that ends exactly there, or else the last that begins
/// before.
pub open spec fn chosen(list: Seq<InsnView>, end_rip: u64, r: Option<InsnView>) -> bool {
    ||| exists|k: int|
        0 <= k < list.len() && #[trigger] ends_at(list[k], end_rip) && r == Some(list[k]) && (
        forall|j: int| 0 <= j < k ==> !(#[trigger] ends_at(list[j], end_rip)))
    ||| {
        &&& forall|j: int| 0 <= j < list.len() ==> !(#[trigger] ends_at(list[j], end_rip))
        &&& match r {
            Some(i) => exists|k: int|
                0 <= k < list.len() && (#[trigger] list[k]).address < end_rip && i == list[k] && (
                forall|j: int| k < j < list.len() ==> (#[trigger] list[j]).address >= end_rip),
            None => forall|j: int| 0 <= j < list.len() ==> (#[trigger] list[j]).address >= end_rip,
        }
    }
}

/// How many instructions are looked at to find the one that ends at an address.
pub const LOOK_BACK: usize = 64;

/// Picks, among instructions, the one that ends at an address.
pub fn pick_ending(insns: &Vec<Insn>, end_rip: u64) -> (r: Option<Insn>)
    requires
        all_wf(insns@),
    ensures
        chosen(
            insn_views(insns@),
            end_rip,
            match r {
                Some(i) => Some(i@),
                None => None,
            },
        ),
        r matches Some(i) ==> i.wf(),
{
    let ghost list = insn_views(insns@);
    let mut i: usize = 0;
    while i < insns.len()
        invariant
            i <= insns@.len(),
            all_wf(insns@),
            list == insn_views(insns@),
            forall|j: int| 0 <= j < i ==> !(#[trigger] ends_at(list[j], end_rip)),
        decreases insns.len() - i,
    {
        assert(list[i as int] == insns@[i as int]@);
        assert(insns@[i as int].wf());
        if insns[i].address.wrapping_add(insns[i].len as u64) == end_rip {
            assert(ends_at(list[i as int], end_rip));
            return Some(insns[i].duplicate());
        }
        assert(!ends_at(list[i as int], end_rip));
        i += 1;
    }
    let mut k: usize = insns.len();
    while k > 0
        invariant
            k <= insns@.len(),
            all_wf(insns@),
            list == insn_views(insns@),
            forall|j: int| 0 <= j < insns@.len() ==> !(#[trigger] ends_at(list[j], end_rip)),
            forall|j: int| k <= j < insns@.len() ==> (#[trigger] list[j]).address >= end_rip,
        decreases k,
    {
        k -= 1;
        assert(list[k as int] == insns@[k as int]@);
        assert(insns@[k as int].wf());
        if insns[k].address < end_rip {
            return Some(insns[k].duplicate());
        }
    }
    None
}

/// The instruction that ends at `end_rip`, in code whose first byte stands at `start_addr`. A
/// hardware breakpoint fires after the instruction, so that the address it reports is that of the
/// next one; this finds the one that did the access. Where the code begins in the middle of an
/// instruction it may be that none ends there: then it is the last that begins before.
pub fn instruction_ending_at(code: &[u8], start_addr: u64, end_rip: u64) -> (r: Option<Insn>)
    ensures
        exists|list: Seq<InsnView>, end: int|
            #![trigger decoded(code@, start_addr, list, 0, end)]
            {
                &&& decoded(code@, start_addr, list, 0, end)
                &&& end == code@.len() || list.len() == LOOK_BACK
                &&& list.len() <= LOOK_BACK
                &&& chosen(
                    list,
                    end_rip,
                    match r {
                        Some(i) => Some(i@),
                        None => None,
                    },
                )
            },
        r matches Some(i) ==> i.wf(),
{
    let insns = disassemble(code, start_addr, LOOK_BACK);
    assert(insn_views(insns@).len() == insns@.len());
    pick_ending(&insns, end_rip)
}

/// Bytes as they are written: two digits each, with a space between.
pub open spec fn bytes_text(b: Seq<u8>) -> Seq<char>
    decreases b.len(),
{
    if b.len() == 0 {
        Seq::empty()
    } else {
        let rest = bytes_text(b.drop_last());
        rest + (if b.len() > 1 {
            seq![' ']
        } else {
            Seq::empty()
        }) + text::fixed_numeral(b.last() as nat, 16, 2, false)
    }
}

/// The bytes of an instruction as they are written: `48 8b 05`.
pub fn fmt_bytes(bytes: &[u8]) -> (r: String)
    ensures
        r@ == bytes_text(bytes@),
{
    let mut s = String::new();
    let mut i: usize = 0;
    assert(s@ =~= bytes_text(bytes@.take(0)));
    while i < bytes.len()
        invariant
            i <= bytes@.len(),
            s@ == bytes_text(bytes@.take(i as int)),
        decreases bytes.len() - i,
    {
        let ghost before = s@;
        if i > 0 {
            s.push(' ');
        }
        text::push_fixed(&mut s, bytes[i] as u64, 16, 2, false);
        i += 1;
        proof {
            let t = bytes@.take(i as int);
            assert(t.drop_last() =~= bytes@.take(i - 1));
            assert(s@ =~= bytes_text(t));
        }
    }
    assert(bytes@.take(i as int) == bytes@);
    s
}

/// Each instruction begins where the one before it ends, around the end of the address space, and is
/// what the decoder finds there.
pub proof fn law_instructions_follow_each_other(
    code: Seq<u8>,
    rip: u64,
    list: Seq<InsnView>,
    end: int,
    k: int,
)
    requires
        decoded(code, rip, list, 0, end),
        0 <= k < list.len(),
        code.len() <= u64::MAX,
    ensures
        k == 0 ==> list[k].address == rip,
        k > 0 ==> list[k].address == list[k - 1].address.wrapping_add(
            list[k - 1].bytes.len() as u64,
        ),
        exists|at: int|
            0 <= at < code.len() && list[k].text == insn_text(
                #[trigger] code.skip(at),
                list[k].address,
            ) && list[k].bytes == code.subrange(at, at + insn_len(code.skip(at), list[k].address)),
{
    lemma_follow(code, rip, list, 0, end, k);
}

proof fn lemma_follow(code: Seq<u8>, rip: u64, list: Seq<InsnView>, at: int, end: int, k: int)
    requires
        decoded(code, rip, list, at, end),
        0 <= at <= code.len() <= u64::MAX,
        0 <= k < list.len(),
    ensures
        k == 0 ==> list[k].address == rip.wrapping_add(at as u64),
        k > 0 ==> list[k].address == list[k - 1].address.wrapping_add(
            list[k - 1].bytes.len() as u64,
        ),
        exists|i: int|
            0 <= i < code.len() && list[k].text == insn_text(
                #[trigger] code.skip(i),
                list[k].address,
            ) && list[k].bytes == code.subrange(i, i + insn_len(code.skip(i), list[k].address)),
    decreases list.len(),
{
    let ip = rip.wrapping_add(at as u64);
    let n = insn_len(code.skip(at), ip) as int;
    let rest = list.skip(1);
    if k == 0 {
        assert(list[0].bytes == code.subrange(at, at + insn_len(code.skip(at), list[0].address)));
    } else {
        lemma_follow(code, rip, rest, at + n, end, k - 1);
        assert(rest[k - 1] == list[k]);
        if k == 1 {
            assert(list[0].bytes.len() == n);
            assert(list[1].address == rip.wrapping_add((at + n) as u64));
        } else {
            assert(rest[k - 2] == list[k - 1]);
        }
    }
}

/// Code of up to 64 bytes is taken apart to its end, whatever it holds, when the instruction before
/// an address is looked for.
pub proof fn law_short_code_is_searched_whole(
    code: Seq<u8>,
    rip: u64,
    list: Seq<InsnView>,
    end: int,
)
    requires
        decoded(code, rip, list, 0, end),
        end == code.len() || list.len() == LOOK_BACK,
        code.len() <= 64,
    ensures
        end == code.len(),
{
    lemma_ends_late(code, rip, list, 0, end);
}

proof fn lemma_ends_late(code: Seq<u8>, rip: u64, list: Seq<InsnView>, at: int, end: int)
    requires
        decoded(code, rip, list, at, end),
        0 <= at <= code.len(),
    ensures
        at + list.len() <= end <= code.len(),
    decreases list.len(),
{
    if list.len() > 0 {
        let n = insn_len(code.skip(at), rip.wrapping_add(at as u64)) as int;
        lemma_ends_late(code, rip, list.skip(1), at + n, end);
    }
}

/// Where an instruction ends at the address, the one that is chosen does; where none does, it begins
/// before the address, and none that begins later does.
pub proof fn law_chosen_instruction_ends_there(list: Seq<InsnView>, end_rip: u64, r: Option<InsnView>)
    requires
        chosen(list, end_rip, r),
    ensures
        r matches Some(i) ==> list.contains(i),
        (exists|k: int|
            0 <= k < list.len() && (#[trigger] list[k]).address.wrapping_add(
                list[k].bytes.len() as u64,
            ) == end_rip) ==> (r matches Some(i) && i.address.wrapping_add(i.bytes.len() as u64)
            == end_rip),
        (exists|k: int| 0 <= k < list.len() && (#[trigger] list[k]).address < end_rip) ==> r is Some,
        r matches Some(i) ==> i.address.wrapping_add(i.bytes.len() as u64) == end_rip || i.address
            < end_rip,
{
    if exists|k: int|
        0 <= k < list.len() && (#[trigger] list[k]).address.wrapping_add(list[k].bytes.len() as u64)
            == end_rip {
        let k = choose|k: int|
            0 <= k < list.len() && (#[trigger] list[k]).address.wrapping_add(
                list[k].bytes.len() as u64,
            ) == end_rip;
        assert(ends_at(list[k], end_rip));
    }
}

/// Bytes are written in the digits of which each is read again, a space between them.
pub proof fn law_written_bytes_are_read(b: Seq<u8>)
    requires
        b.len() > 0,
    ensures
        crate::inject::hex_bytes(bytes_text(b)) == Some(b),
        bytes_text(b).len() == 3 * b.len() - 1,
        forall|i: int|
            0 <= i && 3 * i + 2 < bytes_text(b).len() ==> #[trigger] bytes_text(b)[3 * i + 2] == ' ',
{
    let gap = seq![' '];
    assert(text::is_space(' '));
    lemma_bytes_text(b);
    let s = crate::inject::spaced_bytes(b, gap, false);
    assert(s == gap + bytes_text(b));
    crate::inject::law_typed_bytes_are_read(b, gap, Seq::empty(), 'x', false);
    assert(s + Seq::<char>::empty() =~= s);
    crate::inject::lemma_leading_space(bytes_text(b));
}

proof fn lemma_bytes_text(b: Seq<u8>)
    requires
        b.len() > 0,
    ensures
        crate::inject::spaced_bytes(b, seq![' '], false) == seq![' '] + bytes_text(b),
        bytes_text(b).len() == 3 * b.len() - 1,
        forall|i: int|
            0 <= i && 3 * i + 2 < bytes_text(b).len() ==> #[trigger] bytes_text(b)[3 * i + 2] == ' ',
    decreases b.len(),
{
    let gap = seq![' '];
    let d = text::byte_text(b.last(), false);
    text::law_byte_text_is_read(b.last(), false);
    let r = b.drop_last();
    crate::inject::lemma_spaced_push(r, gap, b.last(), false);
    assert(r.push(b.last()) =~= b);
    if r.len() == 0 {
        assert(r =~= Seq::<u8>::empty());
        assert(bytes_text(r) =~= Seq::<char>::empty());
        assert(crate::inject::spaced_bytes(r, gap, false) =~= Seq::<char>::empty());
        assert(bytes_text(b) =~= d);
        assert(crate::inject::spaced_bytes(b, gap, false) =~= gap + d);
    } else {
        lemma_bytes_text(r);
        let t = bytes_text(r);
        let s = bytes_text(b);
        assert(s == t + seq![' '] + d);
        assert(crate::inject::spaced_bytes(b, gap, false) =~= gap + s);
        assert forall|i: int| 0 <= i && 3 * i + 2 < s.len() implies #[trigger] s[3 * i + 2]
            == ' ' by {
            if 3 * i + 2 < t.len() {
                assert(s[3 * i + 2] == t[3 * i + 2]);
            } else {
                assert(3 * i + 2 == t.len());
            }
        }
    }
}

} // verus!
