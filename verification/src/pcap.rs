//! Packets as a capture file in the classic format.

use crate::bytes::{le_bytes, push_le};
use crate::capture::{PacketRecord, PacketView};
use vstd::prelude::*;

verus! {

/// The first bytes of a capture file.
pub const MAGIC: u64 = 0xa1b2_c3d4;

/// Packets that begin with the IP header.
pub const LINKTYPE_RAW: u64 = 101;

/// The header of the file: the mark, the version, the time zone, the accuracy, the greatest length
/// and the kind of packets.
pub open spec fn file_header() -> Seq<u8> {
    le_bytes(MAGIC as nat, 4) + le_bytes(2, 2) + le_bytes(4, 2) + le_bytes(0, 4) + le_bytes(0, 4)
        + le_bytes(65535, 4) + le_bytes(LINKTYPE_RAW as nat, 4)
}

/// A packet in the file: seconds, microseconds, the length that is kept, the length it had, and the
/// bytes that are kept.
pub open spec fn packet_block(p: PacketView) -> Seq<u8> {
    le_bytes((p.ts_ms as nat / 1000) % 0x1_0000_0000, 4) + le_bytes(
        (p.ts_ms as nat % 1000) * 1000,
        4,
    ) + le_bytes(p.data.len() % 0x1_0000_0000, 4) + le_bytes(p.total_len as nat, 4) + p.data
}

/// Packets in the file, behind each other.
pub open spec fn packet_blocks(ps: Seq<PacketView>) -> Seq<u8>
    decreases ps.len(),
{
    if ps.len() == 0 {
        Seq::empty()
    } else {
        packet_blocks(ps.drop_last()) + packet_block(ps.last())
    }
}

/// A capture file.
pub open spec fn file_of(ps: Seq<PacketView>) -> Seq<u8> {
    file_header() + packet_blocks(ps)
}

fn push_header(out: &mut Vec<u8>)
    ensures
        final(out)@ == old(out)@ + file_header(),
{
    let ghost start = out@;
    push_le(out, MAGIC, 4);
    push_le(out, 2, 2);
    push_le(out, 4, 2);
    push_le(out, 0, 4);
    push_le(out, 0, 4);
    push_le(out, 65535, 4);
    push_le(out, LINKTYPE_RAW, 4);
    assert(out@ =~= start + file_header());
}

fn push_packet(out: &mut Vec<u8>, p: &PacketRecord)
    ensures
        final(out)@ == old(out)@ + packet_block(p@),
{
    let ghost start = out@;
    push_le(out, (p.ts_ms / 1000) % 0x1_0000_0000, 4);
    push_le(out, (p.ts_ms % 1000) * 1000, 4);
    push_le(out, p.data.len() as u64 % 0x1_0000_0000, 4);
    push_le(out, p.total_len as u64, 4);
    out.extend_from_slice(p.data.as_slice());
    assert(out@ =~= start + packet_block(p@));
}

/// The capture file of packets.
pub fn write_pcap(packets: &[PacketRecord]) -> (r: Vec<u8>)
    ensures
        r@ == file_of(packets@.map_values(|p: PacketRecord| p@)),
{
    let ghost views = packets@.map_values(|p: PacketRecord| p@);
    let mut out: Vec<u8> = Vec::new();
    push_header(&mut out);
    let mut i: usize = 0;
    assert(out@ =~= file_header() + packet_blocks(views.take(0)));
    while i < packets.len()
        invariant
            i <= packets@.len(),
            views == packets@.map_values(|p: PacketRecord| p@),
            out@ == file_header() + packet_blocks(views.take(i as int)),
        decreases packets.len() - i,
    {
        push_packet(&mut out, &packets[i]);
        i += 1;
        assert(views.take(i as int).drop_last() =~= views.take(i - 1));
        assert(out@ =~= file_header() + packet_blocks(views.take(i as int)));
    }
    assert(views.take(i as int) == views);
    out
}

proof fn lemma_le_len(v: nat, n: nat)
    ensures
        le_bytes(v, n).len() == n,
    decreases n,
{
    if n > 0 {
        lemma_le_len(v / 256, (n - 1) as nat);
    }
}

/// The bytes that packets keep, counted.
pub open spec fn kept_bytes(ps: Seq<PacketView>) -> nat
    decreases ps.len(),
{
    if ps.len() == 0 {
        0
    } else {
        kept_bytes(ps.drop_last()) + ps.last().data.len()
    }
}

/// A capture file has 24 bytes, 16 more for each packet, and the bytes that the packets keep.
pub proof fn law_file_length(ps: Seq<PacketView>)
    ensures
        file_of(ps).len() == 24 + 16 * ps.len() + kept_bytes(ps),
    decreases ps.len(),
{
    lemma_le_len(MAGIC as nat, 4);
    lemma_le_len(2, 2);
    lemma_le_len(4, 2);
    lemma_le_len(0, 4);
    lemma_le_len(65535, 4);
    lemma_le_len(LINKTYPE_RAW as nat, 4);
    if ps.len() > 0 {
        let p = ps.last();
        law_file_length(ps.drop_last());
        lemma_le_len((p.ts_ms as nat / 1000) % 0x1_0000_0000, 4);
        lemma_le_len((p.ts_ms as nat % 1000) * 1000, 4);
        lemma_le_len(p.data.len() % 0x1_0000_0000, 4);
        lemma_le_len(p.total_len as nat, 4);
    }
}

/// What is read of a packet's block: the milliseconds, the two lengths, and the bytes.
pub open spec fn block_fields(b: Seq<u8>) -> (nat, nat, nat, Seq<u8>) {
    (
        crate::bytes::le_nat(b.subrange(0, 4)) * 1000 + crate::bytes::le_nat(b.subrange(4, 8))
            / 1000,
        crate::bytes::le_nat(b.subrange(8, 12)),
        crate::bytes::le_nat(b.subrange(12, 16)),
        b.skip(16),
    )
}

/// A packet can be read back from its block: its time, its lengths and its bytes. The time has to
/// fit into the file's seconds, and the length into its field.
pub proof fn law_packet_round_trip(p: PacketView)
    requires
        p.ts_ms / 1000 < 0x1_0000_0000,
        p.data.len() < 0x1_0000_0000,
    ensures
        block_fields(packet_block(p)) == (
            p.ts_ms as nat,
            p.data.len(),
            p.total_len as nat,
            p.data,
        ),
{
    let b = packet_block(p);
    let s = p.ts_ms as nat / 1000;
    let u = (p.ts_ms as nat % 1000) * 1000;
    lemma_le_len(s, 4);
    lemma_le_len(u, 4);
    lemma_le_len(p.data.len(), 4);
    lemma_le_len(p.total_len as nat, 4);
    assert(b.subrange(0, 4) =~= le_bytes(s, 4));
    assert(b.subrange(4, 8) =~= le_bytes(u, 4));
    assert(b.subrange(8, 12) =~= le_bytes(p.data.len(), 4));
    assert(b.subrange(12, 16) =~= le_bytes(p.total_len as nat, 4));
    assert(b.skip(16) =~= p.data);
    crate::bytes::lemma_span_values();
    crate::bytes::law_le_round_trip(s, 4);
    crate::bytes::law_le_round_trip(u, 4);
    crate::bytes::law_le_round_trip(p.data.len(), 4);
    crate::bytes::law_le_round_trip(p.total_len as nat, 4);
}

/// The number in the `n` bytes from `at` on.
pub open spec fn field(b: Seq<u8>, at: int, n: int) -> nat {
    crate::bytes::le_nat(b.subrange(at, at + n))
}

/// The file begins with what a reader of the format expects: its mark, the version 2.4, no time
/// zone, packets of up to 65535 bytes, and that each begins with its IP header.
pub proof fn law_file_begins_with_header(ps: Seq<PacketView>)
    ensures
        ({
            let f = file_of(ps);
            &&& f.len() >= 24
            &&& field(f, 0, 4) == 0xa1b2c3d4
            &&& field(f, 4, 2) == 2
            &&& field(f, 6, 2) == 4
            &&& field(f, 8, 4) == 0
            &&& field(f, 12, 4) == 0
            &&& field(f, 16, 4) == 65535
            &&& field(f, 20, 4) == 101
        }),
{
    let f = file_of(ps);
    lemma_le_len(MAGIC as nat, 4);
    lemma_le_len(2, 2);
    lemma_le_len(4, 2);
    lemma_le_len(0, 4);
    lemma_le_len(65535, 4);
    lemma_le_len(LINKTYPE_RAW as nat, 4);
    crate::bytes::lemma_span_values();
    crate::bytes::law_le_round_trip(MAGIC as nat, 4);
    crate::bytes::law_le_round_trip(2, 2);
    crate::bytes::law_le_round_trip(4, 2);
    crate::bytes::law_le_round_trip(0, 4);
    crate::bytes::law_le_round_trip(65535, 4);
    crate::bytes::law_le_round_trip(LINKTYPE_RAW as nat, 4);
    assert(f.subrange(0, 4) =~= le_bytes(MAGIC as nat, 4));
    assert(f.subrange(4, 6) =~= le_bytes(2, 2));
    assert(f.subrange(6, 8) =~= le_bytes(4, 2));
    assert(f.subrange(8, 12) =~= le_bytes(0, 4));
    assert(f.subrange(12, 16) =~= le_bytes(0, 4));
    assert(f.subrange(16, 20) =~= le_bytes(65535, 4));
    assert(f.subrange(20, 24) =~= le_bytes(LINKTYPE_RAW as nat, 4));
}

proof fn lemma_block_at(ps: Seq<PacketView>, k: int)
    requires
        0 <= k < ps.len(),
    ensures
        ({
            let at = 16 * k + kept_bytes(ps.take(k));
            let b = packet_blocks(ps);
            &&& 0 <= at
            &&& at + 16 + ps[k].data.len() <= b.len()
            &&& b.subrange(at, at + 16 + ps[k].data.len()) == packet_block(ps[k])
        }),
    decreases ps.len(),
{
    let rest = ps.drop_last();
    let p = ps[k];
    let at = 16 * k + kept_bytes(ps.take(k));
    let b = packet_blocks(ps);
    let end = at + 16 + p.data.len();
    law_file_length(rest);
    law_file_length(ps);
    lemma_le_len((p.ts_ms as nat / 1000) % 0x1_0000_0000, 4);
    lemma_le_len((p.ts_ms as nat % 1000) * 1000, 4);
    lemma_le_len(p.data.len() % 0x1_0000_0000, 4);
    lemma_le_len(p.total_len as nat, 4);
    lemma_header_len();
    if k < rest.len() {
        lemma_block_at(rest, k);
        assert(rest.take(k) =~= ps.take(k));
        assert(b.subrange(at, end) =~= packet_blocks(rest).subrange(at, end));
    } else {
        assert(ps.take(k) =~= rest);
        assert(packet_blocks(rest).len() == at);
        assert(b.subrange(at, end) =~= packet_block(p));
    }
}

proof fn lemma_header_len()
    ensures
        file_header().len() == 24,
{
    lemma_le_len(MAGIC as nat, 4);
    lemma_le_len(2, 2);
    lemma_le_len(4, 2);
    lemma_le_len(0, 4);
    lemma_le_len(65535, 4);
    lemma_le_len(LINKTYPE_RAW as nat, 4);
}

proof fn lemma_part(f: Seq<u8>, at: int, b: Seq<u8>, i: int, j: int)
    requires
        0 <= at,
        at + b.len() <= f.len(),
        f.subrange(at, at + b.len()) == b,
        0 <= i <= j <= b.len(),
    ensures
        f.subrange(at + i, at + j) == b.subrange(i, j),
{
    assert(f.subrange(at + i, at + j) =~= f.subrange(at, at + b.len()).subrange(i, j));
}

proof fn lemma_block_fields(p: PacketView)
    requires
        p.ts_ms / 1000 < 0x1_0000_0000,
        p.data.len() < 0x1_0000_0000,
    ensures
        ({
            let b = packet_block(p);
            let n = p.data.len();
            &&& b.len() == 16 + n
            &&& field(b, 0, 4) == p.ts_ms / 1000
            &&& field(b, 4, 4) == (p.ts_ms % 1000) * 1000
            &&& field(b, 8, 4) == n
            &&& field(b, 12, 4) == p.total_len
            &&& b.subrange(16, 16 + n as int) == p.data
        }),
{
    let b = packet_block(p);
    let n = p.data.len();
    let s = p.ts_ms as nat / 1000;
    let u = (p.ts_ms as nat % 1000) * 1000;
    lemma_le_len(s, 4);
    lemma_le_len(u, 4);
    lemma_le_len(n, 4);
    lemma_le_len(p.total_len as nat, 4);
    crate::bytes::lemma_span_values();
    crate::bytes::law_le_round_trip(s, 4);
    crate::bytes::law_le_round_trip(u, 4);
    crate::bytes::law_le_round_trip(n, 4);
    crate::bytes::law_le_round_trip(p.total_len as nat, 4);
    assert(b.subrange(0, 4) =~= le_bytes(s, 4));
    assert(b.subrange(4, 8) =~= le_bytes(u, 4));
    assert(b.subrange(8, 12) =~= le_bytes(n, 4));
    assert(b.subrange(12, 16) =~= le_bytes(p.total_len as nat, 4));
    assert(b.subrange(16, 16 + n as int) =~= p.data);
}

/// Each packet stands in the file behind those before it: its seconds, its microseconds, how many
/// bytes are kept, how many it had, and then the bytes that are kept. The seconds and the length have
/// to fit into their fields.
pub proof fn law_file_holds_the_packets(ps: Seq<PacketView>, k: int)
    requires
        0 <= k < ps.len(),
        ps[k].ts_ms / 1000 < 0x1_0000_0000,
        ps[k].data.len() < 0x1_0000_0000,
    ensures
        ({
            let f = file_of(ps);
            let p = ps[k];
            let at = 24 + 16 * k + kept_bytes(ps.take(k));
            &&& at + 16 + p.data.len() <= f.len()
            &&& field(f, at, 4) == p.ts_ms / 1000
            &&& field(f, at + 4, 4) == (p.ts_ms % 1000) * 1000
            &&& field(f, at + 8, 4) == p.data.len()
            &&& field(f, at + 12, 4) == p.total_len
            &&& f.subrange(at + 16, at + 16 + p.data.len()) == p.data
        }),
{
    let f = file_of(ps);
    let p = ps[k];
    let at = 24 + 16 * k + kept_bytes(ps.take(k));
    let n = p.data.len();
    lemma_header_len();
    lemma_block_at(ps, k);
    let b = packet_block(p);
    lemma_block_fields(p);
    assert(f.subrange(at, at + 16 + n) =~= b);
    lemma_part(f, at, b, 0, 4);
    lemma_part(f, at, b, 4, 8);
    lemma_part(f, at, b, 8, 12);
    lemma_part(f, at, b, 12, 16);
    lemma_part(f, at, b, 16, 16 + n as int);
}

} // verus!
