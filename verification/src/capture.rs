//! Watching the network: packets are taken apart, counted by conversation and kept.

use crate::bytes::copy_range;
use crate::text;
use std::collections::{HashMap, VecDeque};
use vstd::prelude::*;

verus! {

broadcast use vstd::std_specs::hash::group_hash_axioms;

/// How many conversations are kept.
pub const MAX_CONVS: usize = 4000;

/// How many packets are kept of a conversation; the oldest go first.
pub const MAX_PKTS_PER_CONV: usize = 200;

/// How many bytes are kept of a packet.
pub const MAX_PKT_BYTES: usize = 1600;

/// The protocol numbers that have ports.
pub const TCP: u8 = 6;

pub const UDP: u8 = 17;

// ---------------------------------------------------------------------------
// Addresses
// ---------------------------------------------------------------------------

/// An IPv4 address.
#[derive(Clone, Copy, PartialEq, Eq, Structural, Debug)]
pub struct Ipv4Addr {
    pub a: u8,
    pub b: u8,
    pub c: u8,
    pub d: u8,
}

impl Ipv4Addr {
    /// The address as it is written.
    pub open spec fn text(self) -> Seq<char> {
        text::decimal(self.a as nat) + seq!['.'] + text::decimal(self.b as nat) + seq!['.']
            + text::decimal(self.c as nat) + seq!['.'] + text::decimal(self.d as nat)
    }

    /// The address as a number.
    pub open spec fn number(self) -> int {
        self.a * 0x100_0000 + self.b * 0x1_0000 + self.c * 0x100 + self.d
    }

    /// Writes the address behind a text.
    pub fn push_to(&self, s: &mut String)
        ensures
            final(s)@ == old(s)@ + self.text(),
    {
        text::push_decimal(s, self.a as u64);
        s.push('.');
        text::push_decimal(s, self.b as u64);
        s.push('.');
        text::push_decimal(s, self.c as u64);
        s.push('.');
        text::push_decimal(s, self.d as u64);
        assert(s@ =~= old(s)@ + self.text());
    }

    /// The address as it is written.
    pub fn to_text(&self) -> (r: String)
        ensures
            r@ == self.text(),
    {
        let mut s = String::new();
        self.push_to(&mut s);
        assert(s@ =~= self.text());
        s
    }
}

/// The parts of a text between dots.
pub open spec fn dotted(s: Seq<char>) -> Seq<Seq<char>>
    decreases s.len(),
{
    if s.len() == 0 {
        seq![Seq::<char>::empty()]
    } else {
        let rest = dotted(s.drop_last());
        if s.last() == '.' {
            rest.push(Seq::empty())
        } else {
            rest.update(rest.len() - 1, rest.last().push(s.last()))
        }
    }
}

/// The number that one part of an address stands for: one to three digits, no zero before
/// others, at most 255.
pub open spec fn octet(s: Seq<char>) -> Option<int> {
    if 1 <= s.len() <= 3 && (s.len() > 1 ==> s[0] != '0') && s[0] != '+' {
        text::integer(s, 10, 0, 255)
    } else {
        None
    }
}

/// The address that a text stands for, with white space around it ignored.
pub open spec fn address_in(s: Seq<char>) -> Option<Ipv4Addr> {
    let p = dotted(text::trimmed(s));
    if p.len() != 4 {
        None
    } else {
        match (octet(p[0]), octet(p[1]), octet(p[2]), octet(p[3])) {
            (Some(a), Some(b), Some(c), Some(d)) => Some(
                Ipv4Addr { a: a as u8, b: b as u8, c: c as u8, d: d as u8 },
            ),
            _ => None,
        }
    }
}

fn parse_octet(s: &Vec<char>) -> (r: Option<u8>)
    ensures
        match r {
            Some(v) => octet(s@) == Some(v as int),
            None => octet(s@) is None,
        },
{
    if s.len() < 1 || s.len() > 3 || (s.len() > 1 && s[0] == '0') || s[0] == '+' {
        return None;
    }
    match text::parse_integer(s.as_slice(), 10, 0, 255) {
        Some(v) => Some(v as u8),
        None => None,
    }
}

proof fn lemma_dotted_len(s: Seq<char>)
    ensures
        dotted(s).len() >= 1,
    decreases s.len(),
{
    if s.len() > 0 {
        lemma_dotted_len(s.drop_last());
    }
}

fn split_dots(s: &Vec<char>) -> (r: Vec<Vec<char>>)
    ensures
        r@.len() == dotted(s@).len(),
        forall|k: int| 0 <= k < r@.len() ==> (#[trigger] r@[k])@ == dotted(s@)[k],
{
    let mut done: Vec<Vec<char>> = Vec::new();
    let mut cur: Vec<char> = Vec::new();
    let mut i: usize = 0;
    while i < s.len()
        invariant
            i <= s.len(),
            dotted(s@.take(i as int)).len() == done@.len() + 1,
            dotted(s@.take(i as int)).last() == cur@,
            forall|k: int|
                0 <= k < done@.len() ==> (#[trigger] done@[k])@ == dotted(s@.take(i as int))[k],
        decreases s.len() - i,
    {
        let ghost before = dotted(s@.take(i as int));
        let c = s[i];
        assert(s@.take(i + 1).drop_last() =~= s@.take(i as int));
        if c == '.' {
            done.push(cur);
            cur = Vec::new();
        } else {
            cur.push(c);
        }
        i += 1;
        assert(cur@ =~= dotted(s@.take(i as int)).last());
    }
    assert(s@.take(i as int) == s@);
    done.push(cur);
    done
}

/// Reads an address. `None` where the text is not one.
pub fn parse_ipv4(typed: &str) -> (r: Option<Ipv4Addr>)
    ensures
        r == address_in(typed@),
{
    let cs = text::trim(typed);
    let p = split_dots(&cs);
    if p.len() != 4 {
        return None;
    }
    match (parse_octet(&p[0]), parse_octet(&p[1]), parse_octet(&p[2]), parse_octet(&p[3])) {
        (Some(a), Some(b), Some(c), Some(d)) => Some(Ipv4Addr { a, b, c, d }),
        _ => None,
    }
}

// ---------------------------------------------------------------------------
// Conversations and packets
// ---------------------------------------------------------------------------

/// The name of a protocol.
pub open spec fn protocol(proto: u8) -> Seq<char> {
    if proto == TCP {
        "TCP"@
    } else if proto == UDP {
        "UDP"@
    } else if proto == 1 {
        "ICMP"@
    } else {
        "IP"@
    }
}

fn proto_name(proto: u8) -> (r: &'static str)
    ensures
        r@ == protocol(proto),
{
    match proto {
        6 => "TCP",
        17 => "UDP",
        1 => "ICMP",
        _ => "IP",
    }
}

/// The name of a protocol.
pub fn proto_label(proto: u8) -> (r: &'static str)
    ensures
        r@ == protocol(proto),
{
    proto_name(proto)
}

/// What tells conversations apart.
#[derive(Clone, Copy, PartialEq, Eq, Structural, Debug)]
pub struct ConvKey {
    pub proto: u8,
    pub local_port: u16,
    pub remote_ip: Ipv4Addr,
    pub remote_port: u16,
}

/// The packets between a local port and a remote one, counted.
pub struct Conversation {
    pub proto: u8,
    pub local_port: u16,
    pub remote_ip: Ipv4Addr,
    pub remote_port: u16,
    /// The process that owns the socket; 0 where it is not known.
    pub pid: u32,
    /// The name of that process; empty where it is not known.
    pub process: String,
    pub packets: u64,
    pub bytes: u64,
    pub last_ms: u64,
}

/// A conversation.
#[verifier::ext_equal]
pub struct ConvView {
    pub key: ConvKey,
    pub pid: u32,
    pub process: Seq<char>,
    pub packets: u64,
    pub bytes: u64,
    pub last_ms: u64,
}

impl View for Conversation {
    type V = ConvView;

    open spec fn view(&self) -> ConvView {
        ConvView {
            key: ConvKey {
                proto: self.proto,
                local_port: self.local_port,
                remote_ip: self.remote_ip,
                remote_port: self.remote_port,
            },
            pid: self.pid,
            process: self.process@,
            packets: self.packets,
            bytes: self.bytes,
            last_ms: self.last_ms,
        }
    }
}

impl Conversation {
    /// The name of the protocol.
    pub fn proto_name(&self) -> (r: &'static str)
        ensures
            r@ == protocol(self.proto),
    {
        proto_name(self.proto)
    }

    /// What tells the conversation apart.
    pub fn key(&self) -> (r: ConvKey)
        ensures
            r == self@.key,
    {
        ConvKey {
            proto: self.proto,
            local_port: self.local_port,
            remote_ip: self.remote_ip,
            remote_port: self.remote_port,
        }
    }

    /// A conversation with the same contents.
    pub fn duplicate(&self) -> (r: Conversation)
        ensures
            r@ == self@,
    {
        Conversation {
            proto: self.proto,
            local_port: self.local_port,
            remote_ip: self.remote_ip,
            remote_port: self.remote_port,
            pid: self.pid,
            process: self.process.clone(),
            packets: self.packets,
            bytes: self.bytes,
            last_ms: self.last_ms,
        }
    }
}

/// One packet, with its first bytes.
pub struct PacketRecord {
    /// Milliseconds since the capture began.
    pub ts_ms: u64,
    /// The packet leaves by the interface.
    pub outbound: bool,
    pub proto: u8,
    pub src: Ipv4Addr,
    pub dst: Ipv4Addr,
    pub src_port: u16,
    pub dst_port: u16,
    /// The length that the packet's header gives.
    pub total_len: u16,
    /// The packet from its header on, cut to `MAX_PKT_BYTES`.
    pub data: Vec<u8>,
}

/// One packet.
#[verifier::ext_equal]
pub struct PacketView {
    pub ts_ms: u64,
    pub outbound: bool,
    pub proto: u8,
    pub src: Ipv4Addr,
    pub dst: Ipv4Addr,
    pub src_port: u16,
    pub dst_port: u16,
    pub total_len: u16,
    pub data: Seq<u8>,
}

impl View for PacketRecord {
    type V = PacketView;

    open spec fn view(&self) -> PacketView {
        PacketView {
            ts_ms: self.ts_ms,
            outbound: self.outbound,
            proto: self.proto,
            src: self.src,
            dst: self.dst,
            src_port: self.src_port,
            dst_port: self.dst_port,
            total_len: self.total_len,
            data: self.data@,
        }
    }
}

impl PacketRecord {
    /// The name of the protocol.
    pub fn proto_name(&self) -> (r: &'static str)
        ensures
            r@ == protocol(self.proto),
    {
        proto_name(self.proto)
    }

    /// A packet with the same contents.
    pub fn duplicate(&self) -> (r: PacketRecord)
        ensures
            r@ == self@,
    {
        PacketRecord {
            ts_ms: self.ts_ms,
            outbound: self.outbound,
            proto: self.proto,
            src: self.src,
            dst: self.dst,
            src_port: self.src_port,
            dst_port: self.dst_port,
            total_len: self.total_len,
            data: self.data.clone(),
        }
    }
}

// ---------------------------------------------------------------------------
// Who owns a socket
// ---------------------------------------------------------------------------

/// The port that a table row holds: the two low bytes, the first of them the high one.
pub open spec fn row_port(dw: u32) -> int {
    (dw % 0x100) * 0x100 + (dw / 0x100) % 0x100
}

/// The port that a table row holds.
pub fn ntohs(dw: u32) -> (r: u16)
    ensures
        r == row_port(dw),
{
    ((dw % 0x100) * 0x100 + (dw / 0x100) % 0x100) as u16
}

/// The address that a table row holds: its bytes from the low one on.
pub open spec fn row_ip(dw: u32) -> Ipv4Addr {
    Ipv4Addr {
        a: (dw % 0x100) as u8,
        b: ((dw / 0x100) % 0x100) as u8,
        c: ((dw / 0x1_0000) % 0x100) as u8,
        d: (dw / 0x100_0000) as u8,
    }
}

/// The address that a table row holds.
pub fn dword_ip(dw: u32) -> (r: Ipv4Addr)
    ensures
        r == row_ip(dw),
{
    Ipv4Addr {
        a: (dw % 0x100) as u8,
        b: ((dw / 0x100) % 0x100) as u8,
        c: ((dw / 0x1_0000) % 0x100) as u8,
        d: (dw / 0x100_0000) as u8,
    }
}

/// One number for a local port, a remote address and a remote port.
pub open spec fn tuple_key(lport: u16, rip: Ipv4Addr, rport: u16) -> u64 {
    (lport * 0x1_0000_0000_0000 + rip.number() * 0x1_0000 + rport) as u64
}

/// Different connections have different numbers.
pub proof fn law_tuple_key_is_unique(
    l1: u16,
    i1: Ipv4Addr,
    r1: u16,
    l2: u16,
    i2: Ipv4Addr,
    r2: u16,
)
    requires
        tuple_key(l1, i1, r1) == tuple_key(l2, i2, r2),
    ensures
        l1 == l2,
        i1 == i2,
        r1 == r2,
{
    let n1 = i1.number();
    let n2 = i2.number();
    assert(0 <= n1 < 0x1_0000_0000);
    assert(0 <= n2 < 0x1_0000_0000);
    lemma_digits(l1 * 0x1_0000_0000 + n1, r1 as int, l2 * 0x1_0000_0000 + n2, r2 as int, 0x1_0000);
    lemma_digits(l1 as int, n1, l2 as int, n2, 0x1_0000_0000);
    let h1 = i1.a * 0x1_0000 + i1.b * 0x100 + i1.c;
    let h2 = i2.a * 0x1_0000 + i2.b * 0x100 + i2.c;
    lemma_digits(h1, i1.d as int, h2, i2.d as int, 0x100);
    lemma_digits(i1.a * 0x100 + i1.b, i1.c as int, i2.a * 0x100 + i2.b, i2.c as int, 0x100);
    lemma_digits(i1.a as int, i1.b as int, i2.a as int, i2.b as int, 0x100);
}

proof fn lemma_digits(q1: int, r1: int, q2: int, r2: int, m: int)
    requires
        0 <= r1 < m,
        0 <= r2 < m,
        q1 * m + r1 == q2 * m + r2,
    ensures
        q1 == q2,
        r1 == r2,
{
    vstd::arithmetic::div_mod::lemma_fundamental_div_mod_converse(q1 * m + r1, m, q1, r1);
    vstd::arithmetic::div_mod::lemma_fundamental_div_mod_converse(q1 * m + r1, m, q2, r2);
}

fn tuple_number(lport: u16, rip: Ipv4Addr, rport: u16) -> (r: u64)
    ensures
        r == tuple_key(lport, rip, rport),
{
    let n: u64 = rip.a as u64 * 0x100_0000 + rip.b as u64 * 0x1_0000 + rip.c as u64 * 0x100
        + rip.d as u64;
    lport as u64 * 0x1_0000_0000_0000 + n * 0x1_0000 + rport as u64
}

/// A row of the table of TCP connections.
#[derive(Clone, Copy, PartialEq, Eq, Structural, Debug)]
pub struct TcpRow {
    pub local_port: u32,
    pub remote_addr: u32,
    pub remote_port: u32,
    pub pid: u32,
}

/// A row of the table of UDP sockets.
#[derive(Clone, Copy, PartialEq, Eq, Structural, Debug)]
pub struct UdpRow {
    pub local_port: u32,
    pub pid: u32,
}

/// Which process owns which socket.
pub struct ProcIndex {
    /// By local port, remote address and remote port.
    tcp: HashMap<u64, u32>,
    /// By local port alone.
    tcp_by_lport: HashMap<u16, u32>,
    udp_by_lport: HashMap<u16, u32>,
    names: HashMap<u32, String>,
}

/// Which process owns which socket.
#[verifier::ext_equal]
pub struct IndexView {
    pub tcp: Map<u64, u32>,
    pub tcp_by_lport: Map<u16, u32>,
    pub udp_by_lport: Map<u16, u32>,
    pub names: Map<u32, Seq<char>>,
}

impl View for ProcIndex {
    type V = IndexView;

    closed spec fn view(&self) -> IndexView {
        IndexView {
            tcp: self.tcp@,
            tcp_by_lport: self.tcp_by_lport@,
            udp_by_lport: self.udp_by_lport@,
            names: self.names@.map_values(|s: String| s@),
        }
    }
}

/// The map with a key added, unless it is there.
pub open spec fn insert_first<K, V>(m: Map<K, V>, k: K, v: V) -> Map<K, V> {
    if m.contains_key(k) {
        m
    } else {
        m.insert(k, v)
    }
}

/// The owners by local port: of several sockets on a port, the first in the table counts.
pub open spec fn tcp_ports(rows: Seq<TcpRow>) -> Map<u16, u32>
    decreases rows.len(),
{
    if rows.len() == 0 {
        Map::empty()
    } else {
        insert_first(
            tcp_ports(rows.drop_last()),
            row_port(rows.last().local_port) as u16,
            rows.last().pid,
        )
    }
}

/// The connection of a row has a remote end.
pub open spec fn connected(row: TcpRow) -> bool {
    row.remote_addr != 0 && row_port(row.remote_port) != 0
}

/// The number of a row's connection.
pub open spec fn row_key(row: TcpRow) -> u64 {
    tuple_key(
        row_port(row.local_port) as u16,
        row_ip(row.remote_addr),
        row_port(row.remote_port) as u16,
    )
}

/// The owners by connection: of several rows for one connection, the last counts.
pub open spec fn tcp_tuples(rows: Seq<TcpRow>) -> Map<u64, u32>
    decreases rows.len(),
{
    if rows.len() == 0 {
        Map::empty()
    } else if connected(rows.last()) {
        tcp_tuples(rows.drop_last()).insert(row_key(rows.last()), rows.last().pid)
    } else {
        tcp_tuples(rows.drop_last())
    }
}

/// The owners of UDP sockets by local port; the first in the table counts.
pub open spec fn udp_ports(rows: Seq<UdpRow>) -> Map<u16, u32>
    decreases rows.len(),
{
    if rows.len() == 0 {
        Map::empty()
    } else {
        insert_first(
            udp_ports(rows.drop_last()),
            row_port(rows.last().local_port) as u16,
            rows.last().pid,
        )
    }
}

/// The names of processes; the last in the list counts.
pub open spec fn process_names(list: Seq<(u32, String)>) -> Map<u32, Seq<char>>
    decreases list.len(),
{
    if list.len() == 0 {
        Map::empty()
    } else {
        process_names(list.drop_last()).insert(list.last().0, list.last().1@)
    }
}

/// The name that is shown for a process without one.
pub open spec fn pid_text(pid: u32) -> Seq<char> {
    "pid "@ + text::decimal(pid as nat)
}

/// The name that is shown for a process without one.
pub fn pid_label(pid: u32) -> (r: String)
    ensures
        r@ == pid_text(pid),
{
    let mut s = "pid ".to_owned();
    text::push_decimal(&mut s, pid as u64);
    s
}

impl IndexView {
    /// The process that owns a socket, and its name.
    pub open spec fn owner(self, key: ConvKey) -> Option<(u32, Seq<char>)> {
        let t = tuple_key(key.local_port, key.remote_ip, key.remote_port);
        let pid = if key.proto == TCP {
            if self.tcp.contains_key(t) {
                Some(self.tcp[t])
            } else if self.tcp_by_lport.contains_key(key.local_port) {
                Some(self.tcp_by_lport[key.local_port])
            } else {
                None
            }
        } else if key.proto == UDP && self.udp_by_lport.contains_key(key.local_port) {
            Some(self.udp_by_lport[key.local_port])
        } else {
            None
        };
        match pid {
            Some(p) => Some(
                (
                    p,
                    if self.names.contains_key(p) {
                        self.names[p]
                    } else {
                        pid_text(p)
                    },
                ),
            ),
            None => None,
        }
    }
}

impl ProcIndex {
    /// An index that knows no socket.
    pub fn new() -> (r: ProcIndex)
        ensures
            r@ == (IndexView {
                tcp: Map::empty(),
                tcp_by_lport: Map::empty(),
                udp_by_lport: Map::empty(),
                names: Map::empty(),
            }),
    {
        let r = ProcIndex {
            tcp: HashMap::new(),
            tcp_by_lport: HashMap::new(),
            udp_by_lport: HashMap::new(),
            names: HashMap::new(),
        };
        assert(r@.names =~= Map::<u32, Seq<char>>::empty());
        r
    }
}

/// The index that is built from the tables of sockets and the list of processes.
pub open spec fn index_of(tcp: Seq<TcpRow>, udp: Seq<UdpRow>, list: Seq<(u32, String)>) -> IndexView {
    IndexView {
        tcp: tcp_tuples(tcp),
        tcp_by_lport: tcp_ports(tcp),
        udp_by_lport: udp_ports(udp),
        names: process_names(list),
    }
}

/// Builds the index from the tables of sockets and the list of processes.
pub fn refresh_proc_index(tcp_rows: &[TcpRow], udp_rows: &[UdpRow], list: &[(u32, String)]) -> (r:
    ProcIndex)
    ensures
        r@ == index_of(tcp_rows@, udp_rows@, list@),
{
    let mut r = ProcIndex::new();
    let mut i: usize = 0;
    while i < tcp_rows.len()
        invariant
            i <= tcp_rows.len(),
            r.tcp@ == tcp_tuples(tcp_rows@.take(i as int)),
            r.tcp_by_lport@ == tcp_ports(tcp_rows@.take(i as int)),
            r.udp_by_lport@ == Map::<u16, u32>::empty(),
            r.names@.map_values(|s: String| s@) == Map::<u32, Seq<char>>::empty(),
        decreases tcp_rows.len() - i,
    {
        let row = tcp_rows[i];
        assert(tcp_rows@.take(i + 1).drop_last() =~= tcp_rows@.take(i as int));
        let lport = ntohs(row.local_port);
        let rip = dword_ip(row.remote_addr);
        let rport = ntohs(row.remote_port);
        if !r.tcp_by_lport.contains_key(&lport) {
            r.tcp_by_lport.insert(lport, row.pid);
        }
        if row.remote_addr != 0 && rport != 0 {
            r.tcp.insert(tuple_number(lport, rip, rport), row.pid);
        }
        i += 1;
    }
    assert(tcp_rows@.take(i as int) == tcp_rows@);
    let mut j: usize = 0;
    while j < udp_rows.len()
        invariant
            j <= udp_rows.len(),
            r.tcp@ == tcp_tuples(tcp_rows@),
            r.tcp_by_lport@ == tcp_ports(tcp_rows@),
            r.udp_by_lport@ == udp_ports(udp_rows@.take(j as int)),
            r.names@.map_values(|s: String| s@) == Map::<u32, Seq<char>>::empty(),
        decreases udp_rows.len() - j,
    {
        let row = udp_rows[j];
        assert(udp_rows@.take(j + 1).drop_last() =~= udp_rows@.take(j as int));
        let lport = ntohs(row.local_port);
        if !r.udp_by_lport.contains_key(&lport) {
            r.udp_by_lport.insert(lport, row.pid);
        }
        j += 1;
    }
    assert(udp_rows@.take(j as int) == udp_rows@);
    let mut k: usize = 0;
    while k < list.len()
        invariant
            k <= list.len(),
            r.tcp@ == tcp_tuples(tcp_rows@),
            r.tcp_by_lport@ == tcp_ports(tcp_rows@),
            r.udp_by_lport@ == udp_ports(udp_rows@),
            r.names@.map_values(|s: String| s@) == process_names(list@.take(k as int)),
        decreases list.len() - k,
    {
        assert(list@.take(k + 1).drop_last() =~= list@.take(k as int));
        let ghost before = r.names@;
        let name = list[k].1.clone();
        r.names.insert(list[k].0, name);
        assert(r.names@.map_values(|s: String| s@) =~= before.map_values(|s: String| s@).insert(
            list@[k as int].0,
            name@,
        ));
        k += 1;
    }
    assert(list@.take(k as int) == list@);
    r
}

/// Finds the process that owns a socket, and its name.
pub fn lookup_pid(idx: &ProcIndex, key: ConvKey) -> (r: Option<(u32, String)>)
    ensures
        match r {
            Some((pid, name)) => idx@.owner(key) == Some((pid, name@)),
            None => idx@.owner(key) is None,
        },
{
    let pid = if key.proto == TCP {
        match idx.tcp.get(&tuple_number(key.local_port, key.remote_ip, key.remote_port)) {
            Some(p) => *p,
            None => match idx.tcp_by_lport.get(&key.local_port) {
                Some(p) => *p,
                None => {
                    return None;
                },
            },
        }
    } else if key.proto == UDP {
        match idx.udp_by_lport.get(&key.local_port) {
            Some(p) => *p,
            None => {
                return None;
            },
        }
    } else {
        return None;
    };
    let name = match idx.names.get(&pid) {
        Some(n) => n.clone(),
        None => pid_label(pid),
    };
    Some((pid, name))
}

// ---------------------------------------------------------------------------
// Taking a packet apart
// ---------------------------------------------------------------------------

/// A number of two bytes, the high one first.
pub open spec fn be16(s: Seq<u8>, at: int) -> int {
    s[at] * 0x100 + s[at + 1]
}

/// The length of the IP header.
pub open spec fn header_len(pkt: Seq<u8>) -> int {
    (pkt[0] % 16) * 4
}

/// The bytes are an IPv4 packet with a whole header.
pub open spec fn is_ipv4(pkt: Seq<u8>) -> bool {
    &&& pkt.len() >= 20
    &&& pkt[0] / 16 == 4
    &&& header_len(pkt) >= 20
    &&& pkt.len() >= header_len(pkt)
}

/// The address at a place.
pub open spec fn ip_at(pkt: Seq<u8>, at: int) -> Ipv4Addr {
    Ipv4Addr { a: pkt[at], b: pkt[at + 1], c: pkt[at + 2], d: pkt[at + 3] }
}

/// The packet has ports.
pub open spec fn has_ports(pkt: Seq<u8>) -> bool {
    (pkt[9] == TCP || pkt[9] == UDP) && pkt.len() >= header_len(pkt) + 4
}

/// What is kept of a packet.
pub open spec fn record_of(iface: Ipv4Addr, pkt: Seq<u8>, ms: u64) -> PacketView {
    let h = header_len(pkt);
    PacketView {
        ts_ms: ms,
        outbound: ip_at(pkt, 12) == iface,
        proto: pkt[9],
        src: ip_at(pkt, 12),
        dst: ip_at(pkt, 16),
        src_port: if has_ports(pkt) {
            be16(pkt, h) as u16
        } else {
            0
        },
        dst_port: if has_ports(pkt) {
            be16(pkt, h + 2) as u16
        } else {
            0
        },
        total_len: be16(pkt, 2) as u16,
        data: pkt.take(
            if pkt.len() < MAX_PKT_BYTES {
                pkt.len() as int
            } else {
                MAX_PKT_BYTES as int
            },
        ),
    }
}

/// The conversation that a packet belongs to, seen from the interface. What neither comes in nor
/// goes out there counts as going out.
pub open spec fn key_of(iface: Ipv4Addr, r: PacketView) -> ConvKey {
    if r.src != iface && r.dst == iface {
        ConvKey {
            proto: r.proto,
            local_port: r.dst_port,
            remote_ip: r.src,
            remote_port: r.src_port,
        }
    } else {
        ConvKey {
            proto: r.proto,
            local_port: r.src_port,
            remote_ip: r.dst,
            remote_port: r.dst_port,
        }
    }
}

fn read_be16(pkt: &[u8], at: usize) -> (r: u16)
    requires
        at + 1 < pkt@.len(),
    ensures
        r == be16(pkt@, at as int),
{
    pkt[at] as u16 * 0x100 + pkt[at + 1] as u16
}

fn read_ip(pkt: &[u8], at: usize) -> (r: Ipv4Addr)
    requires
        at + 3 < pkt@.len(),
    ensures
        r == ip_at(pkt@, at as int),
{
    Ipv4Addr { a: pkt[at], b: pkt[at + 1], c: pkt[at + 2], d: pkt[at + 3] }
}

/// Takes a packet apart. `None` where the bytes are no IPv4 packet.
pub fn dissect(iface: Ipv4Addr, pkt: &[u8], ms: u64) -> (r: Option<(PacketRecord, ConvKey)>)
    ensures
        match r {
            Some((rec, key)) => {
                &&& is_ipv4(pkt@)
                &&& rec@ == record_of(iface, pkt@, ms)
                &&& key == key_of(iface, rec@)
            },
            None => !is_ipv4(pkt@),
        },
{
    if pkt.len() < 20 || pkt[0] / 16 != 4 {
        return None;
    }
    let ihl: usize = (pkt[0] % 16) as usize * 4;
    if ihl < 20 || pkt.len() < ihl {
        return None;
    }
    let proto = pkt[9];
    let src = read_ip(pkt, 12);
    let dst = read_ip(pkt, 16);
    let total_len = read_be16(pkt, 2);
    let (src_port, dst_port): (u16, u16) = if (proto == TCP || proto == UDP) && pkt.len() >= ihl
        + 4 {
        (read_be16(pkt, ihl), read_be16(pkt, ihl + 2))
    } else {
        (0, 0)
    };
    let take = if pkt.len() < MAX_PKT_BYTES {
        pkt.len()
    } else {
        MAX_PKT_BYTES
    };
    let data = copy_range(pkt, 0, take);
    assert(data@ =~= pkt@.take(take as int));
    let outbound = src == iface;
    let key = if !outbound && dst == iface {
        ConvKey { proto, local_port: dst_port, remote_ip: src, remote_port: src_port }
    } else {
        ConvKey { proto, local_port: src_port, remote_ip: dst, remote_port: dst_port }
    };
    let rec = PacketRecord {
        ts_ms: ms,
        outbound,
        proto,
        src,
        dst,
        src_port,
        dst_port,
        total_len,
        data,
    };
    Some((rec, key))
}

// ---------------------------------------------------------------------------
// The state of a capture
// ---------------------------------------------------------------------------

/// The place of the first conversation with a key.
pub open spec fn place_of(convs: Seq<ConvView>, key: ConvKey) -> Option<int>
    decreases convs.len(),
{
    if convs.len() == 0 {
        None
    } else {
        match place_of(convs.drop_last(), key) {
            Some(i) => Some(i),
            None => if convs.last().key == key {
                Some(convs.len() - 1)
            } else {
                None
            },
        }
    }
}

/// What a capture has collected.
#[verifier::ext_equal]
pub struct CaptureView {
    pub convs: Seq<ConvView>,
    /// The packets that are kept of each conversation, the oldest first.
    pub rings: Seq<Seq<PacketView>>,
    pub index: IndexView,
    pub total_packets: u64,
    pub total_bytes: u64,
    pub running: bool,
}

/// A conversation that has no packet yet, with its owner where it is known.
pub open spec fn fresh(index: IndexView, key: ConvKey) -> ConvView {
    ConvView {
        key,
        pid: match index.owner(key) {
            Some(o) => o.0,
            None => 0,
        },
        process: match index.owner(key) {
            Some(o) => o.1,
            None => Seq::empty(),
        },
        packets: 0,
        bytes: 0,
        last_ms: 0,
    }
}

/// A conversation with its owner looked up, where it was not known.
pub open spec fn with_owner(index: IndexView, c: ConvView) -> ConvView {
    match index.owner(c.key) {
        Some(o) => if c.pid == 0 {
            ConvView { pid: o.0, process: o.1, ..c }
        } else {
            c
        },
        None => c,
    }
}

/// A conversation with one packet more.
pub open spec fn counted(c: ConvView, rec: PacketView) -> ConvView {
    ConvView {
        packets: c.packets.wrapping_add(1),
        bytes: c.bytes.wrapping_add(rec.total_len as u64),
        last_ms: rec.ts_ms,
        ..c
    }
}

/// The kept packets with one more; where there is no room the oldest goes.
pub open spec fn kept(ring: Seq<PacketView>, rec: PacketView) -> Seq<PacketView> {
    if ring.len() >= MAX_PKTS_PER_CONV {
        ring.skip(1).push(rec)
    } else {
        ring.push(rec)
    }
}

impl CaptureView {
    /// The invariant of a capture: no conversation twice, not too many of them, packets of known
    /// conversations only, and neither too many nor too long ones.
    pub open spec fn wf(self) -> bool {
        &&& self.convs.len() == self.rings.len()
        &&& self.convs.len() <= MAX_CONVS
        &&& forall|i: int, j: int|
            0 <= i < j < self.convs.len() ==> (#[trigger] self.convs[i]).key != (
            #[trigger] self.convs[j]).key
        &&& forall|i: int|
            0 <= i < self.rings.len() ==> 1 <= (#[trigger] self.rings[i]).len()
                <= MAX_PKTS_PER_CONV
        &&& forall|i: int, k: int|
            0 <= i < self.rings.len() && 0 <= k < self.rings[i].len() ==> (
            #[trigger] self.rings[i][k]).data.len() <= MAX_PKT_BYTES
    }

    /// The capture with one packet more. A packet of a new conversation is only counted when there
    /// is no room for another conversation.
    pub open spec fn with_packet(self, key: ConvKey, rec: PacketView) -> CaptureView {
        let c = CaptureView {
            total_packets: self.total_packets.wrapping_add(1),
            total_bytes: self.total_bytes.wrapping_add(rec.total_len as u64),
            ..self
        };
        match place_of(self.convs, key) {
            Some(i) => CaptureView {
                convs: self.convs.update(i, with_owner(self.index, counted(self.convs[i], rec))),
                rings: self.rings.update(i, kept(self.rings[i], rec)),
                ..c
            },
            None => if self.convs.len() < MAX_CONVS {
                CaptureView {
                    convs: self.convs.push(counted(fresh(self.index, key), rec)),
                    rings: self.rings.push(seq![rec]),
                    ..c
                }
            } else {
                c
            },
        }
    }

    /// The capture after bytes came in.
    pub open spec fn ingested(self, iface: Ipv4Addr, pkt: Seq<u8>, ms: u64) -> CaptureView {
        if is_ipv4(pkt) {
            let rec = record_of(iface, pkt, ms);
            self.with_packet(key_of(iface, rec), rec)
        } else {
            self
        }
    }

    /// The packets that are kept of a conversation.
    pub open spec fn packets_of(self, key: ConvKey) -> Seq<PacketView> {
        match place_of(self.convs, key) {
            Some(i) => self.rings[i],
            None => Seq::empty(),
        }
    }
}

/// What a capture has collected.
pub struct CaptureShared {
    pub convs: Vec<Conversation>,
    pub rings: Vec<VecDeque<PacketRecord>>,
    pub proc_index: ProcIndex,
    pub total_packets: u64,
    pub total_bytes: u64,
    pub running: bool,
}

/// The packets of a ring.
pub open spec fn ring_view(r: VecDeque<PacketRecord>) -> Seq<PacketView> {
    r@.map_values(|p: PacketRecord| p@)
}

impl View for CaptureShared {
    type V = CaptureView;

    open spec fn view(&self) -> CaptureView {
        CaptureView {
            convs: self.convs@.map_values(|c: Conversation| c@),
            rings: self.rings@.map_values(|r: VecDeque<PacketRecord>| ring_view(r)),
            index: self.proc_index@,
            total_packets: self.total_packets,
            total_bytes: self.total_bytes,
            running: self.running,
        }
    }
}

proof fn lemma_place_of(convs: Seq<ConvView>, key: ConvKey, n: int)
    requires
        0 <= n <= convs.len(),
        forall|i: int| 0 <= i < n ==> (#[trigger] convs[i]).key != key,
        n < convs.len() ==> convs[n].key == key,
    ensures
        place_of(convs, key) == (if n < convs.len() {
            Some(n)
        } else {
            None
        }),
    decreases convs.len(),
{
    if convs.len() > 0 {
        if n < convs.len() - 1 {
            lemma_place_of(convs.drop_last(), key, n);
        } else {
            lemma_place_of(convs.drop_last(), key, convs.len() - 1);
        }
    }
}

/// The place of a conversation that was found has its key.
proof fn lemma_place_valid(convs: Seq<ConvView>, key: ConvKey)
    ensures
        match place_of(convs, key) {
            Some(i) => 0 <= i < convs.len() && convs[i].key == key,
            None => forall|i: int| 0 <= i < convs.len() ==> (#[trigger] convs[i]).key != key,
        },
    decreases convs.len(),
{
    if convs.len() > 0 {
        lemma_place_valid(convs.drop_last(), key);
        if place_of(convs, key) is None {
            assert forall|i: int| 0 <= i < convs.len() implies (#[trigger] convs[i]).key != key by {
                if i < convs.len() - 1 {
                    assert(convs.drop_last()[i].key != key);
                }
            }
        }
    }
}

/// A capture keeps its invariant with every packet.
pub proof fn law_packets_keep_bounds(v: CaptureView, key: ConvKey, rec: PacketView)
    requires
        v.wf(),
        rec.data.len() <= MAX_PKT_BYTES,
    ensures
        v.with_packet(key, rec).wf(),
{
    let w = v.with_packet(key, rec);
    lemma_place_valid(v.convs, key);
    match place_of(v.convs, key) {
        Some(p) => {
            let r = kept(v.rings[p], rec);
            assert forall|i: int, k: int|
                0 <= i < w.rings.len() && 0 <= k < w.rings[i].len() implies (
            #[trigger] w.rings[i][k]).data.len() <= MAX_PKT_BYTES by {
                if i == p {
                    if k < r.len() - 1 {
                        if v.rings[p].len() >= MAX_PKTS_PER_CONV {
                            assert(r[k] == v.rings[p][k + 1]);
                        } else {
                            assert(r[k] == v.rings[p][k]);
                        }
                    }
                } else {
                    assert(v.rings[i][k].data.len() <= MAX_PKT_BYTES);
                }
            }
            assert forall|i: int| 0 <= i < w.rings.len() implies 1 <= (#[trigger] w.rings[i]).len()
                <= MAX_PKTS_PER_CONV by {
                assert(1 <= v.rings[i].len() <= MAX_PKTS_PER_CONV);
            }
            assert forall|i: int, j: int| 0 <= i < j < w.convs.len() implies (
            #[trigger] w.convs[i]).key != (#[trigger] w.convs[j]).key by {
                assert(v.convs[i].key != v.convs[j].key);
            }
        },
        None => {
            if v.convs.len() < MAX_CONVS {
                assert forall|i: int, k: int|
                    0 <= i < w.rings.len() && 0 <= k < w.rings[i].len() implies (
                #[trigger] w.rings[i][k]).data.len() <= MAX_PKT_BYTES by {
                    if i < v.rings.len() {
                        assert(v.rings[i][k].data.len() <= MAX_PKT_BYTES);
                    }
                }
                assert forall|i: int| 0 <= i < w.rings.len() implies 1 <= (
                #[trigger] w.rings[i]).len() <= MAX_PKTS_PER_CONV by {
                    if i < v.rings.len() {
                        assert(1 <= v.rings[i].len() <= MAX_PKTS_PER_CONV);
                    }
                }
                assert forall|i: int, j: int| 0 <= i < j < w.convs.len() implies (
                #[trigger] w.convs[i]).key != (#[trigger] w.convs[j]).key by {
                    if j < v.convs.len() {
                        assert(v.convs[i].key != v.convs[j].key);
                    } else {
                        assert(v.convs[i].key != key);
                    }
                }
            }
        },
    }
}

/// The newest packet of a conversation that is kept is the last that came in for it, and the
/// packets of the other conversations stay as they are.
pub proof fn law_newest_packet_is_kept(v: CaptureView, key: ConvKey, rec: PacketView, other: ConvKey)
    requires
        v.wf(),
        place_of(v.convs, key) is Some || v.convs.len() < MAX_CONVS,
        other != key,
    ensures
        v.with_packet(key, rec).packets_of(key).len() > 0,
        v.with_packet(key, rec).packets_of(key).last() == rec,
        v.with_packet(key, rec).packets_of(other) == v.packets_of(other),
{
    let w = v.with_packet(key, rec);
    lemma_place_valid(v.convs, key);
    lemma_place_valid(v.convs, other);
    let n = v.convs.len() as int;
    match place_of(v.convs, key) {
        Some(p) => {
            assert forall|i: int| 0 <= i < p implies (#[trigger] w.convs[i]).key != key by {
                assert(v.convs[i].key != v.convs[p].key);
            }
            lemma_place_of(w.convs, key, p);
            match place_of(v.convs, other) {
                Some(q) => {
                    assert forall|i: int| 0 <= i < q implies (#[trigger] w.convs[i]).key
                        != other by {
                        assert(v.convs[i].key != v.convs[q].key);
                    }
                    lemma_place_of(w.convs, other, q);
                },
                None => {
                    assert forall|i: int| 0 <= i < n implies (#[trigger] w.convs[i]).key
                        != other by {
                        assert(v.convs[i].key != other);
                    }
                    lemma_place_of(w.convs, other, n);
                },
            }
        },
        None => {
            assert forall|i: int| 0 <= i < n implies (#[trigger] w.convs[i]).key != key by {
                assert(v.convs[i].key != key);
            }
            lemma_place_of(w.convs, key, n);
            match place_of(v.convs, other) {
                Some(q) => {
                    assert forall|i: int| 0 <= i < q implies (#[trigger] w.convs[i]).key
                        != other by {
                        assert(v.convs[i].key != v.convs[q].key);
                    }
                    lemma_place_of(w.convs, other, q);
                },
                None => {
                    assert forall|i: int| 0 <= i < n + 1 implies (#[trigger] w.convs[i]).key
                        != other by {
                        if i < n {
                            assert(v.convs[i].key != other);
                        }
                    }
                    lemma_place_of(w.convs, other, n + 1);
                },
            }
        },
    }
}

/// A capture that runs and has collected nothing.
pub open spec fn blank_capture() -> CaptureView {
    CaptureView {
        convs: Seq::empty(),
        rings: Seq::empty(),
        index: IndexView {
            tcp: Map::empty(),
            tcp_by_lport: Map::empty(),
            udp_by_lport: Map::empty(),
            names: Map::empty(),
        },
        total_packets: 0,
        total_bytes: 0,
        running: true,
    }
}

impl CaptureShared {
    /// A capture that runs and has collected nothing.
    pub fn new() -> (r: CaptureShared)
        ensures
            r@ == blank_capture(),
            r@.wf(),
    {
        let r = CaptureShared {
            convs: Vec::new(),
            rings: Vec::new(),
            proc_index: ProcIndex::new(),
            total_packets: 0,
            total_bytes: 0,
            running: true,
        };
        assert(r@.convs =~= Seq::<ConvView>::empty());
        assert(r@.rings =~= Seq::<Seq<PacketView>>::empty());
        r
    }

    /// The place of a conversation.
    pub fn find(&self, key: ConvKey) -> (r: Option<usize>)
        ensures
            place_of(self@.convs, key) == (match r {
                Some(i) => Some(i as int),
                None => None,
            }),
            r matches Some(i) ==> i < self.convs@.len() && self@.convs[i as int].key == key,
    {
        let mut i: usize = 0;
        while i < self.convs.len()
            invariant
                i <= self.convs@.len(),
                forall|k: int| 0 <= k < i ==> (#[trigger] self@.convs[k]).key != key,
            decreases self.convs.len() - i,
        {
            if self.convs[i].key() == key {
                proof {
                    lemma_place_of(self@.convs, key, i as int);
                }
                return Some(i);
            }
            i += 1;
        }
        proof {
            lemma_place_of(self@.convs, key, i as int);
        }
        None
    }

    fn count(&mut self, i: usize, rec: &PacketRecord, key: ConvKey)
        requires
            i < old(self).convs@.len(),
            old(self)@.convs[i as int].key == key,
        ensures
            final(self)@ == (CaptureView {
                convs: old(self)@.convs.update(
                    i as int,
                    with_owner(old(self)@.index, counted(old(self)@.convs[i as int], rec@)),
                ),
                ..old(self)@
            }),
            final(self).rings@ == old(self).rings@,
    {
        let mut c = self.convs[i].duplicate();
        c.packets = c.packets.wrapping_add(1);
        c.bytes = c.bytes.wrapping_add(rec.total_len as u64);
        c.last_ms = rec.ts_ms;
        if c.pid == 0 {
            if let Some((pid, name)) = lookup_pid(&self.proc_index, key) {
                c.pid = pid;
                c.process = name;
            }
        }
        assert(c@ == with_owner(old(self)@.index, counted(old(self)@.convs[i as int], rec@)));
        self.convs.set(i, c);
        assert(self@.convs =~= old(self)@.convs.update(i as int, c@));
    }

    fn keep(&mut self, i: usize, rec: PacketRecord)
        requires
            i < old(self).rings@.len(),
        ensures
            final(self)@ == (CaptureView {
                rings: old(self)@.rings.update(i as int, kept(old(self)@.rings[i as int], rec@)),
                ..old(self)@
            }),
    {
        let ghost before = ring_view(self.rings@[i as int]);
        let mut ring: VecDeque<PacketRecord> = VecDeque::new();
        std::mem::swap(&mut ring, &mut self.rings[i]);
        assert(ring_view(ring) == before);
        let ghost full = ring@;
        if ring.len() >= MAX_PKTS_PER_CONV {
            let _ = ring.pop_front();
            assert(ring_view(ring) =~= before.skip(1));
        }
        let ghost mid = ring@;
        ring.push_back(rec);
        assert(ring_view(ring) =~= mid.map_values(|p: PacketRecord| p@).push(rec@));
        assert(ring_view(ring) =~= kept(before, rec@));
        self.rings.set(i, ring);
        assert(self@.rings =~= old(self)@.rings.update(i as int, kept(before, rec@)));
    }

    /// Takes bytes from the interface: a packet is counted and kept, anything else is left.
    pub fn ingest(&mut self, iface: Ipv4Addr, pkt: &[u8], ms: u64)
        requires
            old(self)@.wf(),
        ensures
            final(self)@ == old(self)@.ingested(iface, pkt@, ms),
            final(self)@.wf(),
    {
        let (rec, key) = match dissect(iface, pkt, ms) {
            Some(d) => d,
            None => {
                return;
            },
        };
        proof {
            law_packets_keep_bounds(self@, key, rec@);
        }
        self.total_packets = self.total_packets.wrapping_add(1);
        self.total_bytes = self.total_bytes.wrapping_add(rec.total_len as u64);
        let ghost mid = self@;
        match self.find(key) {
            Some(i) => {
                self.count(i, &rec, key);
                self.keep(i, rec);
                assert(self@ == old(self)@.with_packet(key, rec@));
            },
            None => {
                if self.convs.len() < MAX_CONVS {
                    let (pid, process) = match lookup_pid(&self.proc_index, key) {
                        Some(o) => o,
                        None => (0, String::new()),
                    };
                    let c = Conversation {
                        proto: key.proto,
                        local_port: key.local_port,
                        remote_ip: key.remote_ip,
                        remote_port: key.remote_port,
                        pid,
                        process,
                        packets: 1,
                        bytes: rec.total_len as u64,
                        last_ms: rec.ts_ms,
                    };
                    assert(c@ =~= counted(fresh(mid.index, key), rec@));
                    let mut ring: VecDeque<PacketRecord> = VecDeque::new();
                    ring.push_back(rec);
                    assert(ring_view(ring) =~= seq![rec@]);
                    self.convs.push(c);
                    self.rings.push(ring);
                    assert(self@.convs =~= mid.convs.push(c@));
                    assert(self@.rings =~= mid.rings.push(seq![rec@]));
                }
                assert(self@ == old(self)@.with_packet(key, rec@));
            },
        }
    }

    /// The packets that are kept of a conversation, the oldest first.
    pub fn packets_of(&self, key: ConvKey) -> (r: Vec<PacketRecord>)
        requires
            self@.wf(),
        ensures
            r@.map_values(|p: PacketRecord| p@) == self@.packets_of(key),
    {
        match self.find(key) {
            Some(i) => {
                assert(self@.rings[i as int] == ring_view(self.rings@[i as int]));
                copy_ring(&self.rings[i])
            },
            None => {
                let r: Vec<PacketRecord> = Vec::new();
                assert(r@.map_values(|p: PacketRecord| p@) =~= Seq::<PacketView>::empty());
                r
            },
        }
    }
}

/// The packets of a ring, the oldest first.
pub fn copy_ring(ring: &VecDeque<PacketRecord>) -> (r: Vec<PacketRecord>)
    ensures
        r@.map_values(|p: PacketRecord| p@) == ring_view(*ring),
{
    let mut out: Vec<PacketRecord> = Vec::new();
    let mut i: usize = 0;
    while i < ring.len()
        invariant
            i <= ring@.len(),
            out@.len() == i,
            forall|k: int| 0 <= k < i ==> (#[trigger] out@[k])@ == ring@[k]@,
        decreases ring.len() - i,
    {
        out.push(ring[i].duplicate());
        i += 1;
    }
    assert(out@.map_values(|p: PacketRecord| p@) =~= ring_view(*ring));
    out
}

// ---------------------------------------------------------------------------
// Running a capture
// ---------------------------------------------------------------------------

/// Why a capture ended.
pub enum CaptureError {
    Startup,
    /// The socket could not be made; with the system's words.
    Socket(String),
    SocketCode(i32),
    Bind(Ipv4Addr, i32),
    Promiscuous(i32),
    Receive(i32),
}

impl CaptureError {
    /// The error in words.
    pub open spec fn words(self) -> Seq<char> {
        match self {
            CaptureError::Startup => "WSAStartup falhou"@,
            CaptureError::Socket(e) => "socket() falhou: "@ + e@,
            CaptureError::SocketCode(n) => "socket() falhou (erro "@ + text::signed_decimal(
                n as int,
            ) + ")"@,
            CaptureError::Bind(ip, n) => "bind("@ + ip.text() + ") falhou (erro "@
                + text::signed_decimal(n as int) + "). Use o IP de uma placa de rede real."@,
            CaptureError::Promiscuous(n) => "SIO_RCVALL falhou (erro "@ + text::signed_decimal(
                n as int,
            ) + "). Rode como Administrador."@,
            CaptureError::Receive(n) => "recv falhou (erro "@ + text::signed_decimal(n as int)
                + ")"@,
        }
    }

    /// The error in words.
    pub fn to_text(&self) -> (r: String)
        ensures
            r@ == self.words(),
    {
        match self {
            CaptureError::Startup => "WSAStartup falhou".to_owned(),
            CaptureError::Socket(e) => {
                let mut s = "socket() falhou: ".to_owned();
                s.append(e.as_str());
                s
            },
            CaptureError::SocketCode(n) => {
                let mut s = "socket() falhou (erro ".to_owned();
                text::push_signed(&mut s, *n as i64);
                s.append(")");
                s
            },
            CaptureError::Bind(ip, n) => {
                let mut s = "bind(".to_owned();
                ip.push_to(&mut s);
                s.append(") falhou (erro ");
                text::push_signed(&mut s, *n as i64);
                s.append("). Use o IP de uma placa de rede real.");
                s
            },
            CaptureError::Promiscuous(n) => {
                let mut s = "SIO_RCVALL falhou (erro ".to_owned();
                text::push_signed(&mut s, *n as i64);
                s.append("). Rode como Administrador.");
                s
            },
            CaptureError::Receive(n) => {
                let mut s = "recv falhou (erro ".to_owned();
                text::push_signed(&mut s, *n as i64);
                s.append(")");
                s
            },
        }
    }
}

/// A capture and what is said of it.
pub struct CaptureHandle {
    pub shared: CaptureShared,
    pub status: String,
}

/// A capture that is about to begin.
pub fn start() -> (r: CaptureHandle)
    ensures
        r.shared@ == blank_capture(),
        r.shared@.wf(),
        r.status@ == "iniciando…"@,
{
    CaptureHandle { shared: CaptureShared::new(), status: "iniciando…".to_owned() }
}

/// What came of waiting for a packet.
#[derive(Clone, Copy, PartialEq, Eq, Structural, Debug)]
pub enum Received {
    /// Nothing yet: look whether to go on, and wait again.
    Idle,
    /// So many bytes.
    Packet(usize),
    /// The wait failed with this code.
    Failed(i32),
}

/// The code that the system gives for a wait that took too long.
pub const TIMED_OUT: i32 = 10060;

/// What came of waiting for a packet, given what the call returned and the system's code.
pub open spec fn outcome_of(n: i32, code: i32) -> Received {
    if n == -1 {
        if code == TIMED_OUT {
            Received::Idle
        } else {
            Received::Failed(code)
        }
    } else if n <= 0 {
        Received::Idle
    } else {
        Received::Packet(n as usize)
    }
}

/// Says what came of waiting for a packet: `n` is what the call returned, negative where it
/// failed, and `code` the system's code then.
pub fn received(n: i32, code: i32) -> (r: Received)
    ensures
        r == outcome_of(n, code),
{
    if n == -1 {
        if code == TIMED_OUT {
            Received::Idle
        } else {
            Received::Failed(code)
        }
    } else if n <= 0 {
        Received::Idle
    } else {
        Received::Packet(n as usize)
    }
}

impl CaptureHandle {
    /// What is said of the capture.
    pub fn status(&self) -> (r: String)
        ensures
            r@ == self.status@,
    {
        self.status.clone()
    }

    /// Notes that packets are awaited on an interface.
    pub fn opened(&mut self, iface: Ipv4Addr)
        ensures
            final(self).shared == old(self).shared,
            final(self).status@ == "capturando em "@ + iface.text(),
    {
        let mut s = "capturando em ".to_owned();
        iface.push_to(&mut s);
        self.status = s;
    }

    /// Notes why the capture ended.
    pub fn failed(&mut self, e: &CaptureError)
        ensures
            final(self).status@ == "erro: "@ + e.words(),
            final(self).shared@ == (CaptureView { running: false, ..old(self).shared@ }),
    {
        let mut s = "erro: ".to_owned();
        let w = e.to_text();
        s.append(w.as_str());
        self.status = s;
        self.shared.running = false;
    }

    /// Asks the capture to end.
    pub fn stop(&mut self)
        ensures
            final(self).status == old(self).status,
            final(self).shared@ == (CaptureView { running: false, ..old(self).shared@ }),
    {
        self.shared.running = false;
    }
}

// ---------------------------------------------------------------------------
// What becomes of packets
// ---------------------------------------------------------------------------

/// The first byte says that an IPv4 header of at least five words follows, and it does.
pub open spec fn whole_header(pkt: Seq<u8>) -> bool {
    &&& pkt.len() >= 20
    &&& 0x45 <= pkt[0] <= 0x4f
    &&& pkt.len() >= 4 * (pkt[0] - 0x40)
}

/// Bytes that are no IPv4 packet with a whole header change nothing.
pub proof fn law_other_bytes_are_left(v: CaptureView, iface: Ipv4Addr, pkt: Seq<u8>, ms: u64)
    requires
        !whole_header(pkt),
    ensures
        v.ingested(iface, pkt, ms) == v,
{
}

/// What is kept of a packet is read from its header: the protocol from the tenth byte, the addresses
/// from the thirteenth on, its length from the third and fourth, and the ports of TCP and UDP from
/// the first four bytes behind the header, where they are there; and as many bytes as there is room
/// for, from the first on. It goes out where it comes from the interface.
pub proof fn law_packet_is_read_from_header(iface: Ipv4Addr, pkt: Seq<u8>, ms: u64)
    requires
        whole_header(pkt),
    ensures
        ({
            let r = record_of(iface, pkt, ms);
            let h = 4 * (pkt[0] - 0x40);
            let ported = (pkt[9] == 6 || pkt[9] == 17) && pkt.len() >= h + 4;
            &&& is_ipv4(pkt)
            &&& r.ts_ms == ms
            &&& r.proto == pkt[9]
            &&& (r.src.a, r.src.b, r.src.c, r.src.d) == (pkt[12], pkt[13], pkt[14], pkt[15])
            &&& (r.dst.a, r.dst.b, r.dst.c, r.dst.d) == (pkt[16], pkt[17], pkt[18], pkt[19])
            &&& r.outbound <==> r.src == iface
            &&& r.total_len == 256 * pkt[2] + pkt[3]
            &&& ported ==> r.src_port == 256 * pkt[h] + pkt[h + 1] && r.dst_port == 256 * pkt[h + 2]
                + pkt[h + 3]
            &&& !ported ==> r.src_port == 0 && r.dst_port == 0
            &&& pkt.len() <= 1600 ==> r.data == pkt
            &&& pkt.len() > 1600 ==> r.data == pkt.take(1600)
        }),
{
    assert(pkt.take(pkt.len() as int) =~= pkt);
}

/// A packet from the interface belongs to the conversation of its own port with the address and the
/// port it goes to; one to the interface, to that of the port it goes to with the address and the
/// port it comes from. So a packet and its answer belong to one conversation.
pub proof fn law_answer_belongs_to_conversation(iface: Ipv4Addr, out: PacketView, back: PacketView)
    requires
        out.src == iface,
        back.src != iface,
        back.dst == iface,
    ensures
        key_of(iface, out) == (ConvKey {
            proto: out.proto,
            local_port: out.src_port,
            remote_ip: out.dst,
            remote_port: out.dst_port,
        }),
        key_of(iface, back) == (ConvKey {
            proto: back.proto,
            local_port: back.dst_port,
            remote_ip: back.src,
            remote_port: back.src_port,
        }),
        out.proto == back.proto && out.src_port == back.dst_port && out.dst == back.src
            && out.dst_port == back.src_port ==> key_of(iface, out) == key_of(iface, back),
{
}

/// A packet that neither comes from the interface nor goes to it counts as going out.
pub proof fn law_passing_packet_counts_as_out(iface: Ipv4Addr, r: PacketView)
    requires
        r.src != iface,
        r.dst != iface,
    ensures
        key_of(iface, r) == (ConvKey {
            proto: r.proto,
            local_port: r.src_port,
            remote_ip: r.dst,
            remote_port: r.dst_port,
        }),
{
}

/// Every packet is counted in all, and in its conversation, which is a new one where there was none
/// and there is room for another. The conversation then has one packet and its bytes more, and
/// remembers when that was. The other conversations and their packets stay as they are.
pub proof fn law_packet_is_counted_once(v: CaptureView, iface: Ipv4Addr, pkt: Seq<u8>, ms: u64)
    requires
        v.wf(),
        whole_header(pkt),
        v.total_packets < u64::MAX,
        v.total_bytes + 0xffff <= u64::MAX,
        forall|i: int|
            0 <= i < v.convs.len() ==> (#[trigger] v.convs[i]).packets < u64::MAX && v.convs[i].bytes
                + 0xffff <= u64::MAX,
    ensures
        ({
            let w = v.ingested(iface, pkt, ms);
            let r = record_of(iface, pkt, ms);
            let key = key_of(iface, r);
            let size = 256 * pkt[2] + pkt[3];
            let n = v.convs.len() as int;
            let known = exists|i: int| 0 <= i < n && (#[trigger] v.convs[i]).key == key;
            &&& w.total_packets == v.total_packets + 1
            &&& w.total_bytes == v.total_bytes + size
            &&& w.index == v.index
            &&& w.running == v.running
            &&& w.convs.len() == n + (if !known && n < 4000 {
                1int
            } else {
                0int
            })
            &&& forall|i: int|
                #![trigger v.convs[i]]
                #![trigger w.convs[i]]
                0 <= i < n ==> {
                    &&& w.convs[i].key == v.convs[i].key
                    &&& v.convs[i].key != key ==> w.convs[i] == v.convs[i] && w.rings[i]
                        == v.rings[i]
                    &&& v.convs[i].key == key ==> {
                        &&& w.convs[i].packets == v.convs[i].packets + 1
                        &&& w.convs[i].bytes == v.convs[i].bytes + size
                        &&& w.convs[i].last_ms == ms
                        &&& w.rings[i] == (if v.rings[i].len() < 200 {
                            v.rings[i].push(r)
                        } else {
                            v.rings[i].skip(1).push(r)
                        })
                        &&& v.convs[i].pid != 0 ==> w.convs[i].pid == v.convs[i].pid
                            && w.convs[i].process == v.convs[i].process
                        &&& v.convs[i].pid == 0 ==> match v.index.owner(key) {
                            Some((pid, name)) => w.convs[i].pid == pid && w.convs[i].process == name,
                            None => w.convs[i].pid == 0 && w.convs[i].process
                                == v.convs[i].process,
                        }
                    }
                }
            &&& !known && n < 4000 ==> {
                let c = w.convs[n];
                &&& c.key == key
                &&& c.packets == 1
                &&& c.bytes == size
                &&& c.last_ms == ms
                &&& w.rings[n] == seq![r]
                &&& match v.index.owner(key) {
                    Some((pid, name)) => c.pid == pid && c.process == name,
                    None => c.pid == 0 && c.process.len() == 0,
                }
            }
        }),
{
    let r = record_of(iface, pkt, ms);
    let key = key_of(iface, r);
    law_packet_is_read_from_header(iface, pkt, ms);
    lemma_place_valid(v.convs, key);
    if let Some(p) = place_of(v.convs, key) {
        assert(v.convs[p].key == key);
        let w = v.ingested(iface, pkt, ms);
        assert forall|i: int| 0 <= i < v.convs.len() && i != p implies (
        #[trigger] v.convs[i]).key != key by {
            if i < p {
                assert(v.convs[i].key != v.convs[p].key);
            } else {
                assert(v.convs[p].key != v.convs[i].key);
            }
        }
    }
}

// ---------------------------------------------------------------------------
// Whose packets they are
// ---------------------------------------------------------------------------

/// A port stands in a row with its high byte first, whatever stands in the upper half; an address
/// with its first byte first.
pub proof fn law_rows_hold_network_order(port: u16, upper: u16, ip: Ipv4Addr, dw: u32, da: u32)
    requires
        dw == port / 0x100 + 0x100 * (port as int % 0x100) + 0x1_0000 * upper,
        da == ip.a + 0x100 * ip.b + 0x1_0000 * ip.c + 0x100_0000 * ip.d,
    ensures
        row_port(dw) == port,
        row_ip(da) == ip,
{
    let hi = port as int / 0x100;
    let lo = port as int % 0x100;
    let low = dw as int % 0x1_0000;
    assert(dw as int % 0x100 == hi);
    assert((dw as int / 0x100) == lo + 0x100 * upper);
    assert((dw as int / 0x100) % 0x100 == lo);
    assert(da as int % 0x100 == ip.a);
    assert(da as int / 0x100 == ip.b + 0x100 * ip.c + 0x1_0000 * ip.d);
    assert((da as int / 0x100) % 0x100 == ip.b);
    assert(da as int / 0x1_0000 == ip.c + 0x100 * ip.d);
    assert((da as int / 0x1_0000) % 0x100 == ip.c);
    assert(da as int / 0x100_0000 == ip.d);
}

/// A row is that of a connection: of this local port, with this address and port at the other end.
pub open spec fn is_row_of(row: TcpRow, key: ConvKey) -> bool {
    &&& row_port(row.local_port) == key.local_port
    &&& row_ip(row.remote_addr) == key.remote_ip
    &&& row_port(row.remote_port) == key.remote_port
    &&& row.remote_addr != 0
    &&& key.remote_port != 0
}

proof fn lemma_tuples(rows: Seq<TcpRow>, key: ConvKey, i: int)
    requires
        -1 <= i < rows.len(),
        i >= 0 ==> is_row_of(rows[i], key),
        forall|j: int| i < j < rows.len() ==> !is_row_of(#[trigger] rows[j], key),
    ensures
        ({
            let t = tuple_key(key.local_port, key.remote_ip, key.remote_port);
            &&& i >= 0 ==> tcp_tuples(rows).contains_key(t) && tcp_tuples(rows)[t] == rows[i].pid
            &&& i < 0 ==> !tcp_tuples(rows).contains_key(t)
        }),
    decreases rows.len(),
{
    if rows.len() > 0 {
        let last = rows.last();
        let t = tuple_key(key.local_port, key.remote_ip, key.remote_port);
        if connected(last) && row_key(last) == t {
            law_tuple_key_is_unique(
                row_port(last.local_port) as u16,
                row_ip(last.remote_addr),
                row_port(last.remote_port) as u16,
                key.local_port,
                key.remote_ip,
                key.remote_port,
            );
            assert(is_row_of(last, key));
            assert(rows[rows.len() - 1] == last);
        } else if i == rows.len() - 1 {
            assert(is_row_of(last, key));
        } else {
            let rest = rows.drop_last();
            assert forall|j: int| i < j < rest.len() implies !is_row_of(#[trigger] rest[j], key) by {
                assert(rest[j] == rows[j]);
            }
            if i >= 0 {
                assert(rest[i] == rows[i]);
            }
            lemma_tuples(rest, key, i);
        }
    }
}

proof fn lemma_ports(rows: Seq<TcpRow>, port: u16, i: int)
    requires
        0 <= i <= rows.len(),
        i < rows.len() ==> row_port(rows[i].local_port) == port,
        forall|j: int| 0 <= j < i ==> row_port((#[trigger] rows[j]).local_port) != port,
    ensures
        i < rows.len() ==> tcp_ports(rows).contains_key(port) && tcp_ports(rows)[port]
            == rows[i].pid,
        i == rows.len() ==> !tcp_ports(rows).contains_key(port),
    decreases rows.len(),
{
    if rows.len() > 0 {
        let rest = rows.drop_last();
        let p = row_port(rows.last().local_port) as u16;
        assert forall|j: int| 0 <= j < i && j < rest.len() implies row_port(
            (#[trigger] rest[j]).local_port,
        ) != port by {
            assert(rest[j] == rows[j]);
        }
        if i < rest.len() {
            assert(rest[i] == rows[i]);
            lemma_ports(rest, port, i);
        } else {
            lemma_ports(rest, port, rest.len() as int);
            assert(rows[rows.len() - 1] == rows.last());
        }
    }
}

proof fn lemma_udp_ports(rows: Seq<UdpRow>, port: u16, i: int)
    requires
        0 <= i <= rows.len(),
        i < rows.len() ==> row_port(rows[i].local_port) == port,
        forall|j: int| 0 <= j < i ==> row_port((#[trigger] rows[j]).local_port) != port,
    ensures
        i < rows.len() ==> udp_ports(rows).contains_key(port) && udp_ports(rows)[port]
            == rows[i].pid,
        i == rows.len() ==> !udp_ports(rows).contains_key(port),
    decreases rows.len(),
{
    if rows.len() > 0 {
        let rest = rows.drop_last();
        assert forall|j: int| 0 <= j < i && j < rest.len() implies row_port(
            (#[trigger] rest[j]).local_port,
        ) != port by {
            assert(rest[j] == rows[j]);
        }
        if i < rest.len() {
            assert(rest[i] == rows[i]);
            lemma_udp_ports(rest, port, i);
        } else {
            lemma_udp_ports(rest, port, rest.len() as int);
            assert(rows[rows.len() - 1] == rows.last());
        }
    }
}

/// A TCP connection belongs to the process in the last row of that connection.
pub proof fn law_connection_has_its_owner(
    tcp: Seq<TcpRow>,
    udp: Seq<UdpRow>,
    list: Seq<(u32, String)>,
    key: ConvKey,
    i: int,
)
    requires
        key.proto == 6,
        0 <= i < tcp.len(),
        is_row_of(tcp[i], key),
        forall|j: int| i < j < tcp.len() ==> !is_row_of(#[trigger] tcp[j], key),
    ensures
        index_of(tcp, udp, list).owner(key) matches Some(o) && o.0 == tcp[i].pid,
{
    lemma_tuples(tcp, key, i);
}

/// A TCP packet that is of none of the connections belongs to the process in the first row of its
/// local port, and to none where there is no such row.
pub proof fn law_listener_owns_the_rest(
    tcp: Seq<TcpRow>,
    udp: Seq<UdpRow>,
    list: Seq<(u32, String)>,
    key: ConvKey,
    i: int,
)
    requires
        key.proto == 6,
        forall|j: int| 0 <= j < tcp.len() ==> !is_row_of(#[trigger] tcp[j], key),
        0 <= i <= tcp.len(),
        i < tcp.len() ==> row_port(tcp[i].local_port) == key.local_port,
        forall|j: int| 0 <= j < i ==> row_port((#[trigger] tcp[j]).local_port) != key.local_port,
    ensures
        i < tcp.len() ==> (index_of(tcp, udp, list).owner(key) matches Some(o) && o.0
            == tcp[i].pid),
        i == tcp.len() ==> index_of(tcp, udp, list).owner(key) is None,
{
    lemma_tuples(tcp, key, -1);
    lemma_ports(tcp, key.local_port, i);
}

/// A UDP packet belongs to the process in the first row of its local port, and to none where there
/// is no such row; packets of other protocols belong to none.
pub proof fn law_port_owns_datagrams(
    tcp: Seq<TcpRow>,
    udp: Seq<UdpRow>,
    list: Seq<(u32, String)>,
    key: ConvKey,
    i: int,
)
    requires
        key.proto != 6,
        0 <= i <= udp.len(),
        i < udp.len() ==> row_port(udp[i].local_port) == key.local_port,
        forall|j: int| 0 <= j < i ==> row_port((#[trigger] udp[j]).local_port) != key.local_port,
    ensures
        key.proto == 17 && i < udp.len() ==> (index_of(tcp, udp, list).owner(key) matches Some(o)
            && o.0 == udp[i].pid),
        key.proto == 17 && i == udp.len() ==> index_of(tcp, udp, list).owner(key) is None,
        key.proto != 17 ==> index_of(tcp, udp, list).owner(key) is None,
{
    lemma_udp_ports(udp, key.local_port, i);
}

proof fn lemma_names(list: Seq<(u32, String)>, pid: u32, i: int)
    requires
        -1 <= i < list.len(),
        i >= 0 ==> list[i].0 == pid,
        forall|j: int| i < j < list.len() ==> (#[trigger] list[j]).0 != pid,
    ensures
        i >= 0 ==> process_names(list).contains_key(pid) && process_names(list)[pid] == list[i].1@,
        i < 0 ==> !process_names(list).contains_key(pid),
    decreases list.len(),
{
    if list.len() > 0 {
        assert(list[list.len() - 1] == list.last());
        if i < list.len() - 1 {
            let rest = list.drop_last();
            assert forall|j: int| i < j < rest.len() implies (#[trigger] rest[j]).0 != pid by {
                assert(rest[j] == list[j]);
            }
            if i >= 0 {
                assert(rest[i] == list[i]);
            }
            lemma_names(rest, pid, i);
        }
    }
}

/// An owner has the name that the last entry of the list gives it, or its number where there is
/// none.
pub proof fn law_owner_has_its_name(
    tcp: Seq<TcpRow>,
    udp: Seq<UdpRow>,
    list: Seq<(u32, String)>,
    key: ConvKey,
    pid: u32,
    name: Seq<char>,
    i: int,
)
    requires
        index_of(tcp, udp, list).owner(key) == Some((pid, name)),
        -1 <= i < list.len(),
        i >= 0 ==> list[i].0 == pid,
        forall|j: int| i < j < list.len() ==> (#[trigger] list[j]).0 != pid,
    ensures
        i >= 0 ==> name == list[i].1@,
        i < 0 ==> name == "pid "@ + text::decimal(pid as nat),
{
    lemma_names(list, pid, i);
}

proof fn lemma_octet(n: u8)
    ensures
        ({
            let s = text::decimal(n as nat);
            &&& octet(s) == Some(n as int)
            &&& s.len() > 0
            &&& forall|i: int| 0 <= i < s.len() ==> #[trigger] s[i] != '.' && !text::is_space(s[i])
        }),
{
    reveal_with_fuel(text::numeral, 4);
    let s = text::decimal(n as nat);
    text::law_numeral_round_trip(n as nat, 10, false);
    assert(s[0] != '+' && s[0] != '-');
    assert(1 <= s.len() <= 3);
    assert(s.len() > 1 ==> s[0] != '0');
    assert forall|i: int| 0 <= i < s.len() implies #[trigger] s[i] != '.' && !text::is_space(s[i]) by {
    }
}

proof fn lemma_dotted_part(s: Seq<char>, t: Seq<char>)
    requires
        forall|i: int| 0 <= i < t.len() ==> #[trigger] t[i] != '.',
    ensures
        dotted(t) == seq![t],
        dotted(s + seq!['.'] + t) == dotted(s).push(t),
    decreases t.len(),
{
    let u = s + seq!['.'] + t;
    if t.len() == 0 {
        assert(u =~= s.push('.'));
        assert(u.drop_last() =~= s);
        assert(t =~= Seq::<char>::empty());
        assert(dotted(t) =~= seq![t]);
    } else {
        let r = t.drop_last();
        lemma_dotted_part(s, r);
        assert(u.drop_last() =~= s + seq!['.'] + r);
        assert(u.last() == t.last());
        assert(r.push(t.last()) =~= t);
        assert(dotted(u) =~= dotted(s).push(t));
        assert(dotted(t) =~= seq![t]);
    }
}

/// An address that is typed as it is written is the address, whatever white space is around it.
pub proof fn law_typed_ipv4_is_read(ip: Ipv4Addr, before: Seq<char>, behind: Seq<char>)
    requires
        text::blank(before),
        text::blank(behind),
    ensures
        address_in(before + ip.text() + behind) == Some(ip),
{
    let a = text::decimal(ip.a as nat);
    let b = text::decimal(ip.b as nat);
    let c = text::decimal(ip.c as nat);
    let d = text::decimal(ip.d as nat);
    lemma_octet(ip.a);
    lemma_octet(ip.b);
    lemma_octet(ip.c);
    lemma_octet(ip.d);
    let s = ip.text();
    let dot = seq!['.'];
    assert(s[0] == a[0]);
    assert(s.last() == d.last());
    text::law_trimming_takes_white_space(before, s, behind);
    lemma_dotted_part(Seq::empty(), a);
    lemma_dotted_part(a, b);
    lemma_dotted_part(a + dot + b, c);
    lemma_dotted_part(a + dot + b + dot + c, d);
    let p = dotted(s);
    assert(p =~= seq![a, b, c, d]);
}

/// What a call returned is a packet of as many bytes where it is positive; a wait that took too long
/// or brought nothing is no error, every other failure is.
pub proof fn law_waiting_brings_packets(n: i32, code: i32)
    ensures
        n > 0 ==> (outcome_of(n, code) matches Received::Packet(k) && k == n),
        n == -1 && code == 10060 ==> outcome_of(n, code) is Idle,
        n == -1 && code != 10060 ==> outcome_of(n, code) == Received::Failed(code),
        n == 0 || n < -1 ==> outcome_of(n, code) is Idle,
{
}

/// Three protocols have their name, by their numbers; the others share one.
pub proof fn law_protocols_have_their_names(proto: u8)
    ensures
        protocol(6) == seq!['T', 'C', 'P'],
        protocol(17) == seq!['U', 'D', 'P'],
        protocol(1) == seq!['I', 'C', 'M', 'P'],
        proto != 6 && proto != 17 && proto != 1 ==> protocol(proto) == seq!['I', 'P'],
{
    reveal_strlit("TCP");
    reveal_strlit("UDP");
    reveal_strlit("ICMP");
    reveal_strlit("IP");
    assert("TCP"@ =~= seq!['T', 'C', 'P']);
    assert("UDP"@ =~= seq!['U', 'D', 'P']);
    assert("ICMP"@ =~= seq!['I', 'C', 'M', 'P']);
    assert("IP"@ =~= seq!['I', 'P']);
}

} // verus!
