//! The page that watches the network: sessions, what they show, and evidence.

use crate::capture::{
    copy_ring, parse_ipv4, pid_label, pid_text, protocol, CaptureShared, CaptureView, ConvKey,
    ConvView, Conversation, Ipv4Addr, PacketRecord, PacketView,
};
use crate::dump::{human_bytes, pinned_from, size_text, PinnedPacket};
use crate::order::{descending_order, sorted_order, sorts, sorts_down};
use crate::route::accepted;
use crate::text;
use vstd::prelude::*;

verus! {

/// The views of conversations.
pub open spec fn conv_views(v: Seq<Conversation>) -> Seq<ConvView> {
    v.map_values(|c: Conversation| c@)
}

/// The views of packets.
pub open spec fn packet_views(v: Seq<PacketRecord>) -> Seq<PacketView> {
    v.map_values(|p: PacketRecord| p@)
}

fn copy_convs(convs: &Vec<Conversation>) -> (r: Vec<Conversation>)
    ensures
        conv_views(r@) == conv_views(convs@),
{
    let mut out: Vec<Conversation> = Vec::new();
    let mut i: usize = 0;
    while i < convs.len()
        invariant
            i <= convs@.len(),
            out@.len() == i,
            forall|k: int| 0 <= k < i ==> (#[trigger] out@[k])@ == convs@[k]@,
        decreases convs.len() - i,
    {
        out.push(convs[i].duplicate());
        i += 1;
    }
    assert(conv_views(out@) =~= conv_views(convs@));
    out
}

fn copy_packets(packets: &Vec<PacketRecord>) -> (r: Vec<PacketRecord>)
    ensures
        packet_views(r@) == packet_views(packets@),
{
    let mut out: Vec<PacketRecord> = Vec::new();
    let mut i: usize = 0;
    while i < packets.len()
        invariant
            i <= packets@.len(),
            out@.len() == i,
            forall|k: int| 0 <= k < i ==> (#[trigger] out@[k])@ == packets@[k]@,
        decreases packets.len() - i,
    {
        out.push(packets[i].duplicate());
        i += 1;
    }
    assert(packet_views(out@) =~= packet_views(packets@));
    out
}

// ---------------------------------------------------------------------------
// Sessions
// ---------------------------------------------------------------------------

/// A capture that is over and kept.
pub struct CaptureSession {
    pub name: String,
    pub iface: String,
    pub convs: Vec<Conversation>,
    /// The packets of each conversation.
    pub packets: Vec<Vec<PacketRecord>>,
    pub total_packets: u64,
    pub total_bytes: u64,
}

/// A capture that is over and kept.
#[verifier::ext_equal]
pub struct SessionView {
    pub name: Seq<char>,
    pub iface: Seq<char>,
    pub convs: Seq<ConvView>,
    pub packets: Seq<Seq<PacketView>>,
    pub total_packets: u64,
    pub total_bytes: u64,
}

impl View for CaptureSession {
    type V = SessionView;

    open spec fn view(&self) -> SessionView {
        SessionView {
            name: self.name@,
            iface: self.iface@,
            convs: conv_views(self.convs@),
            packets: self.packets@.map_values(|v: Vec<PacketRecord>| packet_views(v@)),
            total_packets: self.total_packets,
            total_bytes: self.total_bytes,
        }
    }
}

/// What is kept of a capture.
pub open spec fn frozen_session(c: CaptureView, iface: Seq<char>, name: Seq<char>) -> SessionView {
    SessionView {
        name,
        iface,
        convs: c.convs,
        packets: c.rings,
        total_packets: c.total_packets,
        total_bytes: c.total_bytes,
    }
}

/// Keeps what a capture has collected.
pub fn snapshot_session(shared: &CaptureShared, iface: &str, name: String) -> (r: CaptureSession)
    ensures
        r@ == frozen_session(shared@, iface@, name@),
{
    let convs = copy_convs(&shared.convs);
    let mut packets: Vec<Vec<PacketRecord>> = Vec::new();
    let mut i: usize = 0;
    while i < shared.rings.len()
        invariant
            i <= shared.rings@.len(),
            packets@.len() == i,
            forall|k: int|
                0 <= k < i ==> packet_views((#[trigger] packets@[k])@) == shared@.rings[k],
        decreases shared.rings.len() - i,
    {
        packets.push(copy_ring(&shared.rings[i]));
        assert(packet_views(packets@[i as int]@) == shared@.rings[i as int]);
        i += 1;
    }
    let r = CaptureSession {
        name,
        iface: iface.to_owned(),
        convs,
        packets,
        total_packets: shared.total_packets,
        total_bytes: shared.total_bytes,
    };
    assert(r@.packets =~= shared@.rings);
    r
}

impl CaptureSession {
    /// What is said of a session when it is pointed at.
    pub fn hover(&self) -> (r: String)
        ensures
            r@ == "interface "@ + self@.iface + " · "@ + text::decimal(self@.convs.len())
                + " conversas · "@ + text::decimal(self@.total_packets as nat) + " pacotes · "@
                + size_text(self@.total_bytes as nat),
    {
        let mut s = "interface ".to_owned();
        s.append(self.iface.as_str());
        s.append(" · ");
        text::push_decimal(&mut s, self.convs.len() as u64);
        s.append(" conversas · ");
        text::push_decimal(&mut s, self.total_packets);
        s.append(" pacotes · ");
        let b = human_bytes(self.total_bytes);
        s.append(b.as_str());
        s
    }

    /// All packets behind each other, those of the first conversations first.
    pub open spec fn joined(packets: Seq<Seq<PacketView>>, n: int) -> Seq<PacketView>
        decreases n,
    {
        if n <= 0 {
            Seq::empty()
        } else {
            CaptureSession::joined(packets, n - 1) + packets[n - 1]
        }
    }

    /// All packets of the session, behind each other.
    pub open spec fn all_packets(self) -> Seq<PacketView> {
        CaptureSession::joined(self@.packets, self@.packets.len() as int)
    }

    /// All packets of the session in the order of their times. Packets of one time stand in the
    /// order of their conversations.
    pub fn by_time(&self) -> (r: Vec<PacketRecord>)
        ensures
            exists|o: Seq<usize>| in_time_order(self.all_packets(), packet_views(r@), o),
    {
        let mut all: Vec<PacketRecord> = Vec::new();
        let mut i: usize = 0;
        let ghost rings = self@.packets;
        assert(packet_views(all@) =~= CaptureSession::joined(rings, 0));
        while i < self.packets.len()
            invariant
                i <= self.packets@.len(),
                rings == self@.packets,
                packet_views(all@) == CaptureSession::joined(rings, i as int),
            decreases self.packets.len() - i,
        {
            let ghost before = all@;
            let mut more = copy_packets(&self.packets[i]);
            let ghost added = more@;
            all.append(&mut more);
            assert(packet_views(all@) =~= packet_views(before) + packet_views(added));
            assert(packet_views(added) == rings[i as int]);
            i += 1;
        }
        let mut times: Vec<u64> = Vec::new();
        let mut k: usize = 0;
        while k < all.len()
            invariant
                k <= all@.len(),
                times@.len() == k,
                forall|x: int| 0 <= x < k ==> #[trigger] times@[x] == all@[x].ts_ms,
            decreases all.len() - k,
        {
            times.push(all[k].ts_ms);
            k += 1;
        }
        let o = sorted_order(&times);
        let mut out: Vec<PacketRecord> = Vec::new();
        let mut j: usize = 0;
        while j < o.len()
            invariant
                j <= o@.len(),
                sorts(times@, o@),
                times@.len() == all@.len(),
                out@.len() == j,
                forall|x: int| 0 <= x < j ==> (#[trigger] out@[x])@ == all@[o@[x] as int]@,
            decreases o.len() - j,
        {
            out.push(all[o[j]].duplicate());
            j += 1;
        }
        proof {
            let views = packet_views(all@);
            assert(views.map_values(|p: PacketView| p.ts_ms) =~= times@);
            assert(packet_views(out@) =~= o@.map_values(|k: usize| views[k as int]));
            assert(in_time_order(self.all_packets(), packet_views(out@), o@));
        }
        out
    }

    /// The name of the file that the session is written to.
    pub fn file_name(&self) -> (r: String)
        ensures
            r@ == "quarry-"@ + dashed(text::lowercase(self@.name)) + ".pcap"@,
    {
        let low = self.name.as_str().to_lowercase();
        let mut s = "quarry-".to_owned();
        let d = with_dashes(low.as_str());
        s.append(d.as_str());
        s.append(".pcap");
        s
    }

    /// The packets of a conversation.
    pub fn packets_of(&self, key: ConvKey) -> (r: Vec<PacketRecord>)
        requires
            self@.convs.len() == self@.packets.len(),
        ensures
            packet_views(r@) == (match crate::capture::place_of(self@.convs, key) {
                Some(i) => self@.packets[i],
                None => Seq::empty(),
            }),
    {
        let mut i: usize = 0;
        while i < self.convs.len()
            invariant
                i <= self.convs@.len(),
                self@.convs.len() == self@.packets.len(),
                forall|k: int| 0 <= k < i ==> (#[trigger] self@.convs[k]).key != key,
            decreases self.convs.len() - i,
        {
            if self.convs[i].key() == key {
                proof {
                    lemma_place(self@.convs, key, i as int);
                }
                return copy_packets(&self.packets[i]);
            }
            i += 1;
        }
        proof {
            lemma_place(self@.convs, key, i as int);
        }
        let r: Vec<PacketRecord> = Vec::new();
        assert(packet_views(r@) =~= Seq::<PacketView>::empty());
        r
    }
}

proof fn lemma_place(convs: Seq<ConvView>, key: ConvKey, n: int)
    requires
        0 <= n <= convs.len(),
        forall|i: int| 0 <= i < n ==> (#[trigger] convs[i]).key != key,
        n < convs.len() ==> convs[n].key == key,
    ensures
        crate::capture::place_of(convs, key) == (if n < convs.len() {
            Some(n)
        } else {
            None
        }),
    decreases convs.len(),
{
    if convs.len() > 0 {
        if n < convs.len() - 1 {
            lemma_place(convs.drop_last(), key, n);
        } else {
            lemma_place(convs.drop_last(), key, convs.len() - 1);
        }
    }
}

/// Packets brought into the order of their times.
pub open spec fn in_time_order(all: Seq<PacketView>, r: Seq<PacketView>, o: Seq<usize>) -> bool {
    &&& sorts(all.map_values(|p: PacketView| p.ts_ms), o)
    &&& r == o.map_values(|k: usize| all[k as int])
}

/// A text with dashes for its spaces.
pub open spec fn dashed(s: Seq<char>) -> Seq<char> {
    s.map_values(
        |c: char|
            if c == ' ' {
                '-'
            } else {
                c
            },
    )
}

/// A text with dashes for its spaces.
pub fn with_dashes(s: &str) -> (r: String)
    ensures
        r@ == dashed(s@),
{
    let cs = text::chars_of(s);
    let mut out = String::new();
    let mut i: usize = 0;
    assert(out@ =~= dashed(s@.take(0)));
    while i < cs.len()
        invariant
            i <= cs@.len(),
            cs@ == s@,
            out@ == dashed(s@.take(i as int)),
        decreases cs.len() - i,
    {
        out.push(
            if cs[i] == ' ' {
                '-'
            } else {
                cs[i]
            },
        );
        i += 1;
        assert(out@ =~= dashed(s@.take(i as int)));
    }
    assert(s@.take(i as int) == s@);
    out
}

/// What a session keeps is what the capture had, conversation by conversation.
pub proof fn law_session_keeps_packets(
    c: CaptureView,
    iface: Seq<char>,
    name: Seq<char>,
    key: ConvKey,
)
    ensures
        ({
            let s = frozen_session(c, iface, name);
            (match crate::capture::place_of(s.convs, key) {
                Some(i) => s.packets[i],
                None => Seq::empty(),
            }) == c.packets_of(key)
        }),
{
}

// ---------------------------------------------------------------------------
// Processes
// ---------------------------------------------------------------------------

/// The conversations of a process, counted together.
pub struct ProcessRow {
    pub pid: u32,
    pub name: String,
    pub convs: usize,
    pub packets: u64,
    pub bytes: u64,
    pub last_ms: u64,
}

/// The conversations of a process, counted together.
#[verifier::ext_equal]
pub struct RowView {
    pub pid: u32,
    pub name: Seq<char>,
    pub convs: int,
    pub packets: u64,
    pub bytes: u64,
    pub last_ms: u64,
}

impl View for ProcessRow {
    type V = RowView;

    open spec fn view(&self) -> RowView {
        RowView {
            pid: self.pid,
            name: self.name@,
            convs: self.convs as int,
            packets: self.packets,
            bytes: self.bytes,
            last_ms: self.last_ms,
        }
    }
}

impl RowView {
    /// A process without conversations.
    pub open spec fn blank(pid: u32) -> RowView {
        RowView { pid, name: Seq::empty(), convs: 0, packets: 0, bytes: 0, last_ms: 0 }
    }

    /// The process with one conversation more. Its name is the first that is known.
    pub open spec fn with(self, c: ConvView) -> RowView {
        RowView {
            pid: self.pid,
            name: if self.name.len() == 0 {
                c.process
            } else {
                self.name
            },
            convs: self.convs + 1,
            packets: self.packets.wrapping_add(c.packets),
            bytes: self.bytes.wrapping_add(c.bytes),
            last_ms: if c.last_ms > self.last_ms {
                c.last_ms
            } else {
                self.last_ms
            },
        }
    }

    /// The name that is shown: the process's, or its number.
    pub open spec fn shown_name(self) -> Seq<char> {
        process_name(self.name, self.pid)
    }
}

/// The name that is shown for a process.
pub open spec fn process_name(name: Seq<char>, pid: u32) -> Seq<char> {
    if name.len() > 0 {
        name
    } else if pid == 0 {
        "(desconhecido)"@
    } else {
        pid_text(pid)
    }
}

fn show_name(name: &String, pid: u32) -> (r: String)
    ensures
        r@ == process_name(name@, pid),
{
    let cs = text::chars_of(name.as_str());
    if cs.len() > 0 {
        name.clone()
    } else if pid == 0 {
        "(desconhecido)".to_owned()
    } else {
        pid_label(pid)
    }
}

/// The place of a process among rows.
pub open spec fn row_place(rows: Seq<RowView>, pid: u32) -> Option<int>
    decreases rows.len(),
{
    if rows.len() == 0 {
        None
    } else {
        match row_place(rows.drop_last(), pid) {
            Some(i) => Some(i),
            None => if rows.last().pid == pid {
                Some(rows.len() - 1)
            } else {
                None
            },
        }
    }
}

/// The rows with one conversation more.
pub open spec fn row_added(rows: Seq<RowView>, c: ConvView) -> Seq<RowView> {
    match row_place(rows, c.pid) {
        Some(i) => rows.update(i, rows[i].with(c)),
        None => rows.push(RowView::blank(c.pid).with(c)),
    }
}

/// The processes of conversations, in the order in which they appear.
pub open spec fn by_process(convs: Seq<ConvView>) -> Seq<RowView>
    decreases convs.len(),
{
    if convs.len() == 0 {
        Seq::empty()
    } else {
        row_added(by_process(convs.drop_last()), convs.last())
    }
}

/// The conversations of all rows, counted.
pub open spec fn conversations(rows: Seq<RowView>) -> int
    decreases rows.len(),
{
    if rows.len() == 0 {
        0
    } else {
        conversations(rows.drop_last()) + rows.last().convs
    }
}

proof fn lemma_row_place(rows: Seq<RowView>, pid: u32)
    ensures
        match row_place(rows, pid) {
            Some(i) => 0 <= i < rows.len() && rows[i].pid == pid && forall|k: int|
                0 <= k < i ==> (#[trigger] rows[k]).pid != pid,
            None => forall|k: int| 0 <= k < rows.len() ==> (#[trigger] rows[k]).pid != pid,
        },
    decreases rows.len(),
{
    if rows.len() > 0 {
        let r = rows.drop_last();
        lemma_row_place(r, pid);
        match row_place(r, pid) {
            Some(i) => {
                assert forall|k: int| 0 <= k < i implies (#[trigger] rows[k]).pid != pid by {
                    assert(r[k].pid != pid);
                }
            },
            None => {
                assert forall|k: int| 0 <= k < rows.len() - 1 implies (#[trigger] rows[k]).pid
                    != pid by {
                    assert(r[k].pid != pid);
                }
            },
        }
    }
}

proof fn lemma_conversations_update(rows: Seq<RowView>, i: int, row: RowView)
    requires
        0 <= i < rows.len(),
        row.convs == rows[i].convs + 1,
    ensures
        conversations(rows.update(i, row)) == conversations(rows) + 1,
    decreases rows.len(),
{
    let u = rows.update(i, row);
    if i < rows.len() - 1 {
        lemma_conversations_update(rows.drop_last(), i, row);
        assert(u.drop_last() =~= rows.drop_last().update(i, row));
    } else {
        assert(u.drop_last() =~= rows.drop_last());
    }
}

/// Every conversation is counted for exactly one process.
pub proof fn law_each_conversation_counts_once(convs: Seq<ConvView>)
    ensures
        conversations(by_process(convs)) == convs.len(),
    decreases convs.len(),
{
    if convs.len() > 0 {
        let rows = by_process(convs.drop_last());
        let c = convs.last();
        law_each_conversation_counts_once(convs.drop_last());
        lemma_row_place(rows, c.pid);
        match row_place(rows, c.pid) {
            Some(i) => {
                lemma_conversations_update(rows, i, rows[i].with(c));
            },
            None => {
                let added = rows.push(RowView::blank(c.pid).with(c));
                assert(added.drop_last() =~= rows);
            },
        }
    }
}

proof fn lemma_counts_bounded(rows: Seq<RowView>, i: int)
    requires
        0 <= i < rows.len(),
        forall|k: int| 0 <= k < rows.len() ==> (#[trigger] rows[k]).convs >= 0,
    ensures
        rows[i].convs <= conversations(rows),
        conversations(rows) >= 0,
    decreases rows.len(),
{
    if rows.len() > 1 {
        let r = rows.drop_last();
        if i < r.len() {
            lemma_counts_bounded(r, i);
        } else {
            lemma_counts_bounded(r, 0);
        }
    } else {
        assert(conversations(rows.drop_last()) == 0);
    }
}

/// The views of rows.
pub open spec fn row_views(v: Seq<ProcessRow>) -> Seq<RowView> {
    v.map_values(|r: ProcessRow| r@)
}

/// Rows brought into the order of their volume, the greatest first.
pub open spec fn by_volume(all: Seq<RowView>, r: Seq<RowView>, o: Seq<usize>) -> bool {
    &&& sorts_down(all.map_values(|p: RowView| p.bytes), o)
    &&& r == o.map_values(|k: usize| all[k as int])
}

fn add_row(rows: &mut Vec<ProcessRow>, c: &Conversation)
    requires
        forall|k: int| 0 <= k < old(rows)@.len() ==> (#[trigger] old(rows)@[k]).convs < usize::MAX,
    ensures
        row_views(final(rows)@) == row_added(row_views(old(rows)@), c@),
{
    let ghost start = row_views(rows@);
    let mut i: usize = 0;
    proof {
        lemma_row_place(start, c@.pid);
    }
    while i < rows.len()
        invariant
            i <= rows@.len(),
            rows@ == old(rows)@,
            start == row_views(rows@),
            forall|k: int| 0 <= k < i ==> (#[trigger] start[k]).pid != c.pid,
            forall|k: int|
                0 <= k < old(rows)@.len() ==> (#[trigger] old(rows)@[k]).convs < usize::MAX,
            match row_place(start, c@.pid) {
                Some(i) => 0 <= i < start.len() && start[i].pid == c.pid && forall|k: int|
                    0 <= k < i ==> (#[trigger] start[k]).pid != c.pid,
                None => forall|k: int| 0 <= k < start.len() ==> (#[trigger] start[k]).pid != c.pid,
            },
        decreases rows.len() - i,
    {
        assert(start[i as int] == rows@[i as int]@);
        if rows[i].pid == c.pid {
            assert(row_place(start, c@.pid) == Some(i as int));
            let name = if text::chars_of(rows[i].name.as_str()).len() == 0 {
                c.process.clone()
            } else {
                rows[i].name.clone()
            };
            assert(rows@[i as int].convs < usize::MAX);
            let row = ProcessRow {
                pid: c.pid,
                name,
                convs: rows[i].convs + 1,
                packets: rows[i].packets.wrapping_add(c.packets),
                bytes: rows[i].bytes.wrapping_add(c.bytes),
                last_ms: if c.last_ms > rows[i].last_ms {
                    c.last_ms
                } else {
                    rows[i].last_ms
                },
            };
            assert(row@ =~= start[i as int].with(c@));
            rows.set(i, row);
            assert(row_views(rows@) =~= start.update(i as int, row@));
            return;
        }
        i += 1;
    }
    assert(row_place(start, c@.pid) is None);
    let zero: u64 = 0;
    let row = ProcessRow {
        pid: c.pid,
        name: c.process.clone(),
        convs: 1,
        packets: zero.wrapping_add(c.packets),
        bytes: zero.wrapping_add(c.bytes),
        last_ms: c.last_ms,
    };
    assert(row@ =~= RowView::blank(c@.pid).with(c@));
    rows.push(row);
    assert(row_views(rows@) =~= start.push(row@));
}

proof fn lemma_counts_nonnegative(convs: Seq<ConvView>)
    ensures
        forall|k: int|
            0 <= k < by_process(convs).len() ==> (#[trigger] by_process(convs)[k]).convs >= 1,
    decreases convs.len(),
{
    if convs.len() > 0 {
        lemma_counts_nonnegative(convs.drop_last());
        lemma_row_place(by_process(convs.drop_last()), convs.last().pid);
    }
}

/// The processes of conversations, those with the greatest volume first; of two with equal volume,
/// the one that appears first.
pub fn process_rows(convs: &Vec<Conversation>) -> (r: Vec<ProcessRow>)
    ensures
        exists|o: Seq<usize>| by_volume(by_process(conv_views(convs@)), row_views(r@), o),
{
    let ghost views = conv_views(convs@);
    let mut all: Vec<ProcessRow> = Vec::new();
    let mut i: usize = 0;
    assert(row_views(all@) =~= by_process(views.take(0)));
    while i < convs.len()
        invariant
            i <= convs@.len(),
            views == conv_views(convs@),
            row_views(all@) == by_process(views.take(i as int)),
        decreases convs.len() - i,
    {
        proof {
            law_each_conversation_counts_once(views.take(i as int));
            lemma_counts_nonnegative(views.take(i as int));
            assert forall|k: int| 0 <= k < all@.len() implies (#[trigger] all@[k]).convs
                < usize::MAX by {
                let rows = row_views(all@);
                assert(rows[k] == all@[k]@);
                lemma_counts_bounded(rows, k);
            }
            assert(views.take(i + 1).drop_last() =~= views.take(i as int));
        }
        add_row(&mut all, &convs[i]);
        i += 1;
    }
    assert(views.take(i as int) == views);
    let mut volumes: Vec<u64> = Vec::new();
    let mut k: usize = 0;
    while k < all.len()
        invariant
            k <= all@.len(),
            volumes@.len() == k,
            forall|x: int| 0 <= x < k ==> #[trigger] volumes@[x] == all@[x].bytes,
        decreases all.len() - k,
    {
        volumes.push(all[k].bytes);
        k += 1;
    }
    let o = descending_order(&volumes);
    let mut out: Vec<ProcessRow> = Vec::new();
    let mut j: usize = 0;
    while j < o.len()
        invariant
            j <= o@.len(),
            sorts_down(volumes@, o@),
            volumes@.len() == all@.len(),
            out@.len() == j,
            forall|x: int| 0 <= x < j ==> (#[trigger] out@[x])@ == all@[o@[x] as int]@,
        decreases o.len() - j,
    {
        let a = &all[o[j]];
        out.push(
            ProcessRow {
                pid: a.pid,
                name: a.name.clone(),
                convs: a.convs,
                packets: a.packets,
                bytes: a.bytes,
                last_ms: a.last_ms,
            },
        );
        j += 1;
    }
    proof {
        let rows = row_views(all@);
        assert(rows.map_values(|p: RowView| p.bytes) =~= volumes@);
        assert(row_views(out@) =~= o@.map_values(|k: usize| rows[k as int]));
        assert(by_volume(by_process(views), row_views(out@), o@));
    }
    out
}

impl ProcessRow {
    /// The name that is shown.
    pub fn shown_name(&self) -> (r: String)
        ensures
            r@ == self@.shown_name(),
    {
        show_name(&self.name, self.pid)
    }

    /// The number that is shown.
    pub fn shown_pid(&self) -> (r: String)
        ensures
            r@ == (if self.pid == 0 {
                "—"@
            } else {
                text::decimal(self.pid as nat)
            }),
    {
        if self.pid == 0 {
            "—".to_owned()
        } else {
            text::decimal_string(self.pid as u64)
        }
    }

    /// The row passes a filter, by its name or its number.
    pub open spec fn row_passes(row: RowView, filter: Seq<char>) -> bool {
        ||| text::passes_filter(row.shown_name(), filter)
        ||| text::holds(text::decimal(row.pid as nat), text::lowercase(filter))
    }

    /// Tells whether the row passes a filter, by its name or its number.
    pub fn passes(&self, filter: &str) -> (r: bool)
        ensures
            r == ProcessRow::row_passes(self@, filter@),
    {
        let name = self.shown_name();
        let low = filter.to_lowercase();
        let num = text::decimal_string(self.pid as u64);
        text::filter_accepts(name.as_str(), filter) || text::contains_chars(
            text::chars_of(num.as_str()).as_slice(),
            text::chars_of(low.as_str()).as_slice(),
        )
    }
}

/// The line above the processes.
pub fn processes_line(rows: usize, convs: usize, packets: u64, bytes: u64) -> (r: String)
    ensures
        r@ == text::decimal(rows as nat) + " processos · "@ + text::decimal(convs as nat)
            + " conversas · "@ + text::decimal(packets as nat) + " pacotes · "@ + size_text(
            bytes as nat,
        ),
{
    let mut s = String::new();
    text::push_decimal(&mut s, rows as u64);
    s.append(" processos · ");
    text::push_decimal(&mut s, convs as u64);
    s.append(" conversas · ");
    text::push_decimal(&mut s, packets);
    s.append(" pacotes · ");
    let b = human_bytes(bytes);
    s.append(b.as_str());
    assert(s@ =~= text::decimal(rows as nat) + " processos · "@ + text::decimal(convs as nat)
        + " conversas · "@ + text::decimal(packets as nat) + " pacotes · "@ + size_text(
        bytes as nat,
    ));
    s
}

// ---------------------------------------------------------------------------
// Conversations
// ---------------------------------------------------------------------------

/// The remote end of a conversation as it is written.
pub open spec fn remote_text(c: ConvView) -> Seq<char> {
    crate::dump::endpoint(c.key.remote_ip, c.key.remote_port)
}

/// The remote end of a conversation as it is written.
pub fn remote_label(c: &Conversation) -> (r: String)
    ensures
        r@ == remote_text(c@),
{
    let mut s = String::new();
    c.remote_ip.push_to(&mut s);
    s.push(':');
    text::push_decimal(&mut s, c.remote_port as u64);
    assert(s@ =~= remote_text(c@));
    s
}

/// A conversation passes a filter: by its remote end, its local port or its protocol.
pub open spec fn conv_passes(c: ConvView, filter: Seq<char>) -> bool {
    ||| text::passes_filter(remote_text(c), filter)
    ||| text::holds(text::decimal(c.key.local_port as nat), text::lowercase(filter))
    ||| text::passes_filter(protocol(c.key.proto), filter)
}

/// Tells whether a conversation passes a filter.
pub fn conv_accepts(c: &Conversation, filter: &str) -> (r: bool)
    ensures
        r == conv_passes(c@, filter@),
{
    let remote = remote_label(c);
    let low = filter.to_lowercase();
    let port = text::decimal_string(c.local_port as u64);
    text::filter_accepts(remote.as_str(), filter) || text::contains_chars(
        text::chars_of(port.as_str()).as_slice(),
        text::chars_of(low.as_str()).as_slice(),
    ) || text::filter_accepts(c.proto_name(), filter)
}

/// The places of a process's conversations.
pub open spec fn places_of(convs: Seq<ConvView>, pid: u32) -> Seq<usize> {
    accepted(|i: int| convs[i].pid == pid, convs.len() as int)
}

/// Places brought into the order of the volume of their conversations, the greatest first.
pub open spec fn convs_by_volume(
    convs: Seq<ConvView>,
    places: Seq<usize>,
    r: Seq<usize>,
    o: Seq<usize>,
) -> bool {
    &&& sorts_down(places.map_values(|k: usize| convs[k as int].bytes), o)
    &&& r == o.map_values(|k: usize| places[k as int])
}

/// The places of a process's conversations, those with the greatest volume first.
pub fn conversation_rows(convs: &Vec<Conversation>, pid: u32) -> (r: Vec<usize>)
    ensures
        exists|o: Seq<usize>|
            convs_by_volume(conv_views(convs@), places_of(conv_views(convs@), pid), r@, o),
{
    let ghost views = conv_views(convs@);
    let ghost test = |i: int| views[i].pid == pid;
    let mut places: Vec<usize> = Vec::new();
    let mut volumes: Vec<u64> = Vec::new();
    let mut i: usize = 0;
    while i < convs.len()
        invariant
            i <= convs@.len(),
            views == conv_views(convs@),
            test == (|i: int| views[i].pid == pid),
            places@ == accepted(test, i as int),
            volumes@ == places@.map_values(|k: usize| views[k as int].bytes),
        decreases convs.len() - i,
    {
        assert(views[i as int] == convs@[i as int]@);
        if convs[i].pid == pid {
            let ghost before = places@;
            places.push(i);
            volumes.push(convs[i].bytes);
            assert(volumes@ =~= places@.map_values(|k: usize| views[k as int].bytes));
        }
        i += 1;
    }
    let o = descending_order(&volumes);
    let mut out: Vec<usize> = Vec::new();
    let mut j: usize = 0;
    while j < o.len()
        invariant
            j <= o@.len(),
            sorts_down(volumes@, o@),
            volumes@.len() == places@.len(),
            out@ == o@.take(j as int).map_values(|k: usize| places@[k as int]),
        decreases o.len() - j,
    {
        out.push(places[o[j]]);
        j += 1;
        assert(out@ =~= o@.take(j as int).map_values(|k: usize| places@[k as int]));
    }
    assert(o@.take(j as int) == o@);
    assert(convs_by_volume(views, places_of(views, pid), out@, o@));
    out
}

/// The name in the trail: that of the first of a process's conversations that has one.
pub open spec fn trail_name(convs: Seq<ConvView>, pid: u32) -> Seq<char>
    decreases convs.len(),
{
    if convs.len() == 0 {
        process_name(Seq::empty(), pid)
    } else if convs[0].pid == pid && convs[0].process.len() > 0 {
        convs[0].process
    } else {
        trail_name(convs.skip(1), pid)
    }
}

/// The name in the trail.
pub fn trail_process(convs: &Vec<Conversation>, pid: u32) -> (r: String)
    ensures
        r@ == trail_name(conv_views(convs@), pid),
{
    let ghost views = conv_views(convs@);
    let mut i: usize = 0;
    assert(views.skip(0) == views);
    while i < convs.len()
        invariant
            i <= convs@.len(),
            views == conv_views(convs@),
            trail_name(views, pid) == trail_name(views.skip(i as int), pid),
        decreases convs.len() - i,
    {
        assert(views.skip(i as int)[0] == convs@[i as int]@);
        assert(views.skip(i as int).skip(1) =~= views.skip(i + 1));
        if convs[i].pid == pid && text::chars_of(convs[i].process.as_str()).len() > 0 {
            return convs[i].process.clone();
        }
        i += 1;
    }
    let none = String::new();
    let r = show_name(&none, pid);
    assert(none@ =~= Seq::<char>::empty());
    r
}

/// A conversation in the trail.
pub fn trail_conversation(key: ConvKey) -> (r: String)
    ensures
        r@ == protocol(key.proto) + " :"@ + text::decimal(key.local_port as nat) + " ↔ "@
            + crate::dump::endpoint(key.remote_ip, key.remote_port),
{
    let mut s = crate::capture::proto_label(key.proto).to_owned();
    s.append(" :");
    text::push_decimal(&mut s, key.local_port as u64);
    s.append(" ↔ ");
    key.remote_ip.push_to(&mut s);
    s.push(':');
    text::push_decimal(&mut s, key.remote_port as u64);
    assert(s@ =~= protocol(key.proto) + " :"@ + text::decimal(key.local_port as nat) + " ↔ "@
        + crate::dump::endpoint(key.remote_ip, key.remote_port));
    s
}

// ---------------------------------------------------------------------------
// The page
// ---------------------------------------------------------------------------

/// How far the page has gone into what was captured.
#[derive(Clone, Copy, PartialEq, Eq, Structural, Debug)]
pub struct Trail {
    pub pid: Option<u32>,
    pub conv: Option<ConvKey>,
    pub pkt: Option<usize>,
}

/// Nothing is opened.
pub open spec fn at_root() -> Trail {
    Trail { pid: None, conv: None, pkt: None }
}

/// Where what is shown comes from.
#[derive(Clone, Copy, PartialEq, Eq, Structural, Debug)]
pub enum Shows {
    Live,
    Session(usize),
    Nothing,
}

/// What the page shows.
#[derive(Clone, Copy, PartialEq, Eq, Structural, Debug)]
pub enum Level {
    Processes,
    Conversations(u32),
    Packets(ConvKey),
}

/// What the page holds.
pub struct CapturePane {
    pub iface: String,
    pub filter: String,
    pub trail: Trail,
    pub sessions: Vec<CaptureSession>,
    /// The session that is shown, where it is not the running capture.
    pub selected: Option<usize>,
    pub running: bool,
    pub pinned: Vec<PinnedPacket>,
    pub pinned_sel: Option<usize>,
}

/// What is shown: the chosen session, or else what is being captured.
pub open spec fn shown_source(selected: Option<usize>, running: bool) -> Shows {
    match selected {
        Some(i) => Shows::Session(i),
        None => if running {
            Shows::Live
        } else {
            Shows::Nothing
        },
    }
}

impl Trail {
    /// How deep the trail leads.
    pub open spec fn shown_level(self) -> Level {
        match self.pid {
            None => Level::Processes,
            Some(pid) => match self.conv {
                None => Level::Conversations(pid),
                Some(key) => Level::Packets(key),
            },
        }
    }

    /// The opened packet, where there is one among `n`.
    pub open spec fn packet_among(self, n: usize) -> Option<usize> {
        match self.pkt {
            Some(i) => if i < n {
                Some(i)
            } else {
                None
            },
            None => None,
        }
    }
}

impl CapturePane {
    /// A session that is selected is there, and each session has a list of packets for each of its
    /// conversations.
    pub open spec fn wf(self) -> bool {
        &&& self.selected matches Some(i) ==> i < self.sessions@.len()
        &&& forall|i: int|
            0 <= i < self.sessions@.len() ==> (#[trigger] self.sessions@[i])@.convs.len()
                == self.sessions@[i]@.packets.len()
    }

    /// The start, with the address of the interface where it is known.
    pub fn new(iface: Option<Ipv4Addr>) -> (r: CapturePane)
        ensures
            r.wf(),
            r.iface@ == (match iface {
                Some(ip) => ip.text(),
                None => Seq::empty(),
            }),
            r.filter@ == Seq::<char>::empty(),
            r.trail == at_root(),
            r.sessions@ == Seq::<CaptureSession>::empty(),
            r.selected is None,
            !r.running,
            r.pinned@ == Seq::<PinnedPacket>::empty(),
            r.pinned_sel is None,
    {
        CapturePane {
            iface: match iface {
                Some(ip) => ip.to_text(),
                None => String::new(),
            },
            filter: String::new(),
            trail: Trail { pid: None, conv: None, pkt: None },
            sessions: Vec::new(),
            selected: None,
            running: false,
            pinned: Vec::new(),
            pinned_sel: None,
        }
    }

    /// Starts a capture on the interface that was typed, or says that it is none. Gives the
    /// interface, and what is said then.
    pub fn begin(&mut self) -> (r: (Option<Ipv4Addr>, String))
        requires
            old(self).wf(),
        ensures
            final(self).wf(),
            r.0 == crate::capture::address_in(old(self).iface@),
            match r.0 {
                Some(ip) => {
                    &&& r.1@ == "Captura iniciada em "@ + ip.text() + "."@
                    &&& *final(self) == CapturePane {
                        running: true,
                        selected: None,
                        trail: at_root(),
                        ..*old(self)
                    }
                },
                None => r.1@ == "IP da interface inválido."@ && *final(self) == *old(self),
            },
    {
        match parse_ipv4(self.iface.as_str()) {
            Some(ip) => {
                self.running = true;
                self.selected = None;
                self.trail = Trail { pid: None, conv: None, pkt: None };
                let mut s = "Captura iniciada em ".to_owned();
                ip.push_to(&mut s);
                s.append(".");
                (Some(ip), s)
            },
            None => (None, "IP da interface inválido.".to_owned()),
        }
    }

    /// Ends the capture, keeps what it collected as a session and shows that. Gives what is said
    /// then.
    pub fn end(&mut self, shared: &CaptureShared) -> (r: String)
        requires
            old(self).wf(),
            shared@.wf(),
            old(self).sessions@.len() < usize::MAX,
        ensures
            final(self).wf(),
            *final(self) == (CapturePane {
                running: false,
                sessions: final(self).sessions,
                selected: Some(old(self).sessions@.len() as usize),
                trail: at_root(),
                ..*old(self)
            }),
            final(self).sessions@.len() == old(self).sessions@.len() + 1,
            final(self).sessions@.drop_last() == old(self).sessions@,
            final(self).sessions@.last()@ == frozen_session(
                shared@,
                old(self).iface@,
                "Captura "@ + text::decimal(old(self).sessions@.len() + 1),
            ),
            r@ == "Captura parada e salva ("@ + text::decimal(shared@.total_packets as nat)
                + " pacotes)."@,
    {
        let n = self.sessions.len();
        let mut name = "Captura ".to_owned();
        text::push_decimal(&mut name, n as u64 + 1);
        let session = snapshot_session(shared, self.iface.as_str(), name);
        let packets = session.total_packets;
        self.sessions.push(session);
        assert(self.sessions@.drop_last() =~= old(self).sessions@);
        self.selected = Some(n);
        self.trail = Trail { pid: None, conv: None, pkt: None };
        self.running = false;
        let mut s = "Captura parada e salva (".to_owned();
        text::push_decimal(&mut s, packets);
        s.append(" pacotes).");
        s
    }

    /// Shows the running capture, or a session, from its beginning.
    pub fn show(&mut self, session: Option<usize>)
        requires
            old(self).wf(),
            session matches Some(i) ==> i < old(self).sessions@.len(),
        ensures
            final(self).wf(),
            *final(self) == (CapturePane { selected: session, trail: at_root(), ..*old(self) }),
    {
        self.selected = session;
        self.trail = Trail { pid: None, conv: None, pkt: None };
    }

    /// Removes the session that is shown.
    pub fn remove_session(&mut self)
        requires
            old(self).wf(),
        ensures
            final(self).wf(),
            match old(self).selected {
                Some(i) => *final(self) == (CapturePane {
                    sessions: final(self).sessions,
                    selected: None,
                    trail: at_root(),
                    ..*old(self)
                }) && final(self).sessions@ == old(self).sessions@.remove(i as int),
                None => *final(self) == *old(self),
            },
    {
        if let Some(i) = self.selected {
            let _ = self.sessions.remove(i);
            self.selected = None;
            self.trail = Trail { pid: None, conv: None, pkt: None };
        }
    }

    /// Where what is shown comes from.
    pub fn source(&self) -> (r: Shows)
        ensures
            r == shown_source(self.selected, self.running),
    {
        match self.selected {
            Some(i) => Shows::Session(i),
            None => if self.running {
                Shows::Live
            } else {
                Shows::Nothing
            },
        }
    }

    /// What the page shows.
    pub fn level(&self) -> (r: Level)
        ensures
            r == self.trail.shown_level(),
    {
        match self.trail.pid {
            None => Level::Processes,
            Some(pid) => match self.trail.conv {
                None => Level::Conversations(pid),
                Some(key) => Level::Packets(key),
            },
        }
    }

    /// Goes back to the processes, or opens one.
    pub fn open_process(&mut self, pid: Option<u32>)
        ensures
            old(self).wf() ==> final(self).wf(),
            *final(self) == (CapturePane {
                trail: Trail { pid, conv: None, pkt: None },
                ..*old(self)
            }),
    {
        self.trail = Trail { pid, conv: None, pkt: None };
    }

    /// Goes back to the conversations, or opens one.
    pub fn open_conversation(&mut self, conv: Option<ConvKey>)
        ensures
            old(self).wf() ==> final(self).wf(),
            *final(self) == (CapturePane {
                trail: Trail { pid: old(self).trail.pid, conv, pkt: None },
                ..*old(self)
            }),
    {
        self.trail = Trail { pid: self.trail.pid, conv, pkt: None };
    }

    /// Opens a packet.
    pub fn open_packet(&mut self, i: usize)
        ensures
            old(self).wf() ==> final(self).wf(),
            *final(self) == (CapturePane {
                trail: Trail { pkt: Some(i), ..old(self).trail },
                ..*old(self)
            }),
    {
        self.trail = Trail { pid: self.trail.pid, conv: self.trail.conv, pkt: Some(i) };
    }

    /// The place of the packet that is opened, among `n`. `None` where none is, or not any more.
    pub fn opened_packet(&self, n: usize) -> (r: Option<usize>)
        ensures
            r == self.trail.packet_among(n),
    {
        match self.trail.pkt {
            Some(i) => if i < n {
                Some(i)
            } else {
                None
            },
            None => None,
        }
    }

    /// Keeps a packet as evidence.
    pub fn pin(&mut self, p: &PacketRecord)
        ensures
            old(self).wf() ==> final(self).wf(),
            *final(self) == (CapturePane { pinned: final(self).pinned, ..*old(self) }),
            final(self).pinned@.len() == old(self).pinned@.len() + 1,
            final(self).pinned@.drop_last() == old(self).pinned@,
            final(self).pinned@.last().label@ == crate::dump::pin_label(p@),
            final(self).pinned@.last().rec@ == p@,
    {
        self.pinned.push(pinned_from(p));
        assert(self.pinned@.drop_last() =~= old(self).pinned@);
    }

    /// Keeps a packet that was dropped on the evidence, and opens it there.
    pub fn drop_pin(&mut self, p: PinnedPacket)
        requires
            old(self).pinned@.len() < usize::MAX,
        ensures
            old(self).wf() ==> final(self).wf(),
            *final(self) == (CapturePane {
                pinned: final(self).pinned,
                pinned_sel: Some(old(self).pinned@.len() as usize),
                ..*old(self)
            }),
            final(self).pinned@ == old(self).pinned@.push(p),
    {
        let n = self.pinned.len();
        self.pinned.push(p);
        self.pinned_sel = Some(n);
    }

    /// Opens a piece of evidence.
    pub fn open_pin(&mut self, i: usize)
        ensures
            old(self).wf() ==> final(self).wf(),
            *final(self) == (CapturePane { pinned_sel: Some(i), ..*old(self) }),
    {
        self.pinned_sel = Some(i);
    }

    /// Removes a piece of evidence, and closes it where it was opened.
    pub fn remove_pin(&mut self, i: usize)
        requires
            i < old(self).pinned@.len(),
        ensures
            old(self).wf() ==> final(self).wf(),
            *final(self) == (CapturePane {
                pinned: final(self).pinned,
                pinned_sel: if old(self).pinned_sel == Some(i) {
                    None
                } else {
                    old(self).pinned_sel
                },
                ..*old(self)
            }),
            final(self).pinned@ == old(self).pinned@.remove(i as int),
    {
        let _ = self.pinned.remove(i);
        let same = match self.pinned_sel {
            Some(k) => k == i,
            None => false,
        };
        if same {
            self.pinned_sel = None;
        }
    }

    /// Removes all evidence.
    pub fn clear_pins(&mut self)
        ensures
            old(self).wf() ==> final(self).wf(),
            *final(self) == (CapturePane {
                pinned: final(self).pinned,
                pinned_sel: None,
                ..*old(self)
            }),
            final(self).pinned@ == Seq::<PinnedPacket>::empty(),
    {
        self.pinned.clear();
        self.pinned_sel = None;
    }

    /// The packets of the evidence.
    pub fn pinned_packets(&self) -> (r: Vec<PacketRecord>)
        ensures
            packet_views(r@) == self.pinned@.map_values(|p: PinnedPacket| p.rec@),
    {
        let mut out: Vec<PacketRecord> = Vec::new();
        let mut i: usize = 0;
        while i < self.pinned.len()
            invariant
                i <= self.pinned@.len(),
                out@.len() == i,
                forall|k: int| 0 <= k < i ==> (#[trigger] out@[k])@ == self.pinned@[k].rec@,
            decreases self.pinned.len() - i,
        {
            out.push(self.pinned[i].rec.duplicate());
            i += 1;
        }
        assert(packet_views(out@) =~= self.pinned@.map_values(|p: PinnedPacket| p.rec@));
        out
    }
}

/// The line above the packets of a conversation.
pub fn packets_line(n: usize) -> (r: String)
    ensures
        r@ == text::decimal(n as nat) + " pacotes (mantém os "@ + text::decimal(
            crate::capture::MAX_PKTS_PER_CONV as nat,
        )
            + " mais recentes). Arraste um pacote para o painel Evidências à direita, ou use 📌."@,
{
    let mut s = String::new();
    text::push_decimal(&mut s, n as u64);
    s.append(" pacotes (mantém os ");
    text::push_decimal(&mut s, crate::capture::MAX_PKTS_PER_CONV as u64);
    s.append(
        " mais recentes). Arraste um pacote para o painel Evidências à direita, ou use 📌.",
    );
    assert(s@ =~= text::decimal(n as nat) + " pacotes (mantém os "@ + text::decimal(
        crate::capture::MAX_PKTS_PER_CONV as nat,
    ) + " mais recentes). Arraste um pacote para o painel Evidências à direita, ou use 📌."@);
    s
}

// ---------------------------------------------------------------------------
// Laws of what is shown
// ---------------------------------------------------------------------------

/// How many of the conversations are those of a process, and their packets and bytes together.
pub open spec fn sums_of(convs: Seq<ConvView>, pid: u32) -> (int, int, int)
    decreases convs.len(),
{
    if convs.len() == 0 {
        (0, 0, 0)
    } else {
        let s = sums_of(convs.drop_last(), pid);
        let c = convs.last();
        if c.pid == pid {
            (s.0 + 1, s.1 + c.packets, s.2 + c.bytes)
        } else {
            s
        }
    }
}

/// A row counts the conversations of a process among `convs`: how many there are, their packets and
/// bytes together, the latest of their times, and the first name that is known.
pub open spec fn counts(row: RowView, convs: Seq<ConvView>) -> bool {
    let s = sums_of(convs, row.pid);
    &&& (row.convs, row.packets as int, row.bytes as int) == s
    &&& forall|i: int|
        0 <= i < convs.len() && (#[trigger] convs[i]).pid == row.pid ==> convs[i].last_ms
            <= row.last_ms
    &&& row.last_ms == 0 || exists|i: int|
        0 <= i < convs.len() && (#[trigger] convs[i]).pid == row.pid && convs[i].last_ms
            == row.last_ms
    &&& row.name.len() == 0 ==> forall|i: int|
        0 <= i < convs.len() && (#[trigger] convs[i]).pid == row.pid ==> convs[i].process.len() == 0
    &&& row.name.len() > 0 ==> exists|i: int|
        {
            &&& 0 <= i < convs.len()
            &&& (#[trigger] convs[i]).pid == row.pid
            &&& convs[i].process == row.name
            &&& forall|j: int|
                0 <= j < i && (#[trigger] convs[j]).pid == row.pid ==> convs[j].process.len() == 0
        }
}

proof fn lemma_no_sums(convs: Seq<ConvView>, pid: u32)
    requires
        forall|i: int| 0 <= i < convs.len() ==> (#[trigger] convs[i]).pid != pid,
    ensures
        sums_of(convs, pid) == (0int, 0int, 0int),
    decreases convs.len(),
{
    if convs.len() > 0 {
        let r = convs.drop_last();
        assert forall|i: int| 0 <= i < r.len() implies (#[trigger] r[i]).pid != pid by {
            assert(r[i] == convs[i]);
        }
        lemma_no_sums(r, pid);
        assert(convs[convs.len() - 1] == convs.last());
    }
}

proof fn lemma_counts_more(row: RowView, convs: Seq<ConvView>, c: ConvView)
    requires
        counts(row, convs),
        sums_of(convs.push(c), row.pid).1 <= u64::MAX,
        sums_of(convs.push(c), row.pid).2 <= u64::MAX,
    ensures
        c.pid != row.pid ==> counts(row, convs.push(c)),
        c.pid == row.pid ==> counts(row.with(c), convs.push(c)),
{
    let all = convs.push(c);
    let n = convs.len() as int;
    assert(all.drop_last() =~= convs);
    assert(all.last() == c);
    assert(forall|i: int| 0 <= i < n ==> #[trigger] all[i] == convs[i]);
    assert(all[n] == c);
    let more = if c.pid == row.pid {
        row.with(c)
    } else {
        row
    };
    assert forall|i: int| 0 <= i < all.len() && (#[trigger] all[i]).pid == more.pid implies all[i].last_ms
        <= more.last_ms by {
        if i < n {
            assert(convs[i].last_ms <= row.last_ms);
        }
    }
    if more.last_ms != 0 {
        if c.pid == row.pid && more.last_ms == c.last_ms {
            assert(all[n].last_ms == more.last_ms);
        } else {
            let i = choose|i: int|
                0 <= i < convs.len() && (#[trigger] convs[i]).pid == row.pid && convs[i].last_ms
                    == row.last_ms;
            assert(all[i] == convs[i]);
        }
    }
    if more.name.len() == 0 {
        assert forall|i: int| 0 <= i < all.len() && (#[trigger] all[i]).pid == more.pid implies all[i].process.len()
            == 0 by {
            if i < n {
                assert(convs[i].process.len() == 0);
            }
        }
    } else if row.name.len() > 0 {
        let i = choose|i: int|
            {
                &&& 0 <= i < convs.len()
                &&& (#[trigger] convs[i]).pid == row.pid
                &&& convs[i].process == row.name
                &&& forall|j: int|
                    0 <= j < i && (#[trigger] convs[j]).pid == row.pid ==> convs[j].process.len()
                        == 0
            };
        assert(all[i] == convs[i]);
        assert forall|j: int| 0 <= j < i && (#[trigger] all[j]).pid == more.pid implies all[j].process.len()
            == 0 by {
            assert(convs[j].process.len() == 0);
        }
        assert(all[i].process == more.name);
    } else {
        assert(all[n].process == more.name);
        assert forall|j: int| 0 <= j < n && (#[trigger] all[j]).pid == more.pid implies all[j].process.len()
            == 0 by {
            assert(convs[j].process.len() == 0);
        }
    }
}

/// Each process that owns a conversation has one row, which counts all its conversations and no
/// others.
pub proof fn law_rows_sum_conversations(convs: Seq<ConvView>)
    requires
        forall|pid: u32|
            (#[trigger] sums_of(convs, pid)).1 <= u64::MAX && sums_of(convs, pid).2 <= u64::MAX,
    ensures
        ({
            let rows = by_process(convs);
            &&& forall|i: int, j: int|
                0 <= i < j < rows.len() ==> (#[trigger] rows[i]).pid != (#[trigger] rows[j]).pid
            &&& forall|i: int| 0 <= i < rows.len() ==> counts(#[trigger] rows[i], convs)
            &&& forall|k: int|
                0 <= k < convs.len() ==> exists|i: int|
                    0 <= i < rows.len() && (#[trigger] rows[i]).pid == (#[trigger] convs[k]).pid
        }),
    decreases convs.len(),
{
    if convs.len() > 0 {
        let r = convs.drop_last();
        let c = convs.last();
        assert(r.push(c) =~= convs);
        assert forall|pid: u32| (#[trigger] sums_of(r, pid)).1 <= u64::MAX && sums_of(r, pid).2
            <= u64::MAX by {
            assert(sums_of(convs, pid).1 <= u64::MAX);
        }
        law_rows_sum_conversations(r);
        let old = by_process(r);
        let rows = by_process(convs);
        lemma_row_place(old, c.pid);
        assert forall|i: int| 0 <= i < old.len() implies (counts(
            (if old[i].pid == c.pid {
                old[i].with(c)
            } else {
                old[i]
            }),
            convs,
        )) by {
            assert(counts(old[i], r));
            assert(sums_of(convs, old[i].pid).1 <= u64::MAX);
            lemma_counts_more(old[i], r, c);
        }
        match row_place(old, c.pid) {
            Some(p) => {
                assert forall|i: int| 0 <= i < rows.len() implies counts(
                    #[trigger] rows[i],
                    convs,
                ) by {
                    if i != p {
                        if i < p {
                            assert(old[i].pid != old[p].pid);
                        } else {
                            assert(old[p].pid != old[i].pid);
                        }
                    }
                }
                assert forall|i: int, j: int| 0 <= i < j < rows.len() implies (
                #[trigger] rows[i]).pid != (#[trigger] rows[j]).pid by {
                    assert(old[i].pid != old[j].pid);
                }
                assert forall|k: int| 0 <= k < convs.len() implies exists|i: int|
                    0 <= i < rows.len() && (#[trigger] rows[i]).pid == (
                    #[trigger] convs[k]).pid by {
                    if k < r.len() {
                        assert(r[k] == convs[k]);
                        let i = choose|i: int|
                            0 <= i < old.len() && (#[trigger] old[i]).pid == r[k].pid;
                        assert(rows[i].pid == convs[k].pid);
                    } else {
                        assert(rows[p].pid == convs[k].pid);
                    }
                }
            },
            None => {
                let blank = RowView::blank(c.pid);
                assert forall|i: int| 0 <= i < r.len() implies (#[trigger] r[i]).pid != c.pid by {
                    let q = choose|q: int| 0 <= q < old.len() && (#[trigger] old[q]).pid == r[i].pid;
                    assert(old[q].pid != c.pid);
                }
                lemma_no_sums(r, c.pid);
                assert(counts(blank, r));
                assert(sums_of(convs, c.pid).1 <= u64::MAX);
                lemma_counts_more(blank, r, c);
                let n = old.len() as int;
                assert(rows[n] == blank.with(c));
                assert forall|i: int| 0 <= i < rows.len() implies counts(
                    #[trigger] rows[i],
                    convs,
                ) by {
                    if i < n {
                        assert(rows[i] == old[i]);
                        assert(old[i].pid != c.pid);
                    }
                }
                assert forall|i: int, j: int| 0 <= i < j < rows.len() implies (
                #[trigger] rows[i]).pid != (#[trigger] rows[j]).pid by {
                    assert(rows[i] == old[i]);
                    if j < n {
                        assert(rows[j] == old[j]);
                    } else {
                        assert(old[i].pid != c.pid);
                    }
                }
                assert forall|k: int| 0 <= k < convs.len() implies exists|i: int|
                    0 <= i < rows.len() && (#[trigger] rows[i]).pid == (
                    #[trigger] convs[k]).pid by {
                    if k < r.len() {
                        assert(r[k] == convs[k]);
                        let i = choose|i: int|
                            0 <= i < old.len() && (#[trigger] old[i]).pid == r[k].pid;
                        assert(rows[i] == old[i]);
                    } else {
                        assert(rows[n].pid == convs[k].pid);
                    }
                }
            },
        }
    }
}

/// The processes are shown with the greatest volume first, each once.
pub proof fn law_greatest_volume_first(all: Seq<RowView>, r: Seq<RowView>, o: Seq<usize>)
    requires
        by_volume(all, r, o),
        all.len() <= usize::MAX,
    ensures
        r.len() == all.len(),
        forall|i: int, j: int|
            0 <= i < j < r.len() ==> (#[trigger] r[i]).bytes >= (#[trigger] r[j]).bytes,
        forall|k: int| 0 <= k < all.len() ==> r.contains(#[trigger] all[k]),
{
    let keys = all.map_values(|p: RowView| p.bytes);
    crate::order::law_descending_order_is_stable(keys, o);
    assert forall|k: int| 0 <= k < all.len() implies r.contains(#[trigger] all[k]) by {
        assert(o.contains(crate::order::keys_place(k)));
        let i = choose|i: int| 0 <= i < o.len() && o[i] == k as usize;
        assert(r[i] == all[k]);
    }
    assert forall|i: int, j: int| 0 <= i < j < r.len() implies (#[trigger] r[i]).bytes >= (
    #[trigger] r[j]).bytes by {
        assert(keys[o[i] as int] == r[i].bytes);
        assert(keys[o[j] as int] == r[j].bytes);
    }
}

/// The packets of a session are written in the order of their times, each once; those of one time in
/// the order in which they stand.
pub proof fn law_packets_in_order_of_time(all: Seq<PacketView>, r: Seq<PacketView>, o: Seq<usize>)
    requires
        in_time_order(all, r, o),
        all.len() <= usize::MAX,
    ensures
        r.len() == all.len(),
        forall|i: int, j: int|
            0 <= i < j < r.len() ==> (#[trigger] r[i]).ts_ms <= (#[trigger] r[j]).ts_ms,
        forall|k: int| 0 <= k < all.len() ==> r.contains(#[trigger] all[k]),
{
    let keys = all.map_values(|p: PacketView| p.ts_ms);
    crate::order::law_order_is_stable(keys, o);
    assert forall|k: int| 0 <= k < all.len() implies r.contains(#[trigger] all[k]) by {
        assert(o.contains(crate::order::keys_place(k)));
        let i = choose|i: int| 0 <= i < o.len() && o[i] == k as usize;
        assert(r[i] == all[k]);
    }
    assert forall|i: int, j: int| 0 <= i < j < r.len() implies (#[trigger] r[i]).ts_ms <= (
    #[trigger] r[j]).ts_ms by {
        assert(keys[o[i] as int] == r[i].ts_ms);
        assert(keys[o[j] as int] == r[j].ts_ms);
    }
}

/// All packets of a session are those of its conversations.
pub proof fn law_all_packets_are_joined(packets: Seq<Seq<PacketView>>, n: int, i: int, k: int)
    requires
        0 <= i < n <= packets.len(),
        0 <= k < packets[i].len(),
    ensures
        CaptureSession::joined(packets, n).contains(packets[i][k]),
        CaptureSession::joined(packets, n).len() == CaptureSession::joined(packets, n - 1).len()
            + packets[n - 1].len(),
    decreases n,
{
    let all = CaptureSession::joined(packets, n);
    let rest = CaptureSession::joined(packets, n - 1);
    if i < n - 1 {
        law_all_packets_are_joined(packets, n - 1, i, k);
        let x = choose|x: int| 0 <= x < rest.len() && rest[x] == packets[i][k];
        assert(all[x] == packets[i][k]);
    } else {
        assert(all[rest.len() + k] == packets[i][k]);
    }
}

/// The conversations of a process are shown with the greatest volume first, all of them and no
/// others.
pub proof fn law_conversations_of_a_process(
    convs: Seq<ConvView>,
    pid: u32,
    r: Seq<usize>,
    o: Seq<usize>,
)
    requires
        convs.len() <= usize::MAX,
        convs_by_volume(convs, places_of(convs, pid), r, o),
    ensures
        forall|i: int| 0 <= i < r.len() ==> #[trigger] r[i] < convs.len() && convs[r[i] as int].pid
            == pid,
        forall|k: int| 0 <= k < convs.len() && (#[trigger] convs[k]).pid == pid ==> r.contains(
            k as usize,
        ),
        forall|i: int, j: int|
            0 <= i < j < r.len() ==> convs[#[trigger] r[i] as int].bytes
                >= convs[#[trigger] r[j] as int].bytes,
{
    let test = |i: int| convs[i].pid == pid;
    let places = places_of(convs, pid);
    crate::route::law_accepted_places(test, convs.len() as int);
    assert(places == accepted(test, convs.len() as int));
    lemma_few_places(test, convs.len() as int);
    let keys = places.map_values(|k: usize| convs[k as int].bytes);
    crate::order::law_descending_order_is_stable(keys, o);
    assert forall|i: int| 0 <= i < r.len() implies #[trigger] r[i] < convs.len()
        && convs[r[i] as int].pid == pid by {
        assert(r[i] == places[o[i] as int]);
        assert(test(places[o[i] as int] as int));
    }
    assert forall|k: int| 0 <= k < convs.len() && (#[trigger] convs[k]).pid == pid implies r.contains(
        k as usize,
    ) by {
        assert(test(k));
        let x = choose|x: int| 0 <= x < places.len() && places[x] == k as usize;
        assert(o.contains(crate::order::keys_place(x)));
        let i = choose|i: int| 0 <= i < o.len() && o[i] == x as usize;
        assert(r[i] == k as usize);
    }
    assert forall|i: int, j: int| 0 <= i < j < r.len() implies convs[#[trigger] r[i] as int].bytes
        >= convs[#[trigger] r[j] as int].bytes by {
        assert(keys[o[i] as int] == convs[r[i] as int].bytes);
        assert(keys[o[j] as int] == convs[r[j] as int].bytes);
    }
}

proof fn lemma_few_places(test: spec_fn(int) -> bool, n: int)
    requires
        0 <= n,
    ensures
        accepted(test, n).len() <= n,
    decreases n,
{
    if n > 0 {
        lemma_few_places(test, n - 1);
    }
}

/// The name in the trail is the first that one of the process's conversations has, its number where
/// none has one, and that it is not known where there is no number either.
pub proof fn law_trail_has_the_first_name(convs: Seq<ConvView>, pid: u32, k: int)
    ensures
        0 <= k < convs.len() && convs[k].pid == pid && convs[k].process.len() > 0 && (forall|j: int|
            0 <= j < k && (#[trigger] convs[j]).pid == pid ==> convs[j].process.len() == 0)
            ==> trail_name(convs, pid) == convs[k].process,
        (forall|j: int|
            0 <= j < convs.len() && (#[trigger] convs[j]).pid == pid ==> convs[j].process.len()
                == 0) ==> trail_name(convs, pid) == (if pid == 0 {
            "(desconhecido)"@
        } else {
            "pid "@ + text::decimal(pid as nat)
        }),
    decreases convs.len(),
{
    if convs.len() > 0 {
        let rest = convs.skip(1);
        law_trail_has_the_first_name(rest, pid, k - 1);
        if k > 0 && k < convs.len() {
            assert(rest[k - 1] == convs[k]);
            if forall|j: int|
                0 <= j < k && (#[trigger] convs[j]).pid == pid ==> convs[j].process.len() == 0 {
                assert(!(convs[0].pid == pid && convs[0].process.len() > 0));
                assert forall|j: int| 0 <= j < k - 1 && (#[trigger] rest[j]).pid == pid implies rest[j].process.len()
                    == 0 by {
                    assert(rest[j] == convs[j + 1]);
                }
            }
        }
        if forall|j: int|
            0 <= j < convs.len() && (#[trigger] convs[j]).pid == pid ==> convs[j].process.len()
                == 0 {
            assert(!(convs[0].pid == pid && convs[0].process.len() > 0));
            assert forall|j: int| 0 <= j < rest.len() && (#[trigger] rest[j]).pid == pid implies rest[j].process.len()
                == 0 by {
                assert(rest[j] == convs[j + 1]);
            }
        }
    }
}

/// A conversation is found by any part of its remote address and port, of its local port, or of the
/// name of its protocol, letter case aside; and a process by any part of its name or its number.
pub proof fn law_found_by_any_part(
    c: ConvView,
    row: RowView,
    filter: Seq<char>,
    a: Seq<char>,
    b: Seq<char>,
)
    ensures
        ({
            let f = text::lowercase(filter);
            let any = a + f + b;
            &&& text::lowercase(crate::dump::endpoint(c.key.remote_ip, c.key.remote_port)) == any
                ==> conv_passes(c, filter)
            &&& text::decimal(c.key.local_port as nat) == any ==> conv_passes(c, filter)
            &&& text::lowercase(protocol(c.key.proto)) == any ==> conv_passes(c, filter)
            &&& text::lowercase(row.shown_name()) == any ==> ProcessRow::row_passes(row, filter)
            &&& text::decimal(row.pid as nat) == any ==> ProcessRow::row_passes(row, filter)
            &&& f.len() == 0 ==> conv_passes(c, filter) && ProcessRow::row_passes(row, filter)
        }),
{
    let f = text::lowercase(filter);
    let any = a + f + b;
    let i = a.len() as int;
    assert(any.subrange(i, i + f.len()) =~= f);
}

/// What stands nowhere in what is shown of a conversation or a process does not find it.
pub proof fn law_not_found_by_anything_else(c: ConvView, row: RowView, filter: Seq<char>)
    requires
        text::lowercase(filter).len() > 0,
    ensures
        conv_passes(c, filter) ==> text::holds(
            text::lowercase(crate::dump::endpoint(c.key.remote_ip, c.key.remote_port)),
            text::lowercase(filter),
        ) || text::holds(text::decimal(c.key.local_port as nat), text::lowercase(filter))
            || text::holds(text::lowercase(protocol(c.key.proto)), text::lowercase(filter)),
        ProcessRow::row_passes(row, filter) ==> text::holds(
            text::lowercase(row.shown_name()),
            text::lowercase(filter),
        ) || text::holds(text::decimal(row.pid as nat), text::lowercase(filter)),
{
}

/// A process is shown by its name, by its number where it has none, and as not known where it has
/// neither.
pub proof fn law_process_is_shown_by_name(name: Seq<char>, pid: u32)
    ensures
        name.len() > 0 ==> process_name(name, pid) == name,
        name.len() == 0 && pid != 0 ==> process_name(name, pid) == "pid "@ + text::decimal(
            pid as nat,
        ),
        name.len() == 0 && pid == 0 ==> process_name(name, pid) == "(desconhecido)"@,
{
}

/// A chosen session is shown, whether or not a capture is running; without one, what is being captured
/// is shown while it is, and else nothing.
pub proof fn law_chosen_session_is_shown(i: usize, running: bool)
    ensures
        shown_source(Some(i), running) == Shows::Session(i),
        shown_source(None, true) is Live,
        shown_source(None, false) is Nothing,
{
}

/// From the root the trail leads to the processes, with a process to its conversations, and with a
/// conversation to its packets, of which at most the opened one is shown and none that is not there.
pub proof fn law_trail_leads_down(pid: u32, key: ConvKey, pkt: Option<usize>, i: usize, n: usize)
    ensures
        at_root().shown_level() is Processes,
        at_root().packet_among(n) is None,
        (Trail { pid: None, conv: Some(key), pkt }).shown_level() is Processes,
        (Trail { pid: Some(pid), conv: None, pkt }).shown_level() == Level::Conversations(pid),
        (Trail { pid: Some(pid), conv: Some(key), pkt }).shown_level() == Level::Packets(key),
        i < n ==> (Trail { pkt: Some(i), ..at_root() }).packet_among(n) == Some(i),
        i >= n ==> (Trail { pkt: Some(i), ..at_root() }).packet_among(n) is None,
        (Trail { pkt: None, ..at_root() }).packet_among(n) is None,
{
}

/// A session holds what was captured when it was stopped: of every conversation the packets that the
/// capture kept, and the counts of all packets and bytes.
pub proof fn law_session_keeps_the_capture(
    c: CaptureView,
    iface: Seq<char>,
    name: Seq<char>,
    key: ConvKey,
)
    ensures
        ({
            let s = frozen_session(c, iface, name);
            &&& s.name == name
            &&& s.iface == iface
            &&& s.convs == c.convs
            &&& s.total_packets == c.total_packets
            &&& s.total_bytes == c.total_bytes
            &&& s.packets.len() == c.rings.len()
            &&& (match crate::capture::place_of(s.convs, key) {
                Some(i) => s.packets[i],
                None => Seq::empty(),
            }) == c.packets_of(key)
        }),
{
}

/// The name of a file has a dash for each space, and every other character as it is.
pub proof fn law_spaces_become_dashes(s: Seq<char>, i: int)
    requires
        0 <= i < s.len(),
    ensures
        dashed(s).len() == s.len(),
        s[i] == ' ' ==> dashed(s)[i] == '-',
        s[i] != ' ' ==> dashed(s)[i] == s[i],
{
}

} // verus!
