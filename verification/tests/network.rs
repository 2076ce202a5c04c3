use quarry::capture::{
    self, dissect, dword_ip, lookup_pid, ntohs, parse_ipv4, proto_label, received,
    refresh_proc_index, CaptureError, CaptureShared, ConvKey, Ipv4Addr, PacketRecord, Received,
    TcpRow, UdpRow, MAX_CONVS, MAX_PKTS_PER_CONV, MAX_PKT_BYTES,
};
use quarry::capturepane::{
    conv_accepts, conversation_rows, packets_line, process_rows, processes_line, snapshot_session,
    trail_conversation, trail_process, CapturePane, Level, Shows,
};
use quarry::dump;
use quarry::pcap::write_pcap;

const ME: Ipv4Addr = Ipv4Addr { a: 192, b: 168, c: 0, d: 7 };
const OTHER: Ipv4Addr = Ipv4Addr { a: 8, b: 8, c: 4, d: 4 };

fn packet(proto: u8, src: Ipv4Addr, sport: u16, dst: Ipv4Addr, dport: u16, body: &[u8]) -> Vec<u8> {
    let l4: Vec<u8> = match proto {
        6 => {
            let mut h = vec![0u8; 20];
            h[0..2].copy_from_slice(&sport.to_be_bytes());
            h[2..4].copy_from_slice(&dport.to_be_bytes());
            h[12] = 0x50;
            h
        }
        17 => {
            let mut h = vec![0u8; 8];
            h[0..2].copy_from_slice(&sport.to_be_bytes());
            h[2..4].copy_from_slice(&dport.to_be_bytes());
            h
        }
        _ => vec![],
    };
    let total = (20 + l4.len() + body.len()) as u16;
    let mut p = vec![0u8; 20];
    p[0] = 0x45;
    p[2..4].copy_from_slice(&total.to_be_bytes());
    p[9] = proto;
    p[12..16].copy_from_slice(&[src.a, src.b, src.c, src.d]);
    p[16..20].copy_from_slice(&[dst.a, dst.b, dst.c, dst.d]);
    p.extend_from_slice(&l4);
    p.extend_from_slice(body);
    p
}

fn record(pkt: &[u8], ms: u64) -> PacketRecord {
    dissect(ME, pkt, ms).unwrap().0
}

#[test]
fn addresses_are_read_and_written() {
    assert_eq!(parse_ipv4(" 192.168.0.7 "), Some(ME));
    assert_eq!(ME.to_text(), "192.168.0.7");
    for s in ["", "1.2.3", "1.2.3.4.5", "256.1.1.1", "1..2.3", "01.2.3.4", "+1.2.3.4", "a.b.c.d",
        "1.2.3.4x", "-1.2.3.4", "1.2.3.0004", "1. 2.3.4", "1.2.3.", ".1.2.3"]
    {
        assert_eq!(parse_ipv4(s), None);
    }
    for s in ["0.0.0.0", "255.255.255.255", "10.0.20.100"] {
        assert_eq!(parse_ipv4(s).map(|i| i.to_text()), Some(s.to_string()));
    }
}

#[test]
fn protocols_have_names() {
    assert_eq!(proto_label(6), "TCP");
    assert_eq!(proto_label(17), "UDP");
    assert_eq!(proto_label(1), "ICMP");
    assert_eq!(proto_label(2), "IP");
}

#[test]
fn table_rows_are_in_network_order() {
    assert_eq!(ntohs(0x0000_bb01), 443);
    assert_eq!(ntohs(0xffff_5000), 80);
    assert_eq!(dword_ip(0x0700_a8c0), ME);
}

#[test]
fn packets_are_taken_apart() {
    let out = packet(6, ME, 5000, OTHER, 443, b"x");
    let (r, k) = dissect(ME, &out, 12).unwrap();
    assert!(r.outbound);
    assert_eq!((r.proto, r.src_port, r.dst_port, r.total_len, r.ts_ms), (6, 5000, 443, 41, 12));
    assert_eq!(r.data, out);
    assert_eq!(r.proto_name(), "TCP");
    assert_eq!(k, ConvKey { proto: 6, local_port: 5000, remote_ip: OTHER, remote_port: 443 });
    let back = packet(6, OTHER, 443, ME, 5000, b"y");
    let (r, k2) = dissect(ME, &back, 13).unwrap();
    assert!(!r.outbound);
    assert_eq!(k2, k);
    let third = Ipv4Addr { a: 239, b: 1, c: 1, d: 1 };
    let (r, k) = dissect(ME, &packet(17, OTHER, 9, third, 10, b""), 0).unwrap();
    assert!(!r.outbound);
    assert_eq!(k, ConvKey { proto: 17, local_port: 9, remote_ip: third, remote_port: 10 });
    let (r, _) = dissect(ME, &packet(1, ME, 0, OTHER, 0, &[8, 0, 1, 2]), 0).unwrap();
    assert_eq!((r.src_port, r.dst_port), (0, 0));
}

#[test]
fn what_is_no_packet_is_left() {
    let good = packet(6, ME, 1, OTHER, 2, b"");
    assert!(dissect(ME, &good[..19], 0).is_none());
    let mut v6 = good.clone();
    v6[0] = 0x65;
    assert!(dissect(ME, &v6, 0).is_none());
    let mut short = good.clone();
    short[0] = 0x44;
    assert!(dissect(ME, &short, 0).is_none());
    let mut long = good[..24].to_vec();
    long[0] = 0x47;
    assert!(dissect(ME, &long, 0).is_none());
    let (r, _) = dissect(ME, &good[..22], 0).unwrap();
    assert_eq!((r.src_port, r.dst_port), (0, 0));
}

#[test]
fn long_packets_are_cut() {
    let p = packet(17, ME, 1, OTHER, 2, &vec![7; 5000]);
    let r = record(&p, 0);
    assert_eq!(r.data.len(), MAX_PKT_BYTES);
    assert_eq!(r.total_len as usize, p.len());
}

fn index() -> capture::ProcIndex {
    let tcp = [
        TcpRow { local_port: 0x8813, remote_addr: 0x0404_0808, remote_port: 0xbb01, pid: 50 },
        TcpRow { local_port: 0x8813, remote_addr: 0, remote_port: 0, pid: 60 },
        TcpRow { local_port: 0x5000, remote_addr: 0, remote_port: 0, pid: 61 },
        TcpRow { local_port: 0x5000, remote_addr: 0x0404_0808, remote_port: 0xbb01, pid: 62 },
    ];
    let udp = [UdpRow { local_port: 0x3500, pid: 70 }, UdpRow { local_port: 0x3500, pid: 71 }];
    let names = [(50, "old.exe".to_string()), (50, "game.exe".to_string())];
    refresh_proc_index(&tcp, &udp, &names)
}

#[test]
fn owners_are_looked_up() {
    let idx = index();
    let key = |proto, local_port, remote_port| ConvKey { proto, local_port, remote_ip: OTHER, remote_port };
    assert_eq!(lookup_pid(&idx, key(6, 5000, 443)), Some((50, "game.exe".to_string())));
    assert_eq!(lookup_pid(&idx, key(6, 5000, 80)), Some((50, "game.exe".to_string())));
    assert_eq!(lookup_pid(&idx, key(6, 80, 443)), Some((62, "pid 62".to_string())));
    assert_eq!(lookup_pid(&idx, key(6, 80, 1)), Some((61, "pid 61".to_string())));
    assert_eq!(lookup_pid(&idx, key(6, 81, 1)), None);
    assert_eq!(lookup_pid(&idx, key(17, 53, 1)), Some((70, "pid 70".to_string())));
    assert_eq!(lookup_pid(&idx, key(17, 5000, 443)), None);
    assert_eq!(lookup_pid(&idx, key(1, 5000, 443)), None);
}

#[test]
fn conversations_are_counted() {
    let mut c = CaptureShared::new();
    c.ingest(ME, &packet(6, ME, 5000, OTHER, 443, b"abc"), 5);
    assert_eq!((c.convs[0].pid, c.convs[0].process.as_str()), (0, ""));
    c.proc_index = index();
    c.ingest(ME, &packet(6, OTHER, 443, ME, 5000, b""), 9);
    c.ingest(ME, &packet(17, ME, 53, OTHER, 53, b""), 10);
    c.ingest(ME, b"no packet", 11);
    assert_eq!(c.convs.len(), 2);
    let k = c.convs[0].key();
    assert_eq!((c.convs[0].packets, c.convs[0].bytes, c.convs[0].last_ms), (2, 83, 9));
    assert_eq!((c.convs[0].pid, c.convs[0].process.as_str()), (50, "game.exe"));
    assert_eq!(c.convs[0].proto_name(), "TCP");
    assert_eq!((c.convs[1].pid, c.convs[1].process.as_str()), (70, "pid 70"));
    assert_eq!((c.total_packets, c.total_bytes), (3, 83 + 28));
    let kept = c.packets_of(k);
    assert_eq!(kept.iter().map(|p| p.ts_ms).collect::<Vec<u64>>(), vec![5, 9]);
    let stranger = ConvKey { proto: 6, local_port: 1, remote_ip: OTHER, remote_port: 1 };
    assert!(c.packets_of(stranger).is_empty());
    assert_eq!(c.find(stranger), None);
}

#[test]
fn the_oldest_packets_go_first() {
    let mut c = CaptureShared::new();
    let p = packet(6, ME, 5000, OTHER, 443, b"");
    for ms in 0..MAX_PKTS_PER_CONV as u64 + 5 {
        c.ingest(ME, &p, ms);
    }
    let kept = c.packets_of(c.convs[0].key());
    assert_eq!(kept.len(), MAX_PKTS_PER_CONV);
    assert_eq!(kept[0].ts_ms, 5);
    assert_eq!(kept.last().unwrap().ts_ms, MAX_PKTS_PER_CONV as u64 + 4);
}

#[test]
fn there_is_room_for_so_many_conversations() {
    let mut c = CaptureShared::new();
    for port in 0..MAX_CONVS as u16 + 3 {
        c.ingest(ME, &packet(17, ME, port, OTHER, 1, b""), 0);
    }
    assert_eq!(c.convs.len(), MAX_CONVS);
    assert_eq!(c.rings.len(), MAX_CONVS);
    assert_eq!(c.total_packets, MAX_CONVS as u64 + 3);
}

#[test]
fn waiting_for_packets() {
    assert_eq!(received(-1, 10060), Received::Idle);
    assert_eq!(received(-1, 5), Received::Failed(5));
    assert_eq!(received(0, 0), Received::Idle);
    assert_eq!(received(60, 0), Received::Packet(60));
}

#[test]
fn a_capture_says_how_it_is() {
    let mut h = capture::start();
    assert_eq!(h.status(), "iniciando…");
    assert!(h.shared.running);
    h.opened(ME);
    assert_eq!(h.status(), "capturando em 192.168.0.7");
    h.failed(&CaptureError::Bind(ME, 10049));
    assert_eq!(
        h.status(),
        "erro: bind(192.168.0.7) falhou (erro 10049). Use o IP de uma placa de rede real."
    );
    assert!(!h.shared.running);
    let mut h = capture::start();
    h.stop();
    assert!(!h.shared.running);
    assert_eq!(CaptureError::Startup.to_text(), "WSAStartup falhou");
    assert_eq!(CaptureError::Socket("x".to_string()).to_text(), "socket() falhou: x");
    assert_eq!(CaptureError::SocketCode(-3).to_text(), "socket() falhou (erro -3)");
    assert_eq!(
        CaptureError::Promiscuous(1).to_text(),
        "SIO_RCVALL falhou (erro 1). Rode como Administrador."
    );
    assert_eq!(CaptureError::Receive(2).to_text(), "recv falhou (erro 2)");
}

#[test]
fn payloads_lie_behind_the_headers() {
    let tcp = record(&packet(6, ME, 1, OTHER, 2, b"hello"), 0);
    assert_eq!(dump::capture_l4_payload(&tcp), b"hello");
    let udp = record(&packet(17, ME, 1, OTHER, 2, b"hi"), 0);
    assert_eq!(dump::capture_l4_payload(&udp), b"hi");
    let icmp = record(&packet(1, ME, 0, OTHER, 0, b"ping"), 0);
    assert_eq!(dump::capture_l4_payload(&icmp), b"ping");
    let mut far = record(&packet(6, ME, 1, OTHER, 2, b"hello"), 0);
    far.data[20 + 12] = 0xf0;
    assert_eq!(dump::capture_l4_payload(&far), b"");
    let cut = record(&packet(6, ME, 1, OTHER, 2, b"")[..30], 0);
    assert_eq!(dump::capture_l4_payload(&cut), b"");
    let cut = record(&packet(17, ME, 1, OTHER, 2, b"")[..26], 0);
    assert_eq!(dump::capture_l4_payload(&cut), b"");
}

#[test]
fn plain_http_is_recognised() {
    let line = |b: &[u8]| dump::http_first_line(b);
    assert_eq!(line(b"GET /a HTTP/1.1\r\nHost: x"), Some("GET /a HTTP/1.1".to_string()));
    assert_eq!(line(b"HTTP/1.1 200 OK\nX"), Some("HTTP/1.1 200 OK".to_string()));
    assert_eq!(line(b"DELETE"), Some("DELETE".to_string()));
    assert_eq!(line(b"GETX"), None);
    assert_eq!(line(b"get /"), None);
    assert_eq!(line(b""), None);
    let long = [b"POST ".to_vec(), vec![b'a'; 300]].concat();
    assert_eq!(line(&long).unwrap().len(), 120);
    assert_eq!(line(b"PUT \xff\r\n"), Some("PUT \u{fffd}".to_string()));
    assert_eq!(dump::line_of("   "), None);
    assert_eq!(dump::line_of(" a b "), Some("a b".to_string()));
}

#[test]
fn packets_are_described() {
    let p = record(&packet(6, ME, 5000, OTHER, 443, b""), 12_345);
    let pin = dump::pinned_from(&p);
    assert_eq!(pin.label, "▲ TCP 192.168.0.7:5000→8.8.4.4:443 · 12.345s · 40B");
    assert_eq!(pin.rec.data, p.data);
    assert_eq!(dump::packet_line(&p), "▲  12.345s  TCP  40 B");
    let old = record(&packet(17, OTHER, 53, ME, 9, b""), 123_456_789);
    assert_eq!(dump::packet_line(&old), "▼ 123456.789s  UDP  28 B");
    assert_eq!(dump::packet_route(&p), "OUT TCP  192.168.0.7:5000 → 8.8.4.4:443");
    assert_eq!(dump::packet_route(&old), "IN  UDP  8.8.4.4:53 ← 192.168.0.7:9");
    assert_eq!(dump::packet_timing(&p), "len 40 B · t=12.345s");
    let mut times = vec![0u64, 1, 999, 1000, 59_999, 86_400_001, 1 << 45, u64::MAX];
    // From about 8.8e15 ms on, not every millisecond has a floating-point number of its own.
    let mut x = 8_796_093_022_207_990u64;
    while x < u64::MAX / 2 {
        for k in 0..40 {
            times.push(x + k);
        }
        x += x / 3;
    }
    for k in 0..2000 {
        times.push(9_007_199_254_740_992_000 - 1000 + k);
        times.push(18_014_398_509_481_984_000 - 1000 + k);
        times.push(8_796_093_022_208_000 + 7 * k);
    }
    for ms in times {
        let mut s = String::new();
        dump::push_seconds(&mut s, ms);
        assert_eq!(s, format!("{:.3}", ms as f64 / 1000.0));
    }
}

#[test]
fn packets_come_with_hints() {
    let http = record(&packet(6, ME, 1, OTHER, 80, b"GET / HTTP/1.0\r\n"), 0);
    assert!(matches!(dump::packet_hint(&http), dump::PacketHint::Http(s) if s == "GET / HTTP/1.0"));
    let tls = record(&packet(6, ME, 1, OTHER, 443, b"\x16\x03"), 0);
    assert!(matches!(dump::packet_hint(&tls), dump::PacketHint::Tls));
    let quic = record(&packet(17, ME, 1, OTHER, 443, b"\x16\x03"), 0);
    assert!(matches!(dump::packet_hint(&quic), dump::PacketHint::Nothing));
}

#[test]
fn capture_files_have_the_classic_format() {
    let mut p = record(&packet(17, ME, 1, OTHER, 2, b"ab"), 61_234);
    let q = record(&packet(1, ME, 1, OTHER, 2, b""), 7);
    p.total_len = 900;
    let f = write_pcap(&[p, q]);
    assert_eq!(&f[..24], &[
        0xd4, 0xc3, 0xb2, 0xa1, 2, 0, 4, 0, 0, 0, 0, 0, 0, 0, 0, 0, 0xff, 0xff, 0, 0, 101, 0, 0, 0
    ]);
    assert_eq!(&f[24..40], &[61, 0, 0, 0, 0x10, 0x92, 3, 0, 30, 0, 0, 0, 0x84, 3, 0, 0]);
    assert_eq!(f.len(), 24 + 16 + 30 + 16 + 20);
    assert_eq!(&f[70..78], &[0, 0, 0, 0, 0x58, 0x1b, 0, 0]);
    assert_eq!(write_pcap(&[]).len(), 24);
}

fn busy_capture() -> CaptureShared {
    let mut c = CaptureShared::new();
    c.proc_index = index();
    c.ingest(ME, &packet(17, ME, 53, OTHER, 53, b"q"), 1000);
    c.ingest(ME, &packet(6, ME, 5000, OTHER, 443, b"abc"), 500);
    c.ingest(ME, &packet(6, ME, 5000, OTHER, 80, b"abcdef"), 2000);
    c.ingest(ME, &packet(1, ME, 0, OTHER, 0, b"p"), 1500);
    c
}

#[test]
fn sessions_keep_what_was_captured() {
    let c = busy_capture();
    let s = snapshot_session(&c, "192.168.0.7", "Captura 1".to_string());
    assert_eq!(s.convs.len(), 4);
    assert_eq!((s.total_packets, s.total_bytes), (c.total_packets, c.total_bytes));
    assert_eq!(
        s.hover(),
        format!("interface 192.168.0.7 · 4 conversas · 4 pacotes · {} B", c.total_bytes)
    );
    assert_eq!(s.file_name(), "quarry-captura-1.pcap");
    let times: Vec<u64> = s.by_time().iter().map(|p| p.ts_ms).collect();
    assert_eq!(times, vec![500, 1000, 1500, 2000]);
    let k = c.convs[1].key();
    assert_eq!(s.packets_of(k).len(), 1);
    assert_eq!(s.packets_of(k)[0].ts_ms, 500);
    let stranger = ConvKey { proto: 6, local_port: 1, remote_ip: OTHER, remote_port: 1 };
    assert!(s.packets_of(stranger).is_empty());
}

#[test]
fn processes_are_counted_together() {
    let c = busy_capture();
    let rows = process_rows(&c.convs);
    let seen: Vec<(u32, usize, u64, u64)> =
        rows.iter().map(|r| (r.pid, r.convs, r.packets, r.last_ms)).collect();
    assert_eq!(seen, vec![(50, 2, 2, 2000), (70, 1, 1, 1000), (0, 1, 1, 1500)]);
    assert_eq!(rows[0].bytes, 43 + 46);
    assert_eq!(rows[0].shown_name(), "game.exe");
    assert_eq!(rows[2].shown_name(), "(desconhecido)");
    assert_eq!(rows[2].shown_pid(), "—");
    assert_eq!(rows[1].shown_pid(), "70");
    assert!(rows[0].passes("GAME") && rows[0].passes("5") && rows[0].passes(""));
    assert!(!rows[0].passes("7"));
    assert_eq!(rows.iter().map(|r| r.convs).sum::<usize>(), c.convs.len());
    assert_eq!(processes_line(3, 4, 4, 2048), "3 processos · 4 conversas · 4 pacotes · 2.0 KB");
}

#[test]
fn conversations_of_a_process_are_listed() {
    let c = busy_capture();
    assert_eq!(conversation_rows(&c.convs, 50), vec![2, 1]);
    assert_eq!(conversation_rows(&c.convs, 9), Vec::<usize>::new());
    assert!(conv_accepts(&c.convs[1], "4.4:44"));
    assert!(conv_accepts(&c.convs[1], "TCP") && conv_accepts(&c.convs[1], "500"));
    assert!(!conv_accepts(&c.convs[1], "udp"));
    assert_eq!(trail_process(&c.convs, 50), "game.exe");
    assert_eq!(trail_process(&c.convs, 0), "(desconhecido)");
    assert_eq!(trail_process(&c.convs, 123), "pid 123");
    assert_eq!(trail_conversation(c.convs[1].key()), "TCP :5000 ↔ 8.8.4.4:443");
}

#[test]
fn the_capture_page_goes_in_and_out() {
    let c = busy_capture();
    let mut pane = CapturePane::new(Some(ME));
    assert_eq!(pane.iface, "192.168.0.7");
    assert_eq!(pane.source(), Shows::Nothing);
    pane.iface = "x".to_string();
    assert_eq!(pane.begin(), (None, "IP da interface inválido.".to_string()));
    assert!(!pane.running);
    pane.iface = " 192.168.0.7".to_string();
    assert_eq!(pane.begin(), (Some(ME), "Captura iniciada em 192.168.0.7.".to_string()));
    assert_eq!(pane.source(), Shows::Live);
    pane.open_process(Some(50));
    assert_eq!(pane.level(), Level::Conversations(50));
    let k = c.convs[1].key();
    pane.open_conversation(Some(k));
    pane.open_packet(3);
    assert_eq!(pane.level(), Level::Packets(k));
    assert_eq!(pane.opened_packet(4), Some(3));
    assert_eq!(pane.opened_packet(3), None);
    pane.open_conversation(None);
    assert_eq!((pane.trail.pid, pane.trail.conv, pane.trail.pkt), (Some(50), None, None));
    assert_eq!(pane.end(&c), "Captura parada e salva (4 pacotes).");
    assert_eq!(pane.source(), Shows::Session(0));
    assert_eq!(pane.level(), Level::Processes);
    assert_eq!(pane.sessions[0].name, "Captura 1");
    assert_eq!(pane.sessions[0].packets.len(), pane.sessions[0].convs.len());
    assert_eq!(pane.sessions[0].packets_of(k).len(), c.packets_of(k).len());
    pane.end(&c);
    assert_eq!(pane.sessions[1].name, "Captura 2");
    pane.show(Some(0));
    pane.remove_session();
    assert_eq!(pane.sessions.len(), 1);
    assert_eq!(pane.sessions[0].name, "Captura 2");
    assert_eq!(pane.source(), Shows::Nothing);
    pane.remove_session();
    assert_eq!(pane.sessions.len(), 1);
    assert_eq!(CapturePane::new(None).iface, "");
}

#[test]
fn evidence_is_kept() {
    let c = busy_capture();
    let p = c.packets_of(c.convs[1].key());
    let mut pane = CapturePane::new(None);
    pane.pin(&p[0]);
    pane.drop_pin(dump::pinned_from(&p[0]));
    assert_eq!(pane.pinned_sel, Some(1));
    assert_eq!(pane.pinned_packets().len(), 2);
    pane.remove_pin(0);
    assert_eq!(pane.pinned_sel, Some(1));
    pane.open_pin(0);
    pane.remove_pin(0);
    assert_eq!(pane.pinned_sel, None);
    assert!(pane.pinned.is_empty());
    pane.pin(&p[0]);
    pane.open_pin(0);
    pane.clear_pins();
    assert!(pane.pinned.is_empty() && pane.pinned_sel.is_none());
    assert!(packets_line(3).starts_with("3 pacotes (mantém os 200 mais recentes)."));
}
