use quarry::debugger::{BreakKind, WriteHit};
use quarry::disasm::disassemble;
use quarry::entries::SavedEntry;
use quarry::inject::ModuleInfo;
use quarry::injectpane::{
    library_status, nops_status, patch_status, pattern_status, InjectAction, InjectClick,
    InjectPane, LoadOutcome, PatternStart,
};
use quarry::lcupane::{shortcuts, LcuConn, LcuPane, LcuPoll, LcuResponse};
use quarry::pointer::PtrPath;
use quarry::pointerpane::{lead_text, PointerPane};
use quarry::proxypane::{
    flow_heading, intercept_label, new_rule, pending_heading, status_label, waiting_text,
    Decision, FlowRecord, InterceptClick, InterceptKind, Pending, ProxyPane, ProxyView,
    RepeaterPoll, RepeaterResponse,
};
use quarry::route::{Detection, NavEvent, Navigation, Protection, Section, Tab};
use quarry::scan::{Known, Match, ScanKind};
use quarry::scanpane::{
    progress_line, results_line, FirstStart, NextStart, Patterns, ScanPane, SHOWN_RESULTS,
};
use quarry::snapshot::Snapshot;
use quarry::table::TableError;
use quarry::tablepane::{
    address_label, aim_pointer_scan, count_label, loaded_status, open_viewer, push_entry,
    remove_entry, saved_status, script_result, write_plan, write_status, WritePlan,
};
use quarry::value::ValueType;
use quarry::viewer::{
    add_table_entry, code_start, hit_row, nop_status, writer_of, MvView, ViewerPane, WatchPlan,
};

const NONE: Patterns = Patterns { first: None, second: None };

fn typed(text: &str) -> ScanPane {
    let mut p = ScanPane::new();
    p.value_text = text.to_string();
    p
}

#[test]
fn the_search_page_starts_with_integers() {
    let p = ScanPane::new();
    assert_eq!((p.value_type, p.scan_kind, p.fast_scan), (ValueType::I32, ScanKind::Exact, true));
    assert_eq!(p.status, "Nenhum processo anexado.");
    assert_eq!(p.value_label(), "Valor:");
    assert_eq!(p.fields(), (true, false));
    assert_eq!(p.buttons(true), (true, false, true, true));
    assert_eq!(p.buttons(false), (false, false, true, false));
}

#[test]
fn the_search_page_follows_the_kind() {
    let mut p = ScanPane::new();
    p.scan_kind = ScanKind::Between;
    assert_eq!((p.value_label(), p.fields()), ("De:", (true, true)));
    p.scan_kind = ScanKind::Changed;
    assert_eq!(p.fields(), (false, false));
    p.settle_kind();
    assert_eq!(p.scan_kind, ScanKind::Changed);
    p.value_type = ValueType::StringUtf8;
    p.settle_kind();
    assert_eq!(p.scan_kind, ScanKind::Exact);
    assert_eq!((p.value_label(), p.fields()), ("Texto:", (true, false)));
    assert_eq!(p.buttons(true), (true, false, true, false));
}

#[test]
fn comparisons_are_built() {
    let mut p = typed("12");
    let c = p.build_cmp(NONE).unwrap();
    assert_eq!((c.kind, c.t1_i, c.t2_i, c.t1_f), (ScanKind::Exact, 12, 0, 12.0f64.to_bits()));
    p.scan_kind = ScanKind::Between;
    assert_eq!(p.build_cmp(NONE), None);
    p.value_text2 = "-3".to_string();
    assert_eq!(p.build_cmp(NONE).unwrap().t2_i, -3);
    p.scan_kind = ScanKind::Decreased;
    p.value_text = "?".to_string();
    assert_eq!(p.build_cmp(NONE).unwrap().t1_i, 0);
    p.scan_kind = ScanKind::Exact;
    assert_eq!(p.build_cmp(NONE), None);
    p.value_type = ValueType::F32;
    let bits = Patterns { first: Some(2.5f32.to_bits() as u64), second: None };
    let c = p.build_cmp(bits).unwrap();
    assert_eq!((c.t1_i, c.t1_f), (0, 2.5f64.to_bits()));
}

#[test]
fn first_searches_start_or_say_why_not() {
    let mut p = typed("5");
    assert!(matches!(p.do_first_scan(false, NONE), FirstStart::Nothing));
    assert_eq!(p.status, "Anexe um processo primeiro.");
    p.fast_scan = false;
    assert!(matches!(p.do_first_scan(true, NONE), FirstStart::Value(c) if c.t1_i == 5));
    assert_eq!((p.task, p.status.as_str(), p.scanner.fast_scan), (Some(false), "First scan em andamento...", false));
    assert!(matches!(p.do_first_scan(true, NONE), FirstStart::Nothing));
    assert_eq!(p.buttons(true), (false, false, false, false));
    let mut p = typed("x");
    p.do_first_scan(true, NONE);
    assert_eq!(p.status, "Valor invalido para o tipo selecionado.");
    p.scan_kind = ScanKind::Changed;
    p.do_first_scan(true, NONE);
    assert!(p.status.starts_with("Comparacoes relativas"));
    assert_eq!(p.task, None);
    let mut p = typed("");
    p.value_type = ValueType::StringUtf16;
    p.do_first_scan(true, NONE);
    assert_eq!(p.status, "Digite um texto para procurar.");
    p.value_text = "a".to_string();
    assert!(matches!(p.do_first_scan(true, NONE), FirstStart::Text(b) if b == vec![0x61, 0]));
    assert_eq!(p.status, "First scan (texto) em andamento...");
}

#[test]
fn results_are_taken_over() {
    let mut p = typed("5");
    p.poll_scan_task(Some(vec![]));
    assert!(!p.scanner.has_scanned);
    p.do_first_scan(true, NONE);
    p.poll_scan_task(Some(vec![Match { address: 9, last: Known::Int(5) }]));
    assert_eq!((p.status.as_str(), p.task), ("First scan: 1 resultados.", None));
    assert!(p.scanner.has_scanned);
    assert_eq!(p.shown(), vec![9]);
    p.value_text = "6".to_string();
    match p.do_next_scan(true, NONE) {
        NextStart::Value(m, c) => assert_eq!((m.len(), c.t1_i), (1, 6)),
        _ => panic!("no search"),
    }
    assert!(p.scanner.matches.is_empty());
    assert_eq!(p.status, "Next scan em andamento...");
    p.poll_scan_task(None);
    assert_eq!(p.status, "Busca interrompida (thread encerrou).");
    p.task = Some(true);
    p.poll_scan_task(Some(vec![]));
    assert_eq!(p.status, "Next scan: 0 resultados.");
    p.new_search();
    assert_eq!((p.status.as_str(), p.scanner.has_scanned), ("Busca limpa.", false));
}

#[test]
fn next_searches_need_a_first_one() {
    let mut p = typed("5");
    assert!(matches!(p.do_next_scan(true, NONE), NextStart::Nothing));
    assert_eq!(p.status, "Faca um First Scan antes.");
    p.scanner.has_scanned = true;
    let before = p.status.clone();
    assert!(matches!(p.do_next_scan(false, NONE), NextStart::Nothing));
    assert_eq!(p.status, before);
    p.value_text = "x".to_string();
    p.do_next_scan(true, NONE);
    assert_eq!(p.status, "Valor invalido.");
    p.value_type = ValueType::StringUtf8;
    p.scanner.matches = vec![Match { address: 1, last: Known::Float(0) }];
    match p.do_next_scan(true, NONE) {
        NextStart::Text(m, b) => assert_eq!((m.len(), b), (1, b"x".to_vec())),
        _ => panic!("no search"),
    }
    assert_eq!(p.status, "Next scan (texto) em andamento...");
    p.task = None;
    p.value_text = String::new();
    p.do_next_scan(true, NONE);
    assert_eq!(p.status, "Digite um texto para procurar.");
}

#[test]
fn pictures_are_taken_and_compared() {
    let mut p = typed("");
    assert!(!p.do_unknown_first(false));
    assert_eq!(p.status, "Anexe um processo primeiro.");
    p.value_type = ValueType::StringUtf8;
    assert!(!p.do_unknown_first(true));
    assert_eq!(p.status, "Valor desconhecido não se aplica a strings.");
    p.value_type = ValueType::I32;
    assert!(p.do_unknown_first(true));
    assert_eq!(p.status, "Capturando snapshot (valor desconhecido)…");
    assert!(!p.do_unknown_first(true));
    p.poll_unknown_task(Some(Snapshot { regions: vec![(0, vec![1]), (8, vec![2])] }));
    assert_eq!(
        p.status,
        "Snapshot capturado (2 regiões). Mude o valor no jogo e use Next Scan (mudou/aumentou/diminuiu…)."
    );
    assert!(p.scanner.has_scanned && p.snapshot.is_some() && !p.picturing);
    p.do_next_scan(true, NONE);
    assert_eq!(p.status, "Valor invalido.");
    assert!(p.snapshot.is_some());
    p.scan_kind = ScanKind::Changed;
    assert!(matches!(p.do_next_scan(true, NONE), NextStart::Picture(s, _) if s.regions.len() == 2));
    assert_eq!(p.status, "Next scan (valor desconhecido) em andamento…");
    assert!(p.snapshot.is_none());
    let mut p = typed("");
    p.do_unknown_first(true);
    p.poll_unknown_task(None);
    assert_eq!(p.status, "Snapshot interrompido.");
}

#[test]
fn results_are_shown_up_to_a_number() {
    let mut p = typed("olá");
    p.scanner.matches =
        (0..1500u64).map(|a| Match { address: a, last: Known::Int(0) }).collect();
    assert_eq!(p.shown().len(), SHOWN_RESULTS);
    assert_eq!(p.read_len(NONE), 4);
    p.value_type = ValueType::StringUtf8;
    assert_eq!(p.read_len(NONE), 4);
    let e = p.to_entry(7, NONE);
    assert_eq!((e.address, e.str_len, e.value_type), (7, 4, ValueType::StringUtf8));
    p.value_type = ValueType::F64;
    assert_eq!((p.read_len(NONE), p.to_entry(7, NONE).str_len), (8, 0));
    assert_eq!(results_line(1500), "Resultados: 1500 (mostrando ate 1000)");
    assert_eq!(progress_line(3, "encontrados"), "3 encontrados");
}

fn chain(module: &str) -> PtrPath {
    PtrPath { module: module.to_string(), base_offset: 0x10, offsets: vec![8] }
}

#[test]
fn pointer_searches_have_usual_values() {
    let mut p = PointerPane::new();
    assert_eq!(p.do_pointer_scan(false), (None, Some("Anexe um processo primeiro.")));
    assert_eq!(p.do_pointer_scan(true), (None, Some("Endereco alvo invalido (use hex).")));
    p.target_text = "0xABC".to_string();
    let q = p.params().unwrap();
    assert_eq!((q.target, q.max_offset, q.max_depth, q.alignment, q.max_results), (0xabc, 2048, 4, 4, 5000));
    p.max_offset_text = " 100 ".to_string();
    p.depth_text = "99".to_string();
    p.align_text = "0".to_string();
    let q = p.params().unwrap();
    assert_eq!((q.max_offset, q.max_depth, q.alignment), (100, 8, 1));
    p.max_offset_text = "x".to_string();
    p.depth_text = "0".to_string();
    p.align_text = "-1".to_string();
    let q = p.params().unwrap();
    assert_eq!((q.max_offset, q.max_depth, q.alignment), (2048, 1, 4));
    let (start, said) = p.do_pointer_scan(true);
    assert!(start.is_some() && p.running);
    assert_eq!(said, Some("Pointer scan em andamento..."));
    assert_eq!(p.do_pointer_scan(true), (None, None));
    assert_eq!(
        p.poll_ptr_task(Some(vec![chain("a")])),
        Some("Pointer scan: 1 cadeias encontradas.".to_string())
    );
    assert_eq!(p.poll_ptr_task(None), None);
    p.running = true;
    assert_eq!(p.poll_ptr_task(None), Some("Pointer scan interrompido.".to_string()));
    assert_eq!(p.results.len(), 1);
}

#[test]
fn chains_are_validated() {
    let mut p = PointerPane::new();
    p.results = vec![chain("a"), chain("b"), chain("c")];
    let leads = vec![Some(5), None, Some(6)];
    assert_eq!(
        p.validate_chains(5, &leads),
        "Validação: 1 de 3 cadeias resolvem para 0000000000000005."
    );
    assert_eq!(p.results[0].module, "a");
    assert_eq!(p.validate_chains(5, &vec![Some(5)]), "Validação: 1 de 1 cadeias resolvem para 0000000000000005.");
    assert_eq!(p.validation_target(true), Err("Endereço de validação inválido (hex)."));
    p.validate_text = "ff".to_string();
    assert_eq!(p.validation_target(true), Ok(255));
    assert_eq!(
        p.validation_target(false),
        Err("Anexe o processo (reaberto) antes de validar.")
    );
    assert!(p.found_line().starts_with("Cadeias encontradas: 1 (mostrando até 500)."));
    let e = p.to_entry(0, ValueType::I64).unwrap();
    assert_eq!(e.desc, "ptr a");
    assert!(p.to_entry(1, ValueType::I64).is_none());
    assert_eq!(lead_text(Some(0xab)), "→ AB");
    assert_eq!(lead_text(None), "→ ?");
    p.clear();
    assert!(p.results.is_empty());
}

#[test]
fn the_viewer_moves() {
    let mut v = ViewerPane::new();
    assert_eq!(v.base(), None);
    v.shift(true);
    assert_eq!(v.addr_text, "");
    v.goto(0x1000);
    v.shift(true);
    assert_eq!(v.addr_text, "1080");
    v.shift(false);
    v.shift(false);
    assert_eq!(v.addr_text, "F80");
    v.goto(0);
    v.shift(false);
    assert_eq!(v.base(), Some(0u64.wrapping_sub(0x80)));
    v.goto_code(5);
    assert_eq!((v.view, v.base()), (MvView::Disasm, Some(5)));
}

#[test]
fn watches_start_or_say_why_not() {
    let mut v = ViewerPane::new();
    let (p, s) = v.start_watch(0x10, ValueType::I32, true, true);
    assert_eq!((p, s.as_str()), (None, "Bloqueado: anticheat kernel detectado."));
    let (p, s) = v.start_watch(0x10, ValueType::I32, false, false);
    assert_eq!((p, s.as_str()), (None, "Anexe um processo primeiro."));
    let (p, s) = v.start_watch(0x10, ValueType::I32, false, true);
    assert_eq!(p, Some(WatchPlan { addr: 0x10, size: 4, kind: BreakKind::Write }));
    assert_eq!(s, "Monitorando 0000000000000010… interaja com o jogo para coletar.");
    assert!(v.watching);
    v.watch_access = true;
    let (p, _) = v.start_watch(0x10, ValueType::StringUtf8, false, true);
    assert_eq!(p, Some(WatchPlan { addr: 0x10, size: 1, kind: BreakKind::Access }));
    assert_eq!(v.stop_watch(), "Watch encerrado.");
    assert!(!v.watching);
}

#[test]
fn touches_are_shown_with_their_instruction() {
    let hit = WriteHit { rip: 0x1005, count: 2 };
    assert_eq!(code_start(hit), 0xff5);
    assert_eq!(code_start(WriteHit { rip: 3, count: 1 }), 0);
    let mut code = vec![0x90u8; 16];
    code[15] = 0xc3;
    let w = writer_of(hit, Some(&code));
    assert_eq!(hit_row(hit, w), (0x1004, "0000000000001004  ret".to_string()));
    assert!(writer_of(hit, None).is_none());
    assert_eq!(hit_row(hit, None), (0x1005, "0000000000001005  ? (anterior ao RIP)".to_string()));
    assert_eq!(disassemble(&code, 0xff5, 48).len(), 16);
    assert_eq!(nop_status(0x20, 3, true), "NOP em 0000000000000020 (3 bytes).");
    assert_eq!(nop_status(0x20, 3, false), "Falha ao aplicar NOP.");
    let mut saved: Vec<SavedEntry> = vec![];
    assert_eq!(
        add_table_entry(&mut saved, 0x20, ValueType::StringUtf8),
        "0000000000000020 adicionado à tabela."
    );
    assert_eq!((saved[0].address, saved[0].str_len), (0x20, 16));
}

fn flow(id: u64, url: &str) -> FlowRecord {
    FlowRecord {
        id,
        method: "POST".to_string(),
        url: url.to_string(),
        status: 200,
        req_headers: "H".to_string(),
        req_body: "B".to_string(),
        resp_headers: String::new(),
        resp_body: String::new(),
        req_len: 1,
        resp_len: 2,
    }
}

fn pending(id: u64) -> Pending {
    Pending {
        id,
        kind: InterceptKind::Request,
        method: "GET".to_string(),
        url: "http://x".to_string(),
        status: 0,
        headers: "a: b".to_string(),
        body: "body".to_string(),
    }
}

#[test]
fn the_proxy_needs_a_port() {
    let mut p = ProxyPane::new();
    assert_eq!(p.start(), (Some(8080), "Proxy iniciado na porta 8080.".to_string()));
    assert!(p.running);
    assert_eq!(p.stop(), "Proxy parado.");
    for t in ["", "65536", "x", "-1"] {
        p.port_text = t.to_string();
        assert_eq!(p.start(), (None, "Porta inválida.".to_string()));
    }
    assert!(!p.running);
}

#[test]
fn flows_are_listed_newest_first() {
    let mut p = ProxyPane::new();
    let flows = vec![flow(1, "http://A/x"), flow(2, "http://b"), flow(3, "http://a/y")];
    assert_eq!(p.visible_flows(&flows), vec![2, 1, 0]);
    p.filter = "/A/".to_string();
    assert_eq!(p.visible_flows(&flows), vec![2, 0]);
    assert_eq!(p.selected_flow(&flows), None);
    p.select(Some(2));
    assert_eq!(p.selected_flow(&flows), Some(1));
    p.select(Some(9));
    assert_eq!(p.selected_flow(&flows), None);
    p.repeat_flow(&flows[0]);
    assert_eq!(p.view, ProxyView::Repeater);
    assert_eq!((p.repeater.method.as_str(), p.repeater.headers.as_str()), ("POST", "H"));
    assert_eq!(flow_heading(&flows[1]), "POST http://b  →  200  (1 B req / 2 B resp)");
    assert_eq!((status_label(0), status_label(404)), ("—".to_string(), "404".to_string()));
}

#[test]
fn held_messages_are_edited_and_decided_on() {
    let mut p = ProxyPane::new();
    p.load_pending(&pending(4));
    p.icpt_body = "edited".to_string();
    p.icpt_follow = true;
    p.load_pending(&pending(4));
    assert_eq!(p.icpt_body, "edited");
    assert!(p.decide(InterceptClick::Nothing).is_none());
    assert_eq!(p.icpt_id, Some(4));
    match p.decide(InterceptClick::Forward) {
        Some(Decision::Forward { headers, body, intercept_response }) => {
            assert_eq!((headers.as_str(), body.as_str(), intercept_response), ("a: b", "edited", true))
        }
        _ => panic!("not forwarded"),
    }
    assert_eq!(p.icpt_id, None);
    p.load_pending(&pending(5));
    assert_eq!((p.icpt_body.as_str(), p.icpt_follow), ("body", false));
    assert!(matches!(
        p.decide(InterceptClick::ForwardFollow),
        Some(Decision::Forward { intercept_response: true, .. })
    ));
    p.load_pending(&pending(6));
    assert!(matches!(p.decide(InterceptClick::Drop), Some(Decision::Drop)));
    p.repeat_pending(&pending(6));
    assert_eq!((p.repeater.url.as_str(), p.repeater.body.as_str()), ("http://x", "body"));
    assert_eq!(pending_heading(&pending(1)), "Requisição — GET http://x");
    assert_eq!((intercept_label(0), intercept_label(2)), ("Intercept".to_string(), "Intercept (2)".to_string()));
    assert_eq!((waiting_text(true), waiting_text(false)), ("Aguardando requisição…", "Intercept desligado."));
    let r = new_rule(3u8);
    assert!(r.enabled && !r.is_regex && r.target == 3 && r.pattern.is_empty());
}

#[test]
fn requests_are_sent_again_one_at_a_time() {
    let mut p = ProxyPane::new();
    assert!(!p.send());
    p.running = true;
    assert!(p.send());
    assert!(!p.send());
    p.poll_repeater(RepeaterPoll::Pending);
    assert!(p.repeater.busy);
    p.poll_repeater(RepeaterPoll::Done(RepeaterResponse {
        status: 201,
        headers: "h".to_string(),
        body: "b".to_string(),
    }));
    assert_eq!((p.repeater.busy, p.repeater.status, p.repeater.resp_body.as_str()), (false, 201, "b"));
    p.send();
    p.poll_repeater(RepeaterPoll::Closed);
    assert_eq!((p.repeater.busy, p.repeater.status), (false, 201));
}

#[test]
fn the_client_page_sends_requests() {
    let mut p = LcuPane::new();
    assert!(p.send().is_none());
    assert_eq!(p.conn_line(true), "client não detectado");
    assert_eq!(p.discovered(Err("fechado".to_string()), false), "LCU: fechado");
    let conn = LcuConn { pid: 8, port: 900 };
    assert_eq!(p.discovered(Ok(conn), true), "League Client detectado (pid 8, porta 900).");
    assert_eq!(p.discovered(Ok(conn), false), "LCU detectado (pid 8, porta 900).");
    assert_eq!(p.conn_line(false), "conectado · 127.0.0.1:900 (pid 8)");
    assert_eq!(p.conn_line(true), "client selecionado · pid 8 · 127.0.0.1:900");
    assert!(!p.has_body());
    p.method = "PATCH".to_string();
    p.body = "{}".to_string();
    assert!(p.has_body());
    let q = p.send().unwrap();
    assert_eq!((q.method.as_str(), q.body.as_str(), q.conn), ("PATCH", "{}", conn));
    assert!(p.send().is_none());
    assert_eq!(p.status_line(), None);
    p.poll(LcuPoll::Pending);
    assert!(p.busy);
    p.poll(LcuPoll::Done(Ok(LcuResponse { status: 404, body: "no".to_string() })));
    assert_eq!(p.status_line(), Some((false, "HTTP 404".to_string())));
    p.send();
    p.poll(LcuPoll::Done(Err("caiu".to_string())));
    assert_eq!((p.status, p.resp.as_str(), p.busy), (0, "caiu", false));
    p.send();
    p.poll(LcuPoll::Closed);
    assert!(!p.busy);
    p.take_shortcut(shortcuts()[2].1);
    assert_eq!((p.method.as_str(), p.path.as_str(), p.body.as_str()), ("GET", "/lol-store/v1/wallet", ""));
}

#[test]
fn patterns_patches_and_libraries() {
    let mut p = InjectPane::new();
    let m = |n: &str| ModuleInfo { name: n.to_string(), base: 0, size: 1, path: String::new() };
    assert_eq!(p.list_modules(vec![m("Game.exe"), m("ntdll.dll")]), "2 módulos.");
    p.module_filter = "DLL".to_string();
    assert_eq!(p.visible_modules(), vec![1]);
    assert!(matches!(p.do_aob_scan(false), PatternStart::NoProcess));
    assert!(matches!(p.do_aob_scan(true), PatternStart::Invalid));
    p.aob_text = "90 ??".to_string();
    let s = p.do_aob_scan(true);
    assert_eq!(pattern_status(&s), Some("AOB scan em andamento..."));
    assert!(matches!(s, PatternStart::Search(v) if v == vec![Some(0x90), None]));
    let s = p.do_aob_scan(true);
    assert_eq!(pattern_status(&s), None);
    assert_eq!(pattern_status(&PatternStart::NoProcess), Some("Anexe um processo primeiro."));
    assert_eq!(pattern_status(&PatternStart::Invalid), Some("Padrão AOB inválido."));
    assert_eq!(p.poll_aob_task(Some(vec![1, 2])), Some("AOB: 2 ocorrências.".to_string()));
    assert_eq!(p.poll_aob_task(None), None);
    p.searching = true;
    assert_eq!(p.poll_aob_task(None), Some("AOB scan interrompido.".to_string()));
    p.patch_here(0xabc);
    assert_eq!(p.patch(), None);
    p.patch_bytes_text = "90 90".to_string();
    assert_eq!(p.patch(), Some((0xabc, vec![0x90, 0x90])));
    assert_eq!(p.nops(), Some((0xabc, 1)));
    for (t, n) in [("0", None), ("256", Some(256)), ("257", None), (" 5 ", Some(5)), ("x", None)] {
        p.nop_len_text = t.to_string();
        assert_eq!(p.nops(), n.map(|n| (0xabc, n)));
    }
    assert_eq!(patch_status(Some((0xabc, 2, true))), "Patch de 2 bytes em ABC.");
    assert_eq!(patch_status(Some((0xabc, 2, false))), "Falha no patch.");
    assert_eq!(patch_status(None), "Endereço ou bytes inválidos.");
    assert_eq!(nops_status(Some((0xabc, 2, true))), "2 NOP(s) em ABC.");
    assert_eq!(nops_status(Some((0xabc, 2, false))), "Falha no NOP.");
    assert_eq!(nops_status(None), "Endereço/quantidade inválidos (1..256).");
    assert_eq!(p.library(), None);
    p.dll_path = " C:/a.dll ".to_string();
    assert_eq!(p.library(), Some("C:/a.dll".to_string()));
    assert_eq!(library_status(None), "Arquivo .dll não encontrado.");
    assert_eq!(
        library_status(Some(LoadOutcome::Returned(0xbeef))),
        "DLL injetada (LoadLibrary retornou 0xBEEF)."
    );
    assert!(library_status(Some(LoadOutcome::Returned(0))).contains("LoadLibrary retornou 0 ("));
    assert_eq!(library_status(Some(LoadOutcome::Failed("e".to_string()))), "Falha na injeção: e");
}

#[test]
fn the_table_writes_and_aims() {
    let mut saved: Vec<SavedEntry> = vec![];
    push_entry(&mut saved, SavedEntry::fixed(1, ValueType::U16, 0));
    push_entry(&mut saved, SavedEntry::fixed(2, ValueType::U16, 0));
    saved[1].edit_text = "258".to_string();
    assert!(matches!(write_plan(&saved, 1, Some(2), None, false), WritePlan::Nothing));
    assert!(matches!(write_plan(&saved, 1, None, None, true), WritePlan::Nothing));
    assert!(matches!(write_plan(&saved, 2, Some(2), None, true), WritePlan::Nothing));
    assert!(matches!(write_plan(&saved, 0, Some(1), None, true), WritePlan::Invalid));
    assert!(matches!(write_plan(&saved, 1, Some(2), None, true), WritePlan::Write(2, b) if b == vec![2, 1]));
    assert_eq!(write_status(Some((2, true))), "Escrito em 0000000000000002.");
    assert_eq!(write_status(Some((2, false))), "Falha ao escrever (protecao de memoria?).");
    assert_eq!(write_status(None), "Valor a escrever invalido.");
    assert_eq!(address_label(Some(0xab)), "00000000000000AB");
    assert_eq!(address_label(None), "??? (não resolvido)");
    assert_eq!(count_label(2), "2 entradas");
    remove_entry(&mut saved, 0);
    assert_eq!(saved[0].address, 2);
    let mut nav = Navigation::new();
    let mut ptr = PointerPane::new();
    let mut viewer = ViewerPane::new();
    assert_eq!(
        aim_pointer_scan(&mut nav, &mut ptr, 0xabc),
        "Alvo do pointer scan: ABC. Ajuste e clique Procurar."
    );
    assert_eq!((nav.tab, ptr.target_text.as_str()), (Tab::Pointer, "ABC"));
    open_viewer(&mut nav, &mut viewer, 0xdef);
    assert_eq!((nav.tab, viewer.addr_text.as_str()), (Tab::MemViewer, "DEF"));
}

#[test]
fn files_and_scripts_are_reported() {
    let bad = || TableError::Format("x".to_string());
    assert_eq!(saved_status("t.qct", &Ok(())), "Tabela salva em t.qct.");
    assert_eq!(saved_status("t.qct", &Err(bad())), "Falha ao salvar tabela: formato invalido: x");
    assert_eq!(loaded_status("t.qct", &Ok(3)), "Tabela carregada de t.qct (3 entradas).");
    assert_eq!(loaded_status("t.qct", &Err(bad())), "Falha ao carregar tabela: formato invalido: x");
    let (s, log) = script_result(true, Ok(vec!["a".to_string()]));
    assert_eq!((s.as_str(), log.len()), ("Enable executado (1 passos).", 1));
    let (s, log) = script_result(false, Err("e".to_string()));
    assert_eq!((s.as_str(), log), ("Disable falhou: e", vec!["ERRO: e".to_string()]));
}

#[test]
fn a_protected_target_is_not_changed() {
    let mut p = InjectPane::new();
    let mut nav = Navigation::new();
    let clicks = [
        InjectClick::Patch,
        InjectClick::Nops,
        InjectClick::Library,
        InjectClick::NopAt { addr: 9, len: 2 },
    ];
    for click in &clicks[..3] {
        assert!(matches!(p.act(&nav, *click), InjectAction::Invalid));
    }
    p.patch_here(0x40);
    p.patch_bytes_text = "EB FE".to_string();
    p.nop_len_text = "3".to_string();
    p.dll_path = " a.dll".to_string();
    assert!(matches!(p.act(&nav, clicks[0]), InjectAction::Write(0x40, b) if b == vec![0xeb, 0xfe]));
    assert!(matches!(p.act(&nav, clicks[1]), InjectAction::Write(0x40, b) if b == vec![0x90; 3]));
    assert!(matches!(p.act(&nav, clicks[2]), InjectAction::Load(s) if s == "a.dll"));
    assert!(matches!(p.act(&nav, clicks[3]), InjectAction::Write(9, b) if b == vec![0x90; 2]));
    nav.follow(NavEvent::Attached(Some(Detection {
        protection: Protection::KernelAc("x".to_string()),
        reasons: vec![],
    })));
    for click in clicks {
        assert!(matches!(p.act(&nav, click), InjectAction::Nothing));
    }
}

#[test]
fn the_page_belongs_to_the_part() {
    let mut nav = Navigation::new();
    let mut viewer = ViewerPane::new();
    let kernel = || Detection { protection: Protection::KernelAc("x".to_string()), reasons: vec![] };
    let open = || Detection { protection: Protection::Unprotected, reasons: vec![] };
    let events = [
        NavEvent::Page(Tab::Injecao),
        NavEvent::Page(Tab::Proxy),
        NavEvent::Part(Section::Kernel),
        NavEvent::Page(Tab::Lcu),
        NavEvent::Page(Tab::Busca),
        NavEvent::Part(Section::General),
        NavEvent::Attached(Some(kernel())),
        NavEvent::Attached(None),
        NavEvent::Attached(Some(open())),
        NavEvent::Page(Tab::Pointer),
        NavEvent::Part(Section::General),
    ];
    let tabs = [
        Tab::Injecao,
        Tab::Injecao,
        Tab::KernelOverview,
        Tab::Lcu,
        Tab::Lcu,
        Tab::Busca,
        Tab::KernelOverview,
        Tab::KernelOverview,
        Tab::Busca,
        Tab::Pointer,
        Tab::Pointer,
    ];
    for (event, tab) in events.into_iter().zip(tabs) {
        nav.follow(event);
        assert_eq!(nav.tab, tab);
        assert_eq!(nav.tab.section(), nav.section);
    }
    open_viewer(&mut nav, &mut viewer, 1);
    assert_eq!((nav.tab, nav.tab.section()), (Tab::MemViewer, nav.section));
    nav.follow(NavEvent::Attached(Some(kernel())));
    nav.follow(NavEvent::Attached(None));
    assert!(!nav.injection_blocked());
}
