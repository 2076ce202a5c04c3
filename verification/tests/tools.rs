use quarry::debugger::{
    self, arm_thread, consume_hit, debug_loop, len_code, BreakKind, DebugEvent, DebugRegs,
    EventPlan, WriteHit,
};
use quarry::disasm::{disassemble, fmt_bytes, instruction_ending_at, pick_ending};
use quarry::entries::{
    self, entry_address, freeze_all, from_table, needs_current, rebuild_frozen_targets,
    refresh_module_bases, script_after_load, FrozenAddr, ModuleBases, SavedEntry, Source,
};
use quarry::hotkeys::{self, HotkeyManager};
use quarry::inject::{
    inject_dll, nop, parse_hex_bytes, wide_path_bytes, wide_to_string, write_code, LoadEvent,
    LoadStep, ModuleInfo, WriteEvent, WriteStep,
};
use quarry::pointer::PtrPath;
use quarry::route::{
    attach_failed_status, attached_status, filter_names, freeze_status, hotkey_action,
    repaint_after, tabs_of, target_name, BadgeColor, Detection, HotkeyAction, Navigation,
    Protection, Section, SidePanel, Tab,
};
use quarry::table::{self, TableEntry, TableError, TableFile};
use quarry::value::ValueType;

#[test]
fn hotkeys_are_delivered_once() {
    let mut h = HotkeyManager::start();
    assert!(h.poll().is_empty());
    h.deliver(hotkeys::HK_AA_ENABLE);
    h.deliver(hotkeys::HK_FREEZE_ALL);
    assert_eq!(h.poll(), vec![3, 1]);
    assert!(h.poll().is_empty());
    assert_eq!(hotkeys::binds(), vec![(1, 0x70), (2, 0x71), (3, 0x72), (4, 0x73)]);
    assert!(hotkeys::legend().starts_with("Atalhos globais: Ctrl+Alt+F1 congelar tudo"));
}

#[test]
fn hotkeys_have_meanings() {
    assert_eq!(hotkey_action(1, true), HotkeyAction::FreezeAll(true));
    assert_eq!(hotkey_action(2, true), HotkeyAction::FreezeAll(false));
    assert_eq!(hotkey_action(3, false), HotkeyAction::Enable);
    assert_eq!(hotkey_action(4, false), HotkeyAction::Disable);
    assert_eq!(hotkey_action(3, true), HotkeyAction::Nothing);
    assert_eq!(hotkey_action(4, true), HotkeyAction::Nothing);
    assert_eq!(hotkey_action(9, false), HotkeyAction::Nothing);
    assert_eq!(freeze_status(true), "Hotkey: tudo congelado.");
    assert_eq!(freeze_status(false), "Hotkey: tudo descongelado.");
}

#[test]
fn files_carry_a_version() {
    let f = TableFile::new("game".to_string(), "s".to_string(), vec![]);
    assert_eq!(f.version, 1);
    assert!(table::load(f).is_ok());
    let mut newer = TableFile::new(String::new(), String::new(), vec![]);
    newer.version = 2;
    match table::load(newer) {
        Err(e) => assert_eq!(
            e.to_text(),
            "arquivo da versao 2 e mais novo que o suportado (1)."
        ),
        Ok(_) => panic!("a later version was loaded"),
    }
    let older = TableFile { version: 0, process_hint: String::new(), aa_script: String::new(), entries: vec![] };
    assert!(table::load(older).is_ok());
    let s = |t: &str| t.to_string();
    assert_eq!(TableError::Serialize(s("x")).to_text(), "serializar: x");
    assert_eq!(TableError::Write { path: s("p"), cause: s("c") }.to_text(), "escrever p: c");
    assert_eq!(TableError::Read { path: s("p"), cause: s("c") }.to_text(), "ler p: c");
    assert_eq!(TableError::Format(s("y")).to_text(), "formato invalido: y");
}

#[test]
fn bytes_are_read_in_hexadecimal() {
    assert_eq!(parse_hex_bytes("90 90 EB FE"), Some(vec![0x90, 0x90, 0xeb, 0xfe]));
    assert_eq!(parse_hex_bytes("9090ebfe"), Some(vec![0x90, 0x90, 0xeb, 0xfe]));
    assert_eq!(parse_hex_bytes("9 0"), Some(vec![0x90]));
    assert_eq!(parse_hex_bytes("+5"), Some(vec![5]));
    assert_eq!(parse_hex_bytes("909"), None);
    assert_eq!(parse_hex_bytes("  "), None);
    assert_eq!(parse_hex_bytes("GG"), None);
    assert_eq!(parse_hex_bytes("é"), None);
    assert_eq!(parse_hex_bytes("é9"), None);
    assert_eq!(nop(3), vec![0x90, 0x90, 0x90]);
}

#[test]
fn wide_texts_end_at_zero() {
    let wide: Vec<u16> = "jogo.exe\0lixo".encode_utf16().collect();
    assert_eq!(wide_to_string(&wide), "jogo.exe");
    assert_eq!(wide_to_string(&[0x41, 0xd800]), "A\u{fffd}");
    assert_eq!(wide_to_string(&[]), "");
    assert_eq!(wide_path_bytes("aé"), vec![0x61, 0, 0xe9, 0, 0, 0]);
    assert_eq!(wide_path_bytes(""), vec![0, 0]);
}

#[test]
fn writing_code_gives_the_protection_back() {
    let s = write_code();
    assert_eq!(s, WriteStep::Unprotect);
    let s = s.after(WriteEvent::Unprotected(0x20));
    assert_eq!(s, WriteStep::Write { restore: Some(0x20) });
    let s = s.after(WriteEvent::Written(false));
    assert_eq!(s, WriteStep::Restore { protect: 0x20, written: false });
    assert_eq!(s.after(WriteEvent::Restored), WriteStep::Done { written: false });
    let s = write_code().after(WriteEvent::Refused).after(WriteEvent::Written(true));
    assert_eq!(s, WriteStep::Done { written: true });
    assert_eq!(s.after(WriteEvent::Restored), s);
    assert_eq!(write_code().after(WriteEvent::Restored), WriteStep::Unprotect);
}

#[test]
fn loading_a_library_goes_step_by_step() {
    let ok = LoadEvent::Outcome(true);
    let bad = LoadEvent::Outcome(false);
    let (s, path) = inject_dll("a");
    assert_eq!((s, path), (LoadStep::Reserve, vec![0x61, 0, 0, 0]));
    assert_eq!(s.after(bad), LoadStep::Failed);
    let s = s.after(ok);
    assert_eq!(s.after(bad).after(LoadEvent::Released), LoadStep::Failed);
    let s = s.after(ok);
    assert_eq!(s, LoadStep::FindModule);
    assert_eq!(s.after(bad), LoadStep::Failed);
    let s = s.after(ok);
    assert_eq!(s.after(bad), LoadStep::Release { exit: None });
    let s = s.after(ok);
    assert_eq!(s.after(bad), LoadStep::Failed);
    let s = s.after(ok);
    assert_eq!(s.after(ok), LoadStep::Wait);
    let s = s.after(LoadEvent::Exited(7));
    assert_eq!(s, LoadStep::Release { exit: Some(7) });
    assert_eq!(s.after(LoadEvent::Released), LoadStep::Loaded { code: 7 });
}

#[test]
fn breakpoints_are_set() {
    let regs = DebugRegs { dr0: 1, dr6: 5, dr7: u64::MAX, rip: 77 };
    let r = arm_thread(regs, 0x1234, BreakKind::Write, 4);
    assert_eq!((r.dr0, r.dr6, r.rip), (0x1234, 0, 77));
    assert_eq!(r.dr7, (u64::MAX & !0x000f_0003) | 1 | (1 << 16) | (3 << 18));
    let r = arm_thread(DebugRegs { dr7: 0x400, ..regs }, 8, BreakKind::Access, 8);
    assert_eq!(r.dr7, 0x400 | 1 | (3 << 16) | (2 << 18));
    assert_eq!([len_code(1), len_code(2), len_code(4), len_code(8)], [0, 1, 3, 2]);
    let (hit, after) = consume_hit(regs);
    assert_eq!(hit, Some(77));
    assert_eq!(after, DebugRegs { dr6: 0, ..regs });
    assert_eq!(consume_hit(DebugRegs { dr6: 4, ..regs }).0, None);
}

#[test]
fn touches_are_counted() {
    let mut w = debugger::start();
    assert_eq!(w.status(), "anexando como debugger…");
    assert!(w.attached(true));
    assert_eq!(w.status(), "monitorando…");
    for rip in [10, 20, 20, 30, 10, 40, 20] {
        w.record_hit(rip);
    }
    let hit = |rip, count| WriteHit { rip, count };
    assert_eq!(w.hits(), vec![hit(20, 3), hit(10, 2), hit(30, 1), hit(40, 1)]);
    assert_eq!(w.seen[0], hit(10, 2));
    w.request_stop();
    assert!(w.stop);
    w.ended();
    assert_eq!(w.status(), "parado.");
    w.set_status("x");
    assert_eq!(w.status(), "x");
    assert!(!w.attached(false));
    assert_eq!(
        w.status(),
        "falha ao anexar como debugger (rode como Admin; outro debugger anexado?)."
    );
}

#[test]
fn events_of_a_watched_process() {
    let mut d = debug_loop();
    let nothing = EventPlan { arm: None, check: None, handled: true, done: false };
    let step = |thread| DebugEvent::Exception { thread, code: debugger::SINGLE_STEP };
    assert_eq!(
        d.on_event(DebugEvent::ProcessCreated { thread: 1, handle: 100 }),
        EventPlan { arm: Some(100), ..nothing }
    );
    assert_eq!(
        d.on_event(DebugEvent::ThreadCreated { thread: 2, handle: 200 }),
        EventPlan { arm: Some(200), ..nothing }
    );
    assert_eq!(d.on_event(step(2)), EventPlan { check: Some(200), ..nothing });
    assert_eq!(d.on_event(DebugEvent::ThreadExited { thread: 2 }), nothing);
    assert_eq!(d.on_event(step(2)), nothing);
    assert_eq!(d.on_event(step(1)), EventPlan { check: Some(100), ..nothing });
    assert_eq!(
        d.on_event(DebugEvent::Exception { thread: 1, code: debugger::BREAKPOINT }),
        nothing
    );
    assert_eq!(
        d.on_event(DebugEvent::Exception { thread: 1, code: 0xc000_0005 }),
        EventPlan { handled: false, ..nothing }
    );
    assert_eq!(d.on_event(DebugEvent::Other), nothing);
    assert_eq!(d.on_event(DebugEvent::ProcessExited), EventPlan { done: true, ..nothing });
}

#[test]
fn code_is_taken_apart() {
    // mov rax,[rbx+10h]; nop; ret
    let code = [0x48, 0x8b, 0x43, 0x10, 0x90, 0xc3];
    let v = disassemble(&code, 0x1000, 48);
    let seen: Vec<(u64, usize, &str)> =
        v.iter().map(|i| (i.address, i.len, i.text.as_str())).collect();
    assert_eq!(seen, vec![(0x1000, 4, "mov rax,[rbx+10h]"), (0x1004, 1, "nop"), (0x1005, 1, "ret")]);
    assert_eq!(v[0].bytes, vec![0x48, 0x8b, 0x43, 0x10]);
    assert_eq!(v.iter().flat_map(|i| i.bytes.clone()).collect::<Vec<u8>>(), code.to_vec());
    assert_eq!(disassemble(&code, 0x1000, 2).len(), 2);
    assert!(disassemble(&[], 0x1000, 5).is_empty());
    assert!(disassemble(&code, 0x1000, 0).is_empty());
    // a jump shows where it goes, so the address counts
    let near = disassemble(&[0xeb, 0x00], 0x10, 1);
    let far = disassemble(&[0xeb, 0x00], 0x7777_0000, 1);
    assert_ne!(near[0].text, far[0].text);
    // bytes that are no instruction, and one that is cut off
    let bad = disassemble(&[0x06, 0x90], 0, 9);
    assert_eq!(bad.iter().map(|i| i.len).sum::<usize>(), 2);
    let cut = disassemble(&[0x48, 0x8b], 0, 9);
    assert_eq!(cut.iter().map(|i| i.len).sum::<usize>(), 2);
}

#[test]
fn the_instruction_before_an_address_is_found() {
    let code = [0x48, 0x8b, 0x43, 0x10, 0x90, 0xc3];
    let i = instruction_ending_at(&code, 0x1000, 0x1005).unwrap();
    assert_eq!((i.address, i.text.as_str()), (0x1004, "nop"));
    let i = instruction_ending_at(&code, 0x1000, 0x1002).unwrap();
    assert_eq!(i.address, 0x1000);
    assert!(instruction_ending_at(&code, 0x1000, 0x1000).is_none());
    assert!(instruction_ending_at(&[], 0x1000, 0x1000).is_none());
    // No more than the first 64 instructions are looked at.
    let many = [0x90u8; 100];
    assert_eq!(instruction_ending_at(&many, 0, 64).unwrap().address, 63);
    assert_eq!(instruction_ending_at(&many, 0, 80).unwrap().address, 63);
    let v = disassemble(&code, 0x1000, 9);
    assert_eq!(pick_ending(&v, 0x9999).unwrap().address, 0x1005);
    assert!(pick_ending(&vec![], 5).is_none());
}

#[test]
fn instruction_bytes_are_written() {
    assert_eq!(fmt_bytes(&[0x48, 0x8b, 0x05]), "48 8b 05");
    assert_eq!(fmt_bytes(&[0]), "00");
    assert_eq!(fmt_bytes(&[]), "");
}

fn module(name: &str, base: u64) -> ModuleInfo {
    ModuleInfo { name: name.to_string(), base, size: 16, path: String::new() }
}

fn chain(module: &str) -> PtrPath {
    PtrPath { module: module.to_string(), base_offset: 1, offsets: vec![2] }
}

fn entry(address: u64, vt: ValueType, typed: &str, frozen: bool) -> SavedEntry {
    let mut e = SavedEntry::fixed(address, vt, 0);
    e.edit_text = typed.to_string();
    e.frozen = frozen;
    e
}

#[test]
fn modules_are_found_by_name() {
    let b = refresh_module_bases(&[module("a", 1), module("b", 2), module("a", 3)]);
    assert_eq!(b.get("a"), Some(1));
    assert_eq!(b.get("b"), Some(2));
    assert_eq!(b.get("A"), None);
    assert_eq!(ModuleBases::new().get("a"), None);
}

#[test]
fn entries_know_their_length_and_address() {
    let b = refresh_module_bases(&[module("a", 0x100)]);
    let e = SavedEntry::fixed(5, ValueType::StringUtf8, 9);
    assert_eq!(e.read_len(), 9);
    assert_eq!(SavedEntry::fixed(5, ValueType::F64, 9).read_len(), 8);
    assert_eq!(SavedEntry::by_hand(5, ValueType::StringUtf16).str_len, 16);
    assert_eq!(SavedEntry::by_hand(5, ValueType::I8).str_len, 0);
    assert_eq!(entry_address(&e, &b, true), Source::Fixed(5));
    assert_eq!(entry_address(&e, &b, false), Source::Unknown);
    let p = SavedEntry::from_path(chain("a"), ValueType::I32);
    assert_eq!(p.desc, "ptr a");
    assert_eq!(entry_address(&p, &b, true), Source::Chain(0x100));
    let q = SavedEntry::from_path(chain("z"), ValueType::I32);
    assert_eq!(entry_address(&q, &b, true), Source::Unknown);
}

#[test]
fn values_are_held() {
    let b = refresh_module_bases(&[module("a", 0x100)]);
    let mut ptr = SavedEntry::from_path(chain("a"), ValueType::U8);
    ptr.frozen = true;
    let mut lost = SavedEntry::from_path(chain("z"), ValueType::U8);
    lost.frozen = true;
    let saved = vec![
        entry(1, ValueType::U8, "7", true),
        entry(2, ValueType::U8, "x", true),
        entry(3, ValueType::U8, "x", true),
        entry(4, ValueType::U8, "9", false),
        ptr,
        lost,
    ];
    let patterns = vec![None; 6];
    let currents =
        vec![Some(vec![1]), Some(vec![2]), None, Some(vec![4]), Some(vec![5]), Some(vec![6])];
    let held = rebuild_frozen_targets(&saved, &patterns, &currents, &b, true);
    assert_eq!(held.len(), 3);
    assert!(matches!(held[0].addr, FrozenAddr::Fixed(1)));
    assert_eq!(held[0].bytes, vec![7]);
    assert_eq!(held[1].bytes, vec![2]);
    assert!(matches!(&held[2].addr, FrozenAddr::Pointer { base: 0x100, path } if path.module == "a"));
    assert_eq!(held[2].bytes, vec![5]);
    assert!(rebuild_frozen_targets(&saved, &patterns, &currents, &b, false).is_empty());
    assert!(!needs_current(&saved[0], None));
    assert!(needs_current(&saved[1], None));
    assert!(!needs_current(&entry(1, ValueType::U8, "x", false), None));
    let f = entry(1, ValueType::F32, "1.5", true);
    assert!(needs_current(&f, None));
    assert!(!needs_current(&f, Some(1.5f32.to_bits() as u64)));
}

#[test]
fn all_values_are_held_or_none() {
    let mut saved =
        vec![entry(1, ValueType::U8, "", false), entry(2, ValueType::U8, "", true)];
    freeze_all(&mut saved, true);
    assert!(saved.iter().all(|e| e.frozen));
    assert_eq!(saved.iter().map(|e| e.address).collect::<Vec<u64>>(), vec![1, 2]);
    freeze_all(&mut saved, false);
    assert!(saved.iter().all(|e| !e.frozen));
    let mut none: Vec<SavedEntry> = vec![];
    freeze_all(&mut none, true);
    assert!(none.is_empty());
}

#[test]
fn entries_survive_their_file() {
    let mut p = SavedEntry::from_path(chain("a"), ValueType::I32);
    p.str_len = 4;
    let saved = vec![entry(1, ValueType::F32, "2", true), p];
    let file = entries::save("game (pid 1)", "script", &saved);
    assert_eq!((file.version, file.process_hint.as_str(), file.aa_script.as_str()), (1, "game (pid 1)", "script"));
    let back = from_table(table::load(file).ok().unwrap().entries);
    assert_eq!(back.len(), 2);
    assert_eq!((back[0].address, back[0].frozen, back[0].edit_text.as_str()), (1, true, "2"));
    assert_eq!((back[1].desc.as_str(), back[1].str_len), ("ptr a", 4));
    assert_eq!(back[1].pointer.as_ref().unwrap().offsets, vec![2]);
    let none: Vec<TableEntry> = vec![];
    assert!(from_table(none).is_empty());
    assert_eq!(script_after_load(" \n".to_string(), "mine".to_string()), "mine");
    assert_eq!(script_after_load("theirs".to_string(), "mine".to_string()), "theirs");
}

fn detected(p: Protection) -> Detection {
    Detection { protection: p, reasons: vec![] }
}

#[test]
fn protection_decides_what_is_shown() {
    let mut n = Navigation::new();
    assert_eq!((n.section, n.tab), (Section::General, Tab::Busca));
    assert_eq!(n.protection_badge(), (BadgeColor::Gray, "Proteção: —".to_string()));
    assert!(!n.injection_blocked());
    n.classify(detected(Protection::KernelAc("Vanguard".to_string())));
    assert_eq!((n.section, n.tab), (Section::Kernel, Tab::KernelOverview));
    assert!(n.injection_blocked());
    assert_eq!(
        n.protection_badge(),
        (BadgeColor::Red, "🛡 AC kernel: Vanguard (injeção bloqueada)".to_string())
    );
    assert_eq!(
        n.blocked_notice(Tab::Injecao).unwrap(),
        "🛡 Vanguard detectado — injeção e patch bloqueados."
    );
    assert_eq!(
        n.blocked_notice(Tab::Assembler).unwrap(),
        "🛡 Vanguard detectado — patch de código bloqueado. Use Kernel Exploring."
    );
    assert_eq!(n.blocked_notice(Tab::Busca), None);
    n.classify(detected(Protection::UsermodeAc("VAC".to_string())));
    assert_eq!((n.section, n.tab), (Section::General, Tab::Busca));
    assert!(!n.injection_blocked());
    assert_eq!(n.protection_badge(), (BadgeColor::Yellow, "⚠ AC user-mode: VAC".to_string()));
    assert_eq!(n.blocked_notice(Tab::Injecao), None);
    n.classify(detected(Protection::Unprotected));
    assert_eq!(n.protection_badge(), (BadgeColor::Green, "✔ Sem AC kernel".to_string()));
}

#[test]
fn parts_and_pages() {
    let mut n = Navigation::new();
    n.tab = Tab::Pointer;
    n.choose_section(Section::General);
    assert_eq!(n.tab, Tab::Pointer);
    assert_eq!(n.side_panel(), SidePanel::Table);
    n.choose_section(Section::Kernel);
    assert_eq!(n.tab, Tab::KernelOverview);
    assert_eq!(n.side_panel(), SidePanel::Nothing);
    n.tab = Tab::Capture;
    assert_eq!(n.side_panel(), SidePanel::Evidence);
    n.choose_section(Section::General);
    assert_eq!(n.tab, Tab::Busca);
    for t in tabs_of(Section::General) {
        assert_eq!(t.section(), Section::General);
    }
    assert_eq!(tabs_of(Section::Kernel), vec![Tab::Proxy, Tab::Capture, Tab::KernelOverview]);
    assert_eq!(Tab::Lcu.section(), Section::Kernel);
    assert_eq!(Tab::Injecao.label(), "Injeção");
    assert_eq!((repaint_after(true, true), repaint_after(false, true), repaint_after(false, false)), (60, 150, 250));
}

#[test]
fn processes_are_named() {
    assert_eq!(target_name("game.exe", 42), "game.exe (pid 42)");
    assert_eq!(attached_status("game.exe"), "Anexado em game.exe.");
    assert_eq!(
        attach_failed_status(7, "negado"),
        "Falha ao anexar (pid 7): negado. Rode o Quarry como Administrador."
    );
    let names = vec!["Game.exe".to_string(), "svchost".to_string(), "endgame".to_string()];
    assert_eq!(filter_names(&names, "GAME"), vec![0, 2]);
    assert_eq!(filter_names(&names, ""), vec![0, 1, 2]);
    assert_eq!(filter_names(&names, "zzz"), Vec::<usize>::new());
}
