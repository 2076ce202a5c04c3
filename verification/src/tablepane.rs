//! The panel of saved addresses, and the page of scripts.

use crate::entries::{entry_views, EntryView, SavedEntry};
use crate::pointerpane::PointerPane;
use crate::route::{NavEvent, Navigation, Tab};
use crate::table::TableError;
use crate::text;
use crate::viewer::ViewerPane;
use vstd::prelude::*;

verus! {

/// What an entry's address is shown as.
pub fn address_label(address: Option<u64>) -> (r: String)
    ensures
        r@ == (match address {
            Some(a) => text::fixed_numeral(a as nat, 16, 16, true),
            None => "??? (não resolvido)"@,
        }),
{
    match address {
        Some(a) => text::address_string(a),
        None => "??? (não resolvido)".to_owned(),
    }
}

/// How many entries there are, in words.
pub fn count_label(n: usize) -> (r: String)
    ensures
        r@ == text::decimal(n as nat) + " entradas"@,
{
    let mut s = String::new();
    text::push_decimal(&mut s, n as u64);
    s.append(" entradas");
    assert(s@ =~= text::decimal(n as nat) + " entradas"@);
    s
}

/// What to write for an entry.
pub enum WritePlan {
    /// The entry is gone, has no address, or there is no process.
    Nothing,
    Invalid,
    Write(u64, Vec<u8>),
}

/// Where to write which bytes for an entry, whose address may be known.
pub open spec fn to_write(
    e: EntryView,
    address: Option<u64>,
    pattern: Option<u64>,
) -> Option<(u64, Seq<u8>)> {
    match (address, e.value_type.bytes_of(e.edit_text, pattern)) {
        (Some(a), Some(b)) => Some((a, b)),
        _ => None,
    }
}

/// What to write for the entry at a place: the value that was typed, at its address.
pub fn write_plan(
    saved: &Vec<SavedEntry>,
    i: usize,
    address: Option<u64>,
    pattern: Option<u64>,
    attached: bool,
) -> (r: WritePlan)
    ensures
        match r {
            WritePlan::Nothing => !attached || i >= saved@.len() || address is None,
            WritePlan::Invalid => attached && i < saved@.len() && address is Some && to_write(
                saved@[i as int]@,
                address,
                pattern,
            ) is None,
            WritePlan::Write(a, b) => attached && i < saved@.len() && to_write(
                saved@[i as int]@,
                address,
                pattern,
            ) == Some((a, b@)),
        },
{
    if !attached || i >= saved.len() {
        return WritePlan::Nothing;
    }
    match address {
        None => WritePlan::Nothing,
        Some(a) => match saved[i].value_type.parse_to_bytes(saved[i].edit_text.as_str(), pattern) {
            Some(b) => WritePlan::Write(a, b),
            None => WritePlan::Invalid,
        },
    }
}

/// What is said after a value was written, or was not typed right.
pub fn write_status(done: Option<(u64, bool)>) -> (r: String)
    ensures
        r@ == (match done {
            Some((a, true)) => "Escrito em "@ + text::fixed_numeral(a as nat, 16, 16, true) + "."@,
            Some((_, false)) => "Falha ao escrever (protecao de memoria?)."@,
            None => "Valor a escrever invalido."@,
        }),
{
    match done {
        Some((a, ok)) => if ok {
            let mut s = "Escrito em ".to_owned();
            text::push_fixed(&mut s, a, 16, 16, true);
            s.append(".");
            s
        } else {
            "Falha ao escrever (protecao de memoria?).".to_owned()
        },
        None => "Valor a escrever invalido.".to_owned(),
    }
}

/// Removes an entry.
pub fn remove_entry(saved: &mut Vec<SavedEntry>, i: usize)
    requires
        i < old(saved)@.len(),
    ensures
        final(saved)@ == old(saved)@.remove(i as int),
{
    let _ = saved.remove(i);
}

/// Takes an address over to the search for pointers, and brings that to the front. Gives what is
/// said then.
pub fn aim_pointer_scan(nav: &mut Navigation, pane: &mut PointerPane, a: u64) -> (r: String)
    ensures
        *final(nav) == (Navigation { tab: Tab::Pointer, ..*old(nav) }),
        old(nav).section is General ==> *final(nav) == old(nav).followed(
            NavEvent::Page(Tab::Pointer),
        ),
        old(nav).section is General ==> final(nav).wf(),
        *final(pane) == (PointerPane { target_text: final(pane).target_text, ..*old(pane) }),
        final(pane).target_text@ == text::hex_upper(a as nat),
        r@ == "Alvo do pointer scan: "@ + text::hex_upper(a as nat)
            + ". Ajuste e clique Procurar."@,
{
    pane.target_text = text::hex_string(a);
    nav.tab = Tab::Pointer;
    let mut s = "Alvo do pointer scan: ".to_owned();
    text::push_hex(&mut s, a);
    s.append(". Ajuste e clique Procurar.");
    s
}

/// Shows an address as memory, and brings that page to the front.
pub fn open_viewer(nav: &mut Navigation, pane: &mut ViewerPane, a: u64)
    ensures
        *final(nav) == (Navigation { tab: Tab::MemViewer, ..*old(nav) }),
        old(nav).section is General ==> *final(nav) == old(nav).followed(
            NavEvent::Page(Tab::MemViewer),
        ),
        old(nav).section is General ==> final(nav).wf(),
        *final(pane) == (ViewerPane { addr_text: final(pane).addr_text, ..*old(pane) }),
        final(pane).addr_text@ == text::hex_upper(a as nat),
{
    pane.goto(a);
    nav.tab = Tab::MemViewer;
}

/// What is said after the table was saved.
pub fn saved_status(path: &str, result: &Result<(), TableError>) -> (r: String)
    ensures
        r@ == (match result {
            Ok(_) => "Tabela salva em "@ + path@ + "."@,
            Err(e) => "Falha ao salvar tabela: "@ + e.words(),
        }),
{
    match result {
        Ok(_) => {
            let mut s = "Tabela salva em ".to_owned();
            s.append(path);
            s.append(".");
            s
        },
        Err(e) => {
            let mut s = "Falha ao salvar tabela: ".to_owned();
            let w = e.to_text();
            s.append(w.as_str());
            s
        },
    }
}

/// What is said after a table was loaded, with the number of its entries.
pub fn loaded_status(path: &str, result: &Result<usize, TableError>) -> (r: String)
    ensures
        r@ == (match result {
            Ok(n) => "Tabela carregada de "@ + path@ + " ("@ + text::decimal(*n as nat)
                + " entradas)."@,
            Err(e) => "Falha ao carregar tabela: "@ + e.words(),
        }),
{
    match result {
        Ok(n) => {
            let mut s = "Tabela carregada de ".to_owned();
            s.append(path);
            s.append(" (");
            text::push_decimal(&mut s, *n as u64);
            s.append(" entradas).");
            s
        },
        Err(e) => {
            let mut s = "Falha ao carregar tabela: ".to_owned();
            let w = e.to_text();
            s.append(w.as_str());
            s
        },
    }
}

// ---------------------------------------------------------------------------
// Scripts
// ---------------------------------------------------------------------------

/// The name of a script's part: the one that applies its changes, or the one that takes them back.
pub open spec fn part_name(enable: bool) -> Seq<char> {
    if enable {
        "Enable"@
    } else {
        "Disable"@
    }
}

/// What is said, and what the log holds, after a part of a script was run.
pub fn script_result(enable: bool, result: Result<Vec<String>, String>) -> (r: (
    String,
    Vec<String>,
))
    ensures
        match result {
            Ok(log) => r.1 == log && r.0@ == part_name(enable) + " executado ("@ + text::decimal(
                log@.len(),
            ) + " passos)."@,
            Err(e) => r.0@ == part_name(enable) + " falhou: "@ + e@ && r.1@.len() == 1
                && r.1@[0]@ == "ERRO: "@ + e@,
        },
{
    let mut s = (if enable {
        "Enable"
    } else {
        "Disable"
    }).to_owned();
    match result {
        Ok(log) => {
            s.append(" executado (");
            text::push_decimal(&mut s, log.len() as u64);
            s.append(" passos).");
            (s, log)
        },
        Err(e) => {
            s.append(" falhou: ");
            s.append(e.as_str());
            let mut line = "ERRO: ".to_owned();
            line.append(e.as_str());
            let mut log: Vec<String> = Vec::new();
            log.push(line);
            (s, log)
        },
    }
}

/// Takes over a result of a search as an entry.
pub fn push_entry(saved: &mut Vec<SavedEntry>, e: SavedEntry)
    ensures
        final(saved)@ == old(saved)@.push(e),
        entry_views(final(saved)@) == entry_views(old(saved)@).push(e@),
{
    saved.push(e);
    assert(entry_views(saved@) =~= entry_views(old(saved)@).push(e@));
}

/// An integer that was typed for an entry is written in its bytes at the entry's address; where the
/// kind has no such integer, or the address is not known, nothing is.
pub proof fn law_typed_value_is_written(
    e: EntryView,
    address: Option<u64>,
    pattern: Option<u64>,
    v: int,
)
    requires
        e.value_type.int_kind(),
        e.edit_text == text::signed_decimal(v),
    ensures
        ({
            let vt = e.value_type;
            let fits = vt.lowest() <= v <= vt.highest();
            &&& to_write(e, address, pattern) is Some <==> fits && address is Some
            &&& to_write(e, address, pattern) matches Some((a, b)) ==> address == Some(a) && b.len()
                == vt.width() && vt.int_in(b) == Some(v)
        }),
{
    let none = Seq::<char>::empty();
    let vt = e.value_type;
    crate::bytes::lemma_span_values();
    crate::value::law_typed_integer_is_written(vt, v, none, none, pattern);
    assert(none + e.edit_text + none =~= e.edit_text);
    if vt.lowest() <= v <= vt.highest() {
        crate::value::law_integer_is_read(vt, v, Seq::empty(), Seq::empty());
        let w = crate::value::written(vt, v);
        assert(w + Seq::<u8>::empty() =~= w);
    }
}

/// What is written for an entry is what would be held for it.
pub proof fn law_written_is_what_would_be_held(
    e: EntryView,
    pattern: Option<u64>,
    current: Option<Seq<u8>>,
    bases: Seq<(Seq<char>, u64)>,
    a: u64,
    b: Seq<u8>,
)
    requires
        to_write(e, Some(a), pattern) == Some((a, b)),
    ensures
        crate::entries::held(e, pattern, current, bases) matches Some(f) ==> f.bytes == b,
{
}

/// The part that applies a script's changes and the one that takes them back have different names.
pub proof fn law_parts_have_their_names(enable: bool)
    ensures
        enable <==> part_name(enable) == seq!['E', 'n', 'a', 'b', 'l', 'e'],
        !enable <==> part_name(enable) == seq!['D', 'i', 's', 'a', 'b', 'l', 'e'],
{
    reveal_strlit("Enable");
    reveal_strlit("Disable");
    assert("Enable"@ =~= seq!['E', 'n', 'a', 'b', 'l', 'e']);
    assert("Disable"@ =~= seq!['D', 'i', 's', 'a', 'b', 'l', 'e']);
}

} // verus!
