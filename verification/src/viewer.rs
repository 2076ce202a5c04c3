//! The page that shows memory, and what touches an address.

use crate::debugger::{BreakKind, WriteHit};
use crate::disasm::{self, Insn};
use crate::entries::SavedEntry;
use crate::text;
use crate::value::ValueType;
use vstd::prelude::*;

verus! {

/// How many bytes are shown.
pub const WINDOW: usize = 512;

/// How many instructions are shown.
pub const SHOWN_INSNS: usize = 48;

/// How far before an address its instruction is looked for.
pub const BACK: u64 = 16;

/// How far the page moves.
pub const MOVE: u64 = 0x80;

/// How memory is shown.
#[derive(Clone, Copy, PartialEq, Eq, Structural, Debug)]
pub enum MvView {
    Hex,
    Disasm,
}

/// What the page holds.
pub struct ViewerPane {
    pub addr_text: String,
    pub view: MvView,
    pub watching: bool,
    /// Reads count too.
    pub watch_access: bool,
}

/// What to watch.
#[derive(Clone, Copy, PartialEq, Eq, Structural, Debug)]
pub struct WatchPlan {
    pub addr: u64,
    pub size: usize,
    pub kind: BreakKind,
}

/// What to watch for an address and a kind of value; nothing without a process, and where the target
/// must not be touched.
pub open spec fn watch_of(
    addr: u64,
    vt: ValueType,
    access: bool,
    blocked: bool,
    attached: bool,
) -> Option<WatchPlan> {
    if blocked || !attached {
        None
    } else {
        Some(
            WatchPlan {
                addr,
                size: if vt.text_kind() {
                    1
                } else {
                    vt.width() as usize
                },
                kind: if access {
                    BreakKind::Access
                } else {
                    BreakKind::Write
                },
            },
        )
    }
}

/// The text of the address that the page moves to.
pub open spec fn moved(s: Seq<char>, forward: bool) -> Seq<char> {
    match text::address_text(s) {
        Some(a) => text::hex_upper(
            (if forward {
                (a as u64).wrapping_add(MOVE)
            } else {
                (a as u64).wrapping_sub(MOVE)
            }) as nat,
        ),
        None => s,
    }
}

impl ViewerPane {
    /// The start.
    pub fn new() -> (r: ViewerPane)
        ensures
            r.addr_text@ == Seq::<char>::empty(),
            r.view == MvView::Hex,
            !r.watching,
            !r.watch_access,
    {
        ViewerPane {
            addr_text: String::new(),
            view: MvView::Hex,
            watching: false,
            watch_access: false,
        }
    }

    /// The address that is shown. `None` where the text is no address.
    pub fn base(&self) -> (r: Option<u64>)
        ensures
            match r {
                Some(a) => text::address_text(self.addr_text@) == Some(a as int),
                None => text::address_text(self.addr_text@) is None,
            },
    {
        text::parse_addr(self.addr_text.as_str())
    }

    /// Shows an address.
    pub fn goto(&mut self, a: u64)
        ensures
            *final(self) == (ViewerPane { addr_text: final(self).addr_text, ..*old(self) }),
            final(self).addr_text@ == text::hex_upper(a as nat),
    {
        self.addr_text = text::hex_string(a);
    }

    /// Moves the page forward or backward, around the ends of the address space. A text that is no
    /// address stays.
    pub fn shift(&mut self, forward: bool)
        ensures
            *final(self) == (ViewerPane { addr_text: final(self).addr_text, ..*old(self) }),
            final(self).addr_text@ == moved(old(self).addr_text@, forward),
    {
        if let Some(a) = self.base() {
            let b = if forward {
                a.wrapping_add(MOVE)
            } else {
                a.wrapping_sub(MOVE)
            };
            self.goto(b);
        }
    }

    /// Shows the instructions at an address.
    pub fn goto_code(&mut self, a: u64)
        ensures
            *final(self) == (ViewerPane {
                addr_text: final(self).addr_text,
                view: MvView::Disasm,
                ..*old(self)
            }),
            final(self).addr_text@ == text::hex_upper(a as nat),
    {
        self.goto(a);
        self.view = MvView::Disasm;
    }

    /// Starts watching an address, or says why not: what to watch, and what is said then.
    pub fn start_watch(&mut self, addr: u64, vt: ValueType, blocked: bool, attached: bool) -> (r: (
        Option<WatchPlan>,
        String,
    ))
        ensures
            r.0 == watch_of(addr, vt, old(self).watch_access, blocked, attached),
            r.1@ == (if blocked {
                "Bloqueado: anticheat kernel detectado."@
            } else if !attached {
                "Anexe um processo primeiro."@
            } else {
                "Monitorando "@ + text::fixed_numeral(addr as nat, 16, 16, true)
                    + "… interaja com o jogo para coletar."@
            }),
            *final(self) == (ViewerPane {
                watching: old(self).watching || r.0 is Some,
                ..*old(self)
            }),
    {
        if blocked {
            return (None, "Bloqueado: anticheat kernel detectado.".to_owned());
        }
        if !attached {
            return (None, "Anexe um processo primeiro.".to_owned());
        }
        let size: usize = if vt.is_string() {
            1
        } else {
            vt.size()
        };
        let kind = if self.watch_access {
            BreakKind::Access
        } else {
            BreakKind::Write
        };
        self.watching = true;
        let mut s = "Monitorando ".to_owned();
        text::push_fixed(&mut s, addr, 16, 16, true);
        s.append("… interaja com o jogo para coletar.");
        (Some(WatchPlan { addr, size, kind }), s)
    }

    /// Ends the watch. Gives what is said then.
    pub fn stop_watch(&mut self) -> (r: &'static str)
        ensures
            *final(self) == (ViewerPane { watching: false, ..*old(self) }),
            r@ == "Watch encerrado."@,
    {
        self.watching = false;
        "Watch encerrado."
    }
}

/// Where the code begins in which the instruction before an address is looked for.
pub fn code_start(hit: WriteHit) -> (r: u64)
    ensures
        r == back_from(hit.rip),
{
    if hit.rip < BACK {
        0
    } else {
        hit.rip - BACK
    }
}

/// The line for an instruction: its address and its text.
pub open spec fn code_line(address: u64, words: Seq<char>) -> Seq<char> {
    text::fixed_numeral(address as nat, 16, 16, true) + "  "@ + words
}

/// The address and the line that are shown for a touch, given the instruction that did it.
pub fn hit_row(hit: WriteHit, writer: Option<Insn>) -> (r: (u64, String))
    ensures
        match writer {
            Some(i) => r.0 == i.address && r.1@ == code_line(i.address, i.text@),
            None => r.0 == hit.rip && r.1@ == code_line(hit.rip, "? (anterior ao RIP)"@),
        },
{
    let mut s = String::new();
    match writer {
        Some(i) => {
            text::push_fixed(&mut s, i.address, 16, 16, true);
            s.append("  ");
            s.append(i.text.as_str());
            assert(s@ =~= code_line(i.address, i.text@));
            (i.address, s)
        },
        None => {
            text::push_fixed(&mut s, hit.rip, 16, 16, true);
            s.append("  ");
            s.append("? (anterior ao RIP)");
            assert(s@ =~= code_line(hit.rip, "? (anterior ao RIP)"@));
            (hit.rip, s)
        },
    }
}

/// The instruction that touched the address, in the code before the reported one.
pub fn writer_of(hit: WriteHit, code: Option<&[u8]>) -> (r: Option<Insn>)
    ensures
        code is None ==> r is None,
        code matches Some(c) ==> exists|list: Seq<disasm::InsnView>, end: int|
            #![trigger disasm::decoded(c@, back_from(hit.rip), list, 0, end)]
            {
                &&& disasm::decoded(c@, back_from(hit.rip), list, 0, end)
                &&& end == c@.len() || list.len() == disasm::LOOK_BACK
                &&& list.len() <= disasm::LOOK_BACK
                &&& disasm::chosen(
                    list,
                    hit.rip,
                    match r {
                        Some(i) => Some(i@),
                        None => None,
                    },
                )
            },
        r matches Some(i) ==> i.wf(),
{
    match code {
        Some(c) => disasm::instruction_ending_at(c, code_start(hit), hit.rip),
        None => None,
    }
}

/// Where the code begins that ends at an address.
pub open spec fn back_from(rip: u64) -> u64 {
    if rip < BACK {
        0
    } else {
        (rip - BACK) as u64
    }
}

/// What is said after instructions were made to do nothing.
pub fn nop_status(addr: u64, len: usize, ok: bool) -> (r: String)
    ensures
        r@ == (if ok {
            "NOP em "@ + text::fixed_numeral(addr as nat, 16, 16, true) + " ("@ + text::decimal(
                len as nat,
            ) + " bytes)."@
        } else {
            "Falha ao aplicar NOP."@
        }),
{
    if ok {
        let mut s = "NOP em ".to_owned();
        text::push_fixed(&mut s, addr, 16, 16, true);
        s.append(" (");
        text::push_decimal(&mut s, len as u64);
        s.append(" bytes).");
        s
    } else {
        "Falha ao aplicar NOP.".to_owned()
    }
}

/// Adds an address to the table. Gives what is said then.
pub fn add_table_entry(saved: &mut Vec<SavedEntry>, addr: u64, vt: ValueType) -> (r: String)
    ensures
        final(saved)@.len() == old(saved)@.len() + 1,
        final(saved)@.drop_last() == old(saved)@,
        final(saved)@.last()@ == crate::entries::entry_by_hand(addr, vt),
        r@ == text::fixed_numeral(addr as nat, 16, 16, true) + " adicionado à tabela."@,
{
    saved.push(SavedEntry::by_hand(addr, vt));
    assert(saved@.drop_last() =~= old(saved)@);
    let mut s = String::new();
    text::push_fixed(&mut s, addr, 16, 16, true);
    s.append(" adicionado à tabela.");
    assert(s@ =~= text::fixed_numeral(addr as nat, 16, 16, true) + " adicionado à tabela."@);
    s
}

/// The code in which an instruction is looked for begins sixteen bytes before the address, or where
/// the address space does.
pub proof fn law_code_begins_before(rip: u64)
    ensures
        rip >= 16 ==> back_from(rip) + 16 == rip,
        rip < 16 ==> back_from(rip) == 0,
{
}

/// A watch covers the bytes of the value, or one byte of a text: the length bits of the breakpoint
/// stand for as many bytes as the kind has. It fires on writes, and on reads too where these count.
/// Nothing is watched without a process or where the target must not be touched.
pub proof fn law_watch_covers_the_value(addr: u64, vt: ValueType, access: bool)
    ensures
        watch_of(addr, vt, access, true, true) is None,
        watch_of(addr, vt, access, false, false) is None,
        watch_of(addr, vt, access, true, false) is None,
        watch_of(addr, vt, access, false, true) matches Some(p) && {
            let bits = crate::debugger::size_bits(p.size);
            &&& p.addr == addr
            &&& p.kind is Access <==> access
            &&& vt is I8 || vt is U8 || vt is StringUtf8 || vt is StringUtf16 ==> bits == 0
            &&& vt is I16 || vt is U16 ==> bits == 1
            &&& vt is I32 || vt is U32 || vt is F32 ==> bits == 3
            &&& vt is I64 || vt is U64 || vt is F64 ==> bits == 2
        },
{
}

/// The page moves by 128 bytes, forward to higher addresses, and around the ends of the address
/// space; and a move back undoes a move. A text that is no address stays.
pub proof fn law_page_moves(s: Seq<char>, a: u64)
    ensures
        text::address_text(s) is None ==> moved(s, true) == s && moved(s, false) == s,
        text::address_text(s) == Some(a as int) ==> {
            let up = (if a + 128 > u64::MAX {
                a + 128 - 0x1_0000_0000_0000_0000
            } else {
                a + 128
            });
            let down = (if a < 128 {
                a - 128 + 0x1_0000_0000_0000_0000
            } else {
                a - 128
            });
            &&& text::address_text(moved(s, true)) == Some(up)
            &&& text::address_text(moved(s, false)) == Some(down)
            &&& text::address_text(moved(moved(s, true), false)) == Some(a as int)
            &&& text::address_text(moved(moved(s, false), true)) == Some(a as int)
        },
{
    if text::address_text(s) == Some(a as int) {
        lemma_shown_address(a.wrapping_add(MOVE));
        lemma_shown_address(a.wrapping_sub(MOVE));
        lemma_shown_address(a.wrapping_add(MOVE).wrapping_sub(MOVE));
        lemma_shown_address(a.wrapping_sub(MOVE).wrapping_add(MOVE));
    }
}

proof fn lemma_shown_address(a: u64)
    ensures
        text::address_text(text::hex_upper(a as nat)) == Some(a as int),
{
    let none = Seq::<char>::empty();
    text::law_typed_address_is_read(a, true, none, none);
    assert(none + text::hex_upper(a as nat) + none =~= text::hex_upper(a as nat));
}

} // verus!
