//! The page that changes code: modules, patterns, patches and libraries.

use crate::aob::{parse_aob, text_pattern};
use crate::inject::{hex_bytes, nop, parse_hex_bytes, ModuleInfo, NOP};
use crate::route::{accepted, Navigation};
use crate::text;
use vstd::prelude::*;

verus! {

/// How many places of a pattern are searched for, and shown.
pub const MAX_PLACES: usize = 200;

/// How many instructions are overwritten at most.
pub const MAX_NOPS: usize = 256;

/// What the page holds.
pub struct InjectPane {
    pub modules: Vec<ModuleInfo>,
    pub module_filter: String,
    pub aob_text: String,
    pub aob_results: Vec<u64>,
    pub searching: bool,
    pub dll_path: String,
    pub patch_addr_text: String,
    pub patch_bytes_text: String,
    pub nop_addr_text: String,
    pub nop_len_text: String,
}

/// What comes of searching for a pattern.
pub enum PatternStart {
    /// One is under way.
    Busy,
    NoProcess,
    Invalid,
    Search(Vec<Option<u8>>),
}

/// How loading a library ended.
pub enum LoadOutcome {
    /// The routine returned this.
    Returned(u32),
    Failed(String),
}

/// What was clicked to change the target.
#[derive(Clone, Copy, PartialEq, Eq, Structural, Debug)]
pub enum InjectClick {
    /// Write the typed bytes.
    Patch,
    /// Overwrite the typed number of bytes.
    Nops,
    /// Overwrite the bytes of an instruction that is shown.
    NopAt { addr: u64, len: usize },
    /// Load the typed library.
    Library,
}

/// How to change the target.
pub enum InjectAction {
    /// The target must not be changed.
    Nothing,
    /// What was typed does not say how.
    Invalid,
    /// Write these bytes over its code.
    Write(u64, Vec<u8>),
    /// Load this library into it.
    Load(String),
}

/// How many instructions to overwrite, as it was typed; nothing where that is not 1 to 256.
pub open spec fn nop_count(s: Seq<char>) -> Option<int> {
    match text::integer(text::trimmed(s), 10, 0, usize::MAX as int) {
        Some(v) => if 1 <= v <= MAX_NOPS {
            Some(v)
        } else {
            None
        },
        None => None,
    }
}

impl InjectPane {
    /// The start.
    pub fn new() -> (r: InjectPane)
        ensures
            r.modules@ == Seq::<ModuleInfo>::empty(),
            r.module_filter@ == Seq::<char>::empty(),
            r.aob_text@ == Seq::<char>::empty(),
            r.aob_results@ == Seq::<u64>::empty(),
            !r.searching,
            r.dll_path@ == Seq::<char>::empty(),
            r.patch_addr_text@ == Seq::<char>::empty(),
            r.patch_bytes_text@ == Seq::<char>::empty(),
            r.nop_addr_text@ == Seq::<char>::empty(),
            r.nop_len_text@ == "1"@,
    {
        InjectPane {
            modules: Vec::new(),
            module_filter: String::new(),
            aob_text: String::new(),
            aob_results: Vec::new(),
            searching: false,
            dll_path: String::new(),
            patch_addr_text: String::new(),
            patch_bytes_text: String::new(),
            nop_addr_text: String::new(),
            nop_len_text: "1".to_owned(),
        }
    }

    /// Takes the list of modules. Gives what is said then.
    pub fn list_modules(&mut self, modules: Vec<ModuleInfo>) -> (r: String)
        ensures
            *final(self) == (InjectPane { modules, ..*old(self) }),
            r@ == text::decimal(modules@.len()) + " módulos."@,
    {
        let mut s = String::new();
        text::push_decimal(&mut s, modules.len() as u64);
        s.append(" módulos.");
        assert(s@ =~= text::decimal(modules@.len()) + " módulos."@);
        self.modules = modules;
        s
    }

    /// The places of the modules that are shown: those whose names pass the filter.
    pub fn visible_modules(&self) -> (r: Vec<usize>)
        ensures
            r@ == accepted(
                |i: int| text::passes_filter(self.modules@[i].name@, self.module_filter@),
                self.modules@.len() as int,
            ),
    {
        let ghost test = |i: int|
            text::passes_filter(self.modules@[i].name@, self.module_filter@);
        let mut out: Vec<usize> = Vec::new();
        let mut i: usize = 0;
        while i < self.modules.len()
            invariant
                i <= self.modules@.len(),
                test == (|i: int|
                    text::passes_filter(self.modules@[i].name@, self.module_filter@)),
                out@ == accepted(test, i as int),
            decreases self.modules.len() - i,
        {
            if text::filter_accepts(self.modules[i].name.as_str(), self.module_filter.as_str()) {
                out.push(i);
            }
            i += 1;
        }
        out
    }

    /// Starts a search for the pattern that was typed, or says why not.
    pub fn do_aob_scan(&mut self, attached: bool) -> (r: PatternStart)
        ensures
            match r {
                PatternStart::Busy => old(self).searching,
                PatternStart::NoProcess => !old(self).searching && !attached,
                PatternStart::Invalid => !old(self).searching && attached && text_pattern(
                    old(self).aob_text@,
                ) is None,
                PatternStart::Search(p) => !old(self).searching && attached && text_pattern(
                    old(self).aob_text@,
                ) == Some(p@),
            },
            *final(self) == (InjectPane {
                searching: old(self).searching || r is Search,
                ..*old(self)
            }),
    {
        if self.searching {
            return PatternStart::Busy;
        }
        if !attached {
            return PatternStart::NoProcess;
        }
        match parse_aob(self.aob_text.as_str()) {
            Some(p) => {
                self.searching = true;
                PatternStart::Search(p)
            },
            None => PatternStart::Invalid,
        }
    }

    /// Takes the places of the search that was under way, or notes that it broke off. Gives what is
    /// said then.
    pub fn poll_aob_task(&mut self, result: Option<Vec<u64>>) -> (r: Option<String>)
        ensures
            !old(self).searching ==> *final(self) == *old(self) && r is None,
            old(self).searching ==> *final(self) == (InjectPane {
                searching: false,
                aob_results: match result {
                    Some(v) => v,
                    None => old(self).aob_results,
                },
                ..*old(self)
            }) && (r matches Some(s) && s@ == (match result {
                Some(v) => "AOB: "@ + text::decimal(v@.len()) + " ocorrências."@,
                None => "AOB scan interrompido."@,
            })),
    {
        if !self.searching {
            return None;
        }
        self.searching = false;
        match result {
            Some(v) => {
                let mut s = "AOB: ".to_owned();
                text::push_decimal(&mut s, v.len() as u64);
                s.append(" ocorrências.");
                self.aob_results = v;
                Some(s)
            },
            None => Some("AOB scan interrompido.".to_owned()),
        }
    }

    /// Takes a place over to be changed.
    pub fn patch_here(&mut self, a: u64)
        ensures
            *final(self) == (InjectPane {
                patch_addr_text: final(self).patch_addr_text,
                nop_addr_text: final(self).nop_addr_text,
                ..*old(self)
            }),
            final(self).patch_addr_text@ == text::hex_upper(a as nat),
            final(self).nop_addr_text@ == text::hex_upper(a as nat),
    {
        self.patch_addr_text = text::hex_string(a);
        self.nop_addr_text = text::hex_string(a);
    }

    /// Where to write which bytes. `None` where either was not typed right.
    pub fn patch(&self) -> (r: Option<(u64, Vec<u8>)>)
        ensures
            match r {
                Some((a, b)) => text::address_text(self.patch_addr_text@) == Some(a as int)
                    && hex_bytes(self.patch_bytes_text@) == Some(b@),
                None => text::address_text(self.patch_addr_text@) is None || hex_bytes(
                    self.patch_bytes_text@,
                ) is None,
            },
    {
        match (
            text::parse_addr(self.patch_addr_text.as_str()),
            parse_hex_bytes(self.patch_bytes_text.as_str()),
        ) {
            (Some(a), Some(b)) => Some((a, b)),
            _ => None,
        }
    }

    /// Where to overwrite how many bytes with instructions that do nothing. `None` where either was
    /// not typed right.
    pub fn nops(&self) -> (r: Option<(u64, usize)>)
        ensures
            match r {
                Some((a, n)) => text::address_text(self.nop_addr_text@) == Some(a as int)
                    && nop_count(self.nop_len_text@) == Some(n as int) && 1 <= n <= MAX_NOPS,
                None => text::address_text(self.nop_addr_text@) is None || nop_count(
                    self.nop_len_text@,
                ) is None,
            },
    {
        let t = text::trim(self.nop_len_text.as_str());
        match (
            text::parse_addr(self.nop_addr_text.as_str()),
            text::parse_integer(t.as_slice(), 10, 0, usize::MAX as i128),
        ) {
            (Some(a), Some(n)) => if n >= 1 && n <= MAX_NOPS as i128 {
                Some((a, n as usize))
            } else {
                None
            },
            _ => None,
        }
    }

    /// How to change the target after a click: not at all, where its protection forbids it.
    pub open spec fn acts(self, nav: Navigation, click: InjectClick, r: InjectAction) -> bool {
        let patch_at = text::address_text(self.patch_addr_text@);
        let nop_at = text::address_text(self.nop_addr_text@);
        let bytes = hex_bytes(self.patch_bytes_text@);
        let count = nop_count(self.nop_len_text@);
        let path = text::trimmed(self.dll_path@);
        if nav.blocked() {
            r is Nothing
        } else {
            match click {
                InjectClick::Patch => if patch_at is None || bytes is None {
                    r is Invalid
                } else {
                    r matches InjectAction::Write(a, b) && a as int == patch_at->0 && b@
                        == bytes->0
                },
                InjectClick::Nops => if nop_at is None || count is None {
                    r is Invalid
                } else {
                    r matches InjectAction::Write(a, b) && a as int == nop_at->0 && b@ == Seq::new(
                        count->0 as nat,
                        |i: int| NOP,
                    )
                },
                InjectClick::NopAt { addr, len } => r matches InjectAction::Write(a, b) && a == addr
                    && b@ == Seq::new(len as nat, |i: int| NOP),
                InjectClick::Library => if path.len() == 0 {
                    r is Invalid
                } else {
                    r matches InjectAction::Load(s) && s@ == path
                },
            }
        }
    }

    /// How to change the target after a click.
    pub fn act(&self, nav: &Navigation, click: InjectClick) -> (r: InjectAction)
        ensures
            self.acts(*nav, click, r),
            nav.blocked() ==> r is Nothing,
    {
        if nav.injection_blocked() {
            return InjectAction::Nothing;
        }
        match click {
            InjectClick::Patch => match self.patch() {
                Some((a, b)) => InjectAction::Write(a, b),
                None => InjectAction::Invalid,
            },
            InjectClick::Nops => match self.nops() {
                Some((a, n)) => InjectAction::Write(a, nop(n)),
                None => InjectAction::Invalid,
            },
            InjectClick::NopAt { addr, len } => InjectAction::Write(addr, nop(len)),
            InjectClick::Library => match self.library() {
                Some(s) => InjectAction::Load(s),
                None => InjectAction::Invalid,
            },
        }
    }

    /// The path of the library that was typed, without white space around it; nothing where it is
    /// empty.
    pub fn library(&self) -> (r: Option<String>)
        ensures
            match r {
                Some(s) => text::trimmed(self.dll_path@).len() > 0 && s@ == text::trimmed(
                    self.dll_path@,
                ),
                None => text::trimmed(self.dll_path@).len() == 0,
            },
    {
        let t = text::trim(self.dll_path.as_str());
        if t.len() == 0 {
            None
        } else {
            Some(text::string_of(&t))
        }
    }
}

/// What is said when a search for a pattern starts or does not; nothing while one is under way.
pub fn pattern_status(start: &PatternStart) -> (r: Option<&'static str>)
    ensures
        match start {
            PatternStart::Busy => r is None,
            PatternStart::NoProcess => r matches Some(s) && s@ == "Anexe um processo primeiro."@,
            PatternStart::Invalid => r matches Some(s) && s@ == "Padrão AOB inválido."@,
            PatternStart::Search(_) => r matches Some(s) && s@ == "AOB scan em andamento..."@,
        },
{
    match start {
        PatternStart::Busy => None,
        PatternStart::NoProcess => Some("Anexe um processo primeiro."),
        PatternStart::Invalid => Some("Padrão AOB inválido."),
        PatternStart::Search(_) => Some("AOB scan em andamento..."),
    }
}

/// What is said after bytes were written, or were not typed right.
pub fn patch_status(done: Option<(u64, usize, bool)>) -> (r: String)
    ensures
        r@ == (match done {
            Some((a, n, true)) => "Patch de "@ + text::decimal(n as nat) + " bytes em "@
                + text::hex_upper(a as nat) + "."@,
            Some((_, _, false)) => "Falha no patch."@,
            None => "Endereço ou bytes inválidos."@,
        }),
{
    match done {
        Some((a, n, ok)) => if ok {
            let mut s = "Patch de ".to_owned();
            text::push_decimal(&mut s, n as u64);
            s.append(" bytes em ");
            text::push_hex(&mut s, a);
            s.append(".");
            s
        } else {
            "Falha no patch.".to_owned()
        },
        None => "Endereço ou bytes inválidos.".to_owned(),
    }
}

/// What is said after instructions were overwritten, or were not typed right.
pub fn nops_status(done: Option<(u64, usize, bool)>) -> (r: String)
    ensures
        r@ == (match done {
            Some((a, n, true)) => text::decimal(n as nat) + " NOP(s) em "@ + text::hex_upper(
                a as nat,
            ) + "."@,
            Some((_, _, false)) => "Falha no NOP."@,
            None => "Endereço/quantidade inválidos (1..256)."@,
        }),
{
    match done {
        Some((a, n, ok)) => if ok {
            let mut s = String::new();
            text::push_decimal(&mut s, n as u64);
            s.append(" NOP(s) em ");
            text::push_hex(&mut s, a);
            s.append(".");
            assert(s@ =~= text::decimal(n as nat) + " NOP(s) em "@ + text::hex_upper(a as nat)
                + "."@);
            s
        } else {
            "Falha no NOP.".to_owned()
        },
        None => "Endereço/quantidade inválidos (1..256).".to_owned(),
    }
}

/// What is said after a library was loaded, could not be, or is not there.
pub fn library_status(outcome: Option<LoadOutcome>) -> (r: String)
    ensures
        r@ == (match outcome {
            None => "Arquivo .dll não encontrado."@,
            Some(LoadOutcome::Returned(code)) => if code != 0 {
                "DLL injetada (LoadLibrary retornou 0x"@ + text::hex_upper(code as nat) + ")."@
            } else {
                "CreateRemoteThread rodou mas LoadLibrary retornou 0 (DLL falhou ao carregar — arquitetura x86/x64?)."@
            },
            Some(LoadOutcome::Failed(e)) => "Falha na injeção: "@ + e@,
        }),
{
    match outcome {
        None => "Arquivo .dll não encontrado.".to_owned(),
        Some(o) => match o {
            LoadOutcome::Returned(code) => if code != 0 {
                let mut s = "DLL injetada (LoadLibrary retornou 0x".to_owned();
                text::push_hex(&mut s, code as u64);
                s.append(").");
                s
            } else {
                "CreateRemoteThread rodou mas LoadLibrary retornou 0 (DLL falhou ao carregar — arquitetura x86/x64?).".to_owned()
            },
            LoadOutcome::Failed(e) => {
                let mut s = "Falha na injeção: ".to_owned();
                s.append(e.as_str());
                s
            },
        },
    }
}

/// Bytes typed in hexadecimal are written at the typed address, and as many typed instructions that
/// do nothing, from 1 to 256 of them; a library is loaded by its path without white space around it.
pub proof fn law_typed_changes_are_made(
    pane: InjectPane,
    nav: Navigation,
    a: u64,
    bytes: Seq<u8>,
    n: nat,
    upper: bool,
    patched: InjectAction,
    nopped: InjectAction,
)
    requires
        !nav.blocked(),
        bytes.len() > 0,
        n <= usize::MAX,
        pane.patch_addr_text@ == text::numeral(a as nat, 16, upper),
        pane.nop_addr_text@ == text::numeral(a as nat, 16, upper),
        pane.patch_bytes_text@ == crate::inject::spaced_bytes(bytes, seq![' '], upper),
        pane.nop_len_text@ == text::decimal(n),
        pane.acts(nav, InjectClick::Patch, patched),
        pane.acts(nav, InjectClick::Nops, nopped),
    ensures
        patched matches InjectAction::Write(at, b) && at == a && b@ == bytes,
        1 <= n <= 256 ==> (nopped matches InjectAction::Write(at, b) && at == a && b@.len() == n && (
        forall|i: int| 0 <= i < n ==> #[trigger] b@[i] == 0x90)),
        n == 0 || n > 256 ==> nopped is Invalid,
{
    let none = Seq::<char>::empty();
    text::law_typed_address_is_read(a, upper, none, none);
    let t = text::numeral(a as nat, 16, upper);
    assert(none + t + none =~= t);
    assert(text::is_space(' '));
    crate::inject::law_typed_bytes_are_read(bytes, seq![' '], none, 'x', upper);
    let s = pane.patch_bytes_text@;
    assert(s + none =~= s);
    let d = text::decimal(n);
    text::law_numeral_round_trip(n, 10, false);
    text::law_trimming_takes_white_space(none, d, none);
    assert(none + d + none =~= d);
    text::law_integer_round_trip(n as int, 0, usize::MAX as int);
}

/// A target that must not be changed is changed by no click.
pub proof fn law_blocked_target_is_left(
    pane: InjectPane,
    nav: Navigation,
    click: InjectClick,
    r: InjectAction,
)
    requires
        nav.blocked(),
        pane.acts(nav, click, r),
    ensures
        r is Nothing,
{
}

/// The bytes of an instruction that is shown are overwritten with instructions that do nothing, at its
/// address and as many as it has; and a library is loaded by the typed path, without white space
/// around it.
pub proof fn law_shown_instruction_is_overwritten(
    pane: InjectPane,
    nav: Navigation,
    addr: u64,
    len: usize,
    path: Seq<char>,
    before: Seq<char>,
    behind: Seq<char>,
    nopped: InjectAction,
    loaded: InjectAction,
)
    requires
        !nav.blocked(),
        text::blank(before),
        text::blank(behind),
        path.len() == 0 || (!text::is_space(path[0]) && !text::is_space(path.last())),
        pane.dll_path@ == before + path + behind,
        pane.acts(nav, InjectClick::NopAt { addr, len }, nopped),
        pane.acts(nav, InjectClick::Library, loaded),
    ensures
        nopped matches InjectAction::Write(at, b) && at == addr && b@.len() == len && (forall|i: int|
            0 <= i < len ==> #[trigger] b@[i] == 0x90),
        path.len() > 0 ==> (loaded matches InjectAction::Load(s) && s@ == path),
        path.len() == 0 ==> loaded is Invalid,
{
    text::law_trimming_takes_white_space(before, path, behind);
}

} // verus!
