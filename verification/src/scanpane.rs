//! The page that searches for values: what it asks for, starts and shows.

use crate::entries::SavedEntry;
use crate::scan::{all_fit, Match, ScanCmp, ScanKind, Scanner};
use crate::snapshot::{pieces_fit, Snapshot};
use crate::text;
use crate::value::ValueType;
use vstd::prelude::*;

verus! {

/// How many results are shown.
pub const SHOWN_RESULTS: usize = 1000;

/// What the page holds.
pub struct ScanPane {
    pub value_type: ValueType,
    pub scan_kind: ScanKind,
    pub value_text: String,
    /// The upper bound, for a comparison with two.
    pub value_text2: String,
    pub fast_scan: bool,
    pub scanner: Scanner,
    /// A search is under way; whether it is one among results.
    pub task: Option<bool>,
    /// A picture is being taken.
    pub picturing: bool,
    pub snapshot: Option<Snapshot>,
    pub status: String,
}

/// The bits that the two typed texts denote as floating-point numbers of the kind.
#[derive(Clone, Copy, PartialEq, Eq, Structural, Debug)]
pub struct Patterns {
    pub first: Option<u64>,
    pub second: Option<u64>,
}

/// The targets that bytes stand for.
pub open spec fn target_of(vt: ValueType, b: Seq<u8>) -> (i128, u64) {
    (
        match vt.int_in(b) {
            Some(v) => v as i128,
            None => 0,
        },
        match vt.float_in(b) {
            Some(p) => p as u64,
            None => 0,
        },
    )
}

fn read_target(vt: ValueType, b: &[u8]) -> (r: (i128, u64))
    ensures
        r == target_of(vt, b@),
{
    (
        match vt.read_i128(b) {
            Some(v) => v,
            None => 0,
        },
        match vt.read_f64(b) {
            Some(p) => p,
            None => 0,
        },
    )
}

/// What a first search comes to.
pub enum FirstPlan {
    Busy,
    NoProcess,
    NoText,
    Relative,
    Invalid,
    Text(Seq<u8>),
    Value(ScanCmp),
}

/// What a first search is to look for.
pub enum FirstStart {
    Nothing,
    Text(Vec<u8>),
    Value(ScanCmp),
}

/// What a next search comes to.
pub enum NextPlan {
    Busy,
    NoProcess,
    NoFirst,
    NoText,
    Invalid,
    Text(Seq<u8>),
    Picture(ScanCmp),
    Value(ScanCmp),
}

/// What a next search is to look for, and among what.
pub enum NextStart {
    Nothing,
    Text(Vec<Match>, Vec<u8>),
    Picture(Snapshot, ScanCmp),
    Value(Vec<Match>, ScanCmp),
}

/// A scanner that has found nothing.
pub open spec fn is_fresh(s: Scanner, vt: ValueType, fast: bool) -> bool {
    &&& s.value_type == vt
    &&& s.fast_scan == fast
    &&& s.matches@ == Seq::<Match>::empty()
    &&& !s.has_scanned
}

/// The comparison that is used for a kind of value.
pub open spec fn settled(vt: ValueType, kind: ScanKind) -> ScanKind {
    if vt.text_kind() {
        ScanKind::Exact
    } else {
        kind
    }
}

/// Whether the field for the value can be filled in, and whether there is one for a second value.
pub open spec fn fields_of(vt: ValueType, kind: ScanKind) -> (bool, bool) {
    (vt.text_kind() || kind.by_value(), !vt.text_kind() && kind is Between)
}

impl ScanPane {
    /// The invariant of the page.
    pub open spec fn wf(self) -> bool {
        &&& all_fit(self.scanner.matches@)
        &&& self.snapshot matches Some(s) ==> pieces_fit(s@)
    }

    /// The start.
    pub fn new() -> (r: ScanPane)
        ensures
            r.value_type == ValueType::I32,
            r.scan_kind == ScanKind::Exact,
            r.value_text@ == Seq::<char>::empty(),
            r.value_text2@ == Seq::<char>::empty(),
            r.fast_scan,
            is_fresh(r.scanner, ValueType::I32, true),
            r.task is None,
            !r.picturing,
            r.snapshot is None,
            r.status@ == "Nenhum processo anexado."@,
            r.wf(),
    {
        ScanPane {
            value_type: ValueType::I32,
            scan_kind: ScanKind::Exact,
            value_text: String::new(),
            value_text2: String::new(),
            fast_scan: true,
            scanner: Scanner::new(ValueType::I32),
            task: None,
            picturing: false,
            snapshot: None,
            status: "Nenhum processo anexado.".to_owned(),
        }
    }

    /// Texts can only be compared exactly.
    pub fn settle_kind(&mut self)
        ensures
            *final(self) == (ScanPane {
                scan_kind: settled(old(self).value_type, old(self).scan_kind),
                ..*old(self)
            }),
    {
        if self.value_type.is_string() {
            self.scan_kind = ScanKind::Exact;
        }
    }

    /// What stands before the field for the value.
    pub fn value_label(&self) -> (r: &'static str)
        ensures
            r@ == (if self.value_type.text_kind() {
                "Texto:"@
            } else if self.scan_kind is Between {
                "De:"@
            } else {
                "Valor:"@
            }),
    {
        if self.value_type.is_string() {
            "Texto:"
        } else if self.scan_kind.needs_two() {
            "De:"
        } else {
            "Valor:"
        }
    }

    /// Tells whether the field for the value can be filled in, and whether there is one for a second
    /// value.
    pub fn fields(&self) -> (r: (bool, bool))
        ensures
            r == fields_of(self.value_type, self.scan_kind),
    {
        (
            self.value_type.is_string() || self.scan_kind.needs_value(),
            !self.value_type.is_string() && self.scan_kind.needs_two(),
        )
    }

    /// Something is under way.
    pub open spec fn scanning(self) -> bool {
        self.task is Some || self.picturing
    }

    /// Which buttons work: a first search, a next one, a new one, and a picture.
    pub open spec fn working_buttons(self, attached: bool) -> (bool, bool, bool, bool) {
        let free = !self.scanning();
        (
            attached && free,
            attached && free && self.scanner.has_scanned,
            free,
            attached && free && !self.value_type.text_kind(),
        )
    }

    /// Tells which buttons work: a first search, a next one, a new one, and a picture.
    pub fn buttons(&self, attached: bool) -> (r: (bool, bool, bool, bool))
        ensures
            r == self.working_buttons(attached),
    {
        let scanning = self.task.is_some() || self.picturing;
        let enabled = attached && !scanning;
        (
            enabled,
            enabled && self.scanner.has_scanned,
            !scanning,
            enabled && !self.value_type.is_string(),
        )
    }

    /// The comparison that was asked for; nothing where a typed value does not fit the kind.
    pub open spec fn comparison(self, p: Patterns) -> Option<ScanCmp> {
        let vt = self.value_type;
        let k = self.scan_kind;
        let b1 = vt.bytes_of(self.value_text@, p.first);
        let b2 = vt.bytes_of(self.value_text2@, p.second);
        if !k.by_value() {
            Some(ScanCmp { kind: k, t1_i: 0, t2_i: 0, t1_f: 0, t2_f: 0 })
        } else if b1 is None || (k is Between && b2 is None) {
            None
        } else {
            let t1 = target_of(vt, b1->0);
            let t2 = if k is Between {
                target_of(vt, b2->0)
            } else {
                (0i128, 0u64)
            };
            Some(ScanCmp { kind: k, t1_i: t1.0, t2_i: t2.0, t1_f: t1.1, t2_f: t2.1 })
        }
    }

    /// The comparison that was asked for. `None` where a typed value does not fit the kind. A
    /// comparison with the previous search needs no value.
    pub fn build_cmp(&self, p: Patterns) -> (r: Option<ScanCmp>)
        ensures
            r == self.comparison(p),
    {
        if !self.scan_kind.needs_value() {
            return Some(ScanCmp::relative(self.scan_kind));
        }
        let vt = self.value_type;
        let (t1_i, t1_f) = match vt.parse_to_bytes(self.value_text.as_str(), p.first) {
            Some(b) => read_target(vt, b.as_slice()),
            None => {
                return None;
            },
        };
        let (t2_i, t2_f): (i128, u64) = if self.scan_kind.needs_two() {
            match vt.parse_to_bytes(self.value_text2.as_str(), p.second) {
                Some(b) => read_target(vt, b.as_slice()),
                None => {
                    return None;
                },
            }
        } else {
            (0, 0)
        };
        Some(ScanCmp { kind: self.scan_kind, t1_i, t2_i, t1_f, t2_f })
    }

    /// What a first search comes to.
    pub open spec fn first_plan(self, attached: bool, p: Patterns) -> FirstPlan {
        if self.task is Some {
            FirstPlan::Busy
        } else if !attached {
            FirstPlan::NoProcess
        } else if self.value_type.text_kind() {
            let b = self.value_type.bytes_of(self.value_text@, p.first)->0;
            if b.len() == 0 {
                FirstPlan::NoText
            } else {
                FirstPlan::Text(b)
            }
        } else if !self.scan_kind.by_value() {
            FirstPlan::Relative
        } else {
            match self.comparison(p) {
                Some(c) => FirstPlan::Value(c),
                None => FirstPlan::Invalid,
            }
        }
    }

    /// Starts a first search, or says why not.
    pub fn do_first_scan(&mut self, attached: bool, p: Patterns) -> (r: FirstStart)
        requires
            old(self).wf(),
        ensures
            final(self).wf(),
            ({
                let plan = old(self).first_plan(attached, p);
                let starts = plan is Text || plan is Value;
                &&& match plan {
                    FirstPlan::Text(b) => r matches FirstStart::Text(v) && v@ == b,
                    FirstPlan::Value(c) => r == FirstStart::Value(c),
                    _ => r is Nothing,
                }
                &&& *final(self) == ScanPane {
                    scanner: final(self).scanner,
                    task: if starts {
                        Some(false)
                    } else {
                        old(self).task
                    },
                    status: final(self).status,
                    ..*old(self)
                }
                &&& if starts {
                    is_fresh(
                        final(self).scanner,
                        old(self).value_type,
                        plan is Text || old(self).fast_scan,
                    )
                } else {
                    final(self).scanner == old(self).scanner
                }
                &&& final(self).status@ == match plan {
                    FirstPlan::Busy => old(self).status@,
                    FirstPlan::NoProcess => "Anexe um processo primeiro."@,
                    FirstPlan::NoText => "Digite um texto para procurar."@,
                    FirstPlan::Relative =>
                        "Comparacoes relativas (mudou/aumentou/...) so valem no Next Scan. Use 'valor exato', 'maior que' ou 'menor que' no First Scan."@,
                    FirstPlan::Invalid => "Valor invalido para o tipo selecionado."@,
                    FirstPlan::Text(_) => "First scan (texto) em andamento..."@,
                    FirstPlan::Value(_) => "First scan em andamento..."@,
                }
            }),
    {
        if self.task.is_some() {
            return FirstStart::Nothing;
        }
        if !attached {
            self.status = "Anexe um processo primeiro.".to_owned();
            return FirstStart::Nothing;
        }
        if self.value_type.is_string() {
            let bytes = match self.value_type.parse_to_bytes(self.value_text.as_str(), p.first) {
                Some(b) => b,
                None => Vec::new(),
            };
            if bytes.len() == 0 {
                self.status = "Digite um texto para procurar.".to_owned();
                return FirstStart::Nothing;
            }
            self.scanner = Scanner::new(self.value_type);
            self.task = Some(false);
            self.status = "First scan (texto) em andamento...".to_owned();
            return FirstStart::Text(bytes);
        }
        if !self.scan_kind.needs_value() {
            self.status =
            "Comparacoes relativas (mudou/aumentou/...) so valem no Next Scan. Use 'valor exato', 'maior que' ou 'menor que' no First Scan.".to_owned();
            return FirstStart::Nothing;
        }
        match self.build_cmp(p) {
            Some(c) => {
                let mut scanner = Scanner::new(self.value_type);
                scanner.fast_scan = self.fast_scan;
                self.scanner = scanner;
                self.task = Some(false);
                self.status = "First scan em andamento...".to_owned();
                FirstStart::Value(c)
            },
            None => {
                self.status = "Valor invalido para o tipo selecionado.".to_owned();
                FirstStart::Nothing
            },
        }
    }

    /// Starts taking a picture for a search without a known value, or says why not.
    pub fn do_unknown_first(&mut self, attached: bool) -> (r: bool)
        requires
            old(self).wf(),
        ensures
            final(self).wf(),
            r == old(self).working_buttons(attached).3,
            *final(self) == (ScanPane {
                scanner: final(self).scanner,
                picturing: old(self).picturing || r,
                snapshot: if r {
                    None
                } else {
                    old(self).snapshot
                },
                status: final(self).status,
                ..*old(self)
            }),
            if r {
                is_fresh(final(self).scanner, old(self).value_type, old(self).fast_scan)
            } else {
                final(self).scanner == old(self).scanner
            },
            final(self).status@ == (if old(self).scanning() {
                old(self).status@
            } else if !attached {
                "Anexe um processo primeiro."@
            } else if old(self).value_type.text_kind() {
                "Valor desconhecido não se aplica a strings."@
            } else {
                "Capturando snapshot (valor desconhecido)…"@
            }),
    {
        if self.task.is_some() || self.picturing {
            return false;
        }
        if !attached {
            self.status = "Anexe um processo primeiro.".to_owned();
            return false;
        }
        if self.value_type.is_string() {
            self.status = "Valor desconhecido não se aplica a strings.".to_owned();
            return false;
        }
        let mut scanner = Scanner::new(self.value_type);
        scanner.fast_scan = self.fast_scan;
        self.scanner = scanner;
        self.snapshot = None;
        self.picturing = true;
        self.status = "Capturando snapshot (valor desconhecido)…".to_owned();
        true
    }

    /// What a next search comes to.
    pub open spec fn next_plan(self, attached: bool, p: Patterns) -> NextPlan {
        if self.task is Some {
            NextPlan::Busy
        } else if !attached {
            NextPlan::NoProcess
        } else if !self.scanner.has_scanned {
            NextPlan::NoFirst
        } else if self.value_type.text_kind() {
            let b = self.value_type.bytes_of(self.value_text@, p.first)->0;
            if b.len() == 0 {
                NextPlan::NoText
            } else {
                NextPlan::Text(b)
            }
        } else {
            match self.comparison(p) {
                Some(c) => if self.snapshot is Some {
                    NextPlan::Picture(c)
                } else {
                    NextPlan::Value(c)
                },
                None => NextPlan::Invalid,
            }
        }
    }

    /// Starts a search among the results, or against the picture, or says why not. The results or
    /// the picture go into the search.
    pub fn do_next_scan(&mut self, attached: bool, p: Patterns) -> (r: NextStart)
        requires
            old(self).wf(),
        ensures
            final(self).wf(),
            ({
                let plan = old(self).next_plan(attached, p);
                let starts = plan is Text || plan is Value || plan is Picture;
                let moves = plan is Text || plan is Value;
                &&& match plan {
                    NextPlan::Text(b) => r matches NextStart::Text(m, v) && m@
                        == old(self).scanner.matches@ && v@ == b,
                    NextPlan::Value(c) => r matches NextStart::Value(m, d) && m@
                        == old(self).scanner.matches@ && d == c,
                    NextPlan::Picture(c) => r matches NextStart::Picture(s, d) && Some(s)
                        == old(self).snapshot && d == c,
                    _ => r is Nothing,
                }
                &&& *final(self) == ScanPane {
                    scanner: final(self).scanner,
                    task: if starts {
                        Some(true)
                    } else {
                        old(self).task
                    },
                    snapshot: if plan is Picture {
                        None
                    } else {
                        old(self).snapshot
                    },
                    status: final(self).status,
                    ..*old(self)
                }
                &&& final(self).scanner.value_type == old(self).scanner.value_type
                &&& final(self).scanner.fast_scan == old(self).scanner.fast_scan
                &&& final(self).scanner.has_scanned == old(self).scanner.has_scanned
                &&& final(self).scanner.matches@ == (if moves {
                    Seq::empty()
                } else {
                    old(self).scanner.matches@
                })
                &&& final(self).status@ == match plan {
                    NextPlan::Busy => old(self).status@,
                    NextPlan::NoProcess => old(self).status@,
                    NextPlan::NoFirst => "Faca um First Scan antes."@,
                    NextPlan::NoText => "Digite um texto para procurar."@,
                    NextPlan::Invalid => "Valor invalido."@,
                    NextPlan::Text(_) => "Next scan (texto) em andamento..."@,
                    NextPlan::Picture(_) => "Next scan (valor desconhecido) em andamento…"@,
                    NextPlan::Value(_) => "Next scan em andamento..."@,
                }
            }),
    {
        if self.task.is_some() || !attached {
            return NextStart::Nothing;
        }
        if !self.scanner.has_scanned {
            self.status = "Faca um First Scan antes.".to_owned();
            return NextStart::Nothing;
        }
        if self.value_type.is_string() {
            let bytes = match self.value_type.parse_to_bytes(self.value_text.as_str(), p.first) {
                Some(b) => b,
                None => Vec::new(),
            };
            if bytes.len() == 0 {
                self.status = "Digite um texto para procurar.".to_owned();
                return NextStart::Nothing;
            }
            let mut current: Vec<Match> = Vec::new();
            std::mem::swap(&mut current, &mut self.scanner.matches);
            self.task = Some(true);
            self.status = "Next scan (texto) em andamento...".to_owned();
            return NextStart::Text(current, bytes);
        }
        match self.build_cmp(p) {
            None => {
                self.status = "Valor invalido.".to_owned();
                NextStart::Nothing
            },
            Some(c) => {
                let mut snapshot: Option<Snapshot> = None;
                std::mem::swap(&mut snapshot, &mut self.snapshot);
                match snapshot {
                    Some(s) => {
                        self.task = Some(true);
                        self.status = "Next scan (valor desconhecido) em andamento…".to_owned();
                        NextStart::Picture(s, c)
                    },
                    None => {
                        let mut current: Vec<Match> = Vec::new();
                        std::mem::swap(&mut current, &mut self.scanner.matches);
                        self.task = Some(true);
                        self.status = "Next scan em andamento...".to_owned();
                        NextStart::Value(current, c)
                    },
                }
            },
        }
    }

    /// Takes the results of the search that was under way, or notes that it broke off.
    pub fn poll_scan_task(&mut self, result: Option<Vec<Match>>)
        requires
            old(self).wf(),
            result matches Some(m) ==> all_fit(m@),
        ensures
            final(self).wf(),
            old(self).task is None ==> *final(self) == *old(self),
            old(self).task matches Some(is_next) ==> {
                &&& *final(self) == ScanPane {
                    scanner: final(self).scanner,
                    task: None,
                    status: final(self).status,
                    ..*old(self)
                }
                &&& match result {
                    Some(m) => {
                        &&& final(self).scanner == Scanner {
                            matches: m,
                            has_scanned: true,
                            ..old(self).scanner
                        }
                        &&& final(self).status@ == (if is_next {
                            "Next scan"@
                        } else {
                            "First scan"@
                        }) + ": "@ + text::decimal(m@.len()) + " resultados."@
                    },
                    None => {
                        &&& final(self).scanner == old(self).scanner
                        &&& final(self).status@ == "Busca interrompida (thread encerrou)."@
                    },
                }
            },
    {
        let is_next = match self.task {
            Some(n) => n,
            None => {
                return;
            },
        };
        self.task = None;
        match result {
            Some(m) => {
                let mut s = (if is_next {
                    "Next scan"
                } else {
                    "First scan"
                }).to_owned();
                s.append(": ");
                text::push_decimal(&mut s, m.len() as u64);
                s.append(" resultados.");
                self.scanner.matches = m;
                self.scanner.has_scanned = true;
                self.status = s;
            },
            None => {
                self.status = "Busca interrompida (thread encerrou).".to_owned();
            },
        }
    }

    /// Takes the picture that was being taken, or notes that it broke off.
    pub fn poll_unknown_task(&mut self, result: Option<Snapshot>)
        requires
            old(self).wf(),
            result matches Some(s) ==> pieces_fit(s@),
        ensures
            final(self).wf(),
            !old(self).picturing ==> *final(self) == *old(self),
            old(self).picturing ==> {
                &&& *final(self) == ScanPane {
                    scanner: final(self).scanner,
                    picturing: false,
                    snapshot: match result {
                        Some(s) => Some(s),
                        None => old(self).snapshot,
                    },
                    status: final(self).status,
                    ..*old(self)
                }
                &&& match result {
                    Some(s) => {
                        &&& final(self).scanner.value_type == old(self).scanner.value_type
                        &&& final(self).scanner.fast_scan == old(self).scanner.fast_scan
                        &&& final(self).scanner.matches@ == Seq::<Match>::empty()
                        &&& final(self).scanner.has_scanned
                        &&& final(self).status@ == "Snapshot capturado ("@ + text::decimal(s@.len())
                            + " regiões). Mude o valor no jogo e use Next Scan (mudou/aumentou/diminuiu…)."@
                    },
                    None => {
                        &&& final(self).scanner == old(self).scanner
                        &&& final(self).status@ == "Snapshot interrompido."@
                    },
                }
            },
    {
        if !self.picturing {
            return;
        }
        self.picturing = false;
        match result {
            Some(snap) => {
                let mut s = "Snapshot capturado (".to_owned();
                text::push_decimal(&mut s, snap.regions.len() as u64);
                s.append(
                    " regiões). Mude o valor no jogo e use Next Scan (mudou/aumentou/diminuiu…).",
                );
                self.snapshot = Some(snap);
                self.scanner.matches.clear();
                self.scanner.has_scanned = true;
                self.status = s;
            },
            None => {
                self.status = "Snapshot interrompido.".to_owned();
            },
        }
    }

    /// Forgets the results and the picture.
    pub fn new_search(&mut self)
        requires
            old(self).wf(),
        ensures
            final(self).wf(),
            *final(self) == (ScanPane {
                scanner: final(self).scanner,
                snapshot: None,
                status: final(self).status,
                ..*old(self)
            }),
            is_fresh(
                final(self).scanner,
                old(self).scanner.value_type,
                old(self).scanner.fast_scan,
            ),
            final(self).status@ == "Busca limpa."@,
    {
        self.scanner.reset();
        self.snapshot = None;
        self.status = "Busca limpa.".to_owned();
    }

    /// How many bytes are read to show a result: those of the typed text, or of the kind.
    pub open spec fn shown_len(self, p: Patterns) -> int {
        if self.value_type.text_kind() {
            match self.value_type.bytes_of(self.value_text@, p.first) {
                Some(b) => b.len() as int,
                None => 0,
            }
        } else {
            self.value_type.width() as int
        }
    }

    /// How many bytes are read to show a result.
    pub fn read_len(&self, p: Patterns) -> (r: usize)
        ensures
            r == self.shown_len(p),
    {
        if self.value_type.is_string() {
            match self.value_type.parse_to_bytes(self.value_text.as_str(), p.first) {
                Some(b) => b.len(),
                None => 0,
            }
        } else {
            self.value_type.size()
        }
    }

    /// The addresses that are shown: the first ones found.
    pub fn shown(&self) -> (r: Vec<u64>)
        ensures
            r@ == crate::sweep::at_most(
                self.scanner.matches@,
                SHOWN_RESULTS as int,
            ).map_values(|m: Match| m.address),
    {
        let ghost all = crate::sweep::at_most(self.scanner.matches@, SHOWN_RESULTS as int);
        let mut out: Vec<u64> = Vec::new();
        let mut i: usize = 0;
        while i < self.scanner.matches.len() && i < SHOWN_RESULTS
            invariant
                i <= all.len(),
                all == crate::sweep::at_most(self.scanner.matches@, SHOWN_RESULTS as int),
                out@ == all.take(i as int).map_values(|m: Match| m.address),
            decreases SHOWN_RESULTS - i,
        {
            out.push(self.scanner.matches[i].address);
            i += 1;
            assert(out@ =~= all.take(i as int).map_values(|m: Match| m.address));
        }
        assert(all.take(i as int) =~= all);
        out
    }

    /// The entry that a result becomes when it is saved. Only a text has a length of its own.
    pub fn to_entry(&self, address: u64, p: Patterns) -> (r: SavedEntry)
        ensures
            r@ == crate::entries::entry_at(
                address,
                self.value_type,
                if self.value_type.text_kind() {
                    self.shown_len(p) as usize
                } else {
                    0
                },
            ),
    {
        let str_len: usize = if self.value_type.is_string() {
            self.read_len(p)
        } else {
            0
        };
        SavedEntry::fixed(address, self.value_type, str_len)
    }
}

/// The line above the results.
pub fn results_line(total: usize) -> (r: String)
    ensures
        r@ == "Resultados: "@ + text::decimal(total as nat) + " (mostrando ate 1000)"@,
{
    let mut s = "Resultados: ".to_owned();
    text::push_decimal(&mut s, total as u64);
    s.append(" (mostrando ate 1000)");
    s
}

/// The line in the progress bar, behind a number.
pub fn progress_line(n: usize, what: &str) -> (r: String)
    ensures
        r@ == text::decimal(n as nat) + " "@ + what@,
{
    let mut s = String::new();
    text::push_decimal(&mut s, n as u64);
    s.append(" ");
    s.append(what);
    assert(s@ =~= text::decimal(n as nat) + " "@ + what@);
    s
}

/// While a search is under way, no other starts.
pub proof fn law_one_search_at_a_time(pane: ScanPane, attached: bool, p: Patterns)
    requires
        pane.task is Some,
    ensures
        pane.first_plan(attached, p) is Busy,
        pane.next_plan(attached, p) is Busy,
{
}

// ---------------------------------------------------------------------------
// Laws of the page
// ---------------------------------------------------------------------------

/// An integer typed in decimal is the target of the comparison, and two are its bounds; where the
/// kind has no such integer there is no comparison. A comparison with the previous search needs
/// none.
pub proof fn law_typed_integers_are_targets(
    pane: ScanPane,
    p: Patterns,
    v: int,
    w: int,
    a: Seq<char>,
    b: Seq<char>,
)
    requires
        pane.value_type.int_kind(),
        text::blank(a),
        text::blank(b),
        pane.value_text@ == a + text::signed_decimal(v) + b,
        pane.value_text2@ == a + text::signed_decimal(w) + b,
    ensures
        ({
            let vt = pane.value_type;
            let k = pane.scan_kind;
            let r = pane.comparison(p);
            let first = vt.lowest() <= v <= vt.highest();
            let second = vt.lowest() <= w <= vt.highest();
            &&& r matches Some(c) ==> c.kind == k
            &&& k is Exact || k is BiggerThan || k is SmallerThan ==> {
                &&& r is Some <==> first
                &&& r matches Some(c) ==> c.t1_i == v
            }
            &&& k is Between ==> {
                &&& r is Some <==> first && second
                &&& r matches Some(c) ==> c.t1_i == v && c.t2_i == w
            }
            &&& k is Changed || k is Unchanged || k is Increased || k is Decreased ==> r is Some
        }),
{
    let vt = pane.value_type;
    crate::bytes::lemma_span_values();
    crate::value::law_typed_integer_is_written(vt, v, a, b, p.first);
    crate::value::law_typed_integer_is_written(vt, w, a, b, p.second);
    if vt.lowest() <= v <= vt.highest() {
        crate::value::law_integer_is_read(vt, v, Seq::empty(), Seq::empty());
        let d = crate::value::written(vt, v);
        assert(d + Seq::<u8>::empty() =~= d);
    }
    if vt.lowest() <= w <= vt.highest() {
        crate::value::law_integer_is_read(vt, w, Seq::empty(), Seq::empty());
        let d = crate::value::written(vt, w);
        assert(d + Seq::<u8>::empty() =~= d);
    }
}

/// The bits that typed texts denote are the targets of a comparison of floating-point numbers: as
/// they are for 64 bits, and the same numbers for 32 bits. Where a text denotes none there is no
/// comparison.
pub proof fn law_typed_floats_are_targets(pane: ScanPane, p: Patterns, x: u32, y: u32)
    requires
        pane.value_type.float_kind(),
        pane.value_type is F32 ==> p.first == Some(x as u64) && p.second == Some(y as u64),
        pane.scan_kind.by_value(),
    ensures
        ({
            let r = pane.comparison(p);
            let both = p.second is Some || !(pane.scan_kind is Between);
            &&& r is Some <==> p.first is Some && both
            &&& r matches Some(c) ==> {
                &&& c.kind == pane.scan_kind
                &&& pane.value_type is F64 ==> Some(c.t1_f) == p.first
                &&& pane.value_type is F64 && pane.scan_kind is Between ==> Some(c.t2_f) == p.second
                &&& pane.value_type is F32 ==> c.t1_f == crate::ieee::widened(x)
                &&& pane.value_type is F32 && pane.scan_kind is Between ==> c.t2_f
                    == crate::ieee::widened(y)
            }
        }),
{
    let none = Seq::<u8>::empty();
    crate::ieee::lemma_widened_fits(x);
    crate::ieee::lemma_widened_fits(y);
    let s1 = pane.value_text@;
    let s2 = pane.value_text2@;
    let f = match p.first {
        Some(v) => v,
        None => 0,
    };
    let g = match p.second {
        Some(v) => v,
        None => 0,
    };
    crate::value::law_typed_float_is_read(s1, f, x, none);
    crate::value::law_typed_float_is_read(s2, g, y, none);
    let vt = pane.value_type;
    if let Some(b) = vt.bytes_of(s1, p.first) {
        assert(b + none =~= b);
    }
    if let Some(b) = vt.bytes_of(s2, p.second) {
        assert(b + none =~= b);
    }
}

/// A first search starts where a process is attached, no search is under way and what was typed is a
/// value of the kind; a comparison with an earlier search is refused. A text that is not empty is
/// looked for as its bytes.
pub proof fn law_first_search_starts(pane: ScanPane, attached: bool, p: Patterns)
    ensures
        ({
            let r = pane.first_plan(attached, p);
            let vt = pane.value_type;
            let free = pane.task is None && attached;
            &&& r is Busy <==> pane.task is Some
            &&& r is NoProcess <==> pane.task is None && !attached
            &&& r matches FirstPlan::Value(c) ==> free && !vt.text_kind() && pane.comparison(p)
                == Some(c) && pane.scan_kind.by_value()
            &&& r matches FirstPlan::Text(b) ==> free && vt.text_kind() && b.len() > 0
                && vt.bytes_of(pane.value_text@, p.first) == Some(b)
            &&& free && !vt.text_kind() && pane.scan_kind.by_value() && pane.comparison(p) is Some
                ==> r is Value
            &&& free && !vt.text_kind() && !pane.scan_kind.by_value() ==> r is Relative
            &&& free && vt is StringUtf8 && pane.value_text@.len() > 0 ==> r == FirstPlan::Text(
                vstd::utf8::encode_utf8(pane.value_text@),
            )
            &&& free && vt is StringUtf16 && pane.value_text@.len() > 0 ==> r == FirstPlan::Text(
                crate::utf16::unit_bytes(crate::utf16::text_units(pane.value_text@)),
            )
            &&& free && vt.text_kind() && pane.value_text@.len() == 0 ==> r is NoText
        }),
{
    let s = pane.value_text@;
    if pane.value_type is StringUtf8 {
        vstd::utf8::encode_utf8_decode_utf8(s);
        if s.len() == 0 {
            lemma_no_text(s);
        } else if vstd::utf8::encode_utf8(s).len() == 0 {
            lemma_no_text(Seq::empty());
            assert(vstd::utf8::encode_utf8(s) =~= vstd::utf8::encode_utf8(Seq::empty()));
            vstd::utf8::encode_utf8_decode_utf8(Seq::empty());
        }
    }
    if pane.value_type is StringUtf16 {
        crate::utf16::law_text_round_trip(s);
        let us = crate::utf16::text_units(s);
        crate::utf16::law_units_stand_in_order(s, s, us, 0);
        if s.len() > 0 {
            crate::utf16::law_characters_in_units(s[0]);
        }
    }
}

proof fn lemma_no_text(s: Seq<char>)
    requires
        s.len() == 0,
    ensures
        vstd::utf8::encode_utf8(s).len() == 0,
{
    reveal(vstd::utf8::encode_utf8);
}

/// A next search goes among the results of an earlier one, or against a picture where there is one;
/// without an earlier search there is none.
pub proof fn law_next_search_starts(pane: ScanPane, attached: bool, p: Patterns)
    ensures
        ({
            let r = pane.next_plan(attached, p);
            let vt = pane.value_type;
            let free = pane.task is None && attached && pane.scanner.has_scanned;
            &&& r is NoFirst <==> pane.task is None && attached && !pane.scanner.has_scanned
            &&& r is Text || r is Value || r is Picture ==> free
            &&& free && !vt.text_kind() ==> match pane.comparison(p) {
                None => r is Invalid,
                Some(c) => if pane.snapshot is Some {
                    r == NextPlan::Picture(c)
                } else {
                    r == NextPlan::Value(c)
                },
            }
            &&& free && vt.text_kind() ==> match vt.bytes_of(pane.value_text@, p.first) {
                Some(b) => r == (if b.len() == 0 {
                    NextPlan::NoText
                } else {
                    NextPlan::Text(b)
                }),
                None => true,
            }
        }),
{
}

/// As many bytes are read to show a result as the kind has, or as the typed text has.
pub proof fn law_results_are_shown_whole(pane: ScanPane, p: Patterns)
    ensures
        !pane.value_type.text_kind() ==> pane.shown_len(p) == pane.value_type.width(),
        pane.value_type.text_kind() ==> Some(pane.shown_len(p)) == (match pane.value_type.bytes_of(
            pane.value_text@,
            p.first,
        ) {
            Some(b) => Some(b.len() as int),
            None => Some(0int),
        }),
{
}

/// Texts are only looked for as they are, in one field; numbers by any comparison, with as many
/// fields as it has values: two for bounds, none for a comparison with the previous search.
pub proof fn law_fields_fit_the_comparison(vt: ValueType, kind: ScanKind)
    ensures
        vt is StringUtf8 || vt is StringUtf16 ==> settled(vt, kind) is Exact && fields_of(vt, kind)
            == (true, false),
        !(vt is StringUtf8 || vt is StringUtf16) ==> {
            &&& settled(vt, kind) == kind
            &&& kind is Between ==> fields_of(vt, kind) == (true, true)
            &&& kind is Exact || kind is BiggerThan || kind is SmallerThan ==> fields_of(vt, kind)
                == (true, false)
            &&& kind is Changed || kind is Unchanged || kind is Increased || kind is Decreased
                ==> fields_of(vt, kind) == (false, false)
        },
{
}

/// While a search or a picture is under way no button works. Otherwise a new search can always be
/// begun, a first one needs a process, a next one a process and an earlier one, and a picture a
/// process and a kind of number.
pub proof fn law_buttons_work_when_free(pane: ScanPane, attached: bool)
    ensures
        pane.task is Some || pane.picturing ==> pane.working_buttons(attached) == (
            false,
            false,
            false,
            false,
        ),
        pane.task is None && !pane.picturing ==> {
            let (first, next, new, picture) = pane.working_buttons(attached);
            &&& new
            &&& first <==> attached
            &&& next <==> attached && pane.scanner.has_scanned
            &&& picture <==> attached && !(pane.value_type is StringUtf8)
                && !(pane.value_type is StringUtf16)
        },
{
}

/// What a comparison does not need is nought: a second value without bounds, and any value in a
/// comparison with the previous search, which always can be made.
pub proof fn law_values_not_needed_are_nought(pane: ScanPane, p: Patterns)
    ensures
        pane.comparison(p) matches Some(c) ==> {
            &&& c.kind == pane.scan_kind
            &&& !(c.kind is Between) ==> c.t2_i == 0 && c.t2_f == 0
            &&& c.kind is Changed || c.kind is Unchanged || c.kind is Increased || c.kind
                is Decreased ==> c.t1_i == 0 && c.t1_f == 0
        },
        !pane.scan_kind.by_value() ==> pane.comparison(p) is Some,
{
}

/// Of what was found the first thousand are shown, or all where there are fewer.
pub proof fn law_a_thousand_results_are_shown(found: Seq<Match>)
    ensures
        ({
            let shown = crate::sweep::at_most(found, SHOWN_RESULTS as int);
            &&& found.len() <= 1000 ==> shown == found
            &&& found.len() > 1000 ==> shown == found.take(1000)
        }),
{
}

} // verus!
