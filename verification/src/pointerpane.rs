//! The page that searches for chains of pointers.

use crate::entries::SavedEntry;
use crate::pointer::{path_views, PathView, PtrPath, PtrScanParams};
use crate::text;
use crate::value::ValueType;
use vstd::prelude::*;

verus! {

/// How many chains are searched for.
pub const MAX_CHAINS: usize = 5000;

/// How many chains are shown.
pub const SHOWN_CHAINS: usize = 500;

/// What the page holds.
pub struct PointerPane {
    pub target_text: String,
    pub max_offset_text: String,
    pub depth_text: String,
    pub align_text: String,
    pub results: Vec<PtrPath>,
    pub running: bool,
    pub validate_text: String,
}

/// The number that a text stands for, or another where it stands for none.
pub open spec fn number_or(s: Seq<char>, max: int, otherwise: int) -> int {
    match text::integer(text::trimmed(s), 10, 0, max) {
        Some(v) => v,
        None => otherwise,
    }
}

fn read_number(typed: &str, max: u64, otherwise: u64) -> (r: u64)
    ensures
        r == number_or(typed@, max as int, otherwise as int),
        r <= max || r == otherwise,
{
    let t = text::trim(typed);
    match text::parse_integer(t.as_slice(), 10, 0, max as i128) {
        Some(v) => v as u64,
        None => otherwise,
    }
}

/// The value within bounds that is nearest.
pub open spec fn within_bounds(v: int, lo: int, hi: int) -> int {
    if v < lo {
        lo
    } else if v > hi {
        hi
    } else {
        v
    }
}

impl PointerPane {
    /// The start.
    pub fn new() -> (r: PointerPane)
        ensures
            r.target_text@ == Seq::<char>::empty(),
            r.max_offset_text@ == "2048"@,
            r.depth_text@ == "4"@,
            r.align_text@ == "4"@,
            r.results@ == Seq::<PtrPath>::empty(),
            !r.running,
            r.validate_text@ == Seq::<char>::empty(),
    {
        PointerPane {
            target_text: String::new(),
            max_offset_text: "2048".to_owned(),
            depth_text: "4".to_owned(),
            align_text: "4".to_owned(),
            results: Vec::new(),
            running: false,
            validate_text: String::new(),
        }
    }

    /// What is asked for: numbers that cannot be read get their usual values, the depth stays
    /// between 1 and 8, and the alignment is at least 1. Nothing where the address cannot be read.
    pub open spec fn asked(self) -> Option<PtrScanParams> {
        match text::address_text(self.target_text@) {
            None => None,
            Some(t) => Some(
                PtrScanParams {
                    target: t as u64,
                    max_offset: number_or(
                        self.max_offset_text@,
                        u64::MAX as int,
                        2048,
                    ) as u64,
                    max_depth: within_bounds(
                        number_or(self.depth_text@, usize::MAX as int, 4),
                        1,
                        8,
                    ) as usize,
                    alignment: within_bounds(
                        number_or(self.align_text@, usize::MAX as int, 4),
                        1,
                        usize::MAX as int,
                    ) as usize,
                    max_results: MAX_CHAINS,
                },
            ),
        }
    }

    /// What is asked for. `None` where the address cannot be read.
    pub fn params(&self) -> (r: Option<PtrScanParams>)
        ensures
            r == self.asked(),
    {
        let target = match text::parse_addr(self.target_text.as_str()) {
            Some(t) => t,
            None => {
                return None;
            },
        };
        let max_offset = read_number(self.max_offset_text.as_str(), u64::MAX, 2048);
        let depth = read_number(self.depth_text.as_str(), usize::MAX as u64, 4) as usize;
        let max_depth: usize = if depth < 1 {
            1
        } else if depth > 8 {
            8
        } else {
            depth
        };
        let align = read_number(self.align_text.as_str(), usize::MAX as u64, 4) as usize;
        let alignment: usize = if align < 1 {
            1
        } else {
            align
        };
        Some(
            PtrScanParams {
                target,
                max_offset,
                max_depth,
                alignment,
                max_results: MAX_CHAINS,
            },
        )
    }

    /// Starts a search, or says why not: what to search for, and what is said then.
    pub fn do_pointer_scan(&mut self, attached: bool) -> (r: (
        Option<PtrScanParams>,
        Option<&'static str>,
    ))
        ensures
            r.0 == (if old(self).running || !attached {
                None
            } else {
                old(self).asked()
            }),
            match r.1 {
                None => old(self).running,
                Some(s) => !old(self).running && s@ == (if !attached {
                    "Anexe um processo primeiro."@
                } else if r.0 is None {
                    "Endereco alvo invalido (use hex)."@
                } else {
                    "Pointer scan em andamento..."@
                }),
            },
            *final(self) == (PointerPane { running: old(self).running || r.0 is Some, ..*old(self) }),
    {
        if self.running {
            return (None, None);
        }
        if !attached {
            return (None, Some("Anexe um processo primeiro."));
        }
        match self.params() {
            None => (None, Some("Endereco alvo invalido (use hex).")),
            Some(p) => {
                self.running = true;
                (Some(p), Some("Pointer scan em andamento..."))
            },
        }
    }

    /// Takes the chains of the search that was under way, or notes that it broke off. Gives what is
    /// said then.
    pub fn poll_ptr_task(&mut self, result: Option<Vec<PtrPath>>) -> (r: Option<String>)
        ensures
            !old(self).running ==> *final(self) == *old(self) && r is None,
            old(self).running ==> *final(self) == (PointerPane {
                running: false,
                results: match result {
                    Some(v) => v,
                    None => old(self).results,
                },
                ..*old(self)
            }) && (r matches Some(s) && s@ == (match result {
                Some(v) => "Pointer scan: "@ + text::decimal(v@.len()) + " cadeias encontradas."@,
                None => "Pointer scan interrompido."@,
            })),
    {
        if !self.running {
            return None;
        }
        self.running = false;
        match result {
            Some(v) => {
                let mut s = "Pointer scan: ".to_owned();
                text::push_decimal(&mut s, v.len() as u64);
                s.append(" cadeias encontradas.");
                self.results = v;
                Some(s)
            },
            None => Some("Pointer scan interrompido.".to_owned()),
        }
    }

    /// Keeps the chains that lead to `target`, given where each leads. Gives what is said then.
    pub fn validate_chains(&mut self, target: u64, leads: &Vec<Option<u64>>) -> (r: String)
        requires
            leads@.len() == old(self).results@.len(),
        ensures
            *final(self) == (PointerPane { results: final(self).results, ..*old(self) }),
            path_views(final(self).results@) == kept_chains(
                path_views(old(self).results@),
                leads@,
                target,
                leads@.len() as int,
            ),
            r@ == "Validação: "@ + text::decimal(final(self).results@.len()) + " de "@
                + text::decimal(old(self).results@.len()) + " cadeias resolvem para "@
                + text::fixed_numeral(target as nat, 16, 16, true) + "."@,
    {
        let mut all: Vec<PtrPath> = Vec::new();
        let ghost given = path_views(self.results@);
        std::mem::swap(&mut all, &mut self.results);
        let before = all.len();
        let mut i: usize = 0;
        assert(path_views(self.results@) =~= Seq::<PathView>::empty());
        while i < all.len()
            invariant
                i <= all@.len(),
                all@.len() == leads@.len(),
                given == path_views(all@),
                *self == (PointerPane { results: self.results, ..*old(self) }),
                path_views(self.results@) == kept_chains(given, leads@, target, i as int),
            decreases all.len() - i,
        {
            let ghost so_far = path_views(self.results@);
            if let Some(a) = leads[i] {
                if a == target {
                    let p = all[i].duplicate();
                    assert(p@ == given[i as int]);
                    self.results.push(p);
                    assert(path_views(self.results@) =~= so_far.push(p@));
                }
            }
            i += 1;
        }
        let mut s = "Validação: ".to_owned();
        text::push_decimal(&mut s, self.results.len() as u64);
        s.append(" de ");
        text::push_decimal(&mut s, before as u64);
        s.append(" cadeias resolvem para ");
        text::push_fixed(&mut s, target, 16, 16, true);
        s.append(".");
        s
    }

    /// The address that chains are to lead to, or what is said where it cannot be read or there is
    /// no process.
    pub fn validation_target(&self, attached: bool) -> (r: Result<u64, &'static str>)
        ensures
            match r {
                Ok(a) => attached && text::address_text(self.validate_text@) == Some(a as int),
                Err(s) => s@ == (if text::address_text(self.validate_text@) is None {
                    "Endereço de validação inválido (hex)."@
                } else {
                    "Anexe o processo (reaberto) antes de validar."@
                }) && (text::address_text(self.validate_text@) is None || !attached),
            },
    {
        match text::parse_addr(self.validate_text.as_str()) {
            None => Err("Endereço de validação inválido (hex)."),
            Some(a) => if attached {
                Ok(a)
            } else {
                Err("Anexe o processo (reaberto) antes de validar.")
            },
        }
    }

    /// Forgets the chains.
    pub fn clear(&mut self)
        ensures
            *final(self) == (PointerPane { results: final(self).results, ..*old(self) }),
            final(self).results@ == Seq::<PtrPath>::empty(),
    {
        self.results.clear();
    }

    /// The entry that a chain becomes when it is saved.
    pub fn to_entry(&self, i: usize, value_type: ValueType) -> (r: Option<SavedEntry>)
        ensures
            match r {
                Some(e) => i < self.results@.len() && e@ == crate::entries::entry_of_path(
                    self.results@[i as int]@,
                    value_type,
                ),
                None => i >= self.results@.len(),
            },
    {
        if i < self.results.len() {
            Some(SavedEntry::from_path(self.results[i].duplicate(), value_type))
        } else {
            None
        }
    }

    /// The line above the chains.
    pub fn found_line(&self) -> (r: String)
        ensures
            r@ == "Cadeias encontradas: "@ + text::decimal(self.results@.len())
                + " (mostrando até 500). Quanto mais curtas e com offsets pequenos, mais confiáveis."@,
    {
        let mut s = "Cadeias encontradas: ".to_owned();
        text::push_decimal(&mut s, self.results.len() as u64);
        s.append(
            " (mostrando até 500). Quanto mais curtas e com offsets pequenos, mais confiáveis.",
        );
        s
    }
}

/// The first `n` chains, without those that do not lead to the target.
pub open spec fn kept_chains(
    paths: Seq<PathView>,
    leads: Seq<Option<u64>>,
    target: u64,
    n: int,
) -> Seq<PathView>
    decreases n,
{
    if n <= 0 {
        Seq::empty()
    } else if leads[n - 1] == Some(target) {
        kept_chains(paths, leads, target, n - 1).push(paths[n - 1])
    } else {
        kept_chains(paths, leads, target, n - 1)
    }
}

/// Filtering twice for the same target keeps what filtering once keeps.
pub proof fn law_validation_is_stable(
    paths: Seq<PathView>,
    leads: Seq<Option<u64>>,
    target: u64,
    n: int,
    all: Seq<Option<u64>>,
)
    requires
        0 <= n <= paths.len(),
        paths.len() == leads.len(),
        all.len() == kept_chains(paths, leads, target, n).len(),
        forall|i: int| 0 <= i < all.len() ==> #[trigger] all[i] == Some(target),
    ensures
        kept_chains(kept_chains(paths, leads, target, n), all, target, all.len() as int)
            == kept_chains(paths, leads, target, n),
{
    let kept = kept_chains(paths, leads, target, n);
    lemma_all_kept(kept, all, target, all.len() as int);
    assert(kept.take(kept.len() as int) =~= kept);
}

proof fn lemma_all_kept(paths: Seq<PathView>, leads: Seq<Option<u64>>, target: u64, n: int)
    requires
        0 <= n <= paths.len(),
        paths.len() == leads.len(),
        forall|i: int| 0 <= i < n ==> #[trigger] leads[i] == Some(target),
    ensures
        kept_chains(paths, leads, target, n) == paths.take(n),
    decreases n,
{
    if n > 0 {
        lemma_all_kept(paths, leads, target, n - 1);
        assert(leads[n - 1] == Some(target));
        assert(paths.take(n) =~= paths.take(n - 1).push(paths[n - 1]));
    } else {
        assert(kept_chains(paths, leads, target, n) =~= paths.take(n));
    }
}

/// Where a chain leads, as it is shown beside it.
pub fn lead_text(lead: Option<u64>) -> (r: String)
    ensures
        r@ == (match lead {
            Some(a) => "→ "@ + text::hex_upper(a as nat),
            None => "→ ?"@,
        }),
{
    match lead {
        Some(a) => {
            let mut s = "→ ".to_owned();
            text::push_hex(&mut s, a);
            s
        },
        None => "→ ?".to_owned(),
    }
}

/// A search for chains is for the typed address, with the typed offset, depth and alignment where
/// these are numbers; the depth is kept between 1 and 8, and the alignment is at least 1.
pub proof fn law_typed_numbers_are_asked_for(
    pane: PointerPane,
    target: u64,
    offset: u64,
    depth: usize,
    align: usize,
    upper: bool,
)
    requires
        pane.target_text@ == text::numeral(target as nat, 16, upper),
        pane.max_offset_text@ == text::decimal(offset as nat),
        pane.depth_text@ == text::decimal(depth as nat),
        pane.align_text@ == text::decimal(align as nat),
    ensures
        pane.asked() matches Some(p) && p.target == target && p.max_offset == offset && p.max_depth
            == (if depth < 1 {
            1
        } else if depth > 8 {
            8
        } else {
            depth
        }) && p.alignment == (if align < 1 {
            1
        } else {
            align
        }) && p.max_results == 5000,
{
    let none = Seq::<char>::empty();
    text::law_typed_address_is_read(target, upper, none, none);
    let t = pane.target_text@;
    assert(none + t + none =~= t);
    lemma_typed(offset as nat, u64::MAX as int);
    lemma_typed(depth as nat, usize::MAX as int);
    lemma_typed(align as nat, usize::MAX as int);
}

proof fn lemma_typed(n: nat, max: int)
    requires
        n <= max,
    ensures
        text::integer(text::trimmed(text::decimal(n)), 10, 0, max) == Some(n as int),
{
    let none = Seq::<char>::empty();
    let s = text::decimal(n);
    text::law_numeral_round_trip(n, 10, false);
    text::law_trimming_takes_white_space(none, s, none);
    assert(none + s + none =~= s);
    text::law_integer_round_trip(n as int, 0, max);
}

/// What is asked for keeps its bounds whatever was typed, and is nothing where the address is none. A
/// blank text stands for the usual number.
pub proof fn law_asked_for_within_bounds(pane: PointerPane)
    ensures
        pane.asked() is Some <==> text::address_text(pane.target_text@) is Some,
        pane.asked() matches Some(p) ==> 1 <= p.max_depth <= 8 && 1 <= p.alignment && p.max_results
            == 5000,
        pane.asked() matches Some(p) ==> {
            &&& text::blank(pane.max_offset_text@) ==> p.max_offset == 2048
            &&& text::blank(pane.depth_text@) ==> p.max_depth == 4
            &&& text::blank(pane.align_text@) ==> p.alignment == 4
        },
{
    lemma_blank(pane.max_offset_text@, u64::MAX as int);
    lemma_blank(pane.depth_text@, usize::MAX as int);
    lemma_blank(pane.align_text@, usize::MAX as int);
}

proof fn lemma_blank(s: Seq<char>, max: int)
    ensures
        text::blank(s) ==> text::integer(text::trimmed(s), 10, 0, max) is None,
{
    let none = Seq::<char>::empty();
    if text::blank(s) {
        text::law_trimming_takes_white_space(s, none, none);
        assert(s + none + none =~= s);
    }
}

/// Validating keeps, in their order, exactly the chains that lead to the target.
pub proof fn law_validation_keeps_what_leads_there(
    paths: Seq<PathView>,
    leads: Seq<Option<u64>>,
    target: u64,
    n: int,
) -> (at: Seq<int>)
    requires
        0 <= n <= paths.len(),
        paths.len() == leads.len(),
    ensures
        at.len() == kept_chains(paths, leads, target, n).len(),
        forall|i: int| 0 <= i < at.len() ==> 0 <= #[trigger] at[i] < n,
        forall|i: int, j: int| 0 <= i < j < at.len() ==> #[trigger] at[i] < #[trigger] at[j],
        forall|i: int|
            0 <= i < at.len() ==> leads[#[trigger] at[i]] == Some(target) && kept_chains(
                paths,
                leads,
                target,
                n,
            )[i] == paths[at[i]],
        forall|k: int| 0 <= k < n && #[trigger] leads[k] == Some(target) ==> at.contains(k),
    decreases n,
{
    if n <= 0 {
        Seq::empty()
    } else {
        let rest = law_validation_keeps_what_leads_there(paths, leads, target, n - 1);
        let at = if leads[n - 1] == Some(target) {
            rest.push(n - 1)
        } else {
            rest
        };
        let old = kept_chains(paths, leads, target, n - 1);
        let all = kept_chains(paths, leads, target, n);
        assert forall|i: int| 0 <= i < at.len() implies leads[#[trigger] at[i]] == Some(target)
            && all[i] == paths[at[i]] by {
            if i < rest.len() {
                assert(at[i] == rest[i]);
                assert(all[i] == old[i]);
            }
        }
        assert forall|k: int| 0 <= k < n && #[trigger] leads[k] == Some(target) implies at.contains(
            k,
        ) by {
            if k < n - 1 {
                let i = choose|i: int| 0 <= i < rest.len() && rest[i] == k;
                assert(at[i] == k);
            } else {
                assert(at[rest.len() as int] == k);
            }
        }
        at
    }
}

} // verus!
