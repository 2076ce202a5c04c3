//! Which part of the program is in front, and what the target's protection allows.

use crate::hotkeys::{HK_AA_DISABLE, HK_AA_ENABLE, HK_FREEZE_ALL, HK_UNFREEZE_ALL};
use crate::text;
use vstd::prelude::*;

verus! {

/// The two parts of the program.
#[derive(Clone, Copy, PartialEq, Eq, Structural, Debug)]
pub enum Section {
    /// What does not touch the process.
    Kernel,
    /// What reads and changes the process.
    General,
}

/// The pages of the program.
#[derive(Clone, Copy, PartialEq, Eq, Structural, Debug)]
pub enum Tab {
    Busca,
    Pointer,
    MemViewer,
    Assembler,
    Injecao,
    Proxy,
    Capture,
    Lcu,
    KernelOverview,
}

impl Tab {
    /// The part that a page belongs to.
    pub open spec fn part(self) -> Section {
        if self is Proxy || self is Capture || self is Lcu || self is KernelOverview {
            Section::Kernel
        } else {
            Section::General
        }
    }

    /// The part that a page belongs to.
    pub fn section(self) -> (r: Section)
        ensures
            r == self.part(),
    {
        match self {
            Tab::Busca | Tab::Pointer | Tab::MemViewer | Tab::Assembler | Tab::Injecao =>
                Section::General,
            Tab::Proxy | Tab::Capture | Tab::Lcu | Tab::KernelOverview => Section::Kernel,
        }
    }

    /// What stands on the page's button.
    pub open spec fn name(self) -> Seq<char> {
        match self {
            Tab::Busca => "Busca"@,
            Tab::Pointer => "Pointer Scan"@,
            Tab::MemViewer => "Memory Viewer"@,
            Tab::Assembler => "Auto Assembler"@,
            Tab::Injecao => "Injeção"@,
            Tab::Proxy => "Proxy HTTPS"@,
            Tab::Capture => "Captura passiva"@,
            Tab::Lcu => "League of Legends — API local (LCU)"@,
            Tab::KernelOverview => "Visão geral"@,
        }
    }

    /// What stands on the page's button.
    pub fn label(self) -> (r: &'static str)
        ensures
            r@ == self.name(),
    {
        match self {
            Tab::Busca => "Busca",
            Tab::Pointer => "Pointer Scan",
            Tab::MemViewer => "Memory Viewer",
            Tab::Assembler => "Auto Assembler",
            Tab::Injecao => "Injeção",
            Tab::Proxy => "Proxy HTTPS",
            Tab::Capture => "Captura passiva",
            Tab::Lcu => "League of Legends — API local (LCU)",
            Tab::KernelOverview => "Visão geral",
        }
    }
}

/// The pages that a part offers.
pub open spec fn offered(section: Section) -> Seq<Tab> {
    match section {
        Section::General => seq![
            Tab::Busca,
            Tab::Pointer,
            Tab::MemViewer,
            Tab::Assembler,
            Tab::Injecao,
        ],
        Section::Kernel => seq![Tab::Proxy, Tab::Capture, Tab::KernelOverview],
    }
}

/// The pages that a part offers.
pub fn tabs_of(section: Section) -> (r: Vec<Tab>)
    ensures
        r@ == offered(section),
        forall|i: int| 0 <= i < r@.len() ==> (#[trigger] r@[i]).part() == section,
{
    match section {
        Section::General => vec![
            Tab::Busca,
            Tab::Pointer,
            Tab::MemViewer,
            Tab::Assembler,
            Tab::Injecao,
        ],
        Section::Kernel => vec![Tab::Proxy, Tab::Capture, Tab::KernelOverview],
    }
}

/// What protects the target.
pub enum Protection {
    /// A protection that works in the system's core, by name.
    KernelAc(String),
    /// A protection that works beside the target, by name.
    UsermodeAc(String),
    Unprotected,
}

impl Protection {
    /// Tells whether the target must not be changed.
    pub fn blocks_injection(&self) -> (r: bool)
        ensures
            r == (self is KernelAc),
    {
        matches!(self, Protection::KernelAc(_))
    }

    /// The name of the protection.
    pub open spec fn given_name(self) -> Option<Seq<char>> {
        match self {
            Protection::KernelAc(n) => Some(n@),
            Protection::UsermodeAc(n) => Some(n@),
            Protection::Unprotected => None,
        }
    }
}

/// What is known of the target's protection, and why.
pub struct Detection {
    pub protection: Protection,
    pub reasons: Vec<String>,
}

/// Which part and page are in front, and what is known of the target.
pub struct Navigation {
    pub section: Section,
    pub tab: Tab,
    pub detection: Option<Detection>,
}

/// How the target's protection is shown.
#[derive(Clone, Copy, PartialEq, Eq, Structural, Debug)]
pub enum BadgeColor {
    Gray,
    Red,
    Yellow,
    Green,
}

impl Navigation {
    /// The target must not be changed.
    pub open spec fn blocked(self) -> bool {
        self.detection matches Some(d) && d.protection is KernelAc
    }

    /// The page belongs to the part.
    pub open spec fn wf(self) -> bool {
        self.tab.part() == self.section
    }

    /// The start: the search, with nothing known of a target.
    pub fn new() -> (r: Navigation)
        ensures
            r == (Navigation { section: Section::General, tab: Tab::Busca, detection: None }),
            r.wf(),
    {
        Navigation { section: Section::General, tab: Tab::Busca, detection: None }
    }

    /// Notes what protects a new target, and brings the part to the front that it allows.
    pub fn classify(&mut self, det: Detection)
        ensures
            final(self).detection == Some(det),
            final(self).section == (if det.protection is KernelAc {
                Section::Kernel
            } else {
                Section::General
            }),
            final(self).tab == (if det.protection is KernelAc {
                Tab::KernelOverview
            } else {
                Tab::Busca
            }),
            final(self).wf(),
    {
        if det.protection.blocks_injection() {
            self.section = Section::Kernel;
            self.tab = Tab::KernelOverview;
        } else {
            self.section = Section::General;
            self.tab = Tab::Busca;
        }
        self.detection = Some(det);
    }

    /// Tells whether the target must not be changed.
    pub fn injection_blocked(&self) -> (r: bool)
        ensures
            r == self.blocked(),
    {
        match &self.detection {
            Some(d) => d.protection.blocks_injection(),
            None => false,
        }
    }

    /// Brings a part to the front, with its first page unless one of its pages is there already.
    /// The part that does not touch the process always shows its overview.
    pub fn choose_section(&mut self, section: Section)
        ensures
            final(self).section == section,
            final(self).tab == (match section {
                Section::Kernel => Tab::KernelOverview,
                Section::General => if old(self).tab.part() == Section::General {
                    old(self).tab
                } else {
                    Tab::Busca
                },
            }),
            final(self).detection == old(self).detection,
            final(self).wf(),
    {
        self.section = section;
        match section {
            Section::Kernel => {
                self.tab = Tab::KernelOverview;
            },
            Section::General => {
                if self.tab.section() != Section::General {
                    self.tab = Tab::Busca;
                }
            },
        }
    }

    /// Opens a page of the part in front. Pages of the other part are not offered, and are not opened.
    pub fn open_tab(&mut self, tab: Tab)
        ensures
            *final(self) == old(self).followed(NavEvent::Page(tab)),
    {
        if tab.section() == self.section {
            self.tab = tab;
        }
    }

    /// What is in front after an event.
    pub open spec fn followed(self, e: NavEvent) -> Navigation {
        match e {
            NavEvent::Attached(None) => Navigation { detection: None, ..self },
            NavEvent::Attached(Some(det)) => if det.protection is KernelAc {
                Navigation {
                    section: Section::Kernel,
                    tab: Tab::KernelOverview,
                    detection: Some(det),
                }
            } else {
                Navigation { section: Section::General, tab: Tab::Busca, detection: Some(det) }
            },
            NavEvent::Part(Section::Kernel) => Navigation {
                section: Section::Kernel,
                tab: Tab::KernelOverview,
                ..self
            },
            NavEvent::Part(Section::General) => Navigation {
                section: Section::General,
                tab: if self.tab.part() == Section::General {
                    self.tab
                } else {
                    Tab::Busca
                },
                ..self
            },
            NavEvent::Page(tab) => if tab.part() == self.section {
                Navigation { tab, ..self }
            } else {
                self
            },
        }
    }

    /// What is in front after a number of events, one after the other.
    pub open spec fn followed_all(self, events: Seq<NavEvent>) -> Navigation
        decreases events.len(),
    {
        if events.len() == 0 {
            self
        } else {
            self.followed_all(events.drop_last()).followed(events.last())
        }
    }

    /// Takes an event.
    pub fn follow(&mut self, e: NavEvent)
        ensures
            *final(self) == old(self).followed(e),
            old(self).wf() ==> final(self).wf(),
    {
        match e {
            NavEvent::Attached(None) => {
                self.detection = None;
            },
            NavEvent::Attached(Some(det)) => self.classify(det),
            NavEvent::Part(section) => self.choose_section(section),
            NavEvent::Page(tab) => self.open_tab(tab),
        }
    }

    /// What is said of the target's protection.
    pub open spec fn badge_text(self) -> Seq<char> {
        match self.detection {
            None => "Proteção: —"@,
            Some(d) => match d.protection {
                Protection::KernelAc(n) => "🛡 AC kernel: "@ + n@ + " (injeção bloqueada)"@,
                Protection::UsermodeAc(n) => "⚠ AC user-mode: "@ + n@,
                Protection::Unprotected => "✔ Sem AC kernel"@,
            },
        }
    }

    /// The colour in which it is said.
    pub open spec fn badge_color(self) -> BadgeColor {
        match self.detection {
            None => BadgeColor::Gray,
            Some(d) => match d.protection {
                Protection::KernelAc(_) => BadgeColor::Red,
                Protection::UsermodeAc(_) => BadgeColor::Yellow,
                Protection::Unprotected => BadgeColor::Green,
            },
        }
    }

    /// What stands beside the page.
    pub open spec fn beside(self) -> SidePanel {
        if self.section is General {
            SidePanel::Table
        } else if self.tab is Capture {
            SidePanel::Evidence
        } else {
            SidePanel::Nothing
        }
    }

    /// What is said of the target's protection, and in which colour.
    pub fn protection_badge(&self) -> (r: (BadgeColor, String))
        ensures
            r.1@ == self.badge_text(),
            r.0 == self.badge_color(),
    {
        match &self.detection {
            None => (BadgeColor::Gray, "Proteção: —".to_owned()),
            Some(d) => match &d.protection {
                Protection::KernelAc(n) => {
                    let mut s = "🛡 AC kernel: ".to_owned();
                    s.append(n.as_str());
                    s.append(" (injeção bloqueada)");
                    (BadgeColor::Red, s)
                },
                Protection::UsermodeAc(n) => {
                    let mut s = "⚠ AC user-mode: ".to_owned();
                    s.append(n.as_str());
                    (BadgeColor::Yellow, s)
                },
                Protection::Unprotected => (BadgeColor::Green, "✔ Sem AC kernel".to_owned()),
            },
        }
    }

    /// The name under which the protection is mentioned.
    pub open spec fn mentioned(self) -> Seq<char> {
        match self.detection {
            Some(d) => match d.protection.given_name() {
                Some(n) => n,
                None => "anticheat kernel"@,
            },
            None => "anticheat kernel"@,
        }
    }

    fn mention(&self) -> (r: &str)
        ensures
            r@ == self.mentioned(),
    {
        match &self.detection {
            Some(d) => match &d.protection {
                Protection::KernelAc(n) => n.as_str(),
                Protection::UsermodeAc(n) => n.as_str(),
                Protection::Unprotected => "anticheat kernel",
            },
            None => "anticheat kernel",
        }
    }

    /// Why a page that changes the target shows nothing. `None` where the target may be changed or
    /// the page changes nothing.
    pub open spec fn notice(self, tab: Tab) -> Option<Seq<char>> {
        if !self.blocked() {
            None
        } else if tab is Injecao {
            Some("🛡 "@ + self.mentioned() + " detectado — injeção e patch bloqueados."@)
        } else if tab is Assembler {
            Some(
                "🛡 "@ + self.mentioned()
                    + " detectado — patch de código bloqueado. Use Kernel Exploring."@,
            )
        } else {
            None
        }
    }

    /// Why a page that changes the target shows nothing.
    pub fn blocked_notice(&self, tab: Tab) -> (r: Option<String>)
        ensures
            match r {
                Some(s) => self.notice(tab) == Some(s@),
                None => self.notice(tab) is None,
            },
    {
        if !self.injection_blocked() {
            return None;
        }
        match tab {
            Tab::Injecao => {
                let mut s = "🛡 ".to_owned();
                s.append(self.mention());
                s.append(" detectado — injeção e patch bloqueados.");
                Some(s)
            },
            Tab::Assembler => {
                let mut s = "🛡 ".to_owned();
                s.append(self.mention());
                s.append(" detectado — patch de código bloqueado. Use Kernel Exploring.");
                Some(s)
            },
            _ => None,
        }
    }

    /// What stands beside the page.
    pub fn side_panel(&self) -> (r: SidePanel)
        ensures
            r == self.beside(),
    {
        if self.section == Section::General {
            SidePanel::Table
        } else if self.tab == Tab::Capture {
            SidePanel::Evidence
        } else {
            SidePanel::Nothing
        }
    }
}

/// What stands beside a page.
#[derive(Clone, Copy, PartialEq, Eq, Structural, Debug)]
pub enum SidePanel {
    Table,
    Evidence,
    Nothing,
}

/// What brings a part or a page to the front.
pub enum NavEvent {
    /// A target was attached, with what is known of its protection.
    Attached(Option<Detection>),
    /// A part was chosen.
    Part(Section),
    /// A page was chosen, in the bar or on another page.
    Page(Tab),
}

/// Whatever is clicked and attached, the page in front belongs to the part in front.
pub proof fn law_page_stays_in_part(n: Navigation, events: Seq<NavEvent>)
    requires
        n.wf(),
    ensures
        n.followed_all(events).wf(),
    decreases events.len(),
{
    if events.len() > 0 {
        law_page_stays_in_part(n, events.drop_last());
    }
}

/// A target with a protection in the system's core is not to be changed, and the part that does not
/// touch it is brought to the front.
pub proof fn law_core_protection_blocks(n: Navigation, det: Detection)
    requires
        n.detection == Some(det),
        det.protection is KernelAc,
    ensures
        n.blocked(),
        n.notice(Tab::Injecao) is Some,
        n.notice(Tab::Assembler) is Some,
        forall|id: u32|
            !(#[trigger] hotkey_meaning(id, n.blocked()) is Enable) && !(hotkey_meaning(
                id,
                n.blocked(),
            ) is Disable),
{
}

/// What a hotkey asks for.
#[derive(Clone, Copy, PartialEq, Eq, Structural, Debug)]
pub enum HotkeyAction {
    /// Hold all saved values, or none.
    FreezeAll(bool),
    /// Run the part of the script that applies its changes.
    Enable,
    /// Run the part of the script that takes them back.
    Disable,
    Nothing,
}

/// What a hotkey asks for. Scripts do not run on a target that must not be changed.
pub open spec fn hotkey_meaning(id: u32, blocked: bool) -> HotkeyAction {
    if id == HK_FREEZE_ALL {
        HotkeyAction::FreezeAll(true)
    } else if id == HK_UNFREEZE_ALL {
        HotkeyAction::FreezeAll(false)
    } else if id == HK_AA_ENABLE && !blocked {
        HotkeyAction::Enable
    } else if id == HK_AA_DISABLE && !blocked {
        HotkeyAction::Disable
    } else {
        HotkeyAction::Nothing
    }
}

/// Says what a hotkey asks for.
pub fn hotkey_action(id: u32, blocked: bool) -> (r: HotkeyAction)
    ensures
        r == hotkey_meaning(id, blocked),
{
    if id == HK_FREEZE_ALL {
        HotkeyAction::FreezeAll(true)
    } else if id == HK_UNFREEZE_ALL {
        HotkeyAction::FreezeAll(false)
    } else if id == HK_AA_ENABLE && !blocked {
        HotkeyAction::Enable
    } else if id == HK_AA_DISABLE && !blocked {
        HotkeyAction::Disable
    } else {
        HotkeyAction::Nothing
    }
}

/// What is said after a hotkey held all values or none.
pub fn freeze_status(on: bool) -> (r: &'static str)
    ensures
        r@ == (if on {
            "Hotkey: tudo congelado."@
        } else {
            "Hotkey: tudo descongelado."@
        }),
{
    if on {
        "Hotkey: tudo congelado."
    } else {
        "Hotkey: tudo descongelado."
    }
}

/// How long to wait before the window is drawn again, in milliseconds: shortest while something is
/// searched, longer while something runs in the background, longest else.
pub fn repaint_after(searching: bool, background: bool) -> (r: u64)
    ensures
        r == (if searching {
            60u64
        } else if background {
            150u64
        } else {
            250u64
        }),
{
    if searching {
        60
    } else if background {
        150
    } else {
        250
    }
}

/// The name of a process with its number.
pub open spec fn target_text(name: Seq<char>, pid: u32) -> Seq<char> {
    name + " (pid "@ + text::decimal(pid as nat) + ")"@
}

/// The name of a process with its number.
pub fn target_name(name: &str, pid: u32) -> (r: String)
    ensures
        r@ == target_text(name@, pid),
{
    let mut s = name.to_owned();
    s.append(" (pid ");
    text::push_decimal(&mut s, pid as u64);
    s.append(")");
    s
}

/// What is said after a process was opened.
pub fn attached_status(name: &str) -> (r: String)
    ensures
        r@ == "Anexado em "@ + name@ + "."@,
{
    let mut s = "Anexado em ".to_owned();
    s.append(name);
    s.append(".");
    s
}

/// What is said when a process could not be opened.
pub fn attach_failed_status(pid: u32, cause: &str) -> (r: String)
    ensures
        r@ == "Falha ao anexar (pid "@ + text::decimal(pid as nat) + "): "@ + cause@
            + ". Rode o Quarry como Administrador."@,
{
    let mut s = "Falha ao anexar (pid ".to_owned();
    text::push_decimal(&mut s, pid as u64);
    s.append("): ");
    s.append(cause);
    s.append(". Rode o Quarry como Administrador.");
    s
}

/// The places from 0 up to `n` that a test accepts, in their order.
pub open spec fn accepted(test: spec_fn(int) -> bool, n: int) -> Seq<usize>
    decreases n,
{
    if n <= 0 {
        Seq::empty()
    } else if test(n - 1) {
        accepted(test, n - 1).push((n - 1) as usize)
    } else {
        accepted(test, n - 1)
    }
}

/// The places of the names that a filter accepts: all where it is empty, or else those that hold
/// it, whatever the case.
pub fn filter_names(names: &Vec<String>, filter: &str) -> (r: Vec<usize>)
    ensures
        r@ == accepted(
            |i: int| text::passes_filter(names@[i]@, filter@),
            names@.len() as int,
        ),
{
    let ghost test = |i: int| text::passes_filter(names@[i]@, filter@);
    let mut out: Vec<usize> = Vec::new();
    let mut i: usize = 0;
    while i < names.len()
        invariant
            i <= names@.len(),
            test == (|i: int| text::passes_filter(names@[i]@, filter@)),
            out@ == accepted(test, i as int),
        decreases names.len() - i,
    {
        if text::filter_accepts(names[i].as_str(), filter) {
            out.push(i);
        }
        i += 1;
    }
    out
}

// ---------------------------------------------------------------------------
// Laws of what is in front
// ---------------------------------------------------------------------------

/// The pages that read or change the process belong to one part, those that do not touch it to the
/// other; and each part offers its pages, each once.
pub proof fn law_pages_belong_to_parts(tab: Tab)
    ensures
        tab.part() is General <==> tab is Busca || tab is Pointer || tab is MemViewer || tab
            is Assembler || tab is Injecao,
        offered(Section::General).contains(tab) <==> tab.part() is General,
        offered(Section::Kernel).contains(tab) <==> tab.part() is Kernel && !(tab is Lcu),
        offered(Section::General).no_duplicates(),
        offered(Section::Kernel).no_duplicates(),
{
    let g = offered(Section::General);
    let k = offered(Section::Kernel);
    assert(g[0] == Tab::Busca && g[1] == Tab::Pointer && g[2] == Tab::MemViewer && g[3]
        == Tab::Assembler && g[4] == Tab::Injecao);
    assert(k[0] == Tab::Proxy && k[1] == Tab::Capture && k[2] == Tab::KernelOverview);
}

/// Attaching to a target whose protection works in the system's core brings the overview of the part
/// that does not touch it to the front, and forbids changing it; to another, the search, and allows
/// it.
pub proof fn law_attaching_chooses_the_part(n: Navigation, det: Detection)
    ensures
        ({
            let m = n.followed(NavEvent::Attached(Some(det)));
            &&& m.detection == Some(det)
            &&& det.protection is KernelAc ==> m.section is Kernel && m.tab is KernelOverview
                && m.blocked()
            &&& !(det.protection is KernelAc) ==> m.section is General && m.tab is Busca
                && !m.blocked()
        }),
        !n.followed(NavEvent::Attached(None)).blocked(),
{
}

/// Choosing a part or a page changes nothing of what is known of the target, so that what is
/// forbidden stays so until another target is attached. A chosen part is in front, and a chosen page
/// of the part in front.
pub proof fn law_choosing_keeps_the_block(n: Navigation, e: NavEvent)
    requires
        !(e is Attached),
    ensures
        n.followed(e).detection == n.detection,
        n.followed(e).blocked() == n.blocked(),
        e matches NavEvent::Part(s) ==> n.followed(e).section == s,
        e matches NavEvent::Page(t) ==> n.followed(e).section == n.section && (t.part() == n.section
            ==> n.followed(e).tab == t) && (t.part() != n.section ==> n.followed(e).tab == n.tab),
        e matches NavEvent::Part(Section::General) ==> n.tab.part() is General ==> n.followed(e).tab
            == n.tab,
{
}

/// Where the target may be changed, no page is closed and each hotkey does what it is for; where it
/// may not, those for values still work.
pub proof fn law_hotkeys_do_what_they_say(n: Navigation, tab: Tab)
    ensures
        !n.blocked() ==> n.notice(tab) is None,
        n.blocked() ==> (n.notice(tab) is Some <==> tab is Injecao || tab is Assembler),
        hotkey_meaning(1, n.blocked()) == HotkeyAction::FreezeAll(true),
        hotkey_meaning(2, n.blocked()) == HotkeyAction::FreezeAll(false),
        !n.blocked() ==> hotkey_meaning(3, n.blocked()) is Enable && hotkey_meaning(4, n.blocked())
            is Disable,
        n.blocked() ==> hotkey_meaning(3, n.blocked()) is Nothing && hotkey_meaning(4, n.blocked())
            is Nothing,
        forall|id: u32| id == 0 || id > 4 ==> #[trigger] hotkey_meaning(id, n.blocked()) is Nothing,
{
}

/// The places that a test accepts are exactly those, each once and in their order.
pub proof fn law_accepted_places(test: spec_fn(int) -> bool, n: int)
    requires
        0 <= n <= usize::MAX,
    ensures
        forall|i: int, j: int|
            0 <= i < j < accepted(test, n).len() ==> #[trigger] accepted(test, n)[i]
                < #[trigger] accepted(test, n)[j],
        forall|i: int|
            0 <= i < accepted(test, n).len() ==> (#[trigger] accepted(test, n)[i]) < n && test(
                accepted(test, n)[i] as int,
            ),
        forall|k: int| 0 <= k < n && #[trigger] test(k) ==> accepted(test, n).contains(k as usize),
    decreases n,
{
    if n > 0 {
        law_accepted_places(test, n - 1);
        let rest = accepted(test, n - 1);
        let all = accepted(test, n);
        assert forall|k: int| 0 <= k < n && #[trigger] test(k) implies all.contains(k as usize) by {
            if k < n - 1 {
                let i = choose|i: int| 0 <= i < rest.len() && rest[i] == k as usize;
                assert(all[i] == k as usize);
            } else {
                assert(all[rest.len() as int] == k as usize);
            }
        }
    }
}

/// A target is shown red exactly where it must not be touched, and grey exactly where nothing is known
/// of it.
pub proof fn law_colours_tell_the_protection(n: Navigation)
    ensures
        n.badge_color() is Red <==> n.blocked(),
        n.badge_color() is Gray <==> n.detection is None,
        n.badge_color() is Green <==> (n.detection matches Some(d) && d.protection is Unprotected),
{
}

/// The part that is chosen shows a page of its own: the overview where it must not touch the target,
/// and in the other the page that was in front, if it is its own, or else the search. Beside every
/// page of that other part stands the table, and beside the capture the evidence.
pub proof fn law_chosen_part_shows_its_page(n: Navigation)
    ensures
        ({
            let k = n.followed(NavEvent::Part(Section::Kernel));
            let g = n.followed(NavEvent::Part(Section::General));
            &&& k.tab is KernelOverview
            &&& k.beside() is Nothing
            &&& g.tab.part() is General
            &&& n.tab.part() is Kernel ==> g.tab is Busca
            &&& g.beside() is Table
            &&& k.followed(NavEvent::Page(Tab::Capture)).beside() is Evidence
            &&& k.followed(NavEvent::Page(Tab::Proxy)).beside() is Nothing
        }),
{
}

/// Each page has its own name, by which it is told from the others.
pub proof fn law_pages_have_their_names(k: Tab)
    ensures
        k is Busca <==> k.name() == "Busca"@,
        k is Pointer <==> k.name() == "Pointer Scan"@,
        k is MemViewer <==> k.name() == "Memory Viewer"@,
        k is Assembler <==> k.name() == "Auto Assembler"@,
        k is Injecao <==> k.name() == "Injeção"@,
        k is Proxy <==> k.name() == "Proxy HTTPS"@,
        k is Capture <==> k.name() == "Captura passiva"@,
        k is Lcu <==> k.name() == "League of Legends — API local (LCU)"@,
        k is KernelOverview <==> k.name() == "Visão geral"@,
{
    reveal_strlit("Busca");
    assert("Busca"@[0] == 'B');
    reveal_strlit("Pointer Scan");
    assert("Pointer Scan"@[0] == 'P');
    assert("Pointer Scan"@[1] == 'o');
    reveal_strlit("Memory Viewer");
    assert("Memory Viewer"@[0] == 'M');
    reveal_strlit("Auto Assembler");
    assert("Auto Assembler"@[0] == 'A');
    reveal_strlit("Injeção");
    assert("Injeção"@[0] == 'I');
    reveal_strlit("Proxy HTTPS");
    assert("Proxy HTTPS"@[0] == 'P');
    assert("Proxy HTTPS"@[1] == 'r');
    reveal_strlit("Captura passiva");
    assert("Captura passiva"@[0] == 'C');
    reveal_strlit("League of Legends — API local (LCU)");
    assert("League of Legends — API local (LCU)"@[0] == 'L');
    reveal_strlit("Visão geral");
    assert("Visão geral"@[0] == 'V');
}

} // verus!
