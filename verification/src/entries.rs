//! The table of saved addresses: what it shows, writes and holds.

use crate::inject::ModuleInfo;
use crate::pointer::{PathView, PtrPath};
use crate::table::{TableEntry, TableFile};
use crate::text;
use crate::value::ValueType;
use vstd::prelude::*;

verus! {

// ---------------------------------------------------------------------------
// Where modules lie
// ---------------------------------------------------------------------------

/// The addresses of modules by name; of several with one name, the first that was listed.
pub struct ModuleBases {
    pub names: Vec<String>,
    pub bases: Vec<u64>,
}

/// The address of the first of the first `n` modules that has a name.
pub open spec fn first_base(mods: Seq<(Seq<char>, u64)>, name: Seq<char>) -> Option<u64>
    decreases mods.len(),
{
    if mods.len() == 0 {
        None
    } else if mods[0].0 == name {
        Some(mods[0].1)
    } else {
        first_base(mods.skip(1), name)
    }
}

/// The names and addresses of modules.
pub open spec fn module_list(mods: Seq<ModuleInfo>) -> Seq<(Seq<char>, u64)> {
    mods.map_values(|m: ModuleInfo| (m.name@, m.base))
}

impl View for ModuleBases {
    type V = Seq<(Seq<char>, u64)>;

    open spec fn view(&self) -> Seq<(Seq<char>, u64)> {
        Seq::new(self.names@.len(), |i: int| (self.names@[i]@, self.bases@[i]))
    }
}

impl ModuleBases {
    /// Each name has its address.
    pub open spec fn wf(self) -> bool {
        self.names@.len() == self.bases@.len()
    }

    /// No module.
    pub fn new() -> (r: ModuleBases)
        ensures
            r.wf(),
            r@ == Seq::<(Seq<char>, u64)>::empty(),
    {
        let r = ModuleBases { names: Vec::new(), bases: Vec::new() };
        assert(r@ =~= Seq::<(Seq<char>, u64)>::empty());
        r
    }

    /// The address of a module.
    pub fn get(&self, name: &str) -> (r: Option<u64>)
        requires
            self.wf(),
        ensures
            r == first_base(self@, name@),
    {
        let mut i: usize = 0;
        assert(self@.skip(0) == self@);
        while i < self.names.len()
            invariant
                i <= self.names@.len(),
                self.wf(),
                first_base(self@, name@) == first_base(self@.skip(i as int), name@),
            decreases self.names.len() - i,
        {
            assert(self@.skip(i as int)[0] == self@[i as int]);
            assert(self@.skip(i as int).skip(1) =~= self@.skip(i + 1));
            if text::same_chars(
                text::chars_of(self.names[i].as_str()).as_slice(),
                text::chars_of(name).as_slice(),
            ) {
                return Some(self.bases[i]);
            }
            i += 1;
        }
        None
    }
}

/// Notes where the modules of a process lie.
pub fn refresh_module_bases(mods: &[ModuleInfo]) -> (r: ModuleBases)
    ensures
        r.wf(),
        r@ == module_list(mods@),
{
    let mut names: Vec<String> = Vec::new();
    let mut bases: Vec<u64> = Vec::new();
    let mut i: usize = 0;
    while i < mods.len()
        invariant
            i <= mods@.len(),
            names@.len() == i,
            bases@.len() == i,
            forall|k: int| 0 <= k < i ==> (#[trigger] names@[k])@ == mods@[k].name@,
            forall|k: int| 0 <= k < i ==> #[trigger] bases@[k] == mods@[k].base,
        decreases mods.len() - i,
    {
        names.push(mods[i].name.clone());
        bases.push(mods[i].base);
        i += 1;
    }
    let r = ModuleBases { names, bases };
    assert(r@ =~= module_list(mods@));
    r
}

// ---------------------------------------------------------------------------
// Entries
// ---------------------------------------------------------------------------

/// A saved address.
pub struct SavedEntry {
    pub address: u64,
    pub value_type: ValueType,
    pub desc: String,
    pub frozen: bool,
    pub edit_text: String,
    /// The chain that leads to the address, where it is not fixed.
    pub pointer: Option<PtrPath>,
    /// How many bytes a text has; 0 for a number.
    pub str_len: usize,
}

/// A saved address.
#[verifier::ext_equal]
pub struct EntryView {
    pub address: u64,
    pub value_type: ValueType,
    pub desc: Seq<char>,
    pub frozen: bool,
    pub edit_text: Seq<char>,
    pub pointer: Option<PathView>,
    pub str_len: usize,
}

/// The view of a chain that may be there.
pub open spec fn opt_path(p: Option<PtrPath>) -> Option<PathView> {
    match p {
        Some(p) => Some(p@),
        None => None,
    }
}

impl View for SavedEntry {
    type V = EntryView;

    open spec fn view(&self) -> EntryView {
        EntryView {
            address: self.address,
            value_type: self.value_type,
            desc: self.desc@,
            frozen: self.frozen,
            edit_text: self.edit_text@,
            pointer: opt_path(self.pointer),
            str_len: self.str_len,
        }
    }
}

impl View for TableEntry {
    type V = EntryView;

    open spec fn view(&self) -> EntryView {
        EntryView {
            address: self.address,
            value_type: self.value_type,
            desc: self.desc@,
            frozen: self.frozen,
            edit_text: self.edit_text@,
            pointer: opt_path(self.pointer),
            str_len: self.str_len,
        }
    }
}

impl EntryView {
    /// How many bytes are read to show the value.
    pub open spec fn value_len(self) -> int {
        if self.value_type.text_kind() {
            self.str_len as int
        } else {
            self.value_type.width() as int
        }
    }
}

/// The entry of a fixed address, with nothing else set.
pub open spec fn entry_at(address: u64, value_type: ValueType, str_len: usize) -> EntryView {
    EntryView {
        address,
        value_type,
        desc: Seq::empty(),
        frozen: false,
        edit_text: Seq::empty(),
        pointer: None,
        str_len,
    }
}

/// The entry of an address that is added by hand: a text is taken to have 16 bytes.
pub open spec fn entry_by_hand(address: u64, value_type: ValueType) -> EntryView {
    entry_at(
        address,
        value_type,
        if value_type.text_kind() {
            16
        } else {
            0
        },
    )
}

/// The entry of a chain.
pub open spec fn entry_of_path(path: PathView, value_type: ValueType) -> EntryView {
    EntryView {
        address: 0,
        value_type,
        desc: "ptr "@ + path.module,
        frozen: false,
        edit_text: Seq::empty(),
        pointer: Some(path),
        str_len: 0,
    }
}

/// The views of entries.
pub open spec fn entry_views(v: Seq<SavedEntry>) -> Seq<EntryView> {
    v.map_values(|e: SavedEntry| e@)
}

impl SavedEntry {
    /// How many bytes are read to show the value.
    pub fn read_len(&self) -> (r: usize)
        ensures
            r == self@.value_len(),
    {
        if self.value_type.is_string() {
            self.str_len
        } else {
            self.value_type.size()
        }
    }

    /// A fixed address, with nothing else set.
    pub fn fixed(address: u64, value_type: ValueType, str_len: usize) -> (r: SavedEntry)
        ensures
            r@ == entry_at(address, value_type, str_len),
    {
        SavedEntry {
            address,
            value_type,
            desc: String::new(),
            frozen: false,
            edit_text: String::new(),
            pointer: None,
            str_len,
        }
    }

    /// The entry of an address that is added by hand: a text is taken to have 16 bytes.
    pub fn by_hand(address: u64, value_type: ValueType) -> (r: SavedEntry)
        ensures
            r@ == entry_by_hand(address, value_type),
    {
        let n: usize = if value_type.is_string() {
            16
        } else {
            0
        };
        SavedEntry::fixed(address, value_type, n)
    }

    /// The entry of a chain.
    pub fn from_path(path: PtrPath, value_type: ValueType) -> (r: SavedEntry)
        ensures
            r@ == entry_of_path(path@, value_type),
    {
        let mut desc = "ptr ".to_owned();
        desc.append(path.module.as_str());
        SavedEntry {
            address: 0,
            value_type,
            desc,
            frozen: false,
            edit_text: String::new(),
            pointer: Some(path),
            str_len: 0,
        }
    }
}

/// Where an entry's address comes from.
#[derive(Clone, Copy, PartialEq, Eq, Structural, Debug)]
pub enum Source {
    /// The address itself.
    Fixed(u64),
    /// The entry's chain, in the module at this address.
    Chain(u64),
    /// Nothing: no process, or no such module.
    Unknown,
}

/// Where an entry's address comes from.
pub open spec fn source_of(e: EntryView, bases: Seq<(Seq<char>, u64)>, attached: bool) -> Source {
    if !attached {
        Source::Unknown
    } else {
        match e.pointer {
            None => Source::Fixed(e.address),
            Some(p) => match first_base(bases, p.module) {
                Some(b) => Source::Chain(b),
                None => Source::Unknown,
            },
        }
    }
}

/// Where an entry's address comes from: fixed, or by following its chain.
pub fn entry_address(e: &SavedEntry, bases: &ModuleBases, attached: bool) -> (r: Source)
    requires
        bases.wf(),
    ensures
        r == source_of(e@, bases@, attached),
{
    if !attached {
        return Source::Unknown;
    }
    match &e.pointer {
        None => Source::Fixed(e.address),
        Some(p) => match bases.get(p.module.as_str()) {
            Some(b) => Source::Chain(b),
            None => Source::Unknown,
        },
    }
}

// ---------------------------------------------------------------------------
// Holding values
// ---------------------------------------------------------------------------

/// How the address of a held value is found each time.
pub enum FrozenAddr {
    Fixed(u64),
    /// By following a chain anew, in the module at `base`.
    Pointer { base: u64, path: PtrPath },
}

/// A value that is held: where, and the bytes.
pub struct FrozenItem {
    pub addr: FrozenAddr,
    pub bytes: Vec<u8>,
}

/// A value that is held.
#[verifier::ext_equal]
pub struct FrozenView {
    pub fixed: Option<u64>,
    pub chain: Option<(u64, PathView)>,
    pub bytes: Seq<u8>,
}

impl View for FrozenItem {
    type V = FrozenView;

    open spec fn view(&self) -> FrozenView {
        match self.addr {
            FrozenAddr::Fixed(a) => FrozenView { fixed: Some(a), chain: None, bytes: self.bytes@ },
            FrozenAddr::Pointer { base, path } => FrozenView {
                fixed: None,
                chain: Some((base, path@)),
                bytes: self.bytes@,
            },
        }
    }
}

/// What an entry holds: what was typed, or else the value that it has now. `pattern` are the bits
/// that the typed text denotes as a floating-point number.
pub open spec fn held(
    e: EntryView,
    pattern: Option<u64>,
    current: Option<Seq<u8>>,
    bases: Seq<(Seq<char>, u64)>,
) -> Option<FrozenView> {
    let bytes = match e.value_type.bytes_of(e.edit_text, pattern) {
        Some(b) => Some(b),
        None => current,
    };
    match bytes {
        None => None,
        Some(b) => match e.pointer {
            None => Some(FrozenView { fixed: Some(e.address), chain: None, bytes: b }),
            Some(p) => match first_base(bases, p.module) {
                Some(base) => Some(FrozenView { fixed: None, chain: Some((base, p)), bytes: b }),
                None => None,
            },
        },
    }
}

/// The view of bytes that may be there.
pub open spec fn opt_bytes(b: Option<Vec<u8>>) -> Option<Seq<u8>> {
    match b {
        Some(b) => Some(b@),
        None => None,
    }
}

/// The present value is needed to hold an entry: it is marked, and nothing fit was typed.
pub open spec fn lacks_value(e: EntryView, pattern: Option<u64>) -> bool {
    e.frozen && e.value_type.bytes_of(e.edit_text, pattern) is None
}

/// Tells whether the present value is needed to hold an entry: it is marked, and nothing fit was
/// typed.
pub fn needs_current(e: &SavedEntry, pattern: Option<u64>) -> (r: bool)
    ensures
        r == lacks_value(e@, pattern),
{
    e.frozen && e.value_type.parse_to_bytes(e.edit_text.as_str(), pattern).is_none()
}

fn hold(e: &SavedEntry, pattern: Option<u64>, current: &Option<Vec<u8>>, bases: &ModuleBases) -> (r:
    Option<FrozenItem>)
    requires
        bases.wf(),
    ensures
        match r {
            Some(i) => held(e@, pattern, opt_bytes(*current), bases@) == Some(i@),
            None => held(e@, pattern, opt_bytes(*current), bases@) is None,
        },
{
    let bytes = match e.value_type.parse_to_bytes(e.edit_text.as_str(), pattern) {
        Some(b) => b,
        None => match current {
            Some(b) => b.clone(),
            None => {
                return None;
            },
        },
    };
    match &e.pointer {
        None => Some(FrozenItem { addr: FrozenAddr::Fixed(e.address), bytes }),
        Some(p) => match bases.get(p.module.as_str()) {
            Some(base) => Some(
                FrozenItem { addr: FrozenAddr::Pointer { base, path: p.duplicate() }, bytes },
            ),
            None => None,
        },
    }
}

/// What the first `n` entries hold.
pub open spec fn held_list(
    saved: Seq<EntryView>,
    patterns: Seq<Option<u64>>,
    currents: Seq<Option<Seq<u8>>>,
    bases: Seq<(Seq<char>, u64)>,
    n: int,
) -> Seq<FrozenView>
    decreases n,
{
    if n <= 0 {
        Seq::empty()
    } else {
        let rest = held_list(saved, patterns, currents, bases, n - 1);
        let e = saved[n - 1];
        match held(e, patterns[n - 1], currents[n - 1], bases) {
            Some(f) => if e.frozen {
                rest.push(f)
            } else {
                rest
            },
            None => rest,
        }
    }
}

/// The views of held values.
pub open spec fn frozen_views(v: Seq<FrozenItem>) -> Seq<FrozenView> {
    v.map_values(|f: FrozenItem| f@)
}

/// The views of bytes that may be there.
pub open spec fn opt_list(v: Seq<Option<Vec<u8>>>) -> Seq<Option<Seq<u8>>> {
    v.map_values(|b: Option<Vec<u8>>| opt_bytes(b))
}

/// The values that are to be held: one for each entry that is marked, where its bytes and its
/// address can be had. Without a process nothing is held.
pub fn rebuild_frozen_targets(
    saved: &Vec<SavedEntry>,
    patterns: &Vec<Option<u64>>,
    currents: &Vec<Option<Vec<u8>>>,
    bases: &ModuleBases,
    attached: bool,
) -> (r: Vec<FrozenItem>)
    requires
        bases.wf(),
        patterns@.len() == saved@.len(),
        currents@.len() == saved@.len(),
    ensures
        frozen_views(r@) == (if attached {
            held_list(
                entry_views(saved@),
                patterns@,
                opt_list(currents@),
                bases@,
                saved@.len() as int,
            )
        } else {
            Seq::empty()
        }),
{
    let mut out: Vec<FrozenItem> = Vec::new();
    assert(frozen_views(out@) =~= Seq::<FrozenView>::empty());
    if !attached {
        return out;
    }
    let mut i: usize = 0;
    while i < saved.len()
        invariant
            i <= saved@.len(),
            bases.wf(),
            patterns@.len() == saved@.len(),
            currents@.len() == saved@.len(),
            frozen_views(out@) == held_list(
                entry_views(saved@),
                patterns@,
                opt_list(currents@),
                bases@,
                i as int,
            ),
        decreases saved.len() - i,
    {
        let ghost before = frozen_views(out@);
        if saved[i].frozen {
            if let Some(f) = hold(&saved[i], patterns[i], &currents[i], bases) {
                out.push(f);
                assert(frozen_views(out@) =~= before.push(f@));
            }
        }
        i += 1;
        assert(entry_views(saved@)[i - 1] == saved@[i - 1]@);
        assert(opt_list(currents@)[i - 1] == opt_bytes(currents@[i - 1]));
    }
    out
}

/// Only entries that are marked are held, so without a mark nothing is.
pub proof fn law_unmarked_entries_are_free(
    saved: Seq<EntryView>,
    patterns: Seq<Option<u64>>,
    currents: Seq<Option<Seq<u8>>>,
    bases: Seq<(Seq<char>, u64)>,
    n: int,
)
    requires
        0 <= n <= saved.len(),
        forall|i: int| 0 <= i < n ==> !(#[trigger] saved[i]).frozen,
    ensures
        held_list(saved, patterns, currents, bases, n).len() == 0,
    decreases n,
{
    if n > 0 {
        assert(!saved[n - 1].frozen);
        law_unmarked_entries_are_free(saved, patterns, currents, bases, n - 1);
    }
}

/// A typed value is held as it was typed, whatever memory holds.
pub proof fn law_typed_value_is_held(
    e: EntryView,
    pattern: Option<u64>,
    a: Option<Seq<u8>>,
    b: Option<Seq<u8>>,
    bases: Seq<(Seq<char>, u64)>,
)
    requires
        e.value_type.bytes_of(e.edit_text, pattern) is Some,
    ensures
        held(e, pattern, a, bases) == held(e, pattern, b, bases),
        held(e, pattern, a, bases) matches Some(f) ==> Some(f.bytes) == e.value_type.bytes_of(
            e.edit_text,
            pattern,
        ),
{
}

/// The entries with the mark set or cleared on all.
pub open spec fn all_marked(saved: Seq<EntryView>, on: bool) -> Seq<EntryView> {
    saved.map_values(|e: EntryView| EntryView { frozen: on, ..e })
}

/// Sets or clears the mark of all entries.
pub fn freeze_all(saved: &mut Vec<SavedEntry>, on: bool)
    ensures
        entry_views(final(saved)@) == all_marked(entry_views(old(saved)@), on),
{
    let mut all: Vec<SavedEntry> = Vec::new();
    std::mem::swap(&mut all, saved);
    let ghost given = entry_views(all@);
    let ghost n = all@.len();
    let mut out: Vec<SavedEntry> = Vec::new();
    while all.len() > 0
        invariant
            out@.len() + all@.len() == n,
            n == given.len(),
            entry_views(all@) == given.take(all@.len() as int),
            forall|k: int|
                0 <= k < out@.len() ==> (#[trigger] out@[k])@ == (EntryView {
                    frozen: on,
                    ..given[n - 1 - k]
                }),
        decreases all@.len(),
    {
        let ghost before = all@;
        if let Some(e) = all.pop() {
            assert(entry_views(before)[before.len() - 1] == e@);
            let mut e = e;
            e.frozen = on;
            out.push(e);
            assert(entry_views(all@) =~= given.take(all@.len() as int));
        }
    }
    while out.len() > 0
        invariant
            saved@.len() + out@.len() == n,
            n == given.len(),
            forall|k: int|
                0 <= k < out@.len() ==> (#[trigger] out@[k])@ == (EntryView {
                    frozen: on,
                    ..given[n - 1 - k]
                }),
            forall|k: int|
                0 <= k < saved@.len() ==> (#[trigger] saved@[k])@ == (EntryView {
                    frozen: on,
                    ..given[k]
                }),
        decreases out@.len(),
    {
        if let Some(e) = out.pop() {
            saved.push(e);
        }
    }
    assert(entry_views(saved@) =~= all_marked(given, on));
}

// ---------------------------------------------------------------------------
// Files
// ---------------------------------------------------------------------------

/// The views of a file's entries.
pub open spec fn table_views(v: Seq<TableEntry>) -> Seq<EntryView> {
    v.map_values(|e: TableEntry| e@)
}

/// The entries as they stand in a file.
pub fn to_table(saved: &Vec<SavedEntry>) -> (r: Vec<TableEntry>)
    ensures
        table_views(r@) == entry_views(saved@),
{
    let mut out: Vec<TableEntry> = Vec::new();
    let mut i: usize = 0;
    while i < saved.len()
        invariant
            i <= saved@.len(),
            out@.len() == i,
            forall|k: int| 0 <= k < i ==> (#[trigger] out@[k])@ == saved@[k]@,
        decreases saved.len() - i,
    {
        let e = &saved[i];
        let pointer = match &e.pointer {
            Some(p) => Some(p.duplicate()),
            None => None,
        };
        out.push(
            TableEntry {
                address: e.address,
                value_type: e.value_type,
                desc: e.desc.clone(),
                frozen: e.frozen,
                edit_text: e.edit_text.clone(),
                pointer,
                str_len: e.str_len,
            },
        );
        assert(out@[i as int]@ == saved@[i as int]@);
        i += 1;
    }
    assert(table_views(out@) =~= entry_views(saved@));
    out
}

/// The file of the entries, for the process that is named.
pub fn save(process: &str, script: &str, saved: &Vec<SavedEntry>) -> (r: TableFile)
    ensures
        r.version == crate::table::FORMAT_VERSION,
        r.process_hint@ == process@,
        r.aa_script@ == script@,
        table_views(r.entries@) == entry_views(saved@),
{
    TableFile::new(process.to_owned(), script.to_owned(), to_table(saved))
}

/// The entries of a file.
pub fn from_table(entries: Vec<TableEntry>) -> (r: Vec<SavedEntry>)
    ensures
        entry_views(r@) == table_views(entries@),
{
    let ghost given = table_views(entries@);
    let mut entries = entries;
    let ghost n = entries@.len();
    let mut back: Vec<SavedEntry> = Vec::new();
    while entries.len() > 0
        invariant
            back@.len() + entries@.len() == n,
            n == given.len(),
            table_views(entries@) == given.take(entries@.len() as int),
            forall|k: int| 0 <= k < back@.len() ==> (#[trigger] back@[k])@ == given[n - 1 - k],
        decreases entries@.len(),
    {
        let ghost before = entries@;
        if let Some(e) = entries.pop() {
            assert(table_views(before)[before.len() - 1] == e@);
            let s = SavedEntry {
                address: e.address,
                value_type: e.value_type,
                desc: e.desc,
                frozen: e.frozen,
                edit_text: e.edit_text,
                pointer: e.pointer,
                str_len: e.str_len,
            };
            back.push(s);
            assert(table_views(entries@) =~= given.take(entries@.len() as int));
        }
    }
    let mut out: Vec<SavedEntry> = Vec::new();
    while back.len() > 0
        invariant
            out@.len() + back@.len() == n,
            n == given.len(),
            forall|k: int| 0 <= k < back@.len() ==> (#[trigger] back@[k])@ == given[n - 1 - k],
            forall|k: int| 0 <= k < out@.len() ==> (#[trigger] out@[k])@ == given[k],
        decreases back@.len(),
    {
        if let Some(e) = back.pop() {
            out.push(e);
        }
    }
    assert(entry_views(out@) =~= given);
    out
}

/// Saving entries and loading them gives the same entries.
pub proof fn law_table_round_trip(saved: Seq<EntryView>, filed: Seq<TableEntry>, back: Seq<SavedEntry>)
    requires
        table_views(filed) == saved,
        entry_views(back) == table_views(filed),
    ensures
        entry_views(back) == saved,
{
}

/// The script that is worked on after a file was loaded: that of the file, unless it is blank.
pub fn script_after_load(loaded: String, present: String) -> (r: String)
    ensures
        r == (if text::trimmed(loaded@).len() == 0 {
            present
        } else {
            loaded
        }),
{
    if text::trim(loaded.as_str()).len() == 0 {
        present
    } else {
        loaded
    }
}

// ---------------------------------------------------------------------------
// What is held, and where
// ---------------------------------------------------------------------------

/// The first module with a name is the one whose address is taken; without one there is no address.
pub proof fn law_first_module_counts(mods: Seq<(Seq<char>, u64)>, name: Seq<char>, k: int)
    ensures
        0 <= k < mods.len() && mods[k].0 == name && (forall|j: int|
            0 <= j < k ==> (#[trigger] mods[j]).0 != name) ==> first_base(mods, name) == Some(
            mods[k].1,
        ),
        (forall|j: int| 0 <= j < mods.len() ==> (#[trigger] mods[j]).0 != name) <==> first_base(
            mods,
            name,
        ) is None,
    decreases mods.len(),
{
    if mods.len() > 0 {
        let rest = mods.skip(1);
        law_first_module_counts(rest, name, k - 1);
        if 0 < k < mods.len() {
            assert(rest[k - 1] == mods[k]);
            if forall|j: int| 0 <= j < k ==> (#[trigger] mods[j]).0 != name {
                assert(mods[0].0 != name);
                assert forall|j: int| 0 <= j < k - 1 implies (#[trigger] rest[j]).0 != name by {
                    assert(rest[j] == mods[j + 1]);
                }
            }
        }
        if forall|j: int| 0 <= j < mods.len() ==> (#[trigger] mods[j]).0 != name {
            assert(mods[0].0 != name);
            assert forall|j: int| 0 <= j < rest.len() implies (#[trigger] rest[j]).0 != name by {
                assert(rest[j] == mods[j + 1]);
            }
        }
        if first_base(mods, name) is None {
            assert forall|j: int| 0 <= j < mods.len() implies (#[trigger] mods[j]).0 != name by {
                if j > 0 {
                    assert(rest[j - 1] == mods[j]);
                }
            }
        }
    }
}

/// Where a value is held does not depend on whether it was typed: an entry without a chain is held
/// at its own address; one with a chain is never held at a fixed address, but by that chain from the
/// address of its module, and not at all without such a module. An entry is held wherever its
/// address is known and there are bytes to hold.
pub proof fn law_values_are_held_in_place(
    e: EntryView,
    pattern: Option<u64>,
    current: Option<Seq<u8>>,
    bases: Seq<(Seq<char>, u64)>,
)
    ensures
        ({
            let r = held(e, pattern, current, bases);
            let bytes = e.value_type.bytes_of(e.edit_text, pattern) is Some || current is Some;
            &&& e.pointer is None ==> {
                &&& r is Some <==> bytes
                &&& r matches Some(f) ==> f.fixed == Some(e.address) && f.chain is None
            }
            &&& e.pointer matches Some(path) ==> {
                &&& r is Some <==> bytes && exists|k: int|
                    0 <= k < bases.len() && (#[trigger] bases[k]).0 == path.module
                &&& r matches Some(f) ==> {
                    &&& f.fixed is None
                    &&& f.chain matches Some((base, p)) && p == path && exists|k: int|
                        0 <= k < bases.len() && #[trigger] bases[k] == (path.module, base) && (forall|
                            j: int,
                        |
                            0 <= j < k ==> (#[trigger] bases[j]).0 != path.module)
                }
            }
        }),
{
    if let Some(path) = e.pointer {
        law_first_module_counts(bases, path.module, 0);
        if first_base(bases, path.module) is Some {
            let k = lemma_first_place(bases, path.module);
            law_first_module_counts(bases, path.module, k);
            assert(bases[k] == (path.module, bases[k].1));
        }
    }
}

proof fn lemma_first_place(mods: Seq<(Seq<char>, u64)>, name: Seq<char>) -> (k: int)
    requires
        first_base(mods, name) is Some,
    ensures
        0 <= k < mods.len(),
        mods[k].0 == name,
        forall|j: int| 0 <= j < k ==> (#[trigger] mods[j]).0 != name,
    decreases mods.len(),
{
    if mods[0].0 == name {
        0
    } else {
        let rest = mods.skip(1);
        let i = lemma_first_place(rest, name);
        assert(rest[i] == mods[i + 1]);
        assert forall|j: int| 0 <= j < i + 1 implies (#[trigger] mods[j]).0 != name by {
            if j > 0 {
                assert(rest[j - 1] == mods[j]);
            }
        }
        i + 1
    }
}

/// What is held is the typed value, or the present one where nothing fit was typed.
pub proof fn law_present_value_is_held(
    e: EntryView,
    pattern: Option<u64>,
    current: Option<Seq<u8>>,
    bases: Seq<(Seq<char>, u64)>,
)
    ensures
        held(e, pattern, current, bases) matches Some(f) ==> {
            &&& e.value_type.bytes_of(e.edit_text, pattern) matches Some(b) ==> f.bytes == b
            &&& e.value_type.bytes_of(e.edit_text, pattern) is None ==> current == Some(f.bytes)
        },
{
}

/// An integer that was typed for a marked entry is held in the bytes of that integer.
pub proof fn law_typed_integer_is_held(
    e: EntryView,
    v: int,
    pattern: Option<u64>,
    current: Option<Seq<u8>>,
    bases: Seq<(Seq<char>, u64)>,
)
    requires
        e.value_type.int_kind(),
        e.value_type.lowest() <= v <= e.value_type.highest(),
        e.edit_text == text::signed_decimal(v),
    ensures
        held(e, pattern, current, bases) matches Some(f) ==> f.bytes.len() == e.value_type.width()
            && e.value_type.int_in(f.bytes) == Some(v),
{
    let none = Seq::<char>::empty();
    crate::value::law_typed_integer_is_written(e.value_type, v, none, none, pattern);
    assert(none + e.edit_text + none =~= e.edit_text);
    let w = crate::value::written(e.value_type, v);
    crate::bytes::lemma_span_values();
    crate::value::law_integer_is_read(e.value_type, v, Seq::empty(), Seq::empty());
    assert(w + Seq::<u8>::empty() =~= w);
}

proof fn lemma_held_list(
    saved: Seq<EntryView>,
    patterns: Seq<Option<u64>>,
    currents: Seq<Option<Seq<u8>>>,
    bases: Seq<(Seq<char>, u64)>,
    n: int,
) -> (at: Seq<int>)
    requires
        0 <= n <= saved.len(),
    ensures
        at.len() == held_list(saved, patterns, currents, bases, n).len(),
        forall|i: int| 0 <= i < at.len() ==> 0 <= #[trigger] at[i] < n,
        forall|i: int, j: int| 0 <= i < j < at.len() ==> #[trigger] at[i] < #[trigger] at[j],
        forall|i: int|
            0 <= i < at.len() ==> saved[#[trigger] at[i]].frozen && held(
                saved[at[i]],
                patterns[at[i]],
                currents[at[i]],
                bases,
            ) == Some(held_list(saved, patterns, currents, bases, n)[i]),
        forall|k: int|
            0 <= k < n && (#[trigger] saved[k]).frozen && held(
                saved[k],
                patterns[k],
                currents[k],
                bases,
            ) is Some ==> at.contains(k),
    decreases n,
{
    if n <= 0 {
        Seq::empty()
    } else {
        let rest = lemma_held_list(saved, patterns, currents, bases, n - 1);
        let k = n - 1;
        let taken = saved[k].frozen && held(saved[k], patterns[k], currents[k], bases) is Some;
        let at = if taken {
            rest.push(k)
        } else {
            rest
        };
        let old = held_list(saved, patterns, currents, bases, n - 1);
        let all = held_list(saved, patterns, currents, bases, n);
        assert forall|i: int| 0 <= i < at.len() implies saved[#[trigger] at[i]].frozen && held(
            saved[at[i]],
            patterns[at[i]],
            currents[at[i]],
            bases,
        ) == Some(all[i]) by {
            if i < rest.len() {
                assert(at[i] == rest[i]);
                assert(all[i] == old[i]);
            }
        }
        assert forall|q: int|
            0 <= q < n && (#[trigger] saved[q]).frozen && held(
                saved[q],
                patterns[q],
                currents[q],
                bases,
            ) is Some implies at.contains(q) by {
            if q < k {
                let i = choose|i: int| 0 <= i < rest.len() && rest[i] == q;
                assert(at[i] == q);
            } else {
                assert(at[rest.len() as int] == q);
            }
        }
        at
    }
}

/// Each marked entry whose bytes and whose address can be had is held, in the order of the table, and
/// no other.
pub proof fn law_marked_entries_are_held(
    saved: Seq<EntryView>,
    patterns: Seq<Option<u64>>,
    currents: Seq<Option<Seq<u8>>>,
    bases: Seq<(Seq<char>, u64)>,
)
    ensures
        ({
            let r = held_list(saved, patterns, currents, bases, saved.len() as int);
            exists|at: Seq<int>|
                {
                    &&& #[trigger] at.len() == r.len()
                    &&& forall|i: int| 0 <= i < at.len() ==> 0 <= #[trigger] at[i] < saved.len()
                    &&& forall|i: int, j: int|
                        0 <= i < j < at.len() ==> #[trigger] at[i] < #[trigger] at[j]
                    &&& forall|i: int|
                        0 <= i < at.len() ==> saved[#[trigger] at[i]].frozen && held(
                            saved[at[i]],
                            patterns[at[i]],
                            currents[at[i]],
                            bases,
                        ) == Some(r[i])
                    &&& forall|k: int|
                        0 <= k < saved.len() && (#[trigger] saved[k]).frozen && held(
                            saved[k],
                            patterns[k],
                            currents[k],
                            bases,
                        ) is Some ==> at.contains(k)
                }
        }),
{
    let at = lemma_held_list(saved, patterns, currents, bases, saved.len() as int);
    assert(at.len() == held_list(saved, patterns, currents, bases, saved.len() as int).len());
}

/// A value is shown and written at the place where it would be held.
pub proof fn law_shown_where_held(
    e: EntryView,
    pattern: Option<u64>,
    current: Option<Seq<u8>>,
    bases: Seq<(Seq<char>, u64)>,
)
    ensures
        held(e, pattern, current, bases) matches Some(f) ==> {
            &&& f.fixed matches Some(a) ==> source_of(e, bases, true) == Source::Fixed(a)
            &&& f.chain matches Some((b, p)) ==> source_of(e, bases, true) == Source::Chain(b)
                && e.pointer == Some(p)
        },
        e.value_type.bytes_of(e.edit_text, pattern) is Some && held(e, pattern, current, bases)
            is None ==> source_of(e, bases, true) is Unknown,
        source_of(e, bases, false) is Unknown,
{
}

/// The present value of an entry is asked for exactly where it is marked and what it holds depends on
/// it.
pub proof fn law_present_value_is_asked_for_where_needed(
    e: EntryView,
    pattern: Option<u64>,
    a: Seq<u8>,
    b: Seq<u8>,
    bases: Seq<(Seq<char>, u64)>,
)
    requires
        a != b,
        e.pointer matches Some(p) ==> first_base(bases, p.module) is Some,
    ensures
        lacks_value(e, pattern) <==> e.frozen && held(e, pattern, Some(a), bases) != held(
            e,
            pattern,
            Some(b),
            bases,
        ),
{
    if let (Some(f), Some(g)) = (
        held(e, pattern, Some(a), bases),
        held(e, pattern, Some(b), bases),
    ) {
        law_present_value_is_held(e, pattern, Some(a), bases);
        law_present_value_is_held(e, pattern, Some(b), bases);
    }
}

/// Marking or freeing all entries sets the mark of each, and changes nothing else.
pub proof fn law_marks_are_set(saved: Seq<EntryView>, on: bool, k: int)
    requires
        0 <= k < saved.len(),
    ensures
        all_marked(saved, on).len() == saved.len(),
        all_marked(saved, on)[k].frozen == on,
        all_marked(saved, on)[k] == (EntryView { frozen: on, ..saved[k] }),
        all_marked(all_marked(saved, !on), on)[k] == all_marked(saved, on)[k],
{
}

/// A new entry is not marked and has nothing typed. That of an address leads there; that of a chain is
/// held by the chain alone once it is marked. As many bytes are read as the kind has, and 16 of a text
/// that is added by hand.
pub proof fn law_new_entries_lead_where_they_say(
    address: u64,
    path: PathView,
    vt: ValueType,
    str_len: usize,
    pattern: Option<u64>,
    current: Option<Seq<u8>>,
    bases: Seq<(Seq<char>, u64)>,
)
    ensures
        ({
            let e = entry_at(address, vt, str_len);
            let h = entry_by_hand(address, vt);
            let p = entry_of_path(path, vt);
            &&& !e.frozen && !h.frozen && !p.frozen
            &&& e.edit_text.len() == 0 && h.edit_text.len() == 0 && p.edit_text.len() == 0
            &&& e.value_type == vt && h.value_type == vt && p.value_type == vt
            &&& source_of(e, bases, true) == Source::Fixed(address)
            &&& source_of(h, bases, true) == Source::Fixed(address)
            &&& !(source_of(p, bases, true) is Fixed)
            &&& held(EntryView { frozen: true, ..p }, pattern, current, bases) matches Some(f)
                ==> f.fixed is None && (f.chain matches Some((_, q)) && q == path)
            &&& vt.text_kind() ==> h.value_len() == 16 && e.value_len() == str_len
            &&& !vt.text_kind() ==> h.value_len() == vt.width() && e.value_len() == vt.width()
                && p.value_len() == vt.width()
        }),
{
}

/// The address of a module is that of the first with its name in the list of modules.
pub proof fn law_modules_are_listed(mods: Seq<ModuleInfo>, name: Seq<char>, k: int)
    requires
        0 <= k < mods.len(),
        mods[k].name@ == name,
        forall|j: int| 0 <= j < k ==> (#[trigger] mods[j]).name@ != name,
    ensures
        first_base(module_list(mods), name) == Some(mods[k].base),
{
    let list = module_list(mods);
    assert forall|j: int| 0 <= j < k implies (#[trigger] list[j]).0 != name by {
        assert(mods[j].name@ != name);
    }
    law_first_module_counts(list, name, k);
}

} // verus!
