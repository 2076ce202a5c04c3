//! Keys that work while another program has the focus.

use vstd::prelude::*;

verus! {

/// The numbers of the hotkeys.
pub const HK_FREEZE_ALL: u32 = 1;

pub const HK_UNFREEZE_ALL: u32 = 2;

pub const HK_AA_ENABLE: u32 = 3;

pub const HK_AA_DISABLE: u32 = 4;

/// What the hotkeys do, in words.
pub fn legend() -> (r: &'static str)
    ensures
        r@
            == "Atalhos globais: Ctrl+Alt+F1 congelar tudo · F2 descongelar · F3 AA Enable · F4 AA Disable"@,
{
    "Atalhos globais: Ctrl+Alt+F1 congelar tudo · F2 descongelar · F3 AA Enable · F4 AA Disable"
}

/// The hotkeys with the codes of their keys, F1 to F4.
pub fn binds() -> (r: Vec<(u32, u32)>)
    ensures
        r@ == seq![
            (HK_FREEZE_ALL, 0x70u32),
            (HK_UNFREEZE_ALL, 0x71u32),
            (HK_AA_ENABLE, 0x72u32),
            (HK_AA_DISABLE, 0x73u32),
        ],
{
    vec![
        (HK_FREEZE_ALL, 0x70),
        (HK_UNFREEZE_ALL, 0x71),
        (HK_AA_ENABLE, 0x72),
        (HK_AA_DISABLE, 0x73),
    ]
}

/// The hotkeys that were pressed and not asked for yet.
pub struct HotkeyManager {
    pub pressed: Vec<u32>,
}

impl HotkeyManager {
    /// No hotkey was pressed.
    pub fn start() -> (r: HotkeyManager)
        ensures
            r.pressed@ == Seq::<u32>::empty(),
    {
        HotkeyManager { pressed: Vec::new() }
    }

    /// Notes that a hotkey was pressed.
    pub fn deliver(&mut self, id: u32)
        ensures
            final(self).pressed@ == old(self).pressed@.push(id),
    {
        self.pressed.push(id);
    }

    /// The hotkeys that were pressed since the last call, in their order.
    pub fn poll(&mut self) -> (r: Vec<u32>)
        ensures
            r@ == old(self).pressed@,
            final(self).pressed@ == Seq::<u32>::empty(),
    {
        let mut out: Vec<u32> = Vec::new();
        std::mem::swap(&mut out, &mut self.pressed);
        out
    }
}

} // verus!
