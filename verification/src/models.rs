//! The data that the library reads out of the firmware tools and hands back.
use vstd::prelude::*;

verus! {

/// The kind of operating system or device a boot entry starts.
#[derive(Debug, Clone, Copy, PartialEq, Eq, Structural)]
pub enum BootEntryType {
    Windows,
    Linux,
    Removable,
    Network,
    Firmware,
    Unknown,
}

/// One firmware boot entry.
#[derive(Debug, Clone)]
pub struct BootEntry {
    pub id: String,
    pub name: String,
    pub description: Option<String>,
    pub path: Option<String>,
    pub device: Option<String>,
    pub active: bool,
    pub current: bool,
    pub next: bool,
    pub order: Option<u32>,
    pub entry_type: BootEntryType,
    pub suspected_invalid: bool,
}

/// The boot configuration of the machine.
#[derive(Debug, Clone)]
pub struct BootInfo {
    pub current_os: String,
    pub uefi: bool,
    pub secure_boot: Option<bool>,
    pub boot_current: Option<String>,
    pub boot_next: Option<String>,
    pub boot_order: Vec<String>,
    pub entries: Vec<BootEntry>,
}

/// The mathematical value of a [`BootEntry`]: its texts as character sequences.
pub struct EntryModel {
    pub id: Seq<char>,
    pub name: Seq<char>,
    pub description: Option<Seq<char>>,
    pub path: Option<Seq<char>>,
    pub device: Option<Seq<char>>,
    pub active: bool,
    pub current: bool,
    pub next: bool,
    pub order: Option<u32>,
    pub entry_type: BootEntryType,
    pub suspected_invalid: bool,
}

/// The mathematical value of a [`BootInfo`].
pub struct InfoModel {
    pub current_os: Seq<char>,
    pub uefi: bool,
    pub secure_boot: Option<bool>,
    pub boot_current: Option<Seq<char>>,
    pub boot_next: Option<Seq<char>>,
    pub boot_order: Seq<Seq<char>>,
    pub entries: Seq<EntryModel>,
}

pub open spec fn opt_text(o: Option<String>) -> Option<Seq<char>> {
    match o {
        Some(s) => Some(s@),
        None => None,
    }
}

pub open spec fn texts(v: Seq<String>) -> Seq<Seq<char>> {
    v.map_values(|s: String| s@)
}

pub open spec fn entry_models(v: Seq<BootEntry>) -> Seq<EntryModel> {
    v.map_values(|e: BootEntry| e@)
}

impl View for BootEntry {
    type V = EntryModel;

    open spec fn view(&self) -> EntryModel {
        EntryModel {
            id: self.id@,
            name: self.name@,
            description: opt_text(self.description),
            path: opt_text(self.path),
            device: opt_text(self.device),
            active: self.active,
            current: self.current,
            next: self.next,
            order: self.order,
            entry_type: self.entry_type,
            suspected_invalid: self.suspected_invalid,
        }
    }
}

impl View for BootInfo {
    type V = InfoModel;

    open spec fn view(&self) -> InfoModel {
        InfoModel {
            current_os: self.current_os@,
            uefi: self.uefi,
            secure_boot: self.secure_boot,
            boot_current: opt_text(self.boot_current),
            boot_next: opt_text(self.boot_next),
            boot_order: texts(self.boot_order@),
            entries: entry_models(self.entries@),
        }
    }
}

/// A copy of an optional text.
pub fn copy_opt_text(o: &Option<String>) -> (r: Option<String>)
    ensures
        opt_text(r) == opt_text(*o),
{
    match o {
        Some(s) => Some(s.clone()),
        None => None,
    }
}

impl BootEntry {
    /// A field-by-field copy of the entry.
    pub fn duplicate(&self) -> (r: BootEntry)
        ensures
            r@ == self@,
    {
        BootEntry {
            id: self.id.clone(),
            name: self.name.clone(),
            description: copy_opt_text(&self.description),
            path: copy_opt_text(&self.path),
            device: copy_opt_text(&self.device),
            active: self.active,
            current: self.current,
            next: self.next,
            order: self.order,
            entry_type: self.entry_type,
            suspected_invalid: self.suspected_invalid,
        }
    }
}

} // verus!
