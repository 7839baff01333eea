//! The decisions of the tray menu: its language, its items, what a click on
//! an item asks for, and the message shown after setting the next boot.
use vstd::prelude::*;

use crate::models::{BootEntry, EntryModel, entry_models};
use crate::text;

verus! {

/// The text in the tray's language.
pub fn tray_text<'a>(english: bool, chinese: &'a str, english_text: &'a str) -> (r: &'a str)
    ensures
        r@ == if english {
            english_text@
        } else {
            chinese@
        },
{
    if english {
        english_text
    } else {
        chinese
    }
}

/// Whether a language tag selects the English tray: `en` or `en-US`, in any
/// ASCII letter case.
pub open spec fn is_english(language: Seq<char>) -> bool {
    text::eq_ignore_ascii_case(language, "en-us"@) || text::eq_ignore_ascii_case(language, "en"@)
}

pub fn is_english_language(language: &str) -> (r: bool)
    ensures
        r == is_english(language@),
{
    text::eq_ignore_ascii_case_exec(language, "en-us") || text::eq_ignore_ascii_case_exec(
        language,
        "en",
    )
}

/// What a click on a tray menu item asks for.
pub enum MenuAction {
    ShowWindow,
    HideWindow,
    Refresh,
    Quit,
    /// Set the next boot entry to the one with this identifier.
    SetNext(String),
    Ignore,
}

/// The mathematical value of a [`MenuAction`].
pub enum ActionModel {
    ShowWindow,
    HideWindow,
    Refresh,
    Quit,
    SetNext(Seq<char>),
    Ignore,
}

impl View for MenuAction {
    type V = ActionModel;

    open spec fn view(&self) -> ActionModel {
        match self {
            MenuAction::ShowWindow => ActionModel::ShowWindow,
            MenuAction::HideWindow => ActionModel::HideWindow,
            MenuAction::Refresh => ActionModel::Refresh,
            MenuAction::Quit => ActionModel::Quit,
            MenuAction::SetNext(s) => ActionModel::SetNext(s@),
            MenuAction::Ignore => ActionModel::Ignore,
        }
    }
}

/// The prefix of the identifiers of the next-boot menu items.
pub open spec fn next_item_prefix() -> Seq<char> {
    "boot-next:"@
}

/// What the menu item with identifier `id` asks for: one of the fixed
/// window and application actions, or setting the next boot to the entry
/// whose identifier follows the next-boot prefix.
pub open spec fn action_of(id: Seq<char>) -> ActionModel {
    if id == "show-window"@ {
        ActionModel::ShowWindow
    } else if id == "hide-window"@ {
        ActionModel::HideWindow
    } else if id == "refresh-entries"@ {
        ActionModel::Refresh
    } else if id == "quit-app"@ {
        ActionModel::Quit
    } else if text::starts_with(id, next_item_prefix()) {
        ActionModel::SetNext(id.skip(next_item_prefix().len() as int))
    } else {
        ActionModel::Ignore
    }
}

/// The action of the menu item with identifier `id`.
pub fn menu_action(id: &str) -> (r: MenuAction)
    ensures
        r@ == action_of(id@),
{
    let c = text::chars_of(id);
    if text::seq_eq_exec(c.as_slice(), text::chars_of("show-window").as_slice()) {
        return MenuAction::ShowWindow;
    }
    if text::seq_eq_exec(c.as_slice(), text::chars_of("hide-window").as_slice()) {
        return MenuAction::HideWindow;
    }
    if text::seq_eq_exec(c.as_slice(), text::chars_of("refresh-entries").as_slice()) {
        return MenuAction::Refresh;
    }
    if text::seq_eq_exec(c.as_slice(), text::chars_of("quit-app").as_slice()) {
        return MenuAction::Quit;
    }
    let prefix = text::chars_of("boot-next:");
    if text::starts_with_exec(c.as_slice(), prefix.as_slice()) {
        let rest = &c[prefix.len()..c.len()];
        return MenuAction::SetNext(text::string_of(rest));
    }
    MenuAction::Ignore
}

/// One item of the next-boot menu: its identifier and its label.
pub struct MenuLine {
    pub id: String,
    pub label: String,
}

/// Whether the menu marks an entry as the next boot: the entry says so, or
/// the next entry's identifier equals its own up to ASCII letter case.
pub open spec fn is_selected(e: EntryModel, boot_next: Option<Seq<char>>) -> bool {
    e.next || match boot_next {
        Some(id) => text::eq_ignore_ascii_case(e.id, id),
        None => false,
    }
}

/// The label of an entry's item: a filled circle for the next entry, an
/// empty one for the others, then the entry's name.
pub open spec fn item_label(e: EntryModel, boot_next: Option<Seq<char>>) -> Seq<char> {
    (if is_selected(e, boot_next) {
        "●"@
    } else {
        "○"@
    }) + " "@ + e.name
}

/// The next-boot menu items, one for each entry, in order.
pub fn next_boot_items(entries: &Vec<BootEntry>, boot_next: &Option<String>) -> (r: Vec<
    MenuLine,
>)
    ensures
        r@.len() == entries@.len(),
        forall|i: int|
            0 <= i < entries@.len() ==> {
                &&& (#[trigger] r@[i]).id@ == next_item_prefix() + entries@[i].id@
                &&& r@[i].label@ == item_label(entries@[i]@, crate::models::opt_text(*boot_next))
            },
{
    let mut r: Vec<MenuLine> = Vec::new();
    let mut i: usize = 0;
    while i < entries.len()
        invariant
            i <= entries@.len(),
            r@.len() == i,
            forall|j: int|
                0 <= j < i ==> {
                    &&& (#[trigger] r@[j]).id@ == next_item_prefix() + entries@[j].id@
                    &&& r@[j].label@ == item_label(entries@[j]@, crate::models::opt_text(*boot_next))
                },
        decreases entries@.len() - i,
    {
        let e = &entries[i];
        let selected = e.next || match boot_next {
            Some(id) => text::eq_ignore_ascii_case_exec(e.id.as_str(), id.as_str()),
            None => false,
        };
        let marker = if selected {
            text::chars_of("● ")
        } else {
            text::chars_of("○ ")
        };
        proof {
            reveal_strlit("● ");
            reveal_strlit("○ ");
            reveal_strlit("●");
            reveal_strlit("○");
            reveal_strlit(" ");
            assert(("●"@ + " "@) =~= "● "@);
            assert(("○"@ + " "@) =~= "○ "@);
        }
        let name = text::chars_of(e.name.as_str());
        let label = text::concat_exec(marker.as_slice(), name.as_slice());
        let id = text::concat_string("boot-next:", e.id.as_str());
        r.push(MenuLine { id, label: text::string_of(label.as_slice()) });
        i = i + 1;
    }
    r
}

/// An item of the tray menu: its identifier, its label, and whether it can
/// be chosen.
pub struct TrayItem {
    pub id: String,
    pub label: String,
    pub enabled: bool,
}

/// The mathematical value of a [`TrayItem`].
pub struct ItemModel {
    pub id: Seq<char>,
    pub label: Seq<char>,
    pub enabled: bool,
}

impl View for TrayItem {
    type V = ItemModel;

    open spec fn view(&self) -> ItemModel {
        ItemModel { id: self.id@, label: self.label@, enabled: self.enabled }
    }
}

/// A place of the tray menu: the next-boot submenu, a separator, or an item.
pub enum MenuSlot {
    NextBoot { title: String, enabled: bool, items: Vec<TrayItem> },
    Separator,
    Item(TrayItem),
}

/// The mathematical value of a [`MenuSlot`].
pub enum SlotModel {
    NextBoot { title: Seq<char>, enabled: bool, items: Seq<ItemModel> },
    Separator,
    Item(ItemModel),
}

pub open spec fn item_models(v: Seq<TrayItem>) -> Seq<ItemModel> {
    v.map_values(|i: TrayItem| i@)
}

impl View for MenuSlot {
    type V = SlotModel;

    open spec fn view(&self) -> SlotModel {
        match self {
            MenuSlot::NextBoot { title, enabled, items } => SlotModel::NextBoot {
                title: title@,
                enabled: *enabled,
                items: item_models(items@),
            },
            MenuSlot::Separator => SlotModel::Separator,
            MenuSlot::Item(i) => SlotModel::Item(i@),
        }
    }
}

pub open spec fn slot_models(v: Seq<MenuSlot>) -> Seq<SlotModel> {
    v.map_values(|s: MenuSlot| s@)
}

/// A text in the tray's language.
pub open spec fn in_language(english: bool, chinese: Seq<char>, english_text: Seq<char>) -> Seq<
    char,
> {
    if english {
        english_text
    } else {
        chinese
    }
}

/// An enabled item with a fixed identifier.
pub open spec fn fixed_item(id: Seq<char>, label: Seq<char>) -> SlotModel {
    SlotModel::Item(ItemModel { id: id, label: label, enabled: true })
}

/// The tray menu for the entries shown: the next-boot submenu, enabled where
/// there are entries, with one enabled item per entry in order (or a single
/// disabled placeholder item where there is none); a separator; the show,
/// hide and refresh items; a separator; and the quit item.
pub open spec fn tray_menu_model(
    english: bool,
    entries: Seq<EntryModel>,
    boot_next: Option<Seq<char>>,
) -> Seq<SlotModel> {
    seq![
        SlotModel::NextBoot {
            title: in_language(english, "设置下一次启动"@, "Set next boot"@),
            enabled: entries.len() > 0,
            items: if entries.len() == 0 {
                seq![
                    ItemModel {
                        id: "no-entries"@,
                        label: in_language(english, "没有可用启动项"@, "No usable boot entries"@),
                        enabled: false,
                    },
                ]
            } else {
                Seq::new(
                    entries.len(),
                    |i: int|
                        ItemModel {
                            id: next_item_prefix() + entries[i].id,
                            label: item_label(entries[i], boot_next),
                            enabled: true,
                        },
                )
            },
        },
        SlotModel::Separator,
        fixed_item("show-window"@, in_language(english, "显示应用"@, "Show app"@)),
        fixed_item("hide-window"@, in_language(english, "隐藏应用"@, "Hide app"@)),
        fixed_item("refresh-entries"@, in_language(english, "刷新启动项"@, "Refresh boot entries"@)),
        SlotModel::Separator,
        fixed_item("quit-app"@, in_language(english, "关闭应用"@, "Quit app"@)),
    ]
}

fn fixed(id: &str, english: bool, chinese: &str, english_text: &str) -> (r: MenuSlot)
    ensures
        r@ == fixed_item(id@, in_language(english, chinese@, english_text@)),
{
    MenuSlot::Item(
        TrayItem {
            id: text::owned(id),
            label: text::owned(tray_text(english, chinese, english_text)),
            enabled: true,
        },
    )
}

/// The tray menu for the entries shown and the next entry.
pub fn tray_menu(english: bool, entries: &Vec<BootEntry>, boot_next: &Option<String>) -> (r: Vec<
    MenuSlot,
>)
    ensures
        slot_models(r@) == tray_menu_model(
            english,
            entry_models(entries@),
            crate::models::opt_text(*boot_next),
        ),
{
    let ghost es = entry_models(entries@);
    let ghost bn = crate::models::opt_text(*boot_next);
    let mut items: Vec<TrayItem> = Vec::new();
    if entries.len() == 0 {
        items.push(
            TrayItem {
                id: text::owned("no-entries"),
                label: text::owned(tray_text(english, "没有可用启动项", "No usable boot entries")),
                enabled: false,
            },
        );
    } else {
        let lines = next_boot_items(entries, boot_next);
        let mut i: usize = 0;
        while i < lines.len()
            invariant
                i <= lines@.len(),
                lines@.len() == entries@.len(),
                es == entry_models(entries@),
                bn == crate::models::opt_text(*boot_next),
                items@.len() == i,
                forall|j: int|
                    0 <= j < lines@.len() ==> {
                        &&& (#[trigger] lines@[j]).id@ == next_item_prefix() + entries@[j].id@
                        &&& lines@[j].label@ == item_label(entries@[j]@, bn)
                    },
                forall|j: int|
                    0 <= j < i ==> (#[trigger] items@[j])@ == (ItemModel {
                        id: next_item_prefix() + es[j].id,
                        label: item_label(es[j], bn),
                        enabled: true,
                    }),
            decreases lines@.len() - i,
        {
            let line = &lines[i];
            items.push(
                TrayItem {
                    id: text::owned(line.id.as_str()),
                    label: text::owned(line.label.as_str()),
                    enabled: true,
                },
            );
            i = i + 1;
        }
    }
    let ghost want = tray_menu_model(english, es, bn);
    let ghost sub_items = match want[0] {
        SlotModel::NextBoot { items, .. } => items,
        _ => Seq::empty(),
    };
    assert(item_models(items@) =~= sub_items);
    let next = MenuSlot::NextBoot {
        title: text::owned(tray_text(english, "设置下一次启动", "Set next boot")),
        enabled: entries.len() > 0,
        items,
    };
    let r = vec![
        next,
        MenuSlot::Separator,
        fixed("show-window", english, "显示应用", "Show app"),
        fixed("hide-window", english, "隐藏应用", "Hide app"),
        fixed("refresh-entries", english, "刷新启动项", "Refresh boot entries"),
        MenuSlot::Separator,
        fixed("quit-app", english, "关闭应用", "Quit app"),
    ];
    assert(slot_models(r@) =~= want);
    r
}

/// The message shown after the next boot entry was set to `name`.
pub open spec fn next_boot_message(english: bool, name: Seq<char>) -> Seq<char> {
    if english {
        "The next boot will start “"@ + name + "”."@
    } else {
        "下一次启动将进入「"@ + name + "」。"@
    }
}

pub fn tray_result_message(english: bool, name: &str) -> (r: String)
    ensures
        r@ == next_boot_message(english, name@),
{
    let (head, tail) = if english {
        ("The next boot will start “", "”.")
    } else {
        ("下一次启动将进入「", "」。")
    };
    let c = text::concat_exec(text::chars_of(head).as_slice(), text::chars_of(name).as_slice());
    let c2 = text::concat_exec(c.as_slice(), text::chars_of(tail).as_slice());
    text::string_of(c2.as_slice())
}

/// The name shown for an entry: the name of the first listed entry with the
/// identifier, else the identifier itself (also when no list could be read).
pub open spec fn shown_name(entries: Option<Seq<EntryModel>>, id: Seq<char>) -> Seq<char> {
    match entries {
        Some(es) => match crate::windows::entry_index_from(es, id, 0) {
            Some(j) => es[j].name,
            None => id,
        },
        None => id,
    }
}

pub fn entry_display_name(entries: Option<&Vec<BootEntry>>, id: &str) -> (r: String)
    ensures
        r@ == shown_name(
            match entries {
                Some(es) => Some(entry_models(es@)),
                None => None,
            },
            id@,
        ),
{
    match entries {
        None => text::owned(id),
        Some(es) => {
            let ghost m = entry_models(es@);
            let key = text::chars_of(id);
            let mut i: usize = 0;
            while i < es.len()
                invariant
                    i <= es@.len(),
                    m == entry_models(es@),
                    entries == Some(es),
                    key@ == id@,
                    crate::windows::entry_index_from(m, id@, 0)
                        == crate::windows::entry_index_from(m, id@, i as int),
                decreases es@.len() - i,
            {
                let c = text::chars_of(es[i].id.as_str());
                if text::seq_eq_exec(c.as_slice(), key.as_slice()) {
                    assert(m[i as int].id == id@);
                    assert(crate::windows::entry_index_from(m, id@, i as int) == Some(i as int));
                    assert(m[i as int].name == es@[i as int].name@);
                    return es[i].name.clone();
                }
                i = i + 1;
            }
            text::owned(id)
        },
    }
}

} // verus!

verus! {

/// A click on the next-boot item of an entry asks to set that entry as the
/// next boot: the item's identifier is none of the fixed ones, and what
/// follows its prefix is the entry's identifier.
pub proof fn next_item_selects_entry(entry_id: Seq<char>)
    ensures
        action_of(next_item_prefix() + entry_id) == ActionModel::SetNext(entry_id),
{
    reveal_strlit("boot-next:");
    reveal_strlit("show-window");
    reveal_strlit("hide-window");
    reveal_strlit("refresh-entries");
    reveal_strlit("quit-app");
    let item = next_item_prefix() + entry_id;
    assert(item[0] == 'b');
    assert("show-window"@[0] == 's');
    assert("hide-window"@[0] == 'h');
    assert("refresh-entries"@[0] == 'r');
    assert("quit-app"@[0] == 'q');
    assert(item.take(next_item_prefix().len() as int) =~= next_item_prefix());
    assert(item.skip(next_item_prefix().len() as int) =~= entry_id);
}

/// The tray menu speaks the tray's language: in the English tray its
/// submenu and fixed items read "Set next boot", "Show app", "Hide app",
/// "Refresh boot entries" and "Quit app" (and "No usable boot entries" where
/// there is no entry), in the other tray their Chinese texts. It holds, in
/// this order, the next-boot submenu, a separator, the show, hide and
/// refresh items, a separator and the quit item, all enabled; the submenu
/// can be opened exactly when there are entries, and then has one enabled
/// item per entry, in their order, whose identifier is `boot-next:` and the
/// entry's identifier, and whose label is the entry's name after a filled
/// circle for the next entry (by its mark, or by the next identifier in any
/// ASCII letter case) and an empty circle for the others.
pub proof fn tray_menu_in_language(
    english: bool,
    entries: Seq<EntryModel>,
    boot_next: Option<Seq<char>>,
)
    ensures
        ({
            let m = tray_menu_model(english, entries, boot_next);
            &&& m.len() == 7
            &&& m[1] is Separator && m[5] is Separator
            &&& m[2] == SlotModel::Item(
                ItemModel {
                    id: "show-window"@,
                    label: if english {
                        "Show app"@
                    } else {
                        "显示应用"@
                    },
                    enabled: true,
                },
            )
            &&& m[3] == SlotModel::Item(
                ItemModel {
                    id: "hide-window"@,
                    label: if english {
                        "Hide app"@
                    } else {
                        "隐藏应用"@
                    },
                    enabled: true,
                },
            )
            &&& m[4] == SlotModel::Item(
                ItemModel {
                    id: "refresh-entries"@,
                    label: if english {
                        "Refresh boot entries"@
                    } else {
                        "刷新启动项"@
                    },
                    enabled: true,
                },
            )
            &&& m[6] == SlotModel::Item(
                ItemModel {
                    id: "quit-app"@,
                    label: if english {
                        "Quit app"@
                    } else {
                        "关闭应用"@
                    },
                    enabled: true,
                },
            )
            &&& m[0] matches SlotModel::NextBoot { title, enabled, items } && {
                &&& title == if english {
                    "Set next boot"@
                } else {
                    "设置下一次启动"@
                }
                &&& enabled == (entries.len() > 0)
                &&& entries.len() == 0 ==> items == seq![
                    ItemModel {
                        id: "no-entries"@,
                        label: if english {
                            "No usable boot entries"@
                        } else {
                            "没有可用启动项"@
                        },
                        enabled: false,
                    },
                ]
                &&& entries.len() > 0 ==> items.len() == entries.len() && forall|i: int|
                    0 <= i < entries.len() ==> {
                        let selected = entries[i].next || (boot_next matches Some(n)
                            && text::lower_ascii(entries[i].id) == text::lower_ascii(n));
                        &&& (#[trigger] items[i]).id == "boot-next:"@ + entries[i].id
                        &&& items[i].enabled
                        &&& items[i].label == (if selected {
                            "● "@
                        } else {
                            "○ "@
                        }) + entries[i].name
                    }
            }
        }),
{
    reveal_strlit("● ");
    reveal_strlit("○ ");
    reveal_strlit("●");
    reveal_strlit("○");
    reveal_strlit(" ");
    assert(("●"@ + " "@) =~= "● "@);
    assert(("○"@ + " "@) =~= "○ "@);
    let m = tray_menu_model(english, entries, boot_next);
    if entries.len() > 0 {
        if let SlotModel::NextBoot { title, enabled, items } = m[0] {
            assert forall|i: int| 0 <= i < entries.len() implies {
                let selected = entries[i].next || (boot_next matches Some(n) && text::lower_ascii(
                    entries[i].id,
                ) == text::lower_ascii(n));
                &&& (#[trigger] items[i]).id == "boot-next:"@ + entries[i].id
                &&& items[i].enabled
                &&& items[i].label == (if selected {
                    "● "@
                } else {
                    "○ "@
                }) + entries[i].name
            } by {
                let e = entries[i];
                if is_selected(e, boot_next) {
                    assert(("●"@ + " "@ + e.name) =~= ("● "@ + e.name));
                } else {
                    assert(("○"@ + " "@ + e.name) =~= ("○ "@ + e.name));
                }
            }
        }
    }
}

} // verus!
