use bootpilot::boot::visible_boot_info;
use bootpilot::linux::LinuxBootManager;
use bootpilot::models::{BootEntry, BootEntryType, BootInfo};
use bootpilot::parser::{
    entry_type, parse_bcdedit, parse_bcdedit_boot_state, parse_efibootmgr, valid_linux_id,
    valid_windows_id,
};
use bootpilot::tray::{tray_menu, MenuSlot};
use bootpilot::windows::{decode_windows_text, WindowsBootManager};

const BCDEDIT: &str = "Firmware Boot Manager\n---\nidentifier {fwbootmgr}\ndisplayorder {bootmgr}\n  {abcdefab-cdef-abcd-efab-cdefabcdefab}\nbootsequence {abcdefab-cdef-abcd-efab-cdefabcdefab}\n\nWindows Boot Manager\n---\nidentifier {bootmgr}\ndevice partition=C:\npath \\EFI\\Microsoft\\Boot\\bootmgfw.efi\n\nubuntu\n---\nidentifier {abcdefab-cdef-abcd-efab-cdefabcdefab}\nidentifier {not-valid}\npath \\EFI\\ubuntu\\shimx64.efi\n";

const EFIBOOTMGR: &str = "BootCurrent: 000b\nBootNext: 000a\nBootOrder: 000b,000a,0001\nBoot000A* Windows Boot Manager\tHD(1,GPT)/File(\\EFI\\Microsoft\\Boot\\bootmgfw.efi)\nBoot000b* ubuntu\tHD(1,GPT)/File(\\EFI\\ubuntu\\shimx64.efi)\nBoot0001  unknown device\n";

fn summary(i: &BootInfo) -> (Vec<String>, Vec<String>, Option<String>, Option<String>) {
    (
        i.entries.iter().map(|e| e.id.clone()).collect(),
        i.boot_order.clone(),
        i.boot_current.clone(),
        i.boot_next.clone(),
    )
}

fn entry(id: &str, kind: BootEntryType) -> BootEntry {
    BootEntry {
        id: id.into(),
        name: id.into(),
        description: None,
        path: None,
        device: None,
        active: true,
        current: false,
        next: false,
        order: None,
        entry_type: kind,
        suspected_invalid: false,
    }
}

#[test]
fn bcdedit_entries_are_well_formed() {
    let entries = parse_bcdedit(BCDEDIT).unwrap();
    assert!(!entries.is_empty());
    for e in &entries {
        assert!(valid_windows_id(&e.id));
        assert!(e.active && !e.current && !e.next && e.order.is_none());
    }
    let (order, next) = parse_bcdedit_boot_state(BCDEDIT);
    assert!(order.iter().all(|id| valid_windows_id(id)));
    assert!(next.iter().all(|id| valid_windows_id(id)));
}

#[test]
fn efibootmgr_numbers_are_uppercase_hex() {
    let (current, next, order, entries) = parse_efibootmgr(EFIBOOTMGR).unwrap();
    let numbers: Vec<&String> = current.iter().chain(next.iter()).chain(order.iter()).chain(entries.iter().map(|e| &e.id)).collect();
    for n in numbers {
        assert!(valid_linux_id(n));
        assert_eq!(n, &n.to_uppercase());
    }
    assert_eq!(entries[1].id, "000B");
    assert!(entries[1].current);
    assert_eq!(entries[1].order, Some(0));
}

#[test]
fn visible_info_is_consistent_and_idempotent() {
    let linux = LinuxBootManager::new();
    let info = linux.boot_info_from_text(EFIBOOTMGR, "Linux".into(), None).unwrap();
    let all_ids: Vec<String> = info.entries.iter().map(|e| e.id.clone()).collect();
    let order_before = info.boot_order.clone();
    let once = visible_boot_info(info);
    for e in &once.entries {
        assert!(!e.suspected_invalid);
        assert!(all_ids.contains(&e.id));
        // Every listed entry can be set as the next one.
        assert!(linux.check_id(&e.id).is_ok());
        assert!(linux.boot_next_args(&e.id).is_ok());
    }
    for id in &once.boot_order {
        assert!(order_before.contains(id));
        assert!(once.entries.iter().any(|e| &e.id == id));
    }
    let before = summary(&once);
    let twice = visible_boot_info(once);
    assert_eq!(summary(&twice), before);
}

#[test]
fn visible_info_idempotence_fails_only_in_its_edge_case() {
    let g = "{abcdefab-cdef-abcd-efab-cdefabcdefab}";
    let x = BootInfo {
        current_os: String::new(),
        uefi: true,
        secure_boot: None,
        boot_current: Some("elsewhere".into()),
        boot_next: None,
        boot_order: vec!["{bootmgr}".into()],
        entries: vec![entry(g, BootEntryType::Linux)],
    };
    let once = visible_boot_info(x);
    assert!(once.boot_order.is_empty());
    assert_eq!(once.boot_current.as_deref(), Some("elsewhere"));
    let twice = visible_boot_info(once);
    assert_eq!(twice.boot_current, None);
}

#[test]
fn default_order_reads_back_at_commas() {
    let linux = LinuxBootManager::new();
    let order: Vec<String> = vec!["0003".into(), "000b".into(), "0001".into()];
    let args = linux.default_order_args("000b", &order).unwrap();
    let back: Vec<&str> = args[1].split(',').collect();
    assert_eq!(back, vec!["000B", "0003", "0001"]);
}

#[test]
fn entry_type_follows_name_and_path() {
    assert!(matches!(
        entry_type("Windows", Some("\\EFI\\ubuntu\\grubx64.efi"), false),
        BootEntryType::Windows
    ));
    assert!(matches!(entry_type("ubuntu", None, true), BootEntryType::Firmware));
    assert!(matches!(entry_type("Disk", Some("\\EFI\\GRUB\\x.efi"), false), BootEntryType::Linux));
    assert!(matches!(entry_type("USB stick", None, false), BootEntryType::Removable));
    assert!(matches!(entry_type("PXE IPv4", None, false), BootEntryType::Network));
    assert!(matches!(entry_type("Disk", None, false), BootEntryType::Unknown));
}

#[test]
fn bcdedit_entries_come_from_the_input() {
    let entries = parse_bcdedit(BCDEDIT).unwrap();
    for e in &entries {
        assert!(BCDEDIT.contains(e.id.as_str()));
        assert!(!e.name.is_empty());
        assert_eq!(e.description.as_deref(), Some(e.name.as_str()));
        let unknown = e.device.as_deref().is_some_and(|d| d.to_lowercase().contains("unknown"));
        assert_eq!(e.suspected_invalid, e.path.is_none() || unknown);
        if let Some(p) = &e.path {
            assert!(!p.is_empty());
            assert_eq!(p.as_str(), p.trim());
        }
    }
    // An entry without a description is named by its section title.
    let bootmgr = entries.iter().find(|e| e.id == "{bootmgr}").unwrap();
    assert_eq!(bootmgr.name, "Windows Boot Manager");
    assert!(matches!(bootmgr.entry_type, BootEntryType::Windows));
    // Titles naming firmware in any letter case make firmware entries.
    let fw = "FIRMWARE apps\nidentifier {12345678-1234-1234-1234-123456789abc}\ndevice UNKNOWN\npath \\EFI\\ubuntu\\grubx64.efi\n";
    let entries = parse_bcdedit(fw).unwrap();
    assert!(matches!(entries[0].entry_type, BootEntryType::Firmware));
    assert!(entries[0].suspected_invalid);
    assert_eq!(entries[0].name, "FIRMWARE apps");
}

#[test]
fn bcdedit_uppercase_labels_are_read() {
    let text = "Apps\nIDENTIFIER {12345678-1234-1234-1234-123456789abc}\nDESCRIPTION Debian\n";
    let entries = parse_bcdedit(text).unwrap();
    assert_eq!(entries[0].name, "Debian");
    assert_eq!(entries[0].path, None);
    assert!(entries[0].suspected_invalid);
}

#[test]
fn bcdedit_boot_state_ids_keep_input_order() {
    let (order, next) = parse_bcdedit_boot_state(BCDEDIT);
    assert_eq!(order, vec!["{bootmgr}", "{abcdefab-cdef-abcd-efab-cdefabcdefab}"]);
    let mut at = 0;
    for id in &order {
        let k = BCDEDIT[at..].find(id.as_str()).unwrap();
        at += k + id.len();
    }
    assert!(BCDEDIT.contains(next.as_deref().unwrap()));
}

#[test]
fn efibootmgr_one_entry_per_entry_line() {
    let text = "Boot0001* one\nBootXY12 not an entry\nBoot00 short\n  Boot0002 two  \nTimeout: 1\n";
    let (_, _, _, entries) = parse_efibootmgr(text).unwrap();
    let ids: Vec<&str> = entries.iter().map(|e| e.id.as_str()).collect();
    assert_eq!(ids, vec!["0001", "0002"]);
    assert!(entries.iter().all(|e| e.device.is_none()));
    assert_eq!(entries[1].name, "two");
    assert!(!entries[1].active);
    assert!(parse_efibootmgr("BootXY12 x\nBoot00\n").is_err());
}

#[test]
fn efibootmgr_marks_after_entries_are_not_seen() {
    // The marks law needs every mark line before the entry lines.
    let text = "Boot0000* A\nBootCurrent: 0000\n";
    let (current, _, _, entries) = parse_efibootmgr(text).unwrap();
    assert_eq!(current.as_deref(), Some("0000"));
    assert!(!entries[0].current);
    let (current, next, order, entries) = parse_efibootmgr(EFIBOOTMGR).unwrap();
    for e in &entries {
        assert_eq!(e.current, current.as_deref() == Some(e.id.as_str()));
        assert_eq!(e.next, next.as_deref() == Some(e.id.as_str()));
        assert_eq!(e.order, order.iter().position(|x| *x == e.id).map(|i| i as u32));
    }
}

#[test]
fn windows_entries_keep_their_fields() {
    let w = WindowsBootManager::new();
    let parsed = parse_bcdedit(BCDEDIT).unwrap();
    let info = w.boot_info_from_text(BCDEDIT, "Windows".into()).unwrap();
    assert_eq!(info.entries.len(), parsed.len());
    for (a, b) in info.entries.iter().zip(parsed.iter()) {
        assert_eq!(a.id, b.id);
        assert_eq!(a.name, b.name);
        assert_eq!(a.path, b.path);
        assert_eq!(a.suspected_invalid, b.suspected_invalid);
    }
}

#[test]
fn utf16_surrogates_decode() {
    // A surrogate pair makes one character; an unpaired one becomes U+FFFD.
    let units: Vec<u16> = vec![0x0041, 0xD83D, 0xDE00, 0xD800, 0x0042, 0x0000];
    let bytes: Vec<u8> = units.iter().flat_map(|u| u.to_le_bytes()).collect();
    assert_eq!(decode_windows_text(&bytes), "A\u{1F600}\u{FFFD}B\0");
}

#[test]
fn bcdedit_description_carries_over_sections_without_entries() {
    let text = "First\ndescription Carried\nSecond\nidentifier {12345678-1234-1234-1234-123456789abc}\n";
    let entries = parse_bcdedit(text).unwrap();
    assert_eq!(entries.len(), 1);
    assert_eq!(entries[0].name, "Carried");
    assert!(matches!(entries[0].entry_type, BootEntryType::Unknown));
    // The kind comes from the entry's own section title.
    let text = "Firmware things\nidentifier {12345678-1234-1234-1234-123456789abc}\nUbuntu stuff\nidentifier {abcdefab-cdef-abcd-efab-cdefabcdefab}\n";
    let entries = parse_bcdedit(text).unwrap();
    assert_eq!(entries.len(), 2);
    assert!(matches!(entries[0].entry_type, BootEntryType::Firmware));
    assert!(matches!(entries[1].entry_type, BootEntryType::Linux));
    assert_eq!(entries[1].name, "Ubuntu stuff");
}

#[test]
fn bcdedit_localized_labels_in_any_case() {
    let text = "Apps\nKENNUNG {12345678-1234-1234-1234-123456789abc}\nGERÄT unknown\n";
    let entries = parse_bcdedit(text).unwrap();
    assert_eq!(entries[0].device.as_deref(), Some("unknown"));
    assert!(entries[0].suspected_invalid);
}

#[test]
fn bcdedit_boot_state_collection_rules() {
    let text = "displayorder {bootmgr}\nsomething\n  {abcdefab-cdef-abcd-efab-cdefabcdefab}\nbootsequence {bootmgr}\nbootsequence none\n";
    let (order, next) = parse_bcdedit_boot_state(text);
    assert_eq!(order, vec!["{bootmgr}"]);
    assert_eq!(next, None);
    let text = "bootsequence {bootmgr}\n\n   {abcdefab-cdef-abcd-efab-cdefabcdefab}\n";
    let (order, next) = parse_bcdedit_boot_state(text);
    assert!(order.is_empty());
    assert_eq!(next.as_deref(), Some("{abcdefab-cdef-abcd-efab-cdefabcdefab}"));
}

#[test]
fn linux_changes_run_through_pkexec() {
    let linux = LinuxBootManager::new();
    let (program, args) = linux.boot_next_command("0001").unwrap();
    assert_eq!(program, "pkexec");
    assert_eq!(args, vec!["efibootmgr", "-n", "0001"]);
    assert!(matches!(linux.boot_next_command("xyz"), Err(bootpilot::error::BootError::InvalidBootId(_))));
    let order: Vec<String> = vec!["0003".into(), "000b".into()];
    let (program, args) = linux.default_order_command("000b", &order).unwrap();
    assert_eq!(program, "pkexec");
    assert_eq!(args, vec!["efibootmgr", "-o", "000B,0003"]);
    assert!(matches!(
        linux.default_order_command("0009", &order),
        Err(bootpilot::error::BootError::BootEntryNotFound(_))
    ));
    let (program, args) = linux.reboot_command();
    assert_eq!(program, "pkexec");
    assert_eq!(args, vec!["systemctl", "reboot"]);
    let (program, args) = bootpilot::linux::privileged_command("tool", &vec!["a".to_string()]);
    assert_eq!((program.as_str(), args), ("pkexec", vec!["tool".to_string(), "a".to_string()]));
    assert!(matches!(linux.require_uefi(false), Err(bootpilot::error::BootError::NotUefi)));
    assert!(linux.require_uefi(true).is_ok());
}

#[test]
fn tray_menu_layout() {
    let mut a = entry("0001", BootEntryType::Linux);
    a.name = "ubuntu".into();
    let b = entry("0002", BootEntryType::Windows);
    let menu = tray_menu(true, &vec![a, b], &Some("0002".into()));
    assert_eq!(menu.len(), 7);
    match &menu[0] {
        MenuSlot::NextBoot { title, enabled, items } => {
            assert_eq!(title, "Set next boot");
            assert!(*enabled);
            assert_eq!(items.len(), 2);
            assert_eq!(items[0].id, "boot-next:0001");
            assert_eq!(items[0].label, "○ ubuntu");
            assert_eq!(items[1].label, "● 0002");
            assert!(items.iter().all(|i| i.enabled));
        }
        _ => panic!("first slot is the next-boot menu"),
    }
    assert!(matches!(menu[1], MenuSlot::Separator));
    let ids: Vec<String> = menu[2..]
        .iter()
        .filter_map(|s| match s {
            MenuSlot::Item(i) => Some(i.id.clone()),
            _ => None,
        })
        .collect();
    assert_eq!(ids, vec!["show-window", "hide-window", "refresh-entries", "quit-app"]);
    assert!(matches!(menu[5], MenuSlot::Separator));
    let empty = tray_menu(false, &Vec::new(), &None);
    match &empty[0] {
        MenuSlot::NextBoot { title, enabled, items } => {
            assert_eq!(title, "设置下一次启动");
            assert!(!*enabled);
            assert_eq!(items.len(), 1);
            assert_eq!(items[0].id, "no-entries");
            assert_eq!(items[0].label, "没有可用启动项");
            assert!(!items[0].enabled);
        }
        _ => panic!("first slot is the next-boot menu"),
    }
}
