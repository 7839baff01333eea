use bootpilot::commands::{readable, require_listed};
use bootpilot::error::BootError;
use bootpilot::models::{BootEntry, BootEntryType};
use bootpilot::system::{is_secure_boot_var, os_name_from_release, secure_boot_from_var};
use bootpilot::tray::{
    entry_display_name, is_english_language, menu_action, next_boot_items, tray_result_message,
    tray_text, MenuAction,
};

fn entry(id: &str, name: &str, next: bool) -> BootEntry {
    BootEntry {
        id: id.to_string(),
        name: name.to_string(),
        description: Some(name.to_string()),
        path: None,
        device: None,
        active: true,
        current: false,
        next,
        order: None,
        entry_type: BootEntryType::Unknown,
        suspected_invalid: false,
    }
}

#[test]
fn error_messages() {
    assert_eq!(readable(BootError::UnsupportedPlatform), "当前平台暂不支持 UEFI 启动项管理");
    assert_eq!(readable(BootError::NotUefi), "当前系统不是 UEFI 启动模式，BootNext 不可用");
    assert_eq!(readable(BootError::PermissionDenied), "权限不足，请以管理员权限运行此操作");
    assert_eq!(readable(BootError::CommandNotFound("efibootmgr".into())), "找不到系统命令：efibootmgr");
    assert_eq!(readable(BootError::CommandFailed("x".into())), "系统命令执行失败：x");
    assert_eq!(readable(BootError::ParseError("y".into())), "启动项输出解析失败：y");
    assert_eq!(readable(BootError::InvalidBootId("z".into())), "非法启动项 ID：z");
    assert_eq!(readable(BootError::BootEntryNotFound("0001".into())), "启动项不存在：0001");
    assert_eq!(readable(BootError::RebootFailed("r".into())), "重启失败：r");
    assert_eq!(readable(BootError::Unknown("u".into())), "u");
}

#[test]
fn listed_entries_only() {
    let entries = vec![entry("0001", "a", false), entry("0002", "b", false)];
    assert!(require_listed(&entries, "0002").is_ok());
    assert!(matches!(require_listed(&entries, "0003"), Err(BootError::BootEntryNotFound(m)) if m == "0003"));
    assert!(matches!(require_listed(&Vec::new(), "0001"), Err(BootError::BootEntryNotFound(_))));
}

#[test]
fn tray_language() {
    assert_eq!(tray_text(true, "引导序", "BootPilot"), "BootPilot");
    assert_eq!(tray_text(false, "引导序", "BootPilot"), "引导序");
    assert!(is_english_language("en"));
    assert!(is_english_language("EN-us"));
    assert!(!is_english_language("en-GB"));
    assert!(!is_english_language("zh-CN"));
}

#[test]
fn tray_menu_actions() {
    assert!(matches!(menu_action("show-window"), MenuAction::ShowWindow));
    assert!(matches!(menu_action("hide-window"), MenuAction::HideWindow));
    assert!(matches!(menu_action("refresh-entries"), MenuAction::Refresh));
    assert!(matches!(menu_action("quit-app"), MenuAction::Quit));
    assert!(matches!(menu_action("boot-next:0003"), MenuAction::SetNext(id) if id == "0003"));
    assert!(matches!(menu_action("no-entries"), MenuAction::Ignore));
}

#[test]
fn tray_items_round_trip() {
    let entries = vec![entry("000a", "Fedora", false), entry("0002", "Windows", true), entry("0003", "USB", false)];
    let items = next_boot_items(&entries, &Some("000A".to_string()));
    assert_eq!(items.len(), 3);
    assert_eq!(items[0].label, "● Fedora");
    assert_eq!(items[1].label, "● Windows");
    assert_eq!(items[2].label, "○ USB");
    for (item, e) in items.iter().zip(entries.iter()) {
        assert_eq!(item.id, format!("boot-next:{}", e.id));
        assert!(matches!(menu_action(&item.id), MenuAction::SetNext(id) if id == e.id));
    }
    let none = next_boot_items(&entries, &None);
    assert_eq!(none[0].label, "○ Fedora");
}

#[test]
fn tray_messages_and_names() {
    assert_eq!(tray_result_message(true, "ubuntu"), "The next boot will start “ubuntu”.");
    assert_eq!(tray_result_message(false, "ubuntu"), "下一次启动将进入「ubuntu」。");
    let entries = vec![entry("0001", "first", false), entry("0001", "second", false)];
    assert_eq!(entry_display_name(Some(&entries), "0001"), "first");
    assert_eq!(entry_display_name(Some(&entries), "0009"), "0009");
    assert_eq!(entry_display_name(None, "0001"), "0001");
}

#[test]
fn system_facts() {
    assert_eq!(os_name_from_release("NAME=\"Ubuntu\"\nPRETTY_NAME=\"Ubuntu 24.04 LTS\"\nID=ubuntu\n"), "Ubuntu 24.04 LTS");
    assert_eq!(os_name_from_release("PRETTY_NAME=Arch Linux\n"), "Arch Linux");
    assert_eq!(os_name_from_release("NAME=x\n"), "Linux");
    assert_eq!(os_name_from_release(""), "Linux");
    assert!(is_secure_boot_var("SecureBoot-8be4df61-93ca-11d2-aa0d-00e098032b8c"));
    assert!(!is_secure_boot_var("SetupMode-8be4df61"));
    assert_eq!(secure_boot_from_var(&[6, 0, 0, 0, 1]), Some(true));
    assert_eq!(secure_boot_from_var(&[6, 0, 0, 0, 0]), Some(false));
    assert_eq!(secure_boot_from_var(&[]), None);
}
