use bootpilot::boot::{current_manager, visible_boot_info, Manager, Platform};
use bootpilot::command::{reboot_outcome, spawn_error, CommandOutput, SpawnFailure};
use bootpilot::error::BootError;
use bootpilot::linux::LinuxBootManager;
use bootpilot::models::{BootEntry, BootEntryType, BootInfo};
use bootpilot::windows::{decode_windows_text, WindowsBootManager};

fn output(success: bool, stdout: &[u8], stderr: &[u8]) -> CommandOutput {
    CommandOutput { success, stdout: stdout.to_vec(), stderr: stderr.to_vec() }
}

fn entry(id: &str, kind: BootEntryType, invalid: bool) -> BootEntry {
    BootEntry {
        id: id.to_string(),
        name: format!("entry {id}"),
        description: None,
        path: None,
        device: None,
        active: true,
        current: false,
        next: false,
        order: None,
        entry_type: kind,
        suspected_invalid: invalid,
    }
}

fn info(order: &[&str], current: Option<&str>, next: Option<&str>, entries: Vec<BootEntry>) -> BootInfo {
    BootInfo {
        current_os: "Test OS".to_string(),
        uefi: true,
        secure_boot: Some(true),
        boot_current: current.map(|s| s.to_string()),
        boot_next: next.map(|s| s.to_string()),
        boot_order: order.iter().map(|s| s.to_string()).collect(),
        entries,
    }
}

#[test]
fn platform_selects_manager() {
    assert!(matches!(current_manager(Platform::Windows), Ok(Manager::Windows(_))));
    assert!(matches!(current_manager(Platform::Linux), Ok(Manager::Linux(_))));
    assert!(matches!(current_manager(Platform::Other), Err(BootError::UnsupportedPlatform)));
}

#[test]
fn visible_info_for_efi_numbers() {
    let i = info(
        &["0002", "0001", "0009"],
        Some("0001"),
        Some("0002"),
        vec![entry("0001", BootEntryType::Linux, true), entry("0002", BootEntryType::Windows, false)],
    );
    let v = visible_boot_info(i);
    assert_eq!(v.entries.len(), 1);
    assert_eq!(v.entries[0].id, "0002");
    assert_eq!(v.boot_order, vec!["0002"]);
    assert_eq!(v.boot_current, None);
    assert_eq!(v.boot_next.as_deref(), Some("0002"));
    assert_eq!(v.current_os, "Test OS");
    assert_eq!(v.secure_boot, Some(true));
}

#[test]
fn visible_info_for_windows_order() {
    let g = "{abcdefab-cdef-abcd-efab-cdefabcdefab}";
    let h = "{bbbbbbbb-cdef-abcd-efab-cdefabcdefab}";
    let with_windows = info(
        &["{bootmgr}", g, h],
        Some("{nothing}"),
        None,
        vec![entry(g, BootEntryType::Windows, false), entry(h, BootEntryType::Linux, true)],
    );
    let v = visible_boot_info(with_windows);
    assert_eq!(v.boot_order, vec!["{bootmgr}", g]);
    assert_eq!(v.boot_current.as_deref(), Some("{nothing}"));
    let without_windows = info(&["{bootmgr}", g], None, None, vec![entry(g, BootEntryType::Linux, false)]);
    let v = visible_boot_info(without_windows);
    assert_eq!(v.boot_order, vec![g]);
}

#[test]
fn spawn_errors_and_reboot_outcomes() {
    assert!(matches!(spawn_error("efibootmgr", SpawnFailure::NotFound), BootError::CommandNotFound(p) if p == "efibootmgr"));
    assert!(matches!(spawn_error("x", SpawnFailure::PermissionDenied), BootError::PermissionDenied));
    assert!(matches!(spawn_error("x", SpawnFailure::Other("boom".into())), BootError::CommandFailed(m) if m == "boom"));
    assert!(reboot_outcome(Ok(output(true, b"", b""))).is_ok());
    assert!(matches!(reboot_outcome(Ok(output(false, b"", b"  denied \n"))), Err(BootError::RebootFailed(m)) if m == "denied"));
    assert!(matches!(reboot_outcome(Err("no systemctl".into())), Err(BootError::RebootFailed(m)) if m == "no systemctl"));
    let l = LinuxBootManager::new();
    assert!(matches!(l.spawn_error(SpawnFailure::NotFound), BootError::CommandNotFound(p) if p == "efibootmgr"));
    let w = WindowsBootManager::new();
    assert!(matches!(w.spawn_error(SpawnFailure::NotFound), BootError::CommandNotFound(p) if p == "bcdedit"));
}

#[test]
fn linux_output_text() {
    let l = LinuxBootManager::new();
    assert_eq!(l.output_text(&output(true, b"BootCurrent: 0001\n", b"")).unwrap(), "BootCurrent: 0001\n");
    assert_eq!(l.output_text(&output(true, b"a\xffb", b"")).unwrap(), "a\u{fffd}b");
    assert!(matches!(l.output_text(&output(false, b"", b"Permission denied")), Err(BootError::PermissionDenied)));
    assert!(matches!(l.output_text(&output(false, b"", "权限不够".as_bytes())), Err(BootError::PermissionDenied)));
    assert!(matches!(l.output_text(&output(false, b"", b" EFI variables are not supported \n")), Err(BootError::CommandFailed(m)) if m == "EFI variables are not supported"));
}

#[test]
fn linux_boot_info() {
    let l = LinuxBootManager::new();
    let text = b"BootCurrent: 0001\nBootOrder: 0001\nBoot0001* ubuntu HD(1)/File(\\EFI\\ubuntu\\shimx64.efi)\n";
    let info = l.boot_info_from_output(&output(true, text, b""), "Ubuntu".into(), None).unwrap().unwrap();
    assert_eq!(info.current_os, "Ubuntu");
    assert!(info.uefi);
    assert_eq!(info.boot_current.as_deref(), Some("0001"));
    assert_eq!(info.boot_order, vec!["0001"]);
    assert!(info.entries[0].current);
    assert!(l.boot_info_from_output(&output(true, "Boot123é\n".as_bytes(), b""), "x".into(), None).is_none());
    assert!(matches!(l.boot_info_from_output(&output(false, b"", b"oops"), "x".into(), None), Some(Err(BootError::CommandFailed(_)))));
    assert!(matches!(l.boot_info_from_text("", "x".into(), None), Err(BootError::ParseError(_))));
}

#[test]
fn linux_arguments() {
    let l = LinuxBootManager::new();
    assert!(l.check_id("00aB").is_ok());
    assert!(matches!(l.check_id("1"), Err(BootError::InvalidBootId(m)) if m == "1"));
    assert_eq!(l.boot_next_args("0003").unwrap(), vec!["-n", "0003"]);
    assert!(matches!(l.boot_next_args("zz"), Err(BootError::InvalidBootId(_))));
    let order: Vec<String> = vec!["0001".into(), "000a".into(), "0002".into(), "000a".into()];
    assert_eq!(l.default_order_args("000a", &order).unwrap(), vec!["-o", "000A,0001,0002"]);
    assert_eq!(l.default_order_args("0001", &order).unwrap(), vec!["-o", "0001,000a,0002,000a"]);
    assert!(matches!(l.default_order_args("000A", &order), Err(BootError::BootEntryNotFound(m)) if m == "000A"));
    assert!(matches!(l.default_order_args("0x01", &order), Err(BootError::InvalidBootId(_))));
    let single: Vec<String> = vec!["0007".into()];
    assert_eq!(l.default_order_args("0007", &single).unwrap(), vec!["-o", "0007"]);
}

#[test]
fn windows_decoding() {
    // UTF-16 is recognised by two zero bytes side by side.
    let utf16: Vec<u8> = "aĀb".encode_utf16().flat_map(|u| u.to_le_bytes()).collect();
    assert_eq!(decode_windows_text(&utf16), "aĀb");
    // ASCII text in UTF-16 has no such pair and is read as UTF-8.
    let ascii16: Vec<u8> = "id".encode_utf16().flat_map(|u| u.to_le_bytes()).collect();
    assert_eq!(decode_windows_text(&ascii16), "i\0d\0");
    assert_eq!(decode_windows_text("标识符".as_bytes()), "标识符");
    assert_eq!(decode_windows_text(&[0xd6, 0xd0, 0xce, 0xc4]), "中文");
    assert_eq!(decode_windows_text(b""), "");
}

#[test]
fn windows_output_text() {
    let w = WindowsBootManager::new();
    assert!(matches!(w.output_text(&output(false, b"", b"Access is denied.")), Err(BootError::PermissionDenied)));
    assert!(matches!(w.output_text(&output(false, b"", "拒绝访问。".as_bytes())), Err(BootError::PermissionDenied)));
    assert!(matches!(w.output_text(&output(false, b"", b"bad")), Err(BootError::CommandFailed(m)) if m == "bad"));
    assert_eq!(w.output_text(&output(true, b"ok", b"")).unwrap(), "ok");
}

#[test]
fn windows_boot_info_places_entries() {
    let w = WindowsBootManager::new();
    let text = "Firmware Boot Manager\n---\nidentifier {fwbootmgr}\ndisplayorder {abcdefab-cdef-abcd-efab-cdefabcdefab}\n             {bootmgr}\n             {abcdefab-cdef-abcd-efab-cdefabcdefab}\nbootsequence {bootmgr}\n\nWindows Boot Manager\n---\nidentifier {bootmgr}\npath \\EFI\\Microsoft\\Boot\\bootmgfw.efi\n\nubuntu\n---\nidentifier {abcdefab-cdef-abcd-efab-cdefabcdefab}\npath \\EFI\\ubuntu\\shimx64.efi\n";
    let info = w.boot_info_from_text(text, "Windows".into()).unwrap();
    assert_eq!(info.boot_order.len(), 3);
    assert_eq!(info.boot_next.as_deref(), Some("{bootmgr}"));
    assert_eq!(info.boot_current, None);
    assert_eq!(info.secure_boot, None);
    let bootmgr = info.entries.iter().find(|e| e.id == "{bootmgr}").unwrap();
    assert_eq!(bootmgr.order, Some(1));
    assert!(bootmgr.next);
    let ubuntu = info.entries.iter().find(|e| e.id.starts_with("{abcdefab")).unwrap();
    assert_eq!(ubuntu.order, Some(2));
    assert!(!ubuntu.next);
    let fw = info.entries.iter().find(|e| e.id == "{fwbootmgr}").unwrap();
    assert_eq!(fw.order, None);
    let from_output = w.boot_info_from_output(&output(true, text.as_bytes(), b""), "Windows".into()).unwrap();
    assert_eq!(from_output.entries.len(), info.entries.len());
}

#[test]
fn windows_arguments() {
    let w = WindowsBootManager::new();
    let g = "{abcdefab-cdef-abcd-efab-cdefabcdefab}";
    assert_eq!(w.boot_next_args(g).unwrap(), vec!["/set", "{fwbootmgr}", "bootsequence", g]);
    assert_eq!(w.default_boot_args(g).unwrap(), vec!["/set", "{fwbootmgr}", "displayorder", g, "/addfirst"]);
    assert!(matches!(w.boot_next_args("{bootmgr}"), Err(BootError::InvalidBootId(m)) if m == "{bootmgr}"));
    assert!(matches!(w.default_boot_args("{fwbootmgr}"), Err(BootError::InvalidBootId(_))));
    assert!(matches!(w.check_target("{xyz}"), Err(BootError::InvalidBootId(_))));
    assert!(w.check_target(g).is_ok());
}
