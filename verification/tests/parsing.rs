use bootpilot::error::BootError;
use bootpilot::models::BootEntryType;
use bootpilot::parser::{
    efibootmgr_output_sliceable, parse_bcdedit, parse_bcdedit_boot_state, parse_efibootmgr,
    valid_linux_id, valid_windows_id,
};

fn parse_message(e: BootError) -> String {
    match e {
        BootError::ParseError(m) => m,
        other => panic!("unexpected error {:?}", other),
    }
}

#[test]
fn windows_ids() {
    assert!(valid_windows_id("{bootmgr}"));
    assert!(valid_windows_id("{fwbootmgr}"));
    assert!(valid_windows_id("{ABCDEFAB-CDEF-ABCD-EFAB-CDEFABCDEFAB}"));
    assert!(!valid_windows_id("{abcdefab-cdef-abcd-efab-cdefabcdefa}"));
    assert!(!valid_windows_id("{abcdefabc-def-abcd-efab-cdefabcdefab}"));
    assert!(!valid_windows_id("abcdefab-cdef-abcd-efab-cdefabcdefab"));
    assert!(!valid_windows_id("{abcdefab-cdef-abcd-efab-cdefabcdefag}"));
    assert!(!valid_windows_id(""));
}

#[test]
fn linux_ids() {
    assert!(valid_linux_id("00aF"));
    assert!(valid_linux_id("0001"));
    assert!(!valid_linux_id("0001 "));
    assert!(!valid_linux_id("00G1"));
    assert!(!valid_linux_id("001"));
    assert!(!valid_linux_id(""));
}

#[test]
fn bcdedit_empty_and_entryless_output_are_errors() {
    assert_eq!(parse_message(parse_bcdedit("  \n\t\n").unwrap_err()), "bcdedit 输出为空");
    assert_eq!(
        parse_message(parse_bcdedit("Firmware Application\n-----\ndescription x\n").unwrap_err()),
        "未找到有效的固件启动项"
    );
}

#[test]
fn bcdedit_sections_names_and_suspects() {
    let output = "Firmware Boot Manager\r\n---------------------\r\nidentifier {fwbootmgr}\r\n\r\nFirmware Application (101fffff)\r\n-------------------------------\r\nidentifier {12345678-1234-1234-1234-123456789abc}\r\ndevice partition=\\Device\\HarddiskVolume1\r\npath \\EFI\\Microsoft\\Boot\\bootmgfw.efi\r\n\r\nFirmware Application (101fffff)\r\n-------------------------------\r\nidentifier {aaaaaaaa-1234-1234-1234-123456789abc}\r\ndevice unknown\r\ndescription Old USB\r\n";
    let entries = parse_bcdedit(output).unwrap();
    assert_eq!(entries.len(), 3);
    assert_eq!(entries[0].id, "{fwbootmgr}");
    assert_eq!(entries[0].name, "Firmware Boot Manager");
    assert!(entries[0].suspected_invalid);
    assert!(matches!(entries[0].entry_type, BootEntryType::Firmware));
    assert_eq!(entries[1].name, "Firmware Application (101fffff)");
    assert_eq!(entries[1].path.as_deref(), Some("\\EFI\\Microsoft\\Boot\\bootmgfw.efi"));
    assert_eq!(entries[1].device.as_deref(), Some("partition=\\Device\\HarddiskVolume1"));
    assert!(!entries[1].suspected_invalid);
    assert!(matches!(entries[1].entry_type, BootEntryType::Firmware));
    assert_eq!(entries[2].name, "Old USB");
    assert_eq!(entries[2].description.as_deref(), Some("Old USB"));
    assert!(entries[2].suspected_invalid);
    for e in &entries {
        assert!(e.active);
        assert!(!e.current);
        assert!(!e.next);
        assert_eq!(e.order, None);
    }
}

#[test]
fn bcdedit_kinds_follow_the_section_title() {
    let output = "Windows Boot Manager\n--------------------\nidentifier {bootmgr}\npath \\EFI\\Microsoft\\Boot\\bootmgfw.efi\n\nNetwork boot\n------------\nidentifier {bbbbbbbb-1234-1234-1234-123456789abc}\npath \\EFI\\pxe.efi\n\nSomething\n---------\nidentifier {cccccccc-1234-1234-1234-123456789abc}\n";
    let entries = parse_bcdedit(output).unwrap();
    assert!(matches!(entries[0].entry_type, BootEntryType::Windows));
    assert!(matches!(entries[1].entry_type, BootEntryType::Network));
    assert!(matches!(entries[2].entry_type, BootEntryType::Unknown));
    assert_eq!(entries[2].name, "Something");
    assert!(entries[2].suspected_invalid);
}

#[test]
fn bcdedit_german_labels_and_quoted_paths() {
    let output = "Firmwareanwendung\n-----------------\nKennung: {dddddddd-1234-1234-1234-123456789abc}\nBeschreibung: Fedora\nx \"\\EFI\\fedora\\shimx64.efi\", more\n";
    let entries = parse_bcdedit(output).unwrap();
    assert_eq!(entries[0].id, "{dddddddd-1234-1234-1234-123456789abc}");
    assert_eq!(entries[0].name, "Fedora");
    assert_eq!(entries[0].path.as_deref(), Some("\\EFI\\fedora\\shimx64.efi"));
    // The section title names a firmware application.
    assert!(matches!(entries[0].entry_type, BootEntryType::Firmware));
}

#[test]
fn bcdedit_boot_state_lists_and_resets() {
    let output = "displayorder {bootmgr}\n\t{eeeeeeee-1234-1234-1234-123456789abc}\n  not-an-id\ntimeout 2\n  {ffffffff-1234-1234-1234-123456789abc}\nbootsequence {eeeeeeee-1234-1234-1234-123456789abc}\n";
    let (order, next) = parse_bcdedit_boot_state(output);
    assert_eq!(order, vec!["{bootmgr}", "{eeeeeeee-1234-1234-1234-123456789abc}"]);
    assert_eq!(next.as_deref(), Some("{eeeeeeee-1234-1234-1234-123456789abc}"));
    let (order, next) = parse_bcdedit_boot_state("");
    assert!(order.is_empty());
    assert!(next.is_none());
}

#[test]
fn efibootmgr_errors() {
    assert_eq!(parse_message(parse_efibootmgr(" \n \n").unwrap_err()), "efibootmgr 输出为空");
    assert_eq!(
        parse_message(parse_efibootmgr("BootCurrent: 0001\nTimeout: 1 seconds\n").unwrap_err()),
        "未找到有效的 EFI 启动项"
    );
}

#[test]
fn efibootmgr_entries_flags_and_kinds() {
    let output = "BootCurrent: 000a\r\nTimeout: 1 seconds\r\nBootOrder: 000A,zz,0002, 0003\r\nBoot000a* Fedora\tHD(1,GPT)/File(\\EFI\\fedora\\shimx64.efi)\r\nBoot0002  UEFI PXEv4 (MAC:001122334455)\r\nBoot0003* USB Drive  /File( )\r\nBoot0004*\r\nBootXYZW* bogus\r\n";
    let (current, next, order, entries) = parse_efibootmgr(output).unwrap();
    assert_eq!(current.as_deref(), Some("000A"));
    assert_eq!(next, None);
    assert_eq!(order, vec!["000A", "0002", "0003"]);
    assert_eq!(entries.len(), 4);
    assert_eq!(entries[0].id, "000A");
    assert!(entries[0].active);
    assert!(entries[0].current);
    assert_eq!(entries[0].order, Some(0));
    assert_eq!(entries[0].name, "Fedora\tHD(1,GPT)");
    assert!(matches!(entries[0].entry_type, BootEntryType::Linux));
    assert!(!entries[0].suspected_invalid);
    assert!(!entries[1].active);
    assert_eq!(entries[1].order, Some(1));
    assert!(matches!(entries[1].entry_type, BootEntryType::Network));
    assert!(entries[1].suspected_invalid);
    assert_eq!(entries[2].name, "USB Drive");
    assert_eq!(entries[2].path, None);
    assert!(matches!(entries[2].entry_type, BootEntryType::Removable));
    assert_eq!(entries[3].name, "未命名启动项");
    assert_eq!(entries[3].description.as_deref(), Some(""));
    assert_eq!(entries[3].order, None);
}

#[test]
fn efibootmgr_marks_use_values_read_before_the_line() {
    let output = "Boot0001* first\nBootNext: 0001\nBoot0001* second\n";
    let (_, next, _, entries) = parse_efibootmgr(output).unwrap();
    assert_eq!(next.as_deref(), Some("0001"));
    assert!(!entries[0].next);
    assert!(entries[1].next);
}

#[test]
fn efibootmgr_byte_slicing_check() {
    assert!(efibootmgr_output_sliceable("BootCurrent: 0001\nBoot0001* ubuntu\n"));
    assert!(efibootmgr_output_sliceable("Boot12é\n"));
    assert!(!efibootmgr_output_sliceable("ok\nBoot123é\n"));
    assert!(efibootmgr_output_sliceable("BootNext: 日本語\n"));
    assert!(efibootmgr_output_sliceable(""));
}

#[test]
fn bcdedit_unicode_spacing_and_byte_order_marks() {
    let output = "\u{feff}Firmware Application\n\u{feff}identifier\u{3000}{12345678-1234-1234-1234-123456789abc}\ndescription\u{a0}Ubuntu 24.04\u{2003}\n path:\t\\EFI\\ubuntu\\grubx64.efi \n";
    let entries = parse_bcdedit(output).unwrap();
    assert_eq!(entries.len(), 1);
    assert_eq!(entries[0].id, "{12345678-1234-1234-1234-123456789abc}");
    assert_eq!(entries[0].name, "Ubuntu 24.04");
    assert_eq!(entries[0].path.as_deref(), Some("\\EFI\\ubuntu\\grubx64.efi"));
}
