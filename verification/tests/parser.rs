use bootpilot::models::BootEntryType;
use bootpilot::parser::{
    efibootmgr_output_sliceable, parse_bcdedit, parse_bcdedit_boot_state, parse_efibootmgr,
    valid_linux_id, valid_windows_id,
};

#[test]
fn parses_english_bcdedit_entries() {
    let output = "Firmware Application\n---------------------\nidentifier              {12345678-1234-1234-1234-123456789abc}\ndescription             ubuntu\npath                    \\EFI\\ubuntu\\shimx64.efi\n";
    let entries = parse_bcdedit(output).unwrap();
    assert_eq!(entries[0].id, "{12345678-1234-1234-1234-123456789abc}");
    assert_eq!(
        entries[0].path.as_deref(),
        Some("\\EFI\\ubuntu\\shimx64.efi")
    );
}

#[test]
fn parses_chinese_bcdedit_fields() {
    let output = "固件应用程序\n---------------------\n标识符                  {abcdefab-cdef-abcd-efab-cdefabcdefab}\n说明                    Debian\n路径                    \\EFI\\debian\\shimx64.efi\n";
    let entries = parse_bcdedit(output).unwrap();
    assert_eq!(entries[0].name, "Debian");
    assert!(matches!(entries[0].entry_type, BootEntryType::Linux));
}

#[test]
fn parses_efibootmgr_state_and_paths() {
    let output = "BootCurrent: 0001\nBootNext: 0000\nBootOrder: 0001,0000,0003\nBoot0000* Windows Boot Manager HD(1,GPT)/File(\\EFI\\Microsoft\\Boot\\bootmgfw.efi)\nBoot0001* ubuntu HD(1,GPT)/File(\\EFI\\ubuntu\\shimx64.efi)\nBoot0003  old unknown\n";
    let (current, next, order, entries) = parse_efibootmgr(output).unwrap();
    assert_eq!(current.as_deref(), Some("0001"));
    assert_eq!(next.as_deref(), Some("0000"));
    assert_eq!(order, vec!["0001", "0000", "0003"]);
    assert_eq!(
        entries[0].path.as_deref(),
        Some("\\EFI\\Microsoft\\Boot\\bootmgfw.efi")
    );
    assert!(entries[2].suspected_invalid);
}

#[test]
fn rejects_empty_or_invalid_ids() {
    assert!(parse_efibootmgr("").is_err());
    assert!(!valid_linux_id("00000"));
    assert!(!valid_windows_id("{not-a-guid}"));
}

#[test]
fn keeps_ascii_identifiers_when_field_labels_are_unreadable() {
    let output = "Firmware Application\n---------------------\n????                  {abcdefab-cdef-abcd-efab-cdefabcdefab}\n????                  \\EFI\\ubuntu\\shimx64.efi\n";
    let entries = parse_bcdedit(output).unwrap();
    assert_eq!(entries[0].id, "{abcdefab-cdef-abcd-efab-cdefabcdefab}");
    assert_eq!(
        entries[0].path.as_deref(),
        Some("\\EFI\\ubuntu\\shimx64.efi")
    );
}

#[test]
fn parses_bcdedit_permanent_order_and_boot_sequence() {
    let output = "Firmware Boot Manager\nidentifier {fwbootmgr}\ndisplayorder {abcdefab-cdef-abcd-efab-cdefabcdefab}\n            {bootmgr}\nbootsequence {abcdefab-cdef-abcd-efab-cdefabcdefab}\n";
    let (order, next) = parse_bcdedit_boot_state(output);
    assert_eq!(
        order,
        vec!["{abcdefab-cdef-abcd-efab-cdefabcdefab}", "{bootmgr}"]
    );
    assert_eq!(
        next.as_deref(),
        Some("{abcdefab-cdef-abcd-efab-cdefabcdefab}")
    );
}
