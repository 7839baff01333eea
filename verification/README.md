# BootPilot

A tray application for dual-boot machines: it lists the firmware (UEFI) boot
entries and sets the entry for the next boot, or the default one.

The library in `src/` is written in Verus and verified. It reads the text that
`bcdedit /enum firmware /v` (Windows) and `efibootmgr -v` (Linux) print,
decides what of it is shown, which command arguments set the next or the
default entry, what a command's outcome means, and what the tray menu offers.
Its contracts state these results exactly, over character sequences.

- `text` — character-level text functions (trimming, searching, lines,
  splitting) and their specifications.
- `parser` — the `bcdedit` and `efibootmgr` readers, as folds over the lines.
- `boot` — what is shown of the boot configuration; the manager of a platform.
- `linux`, `windows` — the decisions of each platform's boot manager.
- `command` — command outcomes as plain values.
- `commands`, `tray`, `system` — messages, menu content, system facts.

The application in `app/` runs the commands, reads the system files and
drives the Tauri window and tray; it hands the library plain values.
