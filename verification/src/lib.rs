//! BootPilot's library: it reads the firmware boot entries out of what
//! `bcdedit` (Windows) and `efibootmgr` (Linux) print, decides what is shown
//! of them, which commands set the next or the default entry, and what the
//! tray menu offers. Running the commands and the user interface are left to
//! the application.
pub mod boot;
pub mod command;
pub mod commands;
pub mod error;
pub mod linux;
pub mod models;
pub mod parser;
pub mod system;
pub mod text;
pub mod tray;
pub mod windows;
