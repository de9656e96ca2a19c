//! Verified core of App Deleter: the parsing, filtering, matching and
//! bookkeeping that decide what the desktop front end shows and runs.
pub mod text;
pub mod command_line;
pub mod entry;
pub mod catalog;
pub mod data_roots;
pub mod fastsize;
pub mod elevation;
pub mod installer;
pub mod uninstaller;
