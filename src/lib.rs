//! Removable-storage observer: device identity and correlation, connect /
//! disconnect detection, file-tree snapshots, debounced change tracking and
//! an append-only store of devices, activity events and snapshots.
//!
//! Everything here is computation on plain values; reading the USB bus, the
//! disk list, the file system and the database file is left to the caller.

pub mod db;
pub mod detector;
pub mod file_scanner;
pub mod file_watcher;
pub mod identity;
pub mod text;
pub mod usb_monitor;
