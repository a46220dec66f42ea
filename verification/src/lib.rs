//! Verified core of a small Wayland application launcher: desktop-entry
//! parsing, the case-insensitive search over installed applications, the
//! launcher's state machine, command-line parsing and configuration values.
pub mod text;
pub mod monitor;
pub mod data;
pub mod config;
pub mod daemon;
pub mod app;
pub mod args;
