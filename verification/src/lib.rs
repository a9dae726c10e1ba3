//! Per-application keyboard-layout switching, verified.
//!
//! The crate models the data a layout switcher works on: a configuration
//! document mapping process executable names to language tags, the decision
//! state of the background watcher that applies a configured language when
//! the foreground process changes, and the program lister shown by the GUI.
//! Strings are modeled throughout by their UTF-8 byte sequences
//! (`encode_utf8` of the character view), so that case-insensitive matching
//! and the persisted document format can be stated exactly.

pub mod codec;
pub mod config;
pub mod lister;
pub mod text;
pub mod watcher;
