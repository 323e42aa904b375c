//! Capture a directory's structure as a named preset, materialize it elsewhere
//! through symbolic links, and keep a registry of where each preset was linked.
//!
//! The library does no filesystem work: the caller reads the store and walks
//! directories, hands the library what it found, and carries out and persists
//! what the library decides.

pub mod builder;
pub mod manager;
pub mod paths;
pub mod pattern;
pub mod preset;
pub mod registry;

pub use builder::{EntryKind, FoundEntry, LinkStep, SymlinkBuilder};
pub use manager::{PresetManager, StoreError};
pub use paths::{join_path, preset_name_from_file, text_less, SortedNames};
pub use pattern::{filter_entries, is_included};
pub use preset::{LinkRecord, LinksRegistry, Preset, PresetDocument, PresetEntry};
pub use registry::contains_text;
