//! Verified core of Orgsidian: org-mode text semantics (timestamps, links,
//! TODO keywords, planning-line edits, CLOCK lines), the round-trip
//! serializer, the plugin API, and the pure decision logic of the SQLite
//! index and the desktop shell.
pub mod index;
pub mod plugin;
pub mod semantic;
pub mod serializer;
pub mod shell;
pub mod text;
