//! Editor support: diagnostics, quick fixes, formatting edits, signature help
//! and auto-import.
pub mod actions;
pub mod auto_import;
pub mod completion_laws;
pub mod diagnostics;
pub mod document;
pub mod fix_laws;
pub mod formatting;
pub mod import_laws;
pub mod laws;
pub mod scan_laws;
pub mod signatures;
