//! What the commands decide, from what they read to what they write.
pub mod entry;
pub mod fmt;
pub mod laws;
pub mod link;
pub mod lint_report;
pub mod pipeline;
pub mod scaffold;
