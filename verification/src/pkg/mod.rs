//! Third-party packages (git sources only, no registry): adding, resolving,
//! fetching, pruning and installing.
pub mod add;
pub mod closure;
pub mod edit;
pub mod edit_laws;
pub mod ensure;
pub mod fetch;
pub mod laws;
pub mod prune;
pub mod remote;
pub mod report;
pub mod request_laws;
pub mod source_laws;
pub mod tool;

pub use crate::pkg::add::{parse_add_spec, AddRequest};
pub use crate::pkg::edit::{insert_dep_line, remove_dep_line};
pub use crate::pkg::ensure::EnsureOptions;
pub use crate::pkg::tool::{bin_path, prepare_tool, validate_tool_name, PreparedTool};
