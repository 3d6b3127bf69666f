//! Modules: where they stand on disk, which file an import resolves to, and
//! how a program is expanded with what it imports.
pub mod chain_laws;
pub mod expand;
pub mod gather;
pub mod import_laws;
pub mod laws;
pub mod layout;
pub mod namespace_laws;
pub mod place_laws;
pub mod resolve;
pub mod selection;

pub use crate::modules::expand::{
    expand_imports, expand_imports_with_cfg, Expanded, ImportError, ResolvedImport,
};
pub use crate::modules::layout::{
    dep_bases_for_project, dep_module_root, dep_search_bases, hella_bin_dir, hella_cache_dir,
    hella_home, hella_lib_dir, hella_pkg_dir, pkg_slot_dir, project_root, sanitize_version_segment,
    search_bases,
};
pub use crate::modules::resolve::resolve_import;
