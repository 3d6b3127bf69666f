//! The decisions of the Hella toolchain: syntax tree analyses, module and
//! package resolution, manifests and lock files, and what the command line and
//! the editor support answer.
//!
//! The library takes what was read as plain values and gives back what to do or
//! to write. Files, processes and terminals are the business of its callers.
pub mod ast;
pub mod async_laws;
pub mod async_req;
pub mod cfg;
pub mod cli;
pub mod docs;
pub mod graph;
pub mod interpolation;
pub mod lint;
pub mod lsp;
pub mod manifest;
pub mod modules;
pub mod names;
pub mod parse;
pub mod path_laws;
pub mod path_name_laws;
pub mod paths;
pub mod pkg;
pub mod source;
pub mod text;
pub mod text_laws;
pub mod token;
pub mod tomldoc;
pub mod utf8;
pub mod versions;
