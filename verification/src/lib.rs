//! Builds a dependency diagram of a multi-package project — the module tree
//! of a crate, or the path-local dependencies among workspace members — and
//! renders it as text in one of two diagram languages.

pub mod args;
pub mod diagram;
pub mod errors;
pub mod laws;
pub mod metadata;
pub mod package;
pub mod rustdoc;
pub mod strutil;
pub mod walker;
pub mod workspace;
