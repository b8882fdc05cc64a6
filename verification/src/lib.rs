//! Verified core of a language server for Dart `pubspec.yaml` files.
pub mod document;
pub mod lsp;
pub mod text;
pub mod sort_section;
pub mod context;
pub mod versions;
pub mod yaml;
pub mod pubspec;
pub mod pubdev;
pub mod diagnostics;
pub mod completions;
pub mod actions;
pub mod hover;
pub mod server;
pub mod extension;
pub mod sort_laws;
