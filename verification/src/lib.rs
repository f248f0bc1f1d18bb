//! The `.list` data language: a text format of nested arrays, strings and
//! key/value pairs, a document model with a small command language, and a
//! compressed binary framing for saved documents.

pub mod text;
pub mod value;
pub mod parser;
pub mod data;
pub mod pattern;
pub mod semantics;
pub mod command;
pub mod binary;
pub mod rust_api;
pub mod ide;
pub mod session;
pub mod c_ffi;
pub mod combine;
pub mod laws;
pub mod command_laws;
pub mod reparse;
