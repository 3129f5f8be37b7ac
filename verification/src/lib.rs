//! ForgeScript language tooling: text scanning, function metadata indexing,
//! parsing, semantic highlighting and editor feature computations.

pub mod text;
pub mod chars;
pub mod position;
pub mod strings;
pub mod config;
pub mod function;
pub mod trie;
pub mod metadata;
pub mod custom;
pub mod cache;
pub mod fetch;
pub mod js;
pub mod parser;
pub mod semantic;
pub mod docs;
pub mod features;
pub mod laws;
