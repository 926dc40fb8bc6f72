//! Reads a JSON array of named text records and prepares each record's
//! content for export to its own file, either as a JSON-encoded string
//! (plain mode) or wrapped in a minimal XML envelope (XML mode), while
//! accumulating character and byte statistics.

pub mod chars;
pub mod config;
pub mod error;
pub mod file;
pub mod json;
pub mod parser;
pub mod statistics;
pub mod xml;
