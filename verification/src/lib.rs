//! Reads the metadata block at the head of a text document, repairs the most
//! common authoring mistake in it, and answers queries over many documents.
//!
//! - `text`: texts as sequences of characters, and the operations on them.
//! - `string_map`: a map from strings to values that keeps its keys in order.
//! - `yaml_compat`: structured values, what can be asked of one, and the
//!   strict parse of a block.
//! - `frontmatter`: the block of a document, its repair, and documents.
//! - `filter`: predicates over documents, the fields and the values of a field.
//! - `statistics`: counts by field and by value.
//! - `logger`: the record of warnings and failures, and its summary.
//! - `scanner`: what a batch of candidates gives.

pub mod filter;
pub mod frontmatter;
pub mod logger;
pub mod scanner;
pub mod statistics;
pub mod string_map;
pub mod text;
pub mod yaml_compat;
