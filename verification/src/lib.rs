//! File search and duplicate detection: the decisions, parsers and formatters
//! of the `fsearch` tool, with their contracts.

pub mod text;
pub mod digest;
pub mod duplicates;
pub mod pathorder;
pub mod error;
pub mod pattern;
pub mod binary;
pub mod searcher;
pub mod config;
pub mod cli;
pub mod colors;
pub mod output;
