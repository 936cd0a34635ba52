//! Offline document question answering: the verified core of the `coi` tool.
pub mod cli;
pub mod config;
pub mod encoding;
pub mod error;
pub mod handlers;
pub mod formats;
pub mod fqa_store;
pub mod parser;
pub mod paths;
pub mod scanner;
pub mod splitter;
pub mod text;
pub mod vector_store;
