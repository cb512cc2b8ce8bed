//! Classifies the records of a newline-delimited JSON input by their `type`
//! field, counting records and bytes per category.
pub mod chunker;
pub mod cli;
pub mod json;
pub mod laws;
pub mod lines;
pub mod models;
pub mod printer;
pub mod reader;
