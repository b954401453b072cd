//! The logic of an ontology tool.
pub mod calendar;
pub mod commands;
pub mod config;
pub mod digest;
pub mod json;
pub mod json_laws;
pub mod markdown;
pub mod markdown_laws;
pub mod number;
pub mod order;
pub mod pattern;
pub mod table;
pub mod text;
pub mod text_laws;
