//! The commands of the tool, as functions of what they read.

pub mod audit;
pub mod audit_laws;
pub mod export;
pub mod lint;
pub mod lint_laws;
pub mod pace;
pub mod semantic;
pub mod semantic_laws;
pub mod source_check;
pub mod sources;
pub mod sources_laws;
pub mod sparql;
pub mod toc;
pub mod toc_laws;
pub mod waivers;
