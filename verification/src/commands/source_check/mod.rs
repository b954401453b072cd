//! Checks what the nodes cite against the web.
//!
//! The pass over the cited pages never fetches anything itself: it goes on
//! over what has been fetched and says what it needs next.

pub mod answers;
pub mod check;
pub mod clock;
pub mod fixes;
pub mod laws;
pub mod outcomes;
pub mod pages;
pub mod pass;
pub mod quotes;
pub mod remedies;
pub mod search;
pub mod snapshots;
pub mod term;
pub mod urls;
pub mod verdicts;
pub mod web;

pub use check::{check, Checked};
pub use clock::{rfc3339_from_unix, rfc3339_now};
pub use quotes::{html_to_text, match_quote, normalise};
pub use snapshots::{
    DEFAULT_ARCHIVE_AROUND, DEFAULT_ARCHIVE_WEB, DEFAULT_CDX, DEFAULT_WAYBACK,
};
pub use web::SourceOptions;
