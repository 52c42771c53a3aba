//! A line-oriented text search: the lines of a text that contain a search term,
//! with or without regard to case.
//!
//! [`grep`] and [`grep_case_insensitive`] are the two searches, and [`run`]
//! makes the one that a [`Config`] asks for. What they find is stated over the
//! characters of the term and of the text, by `search::matching_lines`; the
//! search itself goes over their UTF-8 bytes.

pub mod case;
pub mod config;
mod encoding;
pub mod lines;
pub mod search;
pub mod substring;

pub use config::{Config, MissingArgument};
pub use search::{grep, grep_case_insensitive, run};
