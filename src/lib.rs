//! Line-oriented text search: split a text into lines and keep those that
//! contain a query, either exactly or after lowercasing both sides.

pub mod config;
pub mod lines;
pub mod search;
mod slicing;
pub mod text;

pub use config::{Config, MISSING_ARGUMENTS};
pub use search::{search, search_case_insensitive};
